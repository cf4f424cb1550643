//! The image encoder and its header parser.
//!
//! The output is a minimal binary raster: the ASCII header
//! `P6 <width> <height> 255 `, each number in decimal and each separator a
//! single space, followed by three bytes per pixel in row-major order —
//! red, green, blue — drawn from the packed `0x00RRGGBB` word.

use vstd::prelude::*;

use vstd::arithmetic::div_mod::{
    lemma_fundamental_div_mod, lemma_fundamental_div_mod_converse, lemma_mod_bound,
};

use crate::color::{pack_spec, Rgb};

verus! {

/// ASCII space.
pub const SP: u8 = 32;

/// ASCII newline.
pub const NL: u8 = 10;

/// Largest number the header parser accepts for a width, height or
/// maximum channel value.
pub const NUM_LIMIT: u64 = 16777216;

/// An ASCII decimal digit.
pub open spec fn is_digit(b: u8) -> bool {
    48 <= b <= 57
}

/// A separator byte of the header: a space or a newline.
pub open spec fn is_sep(b: u8) -> bool {
    b == SP || b == NL
}

/// The decimal digits of `n`, most significant first, as ASCII bytes.
pub open spec fn dec_spec(n: nat) -> Seq<u8>
    decreases n,
{
    if n < 10 {
        seq![(48 + n) as u8]
    } else {
        dec_spec(n / 10).push((48 + n % 10) as u8)
    }
}

/// Powers of ten.
pub open spec fn pow10(k: nat) -> nat
    decreases k,
{
    if k == 0 {
        1
    } else {
        10 * pow10((k - 1) as nat)
    }
}

/// The header bytes: `P6 `, the width, a space, the height, and ` 255 `.
pub open spec fn header_spec(w: nat, h: nat) -> Seq<u8> {
    seq![80u8, 54u8, SP] + dec_spec(w) + seq![SP] + dec_spec(h) + seq![SP, 50u8, 53u8, 53u8, SP]
}

/// The three payload bytes of one packed pixel word: the second-highest,
/// second-lowest and lowest byte — red, green, blue for a word packed as
/// `0x00RRGGBB`.
pub open spec fn pixel_bytes(p: u32) -> Seq<u8> {
    seq![
        (((p as int) / 65536) % 256) as u8,
        (((p as int) / 256) % 256) as u8,
        ((p as int) % 256) as u8,
    ]
}

/// The raw payload: three bytes for every pixel, in buffer order.
pub open spec fn payload_spec(data: Seq<u32>) -> Seq<u8> {
    Seq::new((data.len() * 3) as nat, |i: int| pixel_bytes(data[i / 3])[i % 3])
}

/// The whole encoded stream: header, then payload, nothing after.
pub open spec fn encode_spec(data: Seq<u32>, w: nat, h: nat) -> Seq<u8> {
    header_spec(w, h) + payload_spec(data)
}

/// The encoder's byte extraction inverts the renderer's packing: the three
/// payload bytes of a packed color are its red, green and blue channels,
/// in that order.
pub proof fn lemma_pixel_bytes_of_packed(c: Rgb)
    ensures
        pixel_bytes(pack_spec(c) as u32) == seq![c.0, c.1, c.2],
{
    let p = pack_spec(c);
    assert(0 <= p <= 0xFFFFFF);
    lemma_fundamental_div_mod_converse(p, 65536, c.0 as int, (c.1 as int) * 256 + (c.2 as int));
    lemma_fundamental_div_mod_converse(p, 256, (c.0 as int) * 256 + (c.1 as int), c.2 as int);
    lemma_fundamental_div_mod_converse(c.0 as int, 256, 0, c.0 as int);
    lemma_fundamental_div_mod_converse(
        (c.0 as int) * 256 + (c.1 as int),
        256,
        c.0 as int,
        c.1 as int,
    );
    assert(pixel_bytes(p as u32) =~= seq![c.0, c.1, c.2]);
}

/// The decimal digits of `n`, most significant first, as ASCII bytes.
pub fn dec_digits(n: usize) -> (out: Vec<u8>)
    ensures
        out@ == dec_spec(n as nat),
    decreases n,
{
    let mut out: Vec<u8>;
    if n < 10 {
        out = Vec::new();
        out.push(48 + (n as u8));
        proof {
            assert(out@ =~= dec_spec(n as nat));
        }
    } else {
        out = dec_digits(n / 10);
        proof {
            lemma_mod_bound(n as int, 10);
        }
        out.push(48 + ((n % 10) as u8));
        proof {
            assert(out@ =~= dec_spec(n as nat));
        }
    }
    out
}

/// Serializes the pixel buffer: the ASCII header carrying the dimensions
/// and the maximum channel value 255, then the three color bytes of every
/// pixel in row-major order.
pub fn encode_ppm(data: &[u32], width: usize, height: usize) -> (out: Vec<u8>)
    requires
        data@.len() == width * height,
        width <= 32768,
        height <= 32768,
    ensures
        out@ == encode_spec(data@, width as nat, height as nat),
{
    let mut out: Vec<u8> = Vec::new();
    out.push(80);
    out.push(54);
    out.push(SP);
    let mut wd = dec_digits(width);
    out.append(&mut wd);
    out.push(SP);
    let mut hd = dec_digits(height);
    out.append(&mut hd);
    out.push(SP);
    out.push(50);
    out.push(53);
    out.push(53);
    out.push(SP);
    proof {
        assert(out@ =~= header_spec(width as nat, height as nat));
        assert(data@.len() * 3 <= 0xC000_0000) by (nonlinear_arith)
            requires
                data@.len() == width * height,
                width <= 32768,
                height <= 32768,
        ;
    }
    let ghost hlen: int = out@.len() as int;
    let mut i: usize = 0;
    while i < data.len()
        invariant
            i <= data@.len(),
            data@.len() * 3 <= 0xC000_0000,
            hlen == header_spec(width as nat, height as nat).len(),
            out@.len() == hlen + 3 * i,
            forall|k: int|
                0 <= k < hlen ==> #[trigger] out@[k] == header_spec(width as nat, height as nat)[k],
            forall|k: int|
                hlen <= k < out@.len() ==> #[trigger] out@[k] == payload_spec(data@)[k - hlen],
        decreases data@.len() - i,
    {
        let p: u32 = data[i];
        proof {
            lemma_fundamental_div_mod_converse(3 * (i as int), 3, i as int, 0);
            lemma_fundamental_div_mod_converse(3 * (i as int) + 1, 3, i as int, 1);
            lemma_fundamental_div_mod_converse(3 * (i as int) + 2, 3, i as int, 2);
        }
        out.push(((p / 65536) % 256) as u8);
        out.push(((p / 256) % 256) as u8);
        out.push((p % 256) as u8);
        i = i + 1;
    }
    proof {
        assert(out@ =~= encode_spec(data@, width as nat, height as nat));
    }
    out
}

/// A greedy decimal scan from position `i` with accumulator `acc`: reads
/// digits until a non-digit or the end, and refuses a value beyond the
/// parser's limit.  Returns the value and the position after the digits.
pub open spec fn scan_num_spec(s: Seq<u8>, i: int, acc: nat) -> Option<(nat, int)>
    decreases s.len() - i,
{
    if i < 0 {
        None
    } else if i >= s.len() {
        Some((acc, i))
    } else if is_digit(s[i]) {
        let acc2 = acc * 10 + ((s[i] - 48) as nat);
        if acc2 > NUM_LIMIT {
            None
        } else {
            scan_num_spec(s, i + 1, acc2)
        }
    } else {
        Some((acc, i))
    }
}

/// What the header parser accepts: `P6`, then the width, the height and
/// the maximum channel value in decimal, each preceded by one separator
/// byte (a space or a newline), and one separator after the last number.
/// Each number must begin with a digit and stay within the parser's limit.
pub open spec fn parse_header_spec(s: Seq<u8>) -> Option<(nat, nat, nat)> {
    if s.len() < 3 || s[0] != 80 || s[1] != 54 || !is_sep(s[2]) {
        None
    } else if s.len() <= 3 || !is_digit(s[3]) {
        None
    } else {
        match scan_num_spec(s, 3, 0) {
            None => None,
            Some((w, i1)) => {
                if i1 >= s.len() || !is_sep(s[i1]) {
                    None
                } else if i1 + 1 >= s.len() || !is_digit(s[i1 + 1]) {
                    None
                } else {
                    match scan_num_spec(s, i1 + 1, 0) {
                        None => None,
                        Some((h, i2)) => {
                            if i2 >= s.len() || !is_sep(s[i2]) {
                                None
                            } else if i2 + 1 >= s.len() || !is_digit(s[i2 + 1]) {
                                None
                            } else {
                                match scan_num_spec(s, i2 + 1, 0) {
                                    None => None,
                                    Some((mv, i3)) => {
                                        if i3 >= s.len() || !is_sep(s[i3]) {
                                            None
                                        } else {
                                            Some((w, h, mv))
                                        }
                                    },
                                }
                            }
                        },
                    }
                }
            },
        }
    }
}

/// Every byte of a decimal rendering is an ASCII digit, and there is at
/// least one.
pub proof fn lemma_dec_digits_are_digits(n: nat)
    ensures
        dec_spec(n).len() >= 1,
        forall|k: int| 0 <= k < dec_spec(n).len() ==> is_digit(#[trigger] dec_spec(n)[k]),
    decreases n,
{
    if n >= 10 {
        lemma_dec_digits_are_digits(n / 10);
        lemma_mod_bound(n as int, 10);
        assert forall|k: int| 0 <= k < dec_spec(n).len() implies is_digit(
            #[trigger] dec_spec(n)[k],
        ) by {
            if k < dec_spec(n / 10).len() {
                assert(dec_spec(n)[k] == dec_spec(n / 10)[k]);
            }
        }
    }
}

/// Scanning the decimal rendering of `n` folds it onto the accumulator:
/// the scan continues after the digits with `acc * pow10(len) + n`.
proof fn lemma_scan_over_digits(s: Seq<u8>, i: int, n: nat, acc: nat)
    requires
        0 <= i,
        i + dec_spec(n).len() <= s.len(),
        forall|k: int| 0 <= k < dec_spec(n).len() ==> s[i + k] == #[trigger] dec_spec(n)[k],
        acc * pow10(dec_spec(n).len()) + n <= NUM_LIMIT,
    ensures
        scan_num_spec(s, i, acc) == scan_num_spec(
            s,
            i + dec_spec(n).len(),
            (acc * pow10(dec_spec(n).len()) + n) as nat,
        ),
    decreases n,
{
    lemma_dec_digits_are_digits(n);
    if n < 10 {
        assert(s[i + 0] == dec_spec(n)[0]);
        assert(pow10(0) == 1);
        assert(pow10(1) == 10);
        assert(scan_num_spec(s, i, acc) == scan_num_spec(s, i + 1, (acc * 10 + n) as nat));
    } else {
        let m = n / 10;
        let d = n % 10;
        lemma_mod_bound(n as int, 10);
        lemma_fundamental_div_mod(n as int, 10);
        let l1 = dec_spec(m).len();
        let l = dec_spec(n).len();
        assert(l == l1 + 1);
        assert(pow10(l) == 10 * pow10(l1));
        let acc1 = acc * pow10(l1) + m;
        assert(acc1 * 10 + d == acc * pow10(l) + n) by (nonlinear_arith)
            requires
                acc1 == acc * pow10(l1) + m,
                pow10(l) == 10 * pow10(l1),
                n == 10 * m + d,
        ;
        assert(acc1 <= acc1 * 10 + d) by (nonlinear_arith)
            requires
                0 <= acc1,
                0 <= d,
        ;
        assert forall|k: int| 0 <= k < dec_spec(m).len() implies s[i + k] == #[trigger] dec_spec(
            m,
        )[k] by {
            assert(dec_spec(n)[k] == dec_spec(m)[k]);
            assert(s[i + k] == dec_spec(n)[k]);
        }
        lemma_scan_over_digits(s, i, m, acc);
        assert(s[i + l1] == dec_spec(n)[l1 as int]);
        assert(dec_spec(n)[l1 as int] == (48 + d) as u8);
        assert(scan_num_spec(s, i + l1, acc1) == scan_num_spec(
            s,
            i + l,
            (acc1 * 10 + d) as nat,
        ));
    }
}

/// The greedy decimal scan, exactly as the specification describes it.
fn scan_num(s: &[u8], i: usize, acc: u64) -> (r: Option<(u64, usize)>)
    requires
        i <= s@.len(),
        acc <= NUM_LIMIT,
    ensures
        r is Some <==> scan_num_spec(s@, i as int, acc as nat) is Some,
        r matches Some(v) ==> scan_num_spec(s@, i as int, acc as nat) == Some(
            (v.0 as nat, v.1 as int),
        ) && v.0 <= NUM_LIMIT && i <= v.1 <= s@.len(),
    decreases s@.len() - i,
{
    if i == s.len() {
        Some((acc, i))
    } else {
        let b: u8 = s[i];
        if 48 <= b && b <= 57 {
            let acc2: u64 = acc * 10 + ((b - 48) as u64);
            if acc2 > NUM_LIMIT {
                None
            } else {
                scan_num(s, i + 1, acc2)
            }
        } else {
            Some((acc, i))
        }
    }
}

/// Reads the header back out of an encoded stream: the width, the height
/// and the maximum channel value, or nothing if the bytes do not begin
/// with a well-formed header.
pub fn parse_ppm_header(bytes: &[u8]) -> (r: Option<(usize, usize, u32)>)
    ensures
        r is Some <==> parse_header_spec(bytes@) is Some,
        r matches Some(t) ==> parse_header_spec(bytes@) == Some(
            (t.0 as nat, t.1 as nat, t.2 as nat),
        ),
{
    if bytes.len() < 3 {
        return None;
    }
    let b0: u8 = bytes[0];
    let b1: u8 = bytes[1];
    let b2: u8 = bytes[2];
    if !(b0 == 80 && b1 == 54 && (b2 == SP || b2 == NL)) {
        return None;
    }
    if bytes.len() <= 3 {
        return None;
    }
    let d0: u8 = bytes[3];
    if !(48 <= d0 && d0 <= 57) {
        return None;
    }
    let (w, i1) = match scan_num(bytes, 3, 0) {
        None => {
            return None;
        },
        Some(v) => v,
    };
    if i1 >= bytes.len() {
        return None;
    }
    let s1: u8 = bytes[i1];
    if !(s1 == SP || s1 == NL) {
        return None;
    }
    if i1 + 1 >= bytes.len() {
        return None;
    }
    let d1: u8 = bytes[i1 + 1];
    if !(48 <= d1 && d1 <= 57) {
        return None;
    }
    let (h, i2) = match scan_num(bytes, i1 + 1, 0) {
        None => {
            return None;
        },
        Some(v) => v,
    };
    if i2 >= bytes.len() {
        return None;
    }
    let s2: u8 = bytes[i2];
    if !(s2 == SP || s2 == NL) {
        return None;
    }
    if i2 + 1 >= bytes.len() {
        return None;
    }
    let d2: u8 = bytes[i2 + 1];
    if !(48 <= d2 && d2 <= 57) {
        return None;
    }
    let (mv, i3) = match scan_num(bytes, i2 + 1, 0) {
        None => {
            return None;
        },
        Some(v) => v,
    };
    if i3 >= bytes.len() {
        return None;
    }
    let s3: u8 = bytes[i3];
    if !(s3 == SP || s3 == NL) {
        return None;
    }
    Some((w as usize, h as usize, mv as u32))
}

/// Round trip: parsing the header of an encoded stream yields exactly the
/// width, the height and the maximum channel value 255 that the encoder
/// wrote, whatever the pixel data.
pub proof fn lemma_header_roundtrip(data: Seq<u32>, w: nat, h: nat)
    requires
        w <= NUM_LIMIT,
        h <= NUM_LIMIT,
    ensures
        parse_header_spec(encode_spec(data, w, h)) == Some((w, h, 255nat)),
{
    let s = encode_spec(data, w, h);
    let hs = header_spec(w, h);
    let dw = dec_spec(w);
    let dh = dec_spec(h);
    lemma_dec_digits_are_digits(w);
    lemma_dec_digits_are_digits(h);
    let lw = dw.len() as int;
    let lh = dh.len() as int;
    assert(hs.len() == 9 + lw + lh);
    assert(forall|k: int| 0 <= k < hs.len() ==> s[k] == #[trigger] hs[k]);
    assert(s[0] == 80 && s[1] == 54 && s[2] == SP);
    assert(forall|k: int| 0 <= k < lw ==> s[3 + k] == #[trigger] dw[k]);
    assert(s[3 + lw] == SP);
    assert(forall|k: int| 0 <= k < lh ==> s[4 + lw + k] == #[trigger] dh[k]);
    assert(s[4 + lw + lh] == SP);
    assert(s[5 + lw + lh] == 50u8);
    assert(s[6 + lw + lh] == 53u8);
    assert(s[7 + lw + lh] == 53u8);
    assert(s[8 + lw + lh] == SP);

    assert(is_digit(s[3]));
    assert(0 * pow10(dw.len()) + w <= NUM_LIMIT);
    lemma_scan_over_digits(s, 3, w, 0);
    assert(scan_num_spec(s, 3 + lw, w) == Some((w, 3 + lw))) by {
        assert(!is_digit(s[3 + lw]));
    }
    assert(scan_num_spec(s, 3, 0) == Some((w, 3 + lw)));

    assert(is_sep(s[3 + lw]));
    assert(is_digit(s[4 + lw])) by {
        assert(s[4 + lw + 0] == dh[0]);
    }
    assert(0 * pow10(dh.len()) + h <= NUM_LIMIT);
    lemma_scan_over_digits(s, 4 + lw, h, 0);
    assert(scan_num_spec(s, 4 + lw + lh, h) == Some((h, 4 + lw + lh))) by {
        assert(!is_digit(s[4 + lw + lh]));
    }
    assert(scan_num_spec(s, 4 + lw, 0) == Some((h, 4 + lw + lh)));

    assert(is_sep(s[4 + lw + lh]));
    assert(dec_spec(2) =~= seq![50u8]);
    assert(dec_spec(25) =~= dec_spec(2).push(53u8));
    assert(dec_spec(255) =~= dec_spec(25).push(53u8));
    assert(dec_spec(255) =~= seq![50u8, 53u8, 53u8]);
    assert(is_digit(s[5 + lw + lh]));
    assert forall|k: int| 0 <= k < dec_spec(255nat).len() implies s[5 + lw + lh + k]
        == #[trigger] dec_spec(255nat)[k] by {
        assert(dec_spec(255nat)[k] == seq![50u8, 53u8, 53u8][k]);
    }
    assert(pow10(3) == 1000) by {
        assert(pow10(0) == 1);
        assert(pow10(1) == 10);
        assert(pow10(2) == 100);
    }
    assert(0 * pow10(dec_spec(255nat).len()) + 255 <= NUM_LIMIT);
    lemma_scan_over_digits(s, 5 + lw + lh, 255, 0);
    assert(scan_num_spec(s, 8 + lw + lh, 255nat) == Some((255nat, 8 + lw + lh))) by {
        assert(!is_digit(s[8 + lw + lh]));
    }
    assert(scan_num_spec(s, 5 + lw + lh, 0) == Some((255nat, 8 + lw + lh)));
    assert(is_sep(s[8 + lw + lh]));
    assert(8 + lw + lh < s.len());
}

} // verus!
