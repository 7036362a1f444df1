//! The image codec: serializes a pixel store to the binary PPM (P6) byte
//! format — a textual `P6\n<width> <height>\n255\n` header followed by
//! three raw bytes (R, G, B) per pixel, row-major, top row first — and
//! reads such a header back. Writing the bytes to a file is the caller's
//! business; rows can be encoded one at a time to bound peak memory.
use vstd::prelude::*;

verus! {

use vstd::arithmetic::div_mod::lemma_fundamental_div_mod;
use crate::canvas::{blue_of, green_of, red_of};

/// The shortest decimal digit string of `n`, as ASCII bytes.
pub open spec fn dec_digits(n: nat) -> Seq<u8>
    decreases n,
{
    if n < 10 {
        seq![(48 + n) as u8]
    } else {
        dec_digits(n / 10).push((48 + n % 10) as u8)
    }
}

/// The header bytes for a `width` by `height` image:
/// `P6\n<width> <height>\n255\n`.
pub open spec fn header_bytes(width: nat, height: nat) -> Seq<u8> {
    seq![80u8, 54u8, 10u8] + dec_digits(width) + seq![32u8] + dec_digits(height) + seq![10u8]
        + seq![50u8, 53u8, 53u8, 10u8]
}

/// The three bytes a pixel contributes to the body: its channels, R first.
pub open spec fn pixel_bytes(p: u32) -> Seq<u8> {
    seq![red_of(p), green_of(p), blue_of(p)]
}

/// The body bytes of a pixel sequence: three bytes per pixel, in order.
pub open spec fn body_bytes(pixels: Seq<u32>) -> Seq<u8>
    decreases pixels.len(),
{
    if pixels.len() == 0 {
        Seq::empty()
    } else {
        body_bytes(pixels.drop_last()) + pixel_bytes(pixels.last())
    }
}

/// The body holds exactly three bytes per pixel.
pub proof fn lemma_body_bytes_len(pixels: Seq<u32>)
    ensures
        body_bytes(pixels).len() == 3 * pixels.len(),
    decreases pixels.len(),
{
    if pixels.len() > 0 {
        lemma_body_bytes_len(pixels.drop_last());
    }
}

/// Appends the decimal digits of `n` to `out`.
fn push_dec(out: &mut Vec<u8>, n: usize)
    ensures
        final(out)@ == old(out)@ + dec_digits(n as nat),
    decreases n,
{
    if n >= 10 {
        push_dec(out, n / 10);
    }
    let digit: u8 = 48 + (n % 10) as u8;
    out.push(digit);
    proof {
        assert(out@ =~= old(out)@ + dec_digits(n as nat));
    }
}

/// Encodes the header for a `width` by `height` image.
pub fn encode_header(width: usize, height: usize) -> (r: Vec<u8>)
    ensures
        r@ == header_bytes(width as nat, height as nat),
{
    let mut out: Vec<u8> = Vec::new();
    out.push(80);
    out.push(54);
    out.push(10);
    push_dec(&mut out, width);
    out.push(32);
    push_dec(&mut out, height);
    out.push(10);
    out.push(50);
    out.push(53);
    out.push(53);
    out.push(10);
    proof {
        assert(out@ =~= header_bytes(width as nat, height as nat));
    }
    out
}

/// Appends the three body bytes of `p` to `out`.
fn push_pixel(out: &mut Vec<u8>, p: u32)
    ensures
        final(out)@ == old(out)@ + pixel_bytes(p),
{
    proof {
        assert(((p >> 16) & 0xFF) <= 0xFF) by (bit_vector);
        assert(((p >> 8) & 0xFF) <= 0xFF) by (bit_vector);
        assert((p & 0xFF) <= 0xFF) by (bit_vector);
    }
    out.push(((p >> 16) & 0xFF) as u8);
    out.push(((p >> 8) & 0xFF) as u8);
    out.push((p & 0xFF) as u8);
    proof {
        assert(out@ =~= old(out)@ + pixel_bytes(p));
    }
}

/// Encodes one row of the body: the three channel bytes of each pixel of
/// row `row`, in column order.
pub fn encode_row(pixels: &Vec<u32>, width: usize, height: usize, row: usize) -> (r: Vec<u8>)
    requires
        pixels@.len() == width * height,
        row < height,
    ensures
        r@ == body_bytes(pixels@.subrange((row * width) as int, (row * width + width) as int)),
        r@.len() == 3 * width,
{
    proof {
        assert(row * width + width <= height * width) by (nonlinear_arith)
            requires
                row < height,
                0 <= width,
        ;
        assert(0 <= row * width) by (nonlinear_arith)
            requires
                0 <= row,
                0 <= width,
        ;
    }
    // The store's length, a usize, bounds the index arithmetic below.
    let len: usize = pixels.len();
    let start: usize = row * width;
    let mut out: Vec<u8> = Vec::new();
    let mut x: usize = 0;
    while x < width
        invariant
            x <= width,
            out@ == body_bytes(pixels@.subrange(start as int, start as int + x)),
        decreases width - x,
    {
        let ghost prefix = pixels@.subrange(start as int, start as int + x);
        push_pixel(&mut out, pixels[start + x]);
        proof {
            let next = pixels@.subrange(start as int, start as int + x + 1);
            assert(next.drop_last() =~= prefix);
            assert(next.last() == pixels@[start + x]);
        }
        x = x + 1;
    }
    proof {
        lemma_body_bytes_len(pixels@.subrange(start as int, (start + width) as int));
    }
    out
}

/// Encodes the whole image: the header, then the body bytes of every pixel
/// in row-major order, top row first. The result holds exactly
/// `header_bytes(width, height).len() + 3 * width * height` bytes.
pub fn encode_image(pixels: &Vec<u32>, width: usize, height: usize) -> (r: Vec<u8>)
    requires
        pixels@.len() == width * height,
    ensures
        r@ == header_bytes(width as nat, height as nat) + body_bytes(pixels@),
        r@.len() == header_bytes(width as nat, height as nat).len() + 3 * (width * height),
{
    let mut out: Vec<u8> = encode_header(width, height);
    let n: usize = pixels.len();
    let mut p: usize = 0;
    while p < n
        invariant
            p <= n,
            n == pixels@.len(),
            out@ == header_bytes(width as nat, height as nat) + body_bytes(
                pixels@.subrange(0, p as int),
            ),
        decreases n - p,
    {
        let ghost prefix = pixels@.subrange(0, p as int);
        push_pixel(&mut out, pixels[p]);
        proof {
            let next = pixels@.subrange(0, p as int + 1);
            assert(next.drop_last() =~= prefix);
            assert(next.last() == pixels@[p as int]);
            assert(out@ =~= header_bytes(width as nat, height as nat) + body_bytes(next));
        }
        p = p + 1;
    }
    proof {
        assert(pixels@.subrange(0, n as int) =~= pixels@);
        lemma_body_bytes_len(pixels@);
    }
    out
}

pub open spec fn is_dec_digit(b: u8) -> bool {
    48 <= b && b <= 57
}

/// Reads the digit run starting at `i`, folding its digits onto `acc`:
/// yields the folded value and the index of the first byte past the run.
pub open spec fn scan_dec(s: Seq<u8>, i: int, acc: nat) -> (nat, int)
    decreases s.len() - i,
{
    if 0 <= i < s.len() && is_dec_digit(s[i]) {
        scan_dec(s, i + 1, (acc * 10 + (s[i] - 48)) as nat)
    } else {
        (acc, i)
    }
}

/// What `decode_header` reads, over unbounded integers: `None` unless the
/// bytes open with `P6\n`, a digit run, one space, a digit run, and
/// `\n255\n`; otherwise the two values and the index just past the header.
pub open spec fn parse_header(s: Seq<u8>) -> Option<(nat, nat, int)> {
    if s.len() < 4 || s[0] != 80 || s[1] != 54 || s[2] != 10 || !is_dec_digit(s[3]) {
        None
    } else {
        let (w, i) = scan_dec(s, 3, 0);
        if i >= s.len() || s[i] != 32 || i + 1 >= s.len() || !is_dec_digit(s[i + 1]) {
            None
        } else {
            let (h, j) = scan_dec(s, i + 1, 0);
            if j + 5 > s.len() || s[j] != 10 || s[j + 1] != 50 || s[j + 2] != 53 || s[j + 3] != 53
                || s[j + 4] != 10 {
                None
            } else {
                Some((w, h, j + 5))
            }
        }
    }
}

pub open spec fn pow10(k: nat) -> nat
    decreases k,
{
    if k == 0 {
        1
    } else {
        10 * pow10((k - 1) as nat)
    }
}

/// A digit string is never empty and holds digit bytes only.
proof fn lemma_dec_digits_digits(n: nat)
    ensures
        dec_digits(n).len() >= 1,
        forall|k: int| 0 <= k < dec_digits(n).len() ==> is_dec_digit(#[trigger] dec_digits(n)[k]),
    decreases n,
{
    if n >= 10 {
        lemma_dec_digits_digits(n / 10);
    }
}

/// A scan's value only grows past its accumulator, and its end stays
/// within the bytes.
proof fn lemma_scan_bounds(s: Seq<u8>, i: int, acc: nat)
    requires
        0 <= i <= s.len(),
    ensures
        scan_dec(s, i, acc).0 >= acc,
        i <= scan_dec(s, i, acc).1 <= s.len(),
    decreases s.len() - i,
{
    if 0 <= i < s.len() && is_dec_digit(s[i]) {
        lemma_scan_bounds(s, i + 1, (acc * 10 + (s[i] - 48)) as nat);
    }
}

/// Scanning across the digit string of `n` folds exactly `n` onto the
/// accumulator and continues right past it.
proof fn lemma_scan_dec_digits(s: Seq<u8>, i: int, acc: nat, n: nat)
    requires
        0 <= i,
        i + dec_digits(n).len() <= s.len(),
        s.subrange(i, i + dec_digits(n).len() as int) == dec_digits(n),
    ensures
        scan_dec(s, i, acc) == scan_dec(
            s,
            i + dec_digits(n).len() as int,
            (acc * pow10(dec_digits(n).len() as nat) + n) as nat,
        ),
    decreases n,
{
    let d = dec_digits(n);
    let l = d.len() as int;
    if n < 10 {
        assert(s[i] == d[0]);
        assert(s[i] == (48 + n) as u8);
        assert(scan_dec(s, i, acc) == scan_dec(s, i + 1, (acc * 10 + n) as nat));
        assert(pow10(0) == 1);
        assert(pow10(1) == 10);
    } else {
        let dp = dec_digits(n / 10);
        let lp = dp.len() as int;
        assert(d == dp.push((48 + n % 10) as u8));
        assert(s.subrange(i, i + lp) =~= dp) by {
            assert(forall|k: int| 0 <= k < lp ==> s[i + k] == d[k] && d[k] == dp[k]);
        }
        lemma_scan_dec_digits(s, i, acc, n / 10);
        let mid = (acc * pow10(lp as nat) + n / 10) as nat;
        assert(s[i + lp] == d[lp]);
        assert(d[lp] == (48 + n % 10) as u8);
        assert(scan_dec(s, i + lp, mid) == scan_dec(s, i + lp + 1, (mid * 10 + n % 10) as nat));
        assert(mid * 10 + n % 10 == acc * pow10(l as nat) + n) by {
            lemma_fundamental_div_mod(n as int, 10);
            assert(pow10(l as nat) == 10 * pow10(lp as nat));
            assert((acc * pow10(lp as nat) + n / 10) * 10 == acc * (10 * pow10(lp as nat)) + (n
                / 10) * 10) by (nonlinear_arith);
        }
    }
}

/// Reads the digit run that starts at `i`, folding onto `acc` as
/// `scan_dec` does; `None` when the folded value cannot fit in `usize`.
fn scan_dec_run(bytes: &Vec<u8>, i: usize, acc: usize) -> (r: Option<(usize, usize)>)
    requires
        i <= bytes@.len(),
    ensures
        scan_dec(bytes@, i as int, acc as nat).0 <= usize::MAX ==> r == Some(
            (
                scan_dec(bytes@, i as int, acc as nat).0 as usize,
                scan_dec(bytes@, i as int, acc as nat).1 as usize,
            ),
        ),
        scan_dec(bytes@, i as int, acc as nat).0 > usize::MAX ==> r is None,
    decreases bytes@.len() - i,
{
    if i < bytes.len() {
        let b = bytes[i];
        if 48 <= b && b <= 57 {
            let d: usize = (b - 48) as usize;
            if acc > (usize::MAX - d) / 10 {
                proof {
                    lemma_fundamental_div_mod(usize::MAX - d, 10);
                    lemma_scan_bounds(bytes@, i as int + 1, (acc * 10 + d) as nat);
                }
                return None;
            }
            proof {
                lemma_fundamental_div_mod(usize::MAX - d, 10);
            }
            return scan_dec_run(bytes, i + 1, acc * 10 + d);
        }
    }
    Some((acc, i))
}

/// Reads a PPM header from the front of `bytes`: `Some((width, height,
/// header_len))` exactly when `parse_header` accepts the bytes and both
/// values fit in `usize`.
pub fn decode_header(bytes: &Vec<u8>) -> (r: Option<(usize, usize, usize)>)
    ensures
        parse_header(bytes@) is None ==> r is None,
        parse_header(bytes@) matches Some((w, h, e)) ==> {
            &&& w <= usize::MAX && h <= usize::MAX ==> r == Some(
                (w as usize, h as usize, e as usize),
            )
            &&& w > usize::MAX || h > usize::MAX ==> r is None
        },
{
    let n = bytes.len();
    if n < 4 {
        return None;
    }
    if bytes[0] != 80 || bytes[1] != 54 || bytes[2] != 10 {
        return None;
    }
    let b3 = bytes[3];
    if !(48 <= b3 && b3 <= 57) {
        return None;
    }
    proof {
        lemma_scan_bounds(bytes@, 3, 0);
    }
    let (w, i) = match scan_dec_run(bytes, 3, 0) {
        None => { return None; },
        Some(p) => p,
    };
    if i >= n {
        return None;
    }
    if bytes[i] != 32 {
        return None;
    }
    if i + 1 >= n {
        return None;
    }
    let bi = bytes[i + 1];
    if !(48 <= bi && bi <= 57) {
        return None;
    }
    proof {
        lemma_scan_bounds(bytes@, i as int + 1, 0);
    }
    let (h, j) = match scan_dec_run(bytes, i + 1, 0) {
        None => { return None; },
        Some(p) => p,
    };
    if n - j < 5 {
        return None;
    }
    if bytes[j] != 10 || bytes[j + 1] != 50 || bytes[j + 2] != 53 || bytes[j + 3] != 53 || bytes[j
        + 4] != 10 {
        return None;
    }
    Some((w, h, j + 5))
}

/// Decoding recovers what was encoded: the header parse of
/// `header_bytes(w, h)` followed by any bytes at all succeeds with exactly
/// `w`, `h`, and the header's length.
pub proof fn lemma_header_round_trip(w: nat, h: nat, rest: Seq<u8>)
    ensures
        parse_header(header_bytes(w, h) + rest) == Some(
            (w, h, header_bytes(w, h).len() as int),
        ),
{
    let s = header_bytes(w, h) + rest;
    let dw = dec_digits(w);
    let dh = dec_digits(h);
    let lw = dw.len() as int;
    let lh = dh.len() as int;
    lemma_dec_digits_digits(w);
    lemma_dec_digits_digits(h);
    assert(s.len() == 9 + lw + lh + rest.len());
    assert(s[0] == 80 && s[1] == 54 && s[2] == 10);
    assert(forall|k: int| 0 <= k < lw ==> s[3 + k] == dw[k]);
    assert(s.subrange(3, 3 + lw) =~= dw);
    assert(s[3] == dw[0]);
    lemma_scan_dec_digits(s, 3, 0, w);
    assert(s[3 + lw] == 32u8);
    assert(scan_dec(s, 3, 0) == (w, 3 + lw)) by {
        assert(0 * pow10(lw as nat) + w == w);
        assert(scan_dec(s, 3 + lw, w) == (w, 3 + lw));
    }
    let i = 3 + lw;
    assert(forall|k: int| 0 <= k < lh ==> s[i + 1 + k] == dh[k]);
    assert(s.subrange(i + 1, i + 1 + lh) =~= dh);
    assert(s[i + 1] == dh[0]);
    lemma_scan_dec_digits(s, i + 1, 0, h);
    let j = i + 1 + lh;
    assert(s[j] == 10u8);
    assert(scan_dec(s, i + 1, 0) == (h, j)) by {
        assert(0 * pow10(lh as nat) + h == h);
        assert(scan_dec(s, j, h) == (h, j));
    }
    assert(s[j + 1] == 50u8 && s[j + 2] == 53u8 && s[j + 3] == 53u8 && s[j + 4] == 10u8);
    assert(j + 5 == header_bytes(w, h).len());
}

} // verus!
