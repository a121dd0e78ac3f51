//! The ASCII pixel-dump image format: a magic token, the resolution, the
//! maximum channel value, then one `"r g b"` line per pixel.
//!
//! The encoder produces the byte text of a frame; the decoder parses such
//! text back.  Decoding an encoded frame yields the frame again, which is
//! proved below (`lemma_ppm_round_trip`).

use vstd::prelude::*;
use vstd::arithmetic::div_mod::lemma_fundamental_div_mod;

verus! {

/// Largest width or height the decoder accepts.
pub const MAX_DIMENSION: i64 = 0x7fff_ffff;

/// An ASCII decimal digit.
pub open spec fn is_digit(b: u8) -> bool {
    48 <= b <= 57
}

/// The decimal digits of `n`, most significant first.
pub open spec fn dec_digits(n: int) -> Seq<u8>
    decreases n,
{
    if n < 10 {
        seq![(48 + if n < 0 { 0 } else { n }) as u8]
    } else {
        dec_digits(n / 10).push((48 + n % 10) as u8)
    }
}

/// The number a digit sequence denotes.
pub open spec fn dec_value(s: Seq<u8>) -> int
    decreases s.len(),
{
    if s.len() == 0 {
        0
    } else {
        10 * dec_value(s.drop_last()) + (s.last() - 48)
    }
}

/// Every byte of `s` is a digit.
pub open spec fn all_digits(s: Seq<u8>) -> bool {
    forall|i: int| 0 <= i < s.len() ==> is_digit(#[trigger] s[i])
}

/// The text of one pixel: the three channel values separated by blanks,
/// closed by a newline.
pub open spec fn line_of(px: (u8, u8, u8)) -> Seq<u8> {
    dec_digits(px.0 as int) + seq![32u8] + dec_digits(px.1 as int) + seq![32u8]
        + dec_digits(px.2 as int) + seq![10u8]
}

/// The text of a pixel sequence: its lines in order.
pub open spec fn pixels_text(ps: Seq<(u8, u8, u8)>) -> Seq<u8>
    decreases ps.len(),
{
    if ps.len() == 0 {
        Seq::empty()
    } else {
        line_of(ps[0]) + pixels_text(ps.skip(1))
    }
}

/// The whole image text: magic token, resolution line, maximum channel
/// value, then the pixel lines.
pub open spec fn ppm_text(width: int, height: int, max: int, ps: Seq<(u8, u8, u8)>) -> Seq<u8> {
    seq![80u8, 51u8, 10u8] + dec_digits(width) + seq![32u8] + dec_digits(height) + seq![10u8]
        + dec_digits(max) + seq![10u8] + pixels_text(ps)
}

/// The end of the digit run that starts at `pos`.
pub open spec fn skip_digits(s: Seq<u8>, pos: int) -> int
    decreases s.len() - pos when pos <= s.len()
{
    if pos < s.len() && is_digit(s[pos]) {
        skip_digits(s, pos + 1)
    } else {
        pos
    }
}

/// The number whose digit run starts at `pos`.
pub open spec fn num_at(s: Seq<u8>, pos: int) -> int {
    dec_value(s.subrange(pos, skip_digits(s, pos)))
}

/// Decode the pixel lines from `pos` to the end of the text.
pub open spec fn decode_pixels(s: Seq<u8>, pos: int) -> Option<Seq<(u8, u8, u8)>>
    decreases s.len() - pos when 0 <= pos <= s.len()
{
    if pos >= s.len() {
        Some(Seq::empty())
    } else {
        let p1 = skip_digits(s, pos);
        let q2 = p1 + 1;
        let p2 = skip_digits(s, q2);
        let q3 = p2 + 1;
        let p3 = skip_digits(s, q3);
        if p1 > pos && 0 <= num_at(s, pos) <= 255 && p1 < s.len() && s[p1] == 32 && p2 > q2
            && 0 <= num_at(s, q2) <= 255 && p2 < s.len() && s[p2] == 32 && p3 > q3
            && 0 <= num_at(s, q3) <= 255 && p3 < s.len() && s[p3] == 10 {
            match decode_pixels(s, p3 + 1) {
                Some(rest) => Some(
                    seq![(num_at(s, pos) as u8, num_at(s, q2) as u8, num_at(s, q3) as u8)] + rest,
                ),
                None => None,
            }
        } else {
            None
        }
    }
}

/// Decode a whole image text: the header, then the pixel lines.
pub open spec fn decode_text(s: Seq<u8>) -> Option<(int, int, int, Seq<(u8, u8, u8)>)> {
    if s.len() >= 3 && s[0] == 80 && s[1] == 51 && s[2] == 10 {
        let p1 = skip_digits(s, 3);
        let q2 = p1 + 1;
        let p2 = skip_digits(s, q2);
        let q3 = p2 + 1;
        let p3 = skip_digits(s, q3);
        if p1 > 3 && 0 <= num_at(s, 3) <= MAX_DIMENSION && p1 < s.len() && s[p1] == 32
            && p2 > q2 && 0 <= num_at(s, q2) <= MAX_DIMENSION && p2 < s.len() && s[p2] == 10
            && p3 > q3 && 0 <= num_at(s, q3) <= 255 && p3 < s.len() && s[p3] == 10 {
            match decode_pixels(s, p3 + 1) {
                Some(ps) => Some((num_at(s, 3), num_at(s, q2), num_at(s, q3), ps)),
                None => None,
            }
        } else {
            None
        }
    } else {
        None
    }
}

/// Division by ten strictly shrinks a number of ten or more.
proof fn lemma_div10_decreases(n: int)
    requires
        10 <= n,
    ensures
        1 <= n / 10 < n,
{
    lemma_fundamental_div_mod(n, 10);
    assert(n / 10 >= 1) by {
        if n / 10 <= 0 {
            assert(10 * (n / 10) <= 0) by (nonlinear_arith)
                requires
                    n / 10 <= 0,
            ;
        }
    }
    assert(n / 10 < n) by {
        assert(10 * (n / 10) >= 2 * (n / 10)) by (nonlinear_arith)
            requires
                n / 10 >= 1,
        ;
    }
}

/// The decimal digits of a nonnegative number: all digits, at least one of
/// them, and they denote the number again.
proof fn lemma_dec_digits_props(n: int)
    requires
        0 <= n,
    ensures
        all_digits(dec_digits(n)),
        dec_digits(n).len() >= 1,
        dec_value(dec_digits(n)) == n,
    decreases n,
{
    if n < 10 {
        let s = dec_digits(n);
        assert(s =~= seq![(48 + n) as u8]);
        assert(s.drop_last() =~= Seq::<u8>::empty());
        assert(dec_value(s.drop_last()) == 0);
        assert(dec_value(s) == 10 * dec_value(s.drop_last()) + (s.last() - 48));
    } else {
        lemma_div10_decreases(n);
        lemma_fundamental_div_mod(n, 10);
        lemma_dec_digits_props(n / 10);
        let d = (48 + n % 10) as u8;
        let s = dec_digits(n);
        assert(s == dec_digits(n / 10).push(d));
        assert(s.drop_last() =~= dec_digits(n / 10));
        assert(s.last() == d);
        assert forall|i: int| 0 <= i < s.len() implies is_digit(#[trigger] s[i]) by {
            if i < s.len() - 1 {
                assert(s[i] == dec_digits(n / 10)[i]);
            }
        }
    }
}

/// `skip_digits` stops exactly at the end of a digit run.
proof fn lemma_skip_digits_run(s: Seq<u8>, pos: int, end: int)
    requires
        0 <= pos <= end <= s.len(),
        forall|k: int| pos <= k < end ==> is_digit(#[trigger] s[k]),
        end == s.len() || !is_digit(s[end]),
    ensures
        skip_digits(s, pos) == end,
    decreases end - pos,
{
    if pos < end {
        lemma_skip_digits_run(s, pos + 1, end);
    }
}

/// A digit run sitting at `pos`, closed by a non-digit, is read back as the
/// number it denotes.
proof fn lemma_num_at_run(s: Seq<u8>, pos: int, n: int)
    requires
        0 <= n,
        0 <= pos,
        pos + dec_digits(n).len() <= s.len(),
        s.subrange(pos, pos + dec_digits(n).len()) == dec_digits(n),
        pos + dec_digits(n).len() == s.len()
            || !is_digit(s[pos + dec_digits(n).len()]),
    ensures
        skip_digits(s, pos) == pos + dec_digits(n).len(),
        num_at(s, pos) == n,
{
    let l = dec_digits(n).len() as int;
    lemma_dec_digits_props(n);
    assert forall|k: int| pos <= k < pos + l implies is_digit(#[trigger] s[k]) by {
        assert(s[k] == s.subrange(pos, pos + l)[k - pos]);
        assert(dec_digits(n)[k - pos] == s.subrange(pos, pos + l)[k - pos]);
    }
    lemma_skip_digits_run(s, pos, pos + l);
}

/// Pixel text concatenates line by line.
proof fn lemma_pixels_text_concat(a: Seq<(u8, u8, u8)>, b: Seq<(u8, u8, u8)>)
    ensures
        pixels_text(a + b) == pixels_text(a) + pixels_text(b),
    decreases a.len(),
{
    if a.len() == 0 {
        assert(a + b =~= b);
        assert(pixels_text(a) + pixels_text(b) =~= pixels_text(b));
    } else {
        assert((a + b).skip(1) =~= a.skip(1) + b);
        lemma_pixels_text_concat(a.skip(1), b);
        assert((a + b)[0] == a[0]);
        assert(pixels_text(a + b) =~= pixels_text(a) + pixels_text(b));
    }
}

/// One more pixel extends the text by one line.
proof fn lemma_pixels_text_take_step(ps: Seq<(u8, u8, u8)>, i: int)
    requires
        0 <= i < ps.len(),
    ensures
        pixels_text(ps.take(i + 1)) == pixels_text(ps.take(i)) + line_of(ps[i]),
{
    assert(ps.take(i + 1) =~= ps.take(i) + seq![ps[i]]);
    lemma_pixels_text_concat(ps.take(i), seq![ps[i]]);
    assert(seq![ps[i]].skip(1) =~= Seq::<(u8, u8, u8)>::empty());
    assert(pixels_text(seq![ps[i]])
        == line_of(seq![ps[i]][0]) + pixels_text(seq![ps[i]].skip(1)));
    assert(pixels_text(Seq::<(u8, u8, u8)>::empty()) == Seq::<u8>::empty());
    assert(pixels_text(seq![ps[i]]) =~= line_of(ps[i]));
}

/// Append the decimal digits of `n` to `out`.
fn push_dec(out: &mut Vec<u8>, n: u64)
    ensures
        final(out)@ == old(out)@ + dec_digits(n as int),
    decreases n,
{
    if n < 10 {
        out.push((48 + n) as u8);
        proof {
            assert(out@ =~= old(out)@ + dec_digits(n as int));
        }
    } else {
        proof {
            lemma_div10_decreases(n as int);
        }
        push_dec(out, n / 10);
        out.push((48 + (n % 10)) as u8);
        proof {
            assert(out@ =~= old(out)@ + dec_digits(n as int));
        }
    }
}

/// Render the frame as the ASCII pixel-dump text: the magic token, the
/// resolution, the maximum channel value, then one line per pixel,
/// row-major.  Writing the bytes out is the caller's business.
pub fn render_ppm_image_ascii(
    height: i64,
    width: i64,
    max_color_value: u8,
    pixels: &Vec<(u8, u8, u8)>,
) -> (out: Vec<u8>)
    requires
        0 <= width <= MAX_DIMENSION,
        0 <= height <= MAX_DIMENSION,
    ensures
        out@ == ppm_text(width as int, height as int, max_color_value as int, pixels@),
{
    let mut out: Vec<u8> = Vec::new();
    out.push(80);
    out.push(51);
    out.push(10);
    push_dec(&mut out, width as u64);
    out.push(32);
    push_dec(&mut out, height as u64);
    out.push(10);
    push_dec(&mut out, max_color_value as u64);
    out.push(10);
    let ghost header = out@;
    proof {
        assert(pixels@.take(0) =~= Seq::<(u8, u8, u8)>::empty());
        assert(out@ =~= header + pixels_text(pixels@.take(0)));
    }
    let mut i: usize = 0;
    while i < pixels.len()
        invariant
            i <= pixels.len(),
            header == seq![80u8, 51u8, 10u8] + dec_digits(width as int) + seq![32u8]
                + dec_digits(height as int) + seq![10u8] + dec_digits(max_color_value as int)
                + seq![10u8],
            out@ == header + pixels_text(pixels@.take(i as int)),
        decreases pixels.len() - i,
    {
        let px = pixels[i];
        push_dec(&mut out, px.0 as u64);
        out.push(32);
        push_dec(&mut out, px.1 as u64);
        out.push(32);
        push_dec(&mut out, px.2 as u64);
        out.push(10);
        proof {
            lemma_pixels_text_take_step(pixels@, i as int);
            assert(out@ =~= header + pixels_text(pixels@.take(i as int + 1)));
        }
        i = i + 1;
    }
    proof {
        assert(pixels@.take(pixels@.len() as int) =~= pixels@);
        assert(out@ =~= ppm_text(width as int, height as int, max_color_value as int, pixels@));
    }
    out
}

/// A digit sequence denotes a nonnegative number.
proof fn lemma_dec_value_nonneg(s: Seq<u8>)
    requires
        all_digits(s),
    ensures
        0 <= dec_value(s),
    decreases s.len(),
{
    if s.len() > 0 {
        assert(all_digits(s.drop_last())) by {
            assert(forall|i: int| 0 <= i < s.len() - 1 ==> s.drop_last()[i] == s[i]);
        }
        lemma_dec_value_nonneg(s.drop_last());
    }
}

/// Scan the digit run at `pos`: the end of the run, and the number it
/// denotes — or `cap + 1` where that number exceeds `cap`.
fn scan_number(data: &Vec<u8>, pos: usize, cap: u64) -> (res: (u64, usize))
    requires
        pos <= data.len(),
        1 <= cap <= 0x7fff_ffff,
    ensures
        res.1 == skip_digits(data@, pos as int),
        pos <= res.1 <= data@.len(),
        0 <= num_at(data@, pos as int),
        num_at(data@, pos as int) <= cap ==> res.0 == num_at(data@, pos as int),
        num_at(data@, pos as int) > cap ==> res.0 == cap + 1,
{
    let mut i: usize = pos;
    let mut v: u64 = 0;
    proof {
        assert(data@.subrange(pos as int, pos as int) =~= Seq::<u8>::empty());
    }
    while i < data.len() && 48 <= data[i] && data[i] <= 57
        invariant
            pos <= i <= data@.len(),
            cap <= 0x7fff_ffff,
            skip_digits(data@, pos as int) == skip_digits(data@, i as int),
            all_digits(data@.subrange(pos as int, i as int)),
            0 <= dec_value(data@.subrange(pos as int, i as int)),
            dec_value(data@.subrange(pos as int, i as int)) <= cap
                ==> v == dec_value(data@.subrange(pos as int, i as int)),
            dec_value(data@.subrange(pos as int, i as int)) > cap ==> v == cap + 1,
            v <= cap + 1,
        decreases data@.len() - i,
    {
        let d = data[i];
        proof {
            let pre = data@.subrange(pos as int, i as int);
            let post = data@.subrange(pos as int, i as int + 1);
            assert(post.drop_last() =~= pre);
            assert(post.last() == d);
            assert(all_digits(post)) by {
                assert(forall|k: int| 0 <= k < post.len() - 1 ==> post[k] == pre[k]);
            }
            assert(dec_value(post) == 10 * dec_value(pre) + (d - 48));
            assert(10 * dec_value(pre) >= dec_value(pre)) by (nonlinear_arith)
                requires
                    0 <= dec_value(pre),
            ;
        }
        if v > cap {
            v = cap + 1;
        } else {
            v = 10 * v + ((d - 48) as u64);
            if v > cap {
                v = cap + 1;
            }
        }
        i = i + 1;
    }
    proof {
        assert(skip_digits(data@, i as int) == i);
        lemma_dec_value_nonneg(data@.subrange(pos as int, i as int));
    }
    (v, i)
}

/// Parse an image text: `None` for anything but a well-formed dump with
/// plausible dimensions, otherwise the width, height, maximum channel value
/// and pixels that the text denotes.
pub fn decode_ppm_image_ascii(data: &Vec<u8>) -> (r: Option<(i64, i64, u8, Vec<(u8, u8, u8)>)>)
    ensures
        (r is None) == (decode_text(data@) is None),
        r matches Some(t) ==> decode_text(data@) matches Some(d) && t.0 == d.0 && t.1 == d.1
            && t.2 == d.2 && t.3@ == d.3,
{
    if !(data.len() >= 3) {
        return None;
    }
    if !(data[0] == 80 && data[1] == 51 && data[2] == 10) {
        return None;
    }
    let (w, p1) = scan_number(data, 3, 0x7fff_ffff);
    if !(p1 > 3 && w <= 0x7fff_ffff && p1 < data.len() && data[p1] == 32) {
        return None;
    }
    let (h, p2) = scan_number(data, p1 + 1, 0x7fff_ffff);
    if !(p2 > p1 + 1 && h <= 0x7fff_ffff && p2 < data.len() && data[p2] == 10) {
        return None;
    }
    let (m, p3) = scan_number(data, p2 + 1, 255);
    if !(p3 > p2 + 1 && m <= 255 && p3 < data.len() && data[p3] == 10) {
        return None;
    }
    let ghost start = p3 as int + 1;
    let mut pos: usize = p3 + 1;
    let mut out: Vec<(u8, u8, u8)> = Vec::new();
    proof {
        assert(decode_pixels(data@, start) == (match decode_pixels(data@, pos as int) {
            Some(rest) => Some(out@ + rest),
            None => None,
        })) by {
            if decode_pixels(data@, start) is Some {
                assert(out@ + decode_pixels(data@, start)->Some_0
                    =~= decode_pixels(data@, start)->Some_0);
            }
        }
    }
    while pos < data.len()
        invariant
            start <= pos as int <= data@.len(),
            0 <= start <= data@.len(),
            decode_pixels(data@, start) == (match decode_pixels(data@, pos as int) {
                Some(rest) => Some(out@ + rest),
                None => None,
            }),
            decode_text(data@) == (match decode_pixels(data@, start) {
                Some(ps) => Some(
                    (num_at(data@, 3), num_at(data@, p1 as int + 1), num_at(data@, p2 as int + 1), ps),
                ),
                None => None::<(int, int, int, Seq<(u8, u8, u8)>)>,
            }),
            w == num_at(data@, 3),
            h == num_at(data@, p1 as int + 1),
            m == num_at(data@, p2 as int + 1),
            m <= 255,
            w <= 0x7fff_ffff,
            h <= 0x7fff_ffff,
        decreases data@.len() - pos,
    {
        let (r1, a1) = scan_number(data, pos, 255);
        if !(a1 > pos && r1 <= 255 && a1 < data.len() && data[a1] == 32) {
            return None;
        }
        let (g1, a2) = scan_number(data, a1 + 1, 255);
        if !(a2 > a1 + 1 && g1 <= 255 && a2 < data.len() && data[a2] == 32) {
            return None;
        }
        let (b1, a3) = scan_number(data, a2 + 1, 255);
        if !(a3 > a2 + 1 && b1 <= 255 && a3 < data.len() && data[a3] == 10) {
            return None;
        }
        let px = (r1 as u8, g1 as u8, b1 as u8);
        proof {
            assert(decode_pixels(data@, pos as int) == (match decode_pixels(
                data@,
                a3 as int + 1,
            ) {
                Some(rest) => Some(seq![px] + rest),
                None => None,
            }));
            if decode_pixels(data@, a3 as int + 1) is Some {
                let rest = decode_pixels(data@, a3 as int + 1)->Some_0;
                assert(out@ + (seq![px] + rest) =~= out@.push(px) + rest);
            }
        }
        out.push(px);
        pos = a3 + 1;
    }
    proof {
        assert(decode_pixels(data@, pos as int) == Some(Seq::<(u8, u8, u8)>::empty()));
        assert(out@ + Seq::<(u8, u8, u8)>::empty() =~= out@);
    }
    Some((w as i64, h as i64, m as u8, out))
}

/// Decoding the text of an encoded pixel sequence yields the sequence, with
/// the width, height and maximum channel value, unchanged.
pub proof fn lemma_ppm_round_trip(width: int, height: int, max: int, ps: Seq<(u8, u8, u8)>)
    requires
        0 <= width <= MAX_DIMENSION,
        0 <= height <= MAX_DIMENSION,
        0 <= max <= 255,
    ensures
        decode_text(ppm_text(width, height, max, ps)) == Some((width, height, max, ps)),
{
    let s = ppm_text(width, height, max, ps);
    let lw = dec_digits(width).len() as int;
    let lh = dec_digits(height).len() as int;
    let lm = dec_digits(max).len() as int;
    lemma_dec_digits_props(width);
    lemma_dec_digits_props(height);
    lemma_dec_digits_props(max);
    let p1 = 3 + lw;
    let q2 = p1 + 1;
    let p2 = q2 + lh;
    let q3 = p2 + 1;
    let p3 = q3 + lm;
    assert(s.subrange(3, p1) =~= dec_digits(width));
    assert(s[p1] == 32);
    lemma_num_at_run(s, 3, width);
    assert(s.subrange(q2, p2) =~= dec_digits(height));
    assert(s[p2] == 10);
    lemma_num_at_run(s, q2, height);
    assert(s.subrange(q3, p3) =~= dec_digits(max));
    assert(s[p3] == 10);
    lemma_num_at_run(s, q3, max);
    assert(s.subrange(p3 + 1, s.len() as int) =~= pixels_text(ps));
    lemma_decode_pixels_text(s, p3 + 1, ps);
}

/// One well-formed pixel line at `pos` advances the decoder by exactly that
/// line and contributes exactly that pixel.
#[verifier::spinoff_prover]
#[verifier::rlimit(100)]
proof fn lemma_decode_line(s: Seq<u8>, pos: int, px: (u8, u8, u8), rest: Seq<u8>)
    requires
        0 <= pos <= s.len(),
        s.subrange(pos, s.len() as int) == line_of(px) + rest,
    ensures
        pos + line_of(px).len() <= s.len(),
        s.subrange(pos + line_of(px).len() as int, s.len() as int) == rest,
        decode_pixels(s, pos) == (match decode_pixels(s, pos + line_of(px).len() as int) {
            Some(r) => Some(seq![px] + r),
            None => None,
        }),
{
    let whole = s.subrange(pos, s.len() as int);
    let line = line_of(px);
    let lr = dec_digits(px.0 as int).len() as int;
    let lg = dec_digits(px.1 as int).len() as int;
    let lb = dec_digits(px.2 as int).len() as int;
    lemma_dec_digits_props(px.0 as int);
    lemma_dec_digits_props(px.1 as int);
    lemma_dec_digits_props(px.2 as int);
    let p1 = pos + lr;
    let q2 = p1 + 1;
    let p2 = q2 + lg;
    let q3 = p2 + 1;
    let p3 = q3 + lb;
    assert(line.len() == lr + lg + lb + 3);
    assert(whole.len() == line.len() + rest.len());
    assert forall|k: int| pos <= k < s.len() implies s[k] == (line_of(px) + rest)[k - pos] by {
        assert(s[k] == whole[k - pos]);
    }
    assert(s.subrange(pos, p1) =~= dec_digits(px.0 as int));
    assert(s[p1] == 32);
    lemma_num_at_run(s, pos, px.0 as int);
    assert(s.subrange(q2, p2) =~= dec_digits(px.1 as int));
    assert(s[p2] == 32);
    lemma_num_at_run(s, q2, px.1 as int);
    assert(s.subrange(q3, p3) =~= dec_digits(px.2 as int));
    assert(s[p3] == 10);
    lemma_num_at_run(s, q3, px.2 as int);
    assert(s.subrange(p3 + 1, s.len() as int) =~= rest);
    assert(skip_digits(s, pos) == p1);
    assert(skip_digits(s, q2) == p2);
    assert(skip_digits(s, q3) == p3);
    assert((num_at(s, pos) as u8, num_at(s, q2) as u8, num_at(s, q3) as u8) == px);
    assert(p3 + 1 == pos + line.len());
}

/// Decoding the pixel-line text that sits at `pos` yields the pixels.
proof fn lemma_decode_pixels_text(s: Seq<u8>, pos: int, ps: Seq<(u8, u8, u8)>)
    requires
        0 <= pos <= s.len(),
        s.subrange(pos, s.len() as int) == pixels_text(ps),
    ensures
        decode_pixels(s, pos) == Some(ps),
    decreases ps.len(),
{
    if ps.len() == 0 {
        assert(s.len() - pos == 0);
        assert(ps =~= Seq::<(u8, u8, u8)>::empty());
    } else {
        assert(pixels_text(ps) == line_of(ps[0]) + pixels_text(ps.skip(1)));
        lemma_decode_line(s, pos, ps[0], pixels_text(ps.skip(1)));
        lemma_decode_pixels_text(s, pos + line_of(ps[0]).len() as int, ps.skip(1));
        assert(seq![ps[0]] + ps.skip(1) =~= ps);
    }
}

} // verus!
