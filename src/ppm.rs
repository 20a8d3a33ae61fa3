use vstd::prelude::*;
use crate::image::{decimal, pixel_bytes, pixels_bytes, ppm_file, ImageView, PPMType, Pixel};

verus! {

/// Why the bytes of a PPM file could not be read into an image.
#[derive(Clone, Copy, Debug, PartialEq, Eq, Structural)]
pub enum PpmError {
    /// The header has fewer than three lines.
    Truncated,
    /// A sample line of a `P3` file is not three numbers of 0 to 255.
    BadSample,
    /// The file holds more pixels than the image.
    TooManyPixels,
}

/// Position of the first `c` in `s`, or the length of `s`.
pub open spec fn index_of(s: Seq<u8>, c: u8) -> nat
    decreases s.len(),
{
    if s.len() == 0 || s[0] == c {
        0
    } else {
        1 + index_of(s.drop_first(), c)
    }
}

/// The pieces of `s` between the bytes `c`: one more piece than separators.
pub open spec fn split(s: Seq<u8>, c: u8) -> Seq<Seq<u8>>
    decreases s.len(),
{
    let e = index_of(s, c) as int;
    if e >= s.len() {
        seq![s]
    } else {
        seq![s.take(e)] + split(s.skip(e + 1), c)
    }
}

/// `s` after its first line, if it has a line break.
pub open spec fn drop_line(s: Seq<u8>) -> Option<Seq<u8>> {
    let e = index_of(s, 10u8) as int;
    if e < s.len() {
        Some(s.skip(e + 1))
    } else {
        None
    }
}

/// The first line of `s`.
pub open spec fn first_line(s: Seq<u8>) -> Seq<u8> {
    s.take(index_of(s, 10u8) as int)
}

/// What follows the three header lines; `None` when there are not three.
pub open spec fn ppm_body(data: Seq<u8>) -> Option<Seq<u8>> {
    match drop_line(data) {
        None => None,
        Some(h1) => match drop_line(h1) {
            None => None,
            Some(h2) => Some(
                match drop_line(h2) {
                    Some(b) => b,
                    None => Seq::empty(),
                },
            ),
        },
    }
}

/// An ASCII decimal digit.
pub open spec fn is_digit_byte(b: u8) -> bool {
    48 <= b <= 57
}

/// The number that the ASCII digits `d` spell.
pub open spec fn bytes_value(d: Seq<u8>) -> nat
    decreases d.len(),
{
    if d.len() == 0 {
        0
    } else {
        bytes_value(d.drop_last()) * 10 + (d.last() - 48) as nat
    }
}

/// Every byte of `d` is a decimal digit.
pub open spec fn all_digit_bytes(d: Seq<u8>) -> bool {
    forall|i: int| 0 <= i < d.len() ==> is_digit_byte(#[trigger] d[i])
}

/// A channel value as `u8` parsing reads it: an optional `+`, then at least
/// one digit, with a value of at most 255.
pub open spec fn parse_u8_spec(f: Seq<u8>) -> Option<u8> {
    let d = if f.len() > 0 && f[0] == 43 {
        f.drop_first()
    } else {
        f
    };
    if d.len() > 0 && all_digit_bytes(d) && bytes_value(d) <= 255 {
        Some(bytes_value(d) as u8)
    } else {
        None
    }
}

/// The pixel of a `P3` sample line: its first three space-separated fields.
pub open spec fn sample_of(line: Seq<u8>) -> Option<Pixel> {
    let fs = split(line, 32u8);
    if fs.len() >= 3 {
        match (parse_u8_spec(fs[0]), parse_u8_spec(fs[1]), parse_u8_spec(fs[2])) {
            (Some(r), Some(g), Some(b)) => Some(Pixel { r, g, b }),
            _ => None,
        }
    } else {
        None
    }
}

/// The pixels of the sample lines, empty lines skipped; `None` when a line
/// is not a sample.
pub open spec fn line_samples(lines: Seq<Seq<u8>>) -> Option<Seq<Pixel>>
    decreases lines.len(),
{
    if lines.len() == 0 {
        Some(Seq::empty())
    } else if lines[0].len() == 0 {
        line_samples(lines.drop_first())
    } else {
        match (sample_of(lines[0]), line_samples(lines.drop_first())) {
            (Some(p), Some(rest)) => Some(seq![p] + rest),
            _ => None,
        }
    }
}

/// The pixels of a `P6` body: each whole triple of bytes; a partial one at
/// the end is dropped.
pub open spec fn raw_pixels(body: Seq<u8>) -> Seq<Pixel> {
    Seq::new(
        (body.len() / 3) as nat,
        |i: int| Pixel { r: body[3 * i], g: body[3 * i + 1], b: body[3 * i + 2] },
    )
}

/// The first line of a `P3` file.
pub open spec fn magic_p3() -> Seq<u8> {
    seq![80u8, 51u8]
}

/// The first line of a `P6` file.
pub open spec fn magic_p6() -> Seq<u8> {
    seq![80u8, 54u8]
}

/// The samples of the PPM bytes `data`: `Ok(None)` when the first line is
/// neither `P3` nor `P6`.
pub open spec fn file_samples(data: Seq<u8>) -> Result<Option<Seq<Pixel>>, PpmError> {
    let magic = first_line(data);
    if magic != magic_p3() && magic != magic_p6() {
        Ok(None)
    } else {
        match ppm_body(data) {
            None => Err(PpmError::Truncated),
            Some(body) => if magic == magic_p3() {
                match line_samples(split(body, 10u8)) {
                    None => Err(PpmError::BadSample),
                    Some(ps) => Ok(Some(ps)),
                }
            } else {
                Ok(Some(raw_pixels(body)))
            },
        }
    }
}

/// The pixels that reading the PPM bytes `data` into an image whose pixels
/// are `old` leaves: the samples of the file from the first pixel on, the
/// rest as they were. A first line other than `P3` or `P6` leaves them all.
pub open spec fn decoded(data: Seq<u8>, old: Seq<Pixel>) -> Result<Seq<Pixel>, PpmError> {
    match file_samples(data) {
        Err(e) => Err(e),
        Ok(None) => Ok(old),
        Ok(Some(ps)) => if ps.len() > old.len() {
            Err(PpmError::TooManyPixels)
        } else {
            Ok(ps + old.skip(ps.len() as int))
        },
    }
}

/// One step of `split`.
proof fn lemma_split_step(s: Seq<u8>, c: u8)
    ensures
        index_of(s, c) < s.len() ==> split(s, c) == seq![s.take(index_of(s, c) as int)] + split(
            s.skip(index_of(s, c) + 1 as int),
            c,
        ),
        index_of(s, c) >= s.len() ==> split(s, c) == seq![s],
{
}

/// `index_of` is the first position holding `c`.
proof fn lemma_index_of(s: Seq<u8>, c: u8, m: int)
    requires
        0 <= m <= s.len(),
        forall|k: int| 0 <= k < m ==> s[k] != c,
        m == s.len() || s[m] == c,
    ensures
        index_of(s, c) == m,
    decreases m,
{
    if m > 0 {
        lemma_index_of(s.drop_first(), c, m - 1);
    }
}

/// Position of the first `c` in `data[from..to]`, or `to`.
fn find_byte(data: &[u8], c: u8, from: usize, to: usize) -> (e: usize)
    requires
        from <= to <= data@.len(),
    ensures
        from <= e <= to,
        e == from + index_of(data@.subrange(from as int, to as int), c),
{
    let mut i: usize = from;
    while i < to && data[i] != c
        invariant
            from <= i <= to,
            to <= data@.len(),
            forall|k: int| from <= k < i ==> data@[k] != c,
        decreases to - i,
    {
        i = i + 1;
    }
    proof {
        let s = data@.subrange(from as int, to as int);
        lemma_index_of(s, c, i - from);
    }
    i
}

/// The value of a digit string is at least that of each of its prefixes.
proof fn lemma_bytes_prefix_grows(d: Seq<u8>, k: int)
    requires
        0 <= k <= d.len(),
    ensures
        all_digit_bytes(d) ==> bytes_value(d) >= bytes_value(d.take(k)),
    decreases d.len() - k,
{
    if k == d.len() {
        assert(d.take(k) =~= d);
    } else if all_digit_bytes(d) {
        lemma_bytes_prefix_grows(d, k + 1);
        assert(d.take(k + 1).drop_last() =~= d.take(k));
        assert(is_digit_byte(d[k]));
    }
}

/// `parse_u8_spec` of `data[a..b]`.
fn parse_u8_at(data: &[u8], a: usize, b: usize) -> (r: Option<u8>)
    requires
        a <= b <= data@.len(),
    ensures
        r == parse_u8_spec(data@.subrange(a as int, b as int)),
{
    let ghost f = data@.subrange(a as int, b as int);
    let mut start: usize = a;
    if a < b && data[a] == 43 {
        start = a + 1;
    }
    let ghost d = data@.subrange(start as int, b as int);
    assert(d =~= if f.len() > 0 && f[0] == 43 { f.drop_first() } else { f });
    if start == b {
        return None;
    }
    let mut value: u32 = 0;
    let mut i: usize = start;
    while i < b
        invariant
            start <= i <= b,
            b <= data@.len(),
            d == data@.subrange(start as int, b as int),
            d == (if f.len() > 0 && f[0] == 43 { f.drop_first() } else { f }),
            f == data@.subrange(a as int, b as int),
            start < b,
            value <= 255,
            forall|k: int| start <= k < i ==> is_digit_byte(#[trigger] data@[k]),
            value == bytes_value(data@.subrange(start as int, i as int)),
        decreases b - i,
    {
        let c = data[i];
        if !(48 <= c && c <= 57) {
            assert(d[i - start] == c);
            assert(!all_digit_bytes(d));
            return None;
        }
        proof {
            assert(data@.subrange(start as int, i + 1).drop_last() =~= data@.subrange(start as int, i as int));
        }
        value = value * 10 + (c - 48) as u32;
        if value > 255 {
            proof {
                assert(data@.subrange(start as int, i + 1) =~= d.take(i + 1 - start));
                lemma_bytes_prefix_grows(d, i + 1 - start);
            }
            return None;
        }
        i = i + 1;
    }
    assert(data@.subrange(start as int, i as int) =~= d);
    Some(value as u8)
}

/// `sample_of` of the line `data[a..b]`.
fn sample_at(data: &[u8], a: usize, b: usize) -> (r: Option<Pixel>)
    requires
        a <= b <= data@.len(),
    ensures
        r == sample_of(data@.subrange(a as int, b as int)),
{
    let ghost line = data@.subrange(a as int, b as int);
    let e0 = find_byte(data, 32, a, b);
    proof {
        lemma_split_step(line, 32u8);
    }
    if e0 == b {
        return None;
    }
    let ghost rest1 = data@.subrange(e0 + 1, b as int);
    assert(line.take(e0 - a) =~= data@.subrange(a as int, e0 as int));
    assert(line.skip(e0 - a + 1) =~= rest1);
    let e1 = find_byte(data, 32, e0 + 1, b);
    proof {
        lemma_split_step(rest1, 32u8);
    }
    if e1 == b {
        assert(split(line, 32u8).len() == 2);
        return None;
    }
    let ghost rest2 = data@.subrange(e1 + 1, b as int);
    assert(rest1.take(e1 - e0 - 1) =~= data@.subrange(e0 + 1, e1 as int));
    assert(rest1.skip(e1 - e0) =~= rest2);
    let e2 = find_byte(data, 32, e1 + 1, b);
    proof {
        lemma_split_step(rest2, 32u8);
        if e2 < b {
            assert(rest2.take(e2 - e1 - 1) =~= data@.subrange(e1 + 1, e2 as int));
        } else {
            assert(rest2 =~= data@.subrange(e1 + 1, e2 as int));
        }
        assert(split(line, 32u8)[0] == data@.subrange(a as int, e0 as int));
        assert(split(line, 32u8)[1] == data@.subrange(e0 + 1, e1 as int));
        assert(split(line, 32u8)[2] == data@.subrange(e1 + 1, e2 as int));
    }
    let r = parse_u8_at(data, a, e0);
    let g = parse_u8_at(data, e0 + 1, e1);
    let bl = parse_u8_at(data, e1 + 1, e2);
    match (r, g, bl) {
        (Some(r), Some(g), Some(bl)) => Some(Pixel { r, g, b: bl }),
        _ => None,
    }
}

/// `acc` followed by the samples `rest`, if there are any.
pub open spec fn prepend(acc: Seq<Pixel>, rest: Option<Seq<Pixel>>) -> Option<Seq<Pixel>> {
    match rest {
        Some(r) => Some(acc + r),
        None => None,
    }
}

/// The pixels of the `P3` sample lines of `data[from..]`.
fn ascii_samples(data: &[u8], from: usize) -> (r: Option<Vec<Pixel>>)
    requires
        from <= data@.len(),
    ensures
        match r {
            Some(v) => line_samples(split(data@.subrange(from as int, data@.len() as int), 10u8))
                == Some(v@),
            None => line_samples(split(data@.subrange(from as int, data@.len() as int), 10u8))
                is None,
        },
{
    let len = data.len();
    let ghost whole = line_samples(split(data@.subrange(from as int, len as int), 10u8));
    let mut out: Vec<Pixel> = Vec::new();
    let mut pos: usize = from;
    loop
        invariant
            from <= pos <= len,
            len == data@.len(),
            whole == line_samples(split(data@.subrange(from as int, len as int), 10u8)),
            whole == prepend(out@, line_samples(split(data@.subrange(pos as int, len as int), 10u8))),
        decreases len - pos,
    {
        let ghost rest = data@.subrange(pos as int, len as int);
        let e = find_byte(data, 10, pos, len);
        let ghost line = data@.subrange(pos as int, e as int);
        proof {
            lemma_split_step(rest, 10u8);
            assert(rest.take(e - pos) =~= line);
            if e < len {
                assert(rest.skip(e - pos + 1) =~= data@.subrange(e + 1, len as int));
                assert(split(rest, 10u8)[0] == line);
                assert(split(rest, 10u8).drop_first() =~= split(data@.subrange(e + 1, len as int), 10u8));
            } else {
                assert(rest =~= line);
                assert(split(rest, 10u8) =~= seq![line]);
                assert(split(rest, 10u8).drop_first() =~= Seq::<Seq<u8>>::empty());
            }
        }
        if e > pos {
            match sample_at(data, pos, e) {
                None => {
                    return None;
                },
                Some(p) => {
                    let ghost before = out@;
                    out.push(p);
                    proof {
                        let tail = line_samples(split(rest, 10u8).drop_first());
                        if tail is Some {
                            assert(before + (seq![p] + tail->Some_0) =~= out@ + tail->Some_0);
                        }
                    }
                },
            }
        }
        if e == len {
            proof {
                assert(line_samples(Seq::<Seq<u8>>::empty()) == Some(Seq::<Pixel>::empty()));
                assert(out@ + Seq::<Pixel>::empty() =~= out@);
            }
            return Some(out);
        }
        pos = e + 1;
    }
}

/// The pixels of the `P6` bytes `data[from..]`.
fn raw_samples(data: &[u8], from: usize) -> (r: Vec<Pixel>)
    requires
        from <= data@.len(),
    ensures
        r@ == raw_pixels(data@.subrange(from as int, data@.len() as int)),
{
    let ghost body = data@.subrange(from as int, data@.len() as int);
    let len = data.len();
    let n: usize = (len - from) / 3;
    let mut out: Vec<Pixel> = Vec::new();
    let mut i: usize = 0;
    while i < n
        invariant
            len == data@.len(),
            body.len() == len - from,
            i <= n,
            n == body.len() / 3,
            body == data@.subrange(from as int, data@.len() as int),
            from <= data@.len(),
            out@ == raw_pixels(body).take(i as int),
        decreases n - i,
    {
        assert(3 * i + 3 <= 3 * n <= body.len()) by (nonlinear_arith)
            requires
                i < n,
                n == body.len() / 3,
        ;
        let k: usize = from + 3 * i;
        out.push(Pixel { r: data[k], g: data[k + 1], b: data[k + 2] });
        i = i + 1;
        assert(out@ =~= raw_pixels(body).take(i as int));
    }
    assert(raw_pixels(body).take(n as int) =~= raw_pixels(body));
    out
}

/// The samples of the PPM bytes `data` (see `file_samples`).
pub fn read_samples(data: &[u8]) -> (r: Result<Option<Vec<Pixel>>, PpmError>)
    ensures
        match file_samples(data@) {
            Ok(Some(ps)) => r matches Ok(Some(v)) && v@ == ps,
            Ok(None) => r matches Ok(None),
            Err(e) => r == Err::<Option<Vec<Pixel>>, PpmError>(e),
        },
{
    let len = data.len();
    let e1 = find_byte(data, 10, 0, len);
    assert(data@.subrange(0, len as int) =~= data@);
    let is_p3 = e1 == 2 && data[0] == 80 && data[1] == 51;
    let is_p6 = e1 == 2 && data[0] == 80 && data[1] == 54;
    proof {
        let magic = first_line(data@);
        assert(magic =~= data@.subrange(0, e1 as int));
        if e1 == 2 {
            assert(is_p3 <==> magic =~= magic_p3());
            assert(is_p6 <==> magic =~= magic_p6());
        } else {
            assert(magic.len() != 2);
        }
    }
    if !is_p3 && !is_p6 {
        return Ok(None);
    }
    if e1 == len {
        return Err(PpmError::Truncated);
    }
    assert(data@.skip(e1 + 1) =~= data@.subrange(e1 + 1, len as int));
    let e2 = find_byte(data, 10, e1 + 1, len);
    if e2 == len {
        return Err(PpmError::Truncated);
    }
    assert(data@.subrange(e1 + 1, len as int).skip(e2 - e1) =~= data@.subrange(e2 + 1, len as int));
    let e3 = find_byte(data, 10, e2 + 1, len);
    let body_start: usize = if e3 == len { len } else { e3 + 1 };
    proof {
        if e3 < len {
            assert(data@.subrange(e2 + 1, len as int).skip(e3 - e2) =~= data@.subrange(e3 + 1, len as int));
        } else {
            assert(data@.subrange(len as int, len as int) =~= Seq::<u8>::empty());
        }
        assert(ppm_body(data@) == Some(data@.subrange(body_start as int, len as int)));
    }
    if is_p3 {
        match ascii_samples(data, body_start) {
            None => Err(PpmError::BadSample),
            Some(v) => Ok(Some(v)),
        }
    } else {
        Ok(Some(raw_samples(data, body_start)))
    }
}

/// `decimal` gives at least one digit, and digits only.
proof fn lemma_decimal_digits(n: nat)
    ensures
        decimal(n).len() >= 1,
        forall|i: int| 0 <= i < decimal(n).len() ==> is_digit_byte(#[trigger] decimal(n)[i]),
    decreases n,
{
    if n >= 10 {
        lemma_decimal_digits(n / 10);
    }
}

/// A line `p` free of line breaks, then a break, then `rest`.
proof fn lemma_line_then(p: Seq<u8>, rest: Seq<u8>)
    requires
        forall|i: int| 0 <= i < p.len() ==> p[i] != 10u8,
    ensures
        first_line(p + seq![10u8] + rest) == p,
        drop_line(p + seq![10u8] + rest) == Some(rest),
{
    let s = p + seq![10u8] + rest;
    lemma_index_of(s, 10u8, p.len() as int);
    assert(s.take(p.len() as int) =~= p);
    assert(s.skip(p.len() + 1 as int) =~= rest);
}

/// The raw bytes of pixels read back as those pixels.
proof fn lemma_raw_pixels_of_bytes(ps: Seq<Pixel>)
    ensures
        raw_pixels(pixels_bytes(ps, PPMType::P6)) == ps,
        pixels_bytes(ps, PPMType::P6).len() == 3 * ps.len(),
    decreases ps.len(),
{
    let b = pixels_bytes(ps, PPMType::P6);
    if ps.len() > 0 {
        let init = ps.drop_last();
        lemma_raw_pixels_of_bytes(init);
        let bi = pixels_bytes(init, PPMType::P6);
        assert(b == bi + seq![ps.last().r, ps.last().g, ps.last().b]);
        assert forall|i: int| 0 <= i < ps.len() implies #[trigger] raw_pixels(b)[i] == ps[i] by {
            assert(b.len() == 3 * ps.len());
            assert((3 * ps.len()) / 3 == ps.len()) by (nonlinear_arith);
            if i < ps.len() - 1 {
                assert(3 * i + 2 < 3 * init.len()) by (nonlinear_arith)
                    requires
                        i < init.len(),
                ;
                assert(raw_pixels(bi)[i] == init[i]);
                assert((3 * init.len()) / 3 == init.len()) by (nonlinear_arith);
            } else {
                assert(3 * i == 3 * init.len());
            }
        }
        assert((3 * ps.len()) / 3 == ps.len()) by (nonlinear_arith);
        assert(raw_pixels(b) =~= ps);
    }
}

/// The first line of a PPM file, and what follows its header.
proof fn lemma_file_parts(img: ImageView, ty: PPMType)
    ensures
        first_line(ppm_file(img, ty)) == (match ty {
            PPMType::P3 => magic_p3(),
            PPMType::P6 => magic_p6(),
        }),
        ppm_body(ppm_file(img, ty)) == Some(pixels_bytes(img.pixels, ty)),
{
    let data = ppm_file(img, ty);
    let dw = decimal(img.width);
    let dh = decimal(img.height);
    let body = pixels_bytes(img.pixels, ty);
    let l0 = match ty {
        PPMType::P3 => magic_p3(),
        PPMType::P6 => magic_p6(),
    };
    let l1 = dw + seq![32u8] + dh;
    let l2 = seq![50u8, 53u8, 53u8];
    let rest2 = l2 + seq![10u8] + body;
    let rest1 = l1 + seq![10u8] + rest2;
    assert(data =~= l0 + seq![10u8] + rest1);
    lemma_line_then(l0, rest1);
    assert forall|i: int| 0 <= i < l1.len() implies l1[i] != 10u8 by {
        lemma_decimal_digits(img.width);
        lemma_decimal_digits(img.height);
        if i < dw.len() {
            assert(is_digit_byte(dw[i]));
        } else if i > dw.len() {
            assert(is_digit_byte(dh[i - dw.len() - 1]));
        }
    }
    lemma_line_then(l1, rest2);
    lemma_line_then(l2, body);
}

/// Reading back the `P6` bytes of an image gives the image's pixels.
pub proof fn lemma_raw_round_trip(img: ImageView)
    ensures
        decoded(ppm_file(img, PPMType::P6), img.pixels) == Ok::<Seq<Pixel>, PpmError>(img.pixels),
{
    lemma_file_parts(img, PPMType::P6);
    lemma_raw_pixels_of_bytes(img.pixels);
    assert(file_samples(ppm_file(img, PPMType::P6)) == Ok::<Option<Seq<Pixel>>, PpmError>(Some(img.pixels)));
    assert(img.pixels + img.pixels.skip(img.pixels.len() as int) =~= img.pixels);
}

/// The digits of `n` spell `n`.
proof fn lemma_decimal_value(n: nat)
    ensures
        bytes_value(decimal(n)) == n,
        decimal(n).len() >= 1,
        all_digit_bytes(decimal(n)),
    decreases n,
{
    lemma_decimal_digits(n);
    let d = decimal(n);
    if n >= 10 {
        lemma_decimal_value(n / 10);
        assert(d.drop_last() =~= decimal(n / 10));
        assert(d.last() == (48 + n % 10) as u8);
        assert((d.last() - 48) as nat == n % 10);
        assert((n / 10) * 10 + n % 10 == n) by (nonlinear_arith);
        assert(bytes_value(d) == bytes_value(d.drop_last()) * 10 + (d.last() - 48) as nat);
        assert(bytes_value(d.drop_last()) == n / 10);
    } else {
        assert(d.drop_last() =~= Seq::<u8>::empty());
        assert(d.last() == (48 + n) as u8);
        assert(bytes_value(d) == bytes_value(d.drop_last()) * 10 + (d.last() - 48) as nat);
        assert(bytes_value(d.drop_last()) == 0);
    }
}

/// A channel written in decimal parses back.
proof fn lemma_parse_decimal(v: u8)
    ensures
        parse_u8_spec(decimal(v as nat)) == Some(v),
{
    lemma_decimal_value(v as nat);
    assert(is_digit_byte(decimal(v as nat)[0]));
}

/// Splitting at `c` past a piece `p` free of `c`.
proof fn lemma_split_then(p: Seq<u8>, c: u8, rest: Seq<u8>)
    requires
        forall|i: int| 0 <= i < p.len() ==> p[i] != c,
    ensures
        split(p + seq![c] + rest, c) == seq![p] + split(rest, c),
{
    let s = p + seq![c] + rest;
    lemma_index_of(s, c, p.len() as int);
    lemma_split_step(s, c);
    assert(s.take(p.len() as int) =~= p);
    assert(s.skip(p.len() + 1 as int) =~= rest);
}

/// A piece free of `c` splits into itself.
proof fn lemma_split_whole(p: Seq<u8>, c: u8)
    requires
        forall|i: int| 0 <= i < p.len() ==> p[i] != c,
    ensures
        split(p, c) == seq![p],
{
    lemma_index_of(p, c, p.len() as int);
    lemma_split_step(p, c);
}

/// The `P3` line of a pixel, without its line break.
pub open spec fn ascii_line(p: Pixel) -> Seq<u8> {
    decimal(p.r as nat) + seq![32u8] + decimal(p.g as nat) + seq![32u8] + decimal(p.b as nat)
}

/// The `P3` line of a pixel reads back as the pixel.
proof fn lemma_sample_of_line(p: Pixel)
    ensures
        sample_of(ascii_line(p)) == Some(p),
        ascii_line(p).len() > 0,
        forall|i: int| 0 <= i < ascii_line(p).len() ==> ascii_line(p)[i] != 10u8,
{
    let dr = decimal(p.r as nat);
    let dg = decimal(p.g as nat);
    let db = decimal(p.b as nat);
    lemma_decimal_value(p.r as nat);
    lemma_decimal_value(p.g as nat);
    lemma_decimal_value(p.b as nat);
    assert forall|i: int| 0 <= i < dr.len() implies dr[i] != 32u8 by {
        assert(is_digit_byte(dr[i]));
    }
    assert forall|i: int| 0 <= i < dg.len() implies dg[i] != 32u8 by {
        assert(is_digit_byte(dg[i]));
    }
    assert forall|i: int| 0 <= i < db.len() implies db[i] != 32u8 by {
        assert(is_digit_byte(db[i]));
    }
    let line = ascii_line(p);
    assert(line =~= dr + seq![32u8] + (dg + seq![32u8] + db));
    lemma_split_then(dr, 32u8, dg + seq![32u8] + db);
    lemma_split_then(dg, 32u8, db);
    lemma_split_whole(db, 32u8);
    lemma_parse_decimal(p.r);
    lemma_parse_decimal(p.g);
    lemma_parse_decimal(p.b);
    assert(split(line, 32u8) =~= seq![dr, dg, db]);
    assert forall|i: int| 0 <= i < line.len() implies line[i] != 10u8 by {
        if i < dr.len() {
            assert(is_digit_byte(dr[i]));
        } else if dr.len() < i < dr.len() + 1 + dg.len() {
            assert(is_digit_byte(dg[i - dr.len() - 1]));
        } else if i > dr.len() + 1 + dg.len() {
            assert(is_digit_byte(db[i - dr.len() - dg.len() - 2]));
        }
    }
}

/// The bytes of pixels, taken from the front.
proof fn lemma_pixels_bytes_cons(ps: Seq<Pixel>, ty: PPMType)
    requires
        ps.len() > 0,
    ensures
        pixels_bytes(ps, ty) == pixel_bytes(ps[0], ty) + pixels_bytes(ps.drop_first(), ty),
    decreases ps.len(),
{
    if ps.len() == 1 {
        assert(ps.drop_last() =~= Seq::<Pixel>::empty());
        assert(ps.drop_first() =~= Seq::<Pixel>::empty());
        assert(pixels_bytes(Seq::<Pixel>::empty(), ty) =~= Seq::<u8>::empty());
        assert(pixels_bytes(ps, ty) =~= pixel_bytes(ps[0], ty) + Seq::<u8>::empty());
    } else {
        lemma_pixels_bytes_cons(ps.drop_last(), ty);
        assert(ps.drop_last().drop_first() =~= ps.drop_first().drop_last());
        assert(ps.drop_first().last() == ps.last());
        assert(pixels_bytes(ps, ty) =~= pixel_bytes(ps[0], ty) + pixels_bytes(ps.drop_first(), ty));
    }
}

/// A sample line in front of further lines.
proof fn lemma_line_samples_cons(line: Seq<u8>, p: Pixel, tail: Seq<u8>, rest: Seq<Pixel>)
    requires
        line.len() > 0,
        forall|i: int| 0 <= i < line.len() ==> line[i] != 10u8,
        sample_of(line) == Some(p),
        line_samples(split(tail, 10u8)) == Some(rest),
    ensures
        line_samples(split(line + seq![10u8] + tail, 10u8)) == Some(seq![p] + rest),
{
    lemma_split_then(line, 10u8, tail);
    let lines = seq![line] + split(tail, 10u8);
    assert(lines[0] == line);
    assert(lines.drop_first() =~= split(tail, 10u8));
}

/// The `P3` lines of pixels read back as those pixels.
proof fn lemma_ascii_samples_of_bytes(ps: Seq<Pixel>)
    ensures
        line_samples(split(pixels_bytes(ps, PPMType::P3), 10u8)) == Some(ps),
    decreases ps.len(),
{
    if ps.len() == 0 {
        let b = pixels_bytes(ps, PPMType::P3);
        assert(b.len() == 0);
        lemma_split_whole(b, 10u8);
        assert(seq![b].drop_first() =~= Seq::<Seq<u8>>::empty());
        assert(line_samples(seq![b]) == line_samples(Seq::<Seq<u8>>::empty()));
        assert(ps =~= Seq::<Pixel>::empty());
    } else {
        let p = ps[0];
        let tail = pixels_bytes(ps.drop_first(), PPMType::P3);
        lemma_ascii_samples_of_bytes(ps.drop_first());
        lemma_sample_of_line(p);
        let line = ascii_line(p);
        assert(pixels_bytes(ps, PPMType::P3) == line + seq![10u8] + tail) by {
            lemma_pixels_bytes_cons(ps, PPMType::P3);
            assert(pixel_bytes(p, PPMType::P3) =~= line + seq![10u8]);
            assert(pixel_bytes(p, PPMType::P3) + tail =~= line + seq![10u8] + tail);
        }
        lemma_line_samples_cons(line, p, tail, ps.drop_first());
        assert(seq![p] + ps.drop_first() =~= ps);
    }
}

/// Reading back the `P3` bytes of an image gives the image's pixels.
pub proof fn lemma_ascii_round_trip(img: ImageView)
    ensures
        decoded(ppm_file(img, PPMType::P3), img.pixels) == Ok::<Seq<Pixel>, PpmError>(img.pixels),
{
    lemma_file_parts(img, PPMType::P3);
    lemma_ascii_samples_of_bytes(img.pixels);
    assert(file_samples(ppm_file(img, PPMType::P3)) == Ok::<Option<Seq<Pixel>>, PpmError>(Some(img.pixels)));
    assert(img.pixels + img.pixels.skip(img.pixels.len() as int) =~= img.pixels);
}

} // verus!
