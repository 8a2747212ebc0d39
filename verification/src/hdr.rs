//! Decoder for Radiance HDR pictures restricted to the 32-bit run-length
//! encoded RGBE variant.
//!
//! The decoder works on a byte stream already in memory.  Its behaviour is
//! pinned down by a specification-level model of the format: `line_end`,
//! `content_end` and friends describe the header's line structure,
//! `scan_header_lines` the header scan, `spec_decode_plane` and
//! `spec_decode_scanline` the run-length encoding, and `spec_parse_header` /
//! `spec_decode_hdr` the whole file.  Every executable function returns
//! exactly what the model says, and fails exactly when the model says the
//! stream is malformed.

use vstd::prelude::*;

use crate::image::lemma_row_major_index_bound;
use crate::image::Rgbe;
use crate::image::RgbeImage;

verus! {

/// How a Radiance stream can be rejected: `FormatError` for a bad header
/// (signature, FORMAT declaration, resolution line), `DecodeError` for a bad
/// pixel body (RLE marker, scanline width, run data).
#[derive(Clone, Copy, Debug, PartialEq, Eq, Structural)]
pub enum HdrError {
    FormatError,
    DecodeError,
}

/// The picture dimensions read from the header.  On disk the resolution line
/// stores height before width.
#[derive(Clone, Copy, Debug, PartialEq, Eq, Structural)]
pub struct Header {
    pub width: usize,
    pub height: usize,
}

/// Line feed, the line terminator of the header.
pub const LINE_FEED: u8 = 10;

/// Carriage return; one trailing carriage return is stripped from a header
/// line before it is interpreted.
pub const CARRIAGE_RETURN: u8 = 13;

/// The mandatory first line of a Radiance picture: `#?RADIANCE`.
pub open spec fn signature() -> Seq<u8> {
    seq![35u8, 63u8, 82u8, 65u8, 68u8, 73u8, 65u8, 78u8, 67u8, 69u8]
}

/// The prefix that marks a header line as a format declaration: `FORMAT=`.
pub open spec fn format_prefix() -> Seq<u8> {
    seq![70u8, 79u8, 82u8, 77u8, 65u8, 84u8, 61u8]
}

/// The only accepted format declaration: `FORMAT=32-bit_rle_rgbe`.
pub open spec fn format_line() -> Seq<u8> {
    format_prefix() + seq![
        51u8, 50u8, 45u8, 98u8, 105u8, 116u8, 95u8, 114u8, 108u8, 101u8, 95u8, 114u8, 103u8, 98u8,
        101u8,
    ]
}

/// The index of the first line feed at or after `pos`, or the end of the
/// stream if the last line is unterminated.
pub open spec fn line_end(data: Seq<u8>, pos: int) -> int
    decreases data.len() - pos,
{
    if pos < 0 || pos >= data.len() {
        pos
    } else if data[pos] == LINE_FEED {
        pos
    } else {
        line_end(data, pos + 1)
    }
}

/// `line_end` stays between `pos` and the end of the stream, and no line feed
/// occurs before it.
pub proof fn lemma_line_end_bounds(data: Seq<u8>, pos: int)
    requires
        0 <= pos <= data.len(),
    ensures
        pos <= line_end(data, pos) <= data.len(),
        forall|i: int| pos <= i < line_end(data, pos) ==> data[i] != LINE_FEED,
        line_end(data, pos) < data.len() ==> data[line_end(data, pos)] == LINE_FEED,
    decreases data.len() - pos,
{
    if pos < data.len() && data[pos] != LINE_FEED {
        lemma_line_end_bounds(data, pos + 1);
    }
}

/// The end of the interpreted content of the line starting at `pos`: the line
/// without its terminator and without one trailing carriage return.
pub open spec fn content_end(data: Seq<u8>, pos: int) -> int {
    let le = line_end(data, pos);
    if le > pos && data[le - 1] == CARRIAGE_RETURN {
        le - 1
    } else {
        le
    }
}

/// Where the line after the one starting at `pos` begins; the end of the
/// stream if this line is unterminated.
pub open spec fn next_line_start(data: Seq<u8>, pos: int) -> int {
    let le = line_end(data, pos);
    if le < data.len() {
        le + 1
    } else {
        le
    }
}

/// Walks the header lines that follow the signature, starting at `pos`.
/// Returns the position just after the blank line that closes the header and
/// whether a format declaration was seen, or `None` if the header is closed
/// by the end of the stream instead of a blank line, or declares a format
/// other than `32-bit_rle_rgbe`.  Lines that are not format declarations are
/// ignored.
pub open spec fn scan_header_lines(data: Seq<u8>, pos: int, seen_format: bool) -> Option<
    (int, bool),
>
    decreases data.len() - pos,
    via scan_header_lines_decreases
{
    if pos < 0 || pos >= data.len() {
        None
    } else {
        let ce = content_end(data, pos);
        let next = next_line_start(data, pos);
        if ce == pos {
            Some((next, seen_format))
        } else if ce - pos >= format_prefix().len() && data.subrange(
            pos,
            pos + format_prefix().len(),
        ) == format_prefix() {
            if data.subrange(pos, ce) == format_line() {
                scan_header_lines(data, next, true)
            } else {
                None
            }
        } else {
            scan_header_lines(data, next, seen_format)
        }
    }
}

#[via_fn]
proof fn scan_header_lines_decreases(data: Seq<u8>, pos: int, seen_format: bool) {
    if 0 <= pos < data.len() {
        lemma_line_end_bounds(data, pos);
    }
}

/// The bytes the resolution line may separate its fields with.
pub open spec fn is_space(b: u8) -> bool {
    b == 32 || (9 <= b <= 13)
}

/// The first index at or after `i` holding a byte that is not whitespace, or
/// the end of the line.
pub open spec fn skip_spaces(line: Seq<u8>, i: int) -> int
    decreases line.len() - i,
{
    if 0 <= i < line.len() && is_space(line[i]) {
        skip_spaces(line, i + 1)
    } else {
        i
    }
}

/// The first index at or after `i` holding whitespace, or the end of the
/// line: the end of the field that starts at `i`.
pub open spec fn token_end(line: Seq<u8>, i: int) -> int
    decreases line.len() - i,
{
    if 0 <= i < line.len() && !is_space(line[i]) {
        token_end(line, i + 1)
    } else {
        i
    }
}

/// Where the whitespace-separated field number `k` (counted from zero) of the
/// line starts; the line's end if there are at most `k` fields.
pub open spec fn token_start(line: Seq<u8>, k: nat) -> int
    decreases k,
{
    if k == 0 {
        skip_spaces(line, 0)
    } else {
        skip_spaces(line, token_end(line, token_start(line, (k - 1) as nat)))
    }
}

/// An ASCII decimal digit.
pub open spec fn is_digit(b: u8) -> bool {
    48 <= b <= 57
}

/// The value of a sequence of decimal digit bytes, most significant first.
pub open spec fn digits_value(t: Seq<u8>) -> nat
    decreases t.len(),
{
    if t.len() == 0 {
        0
    } else {
        digits_value(t.drop_last()) * 10 + (if is_digit(t.last()) {
            (t.last() - 48) as nat
        } else {
            0
        })
    }
}

/// Every byte of the sequence is a decimal digit.
pub open spec fn all_digits(t: Seq<u8>) -> bool {
    forall|i: int| 0 <= i < t.len() ==> is_digit(t[i])
}

/// The field with an optional leading plus sign removed.
pub open spec fn numeric_part(t: Seq<u8>) -> Seq<u8> {
    if t.len() > 0 && t[0] == 43 {
        t.subrange(1, t.len() as int)
    } else {
        t
    }
}

/// Whether the field is a decimal number that fits the machine's word: an
/// optional plus sign, then at least one digit, with a value of at most
/// `usize::MAX`.
pub open spec fn parses_as_usize(t: Seq<u8>) -> bool {
    let d = numeric_part(t);
    d.len() > 0 && all_digits(d) && digits_value(d) <= usize::MAX
}

/// The value of such a field.
pub open spec fn token_value(t: Seq<u8>) -> nat {
    digits_value(numeric_part(t))
}

/// What the resolution line yields: its second field as the height, its
/// fourth as the width (the format stores height first), each a decimal
/// number.  The first and third fields, the axis labels, are ignored, as is
/// anything after the fourth field.
pub open spec fn spec_resolution(line: Seq<u8>) -> Option<(int, int)> {
    let s1 = token_start(line, 1);
    let s3 = token_start(line, 3);
    if s1 < line.len() && s3 < line.len() {
        let t1 = line.subrange(s1, token_end(line, s1));
        let t3 = line.subrange(s3, token_end(line, s3));
        if parses_as_usize(t1) && parses_as_usize(t3) {
            Some((token_value(t1) as int, token_value(t3) as int))
        } else {
            None
        }
    } else {
        None
    }
}

/// What follows a finished header scan: the resolution line, read at the
/// position the scan stopped at, provided a format declaration was seen.
/// Yields width, height and the position where the pixel body starts.
pub open spec fn header_after_scan(data: Seq<u8>, scan: Option<(int, bool)>) -> Option<
    (int, int, int),
> {
    match scan {
        Option::None => Option::None,
        Option::Some((rpos, seen)) => {
            if !seen {
                Option::None
            } else {
                match spec_resolution(data.subrange(rpos, line_end(data, rpos))) {
                    Option::None => Option::None,
                    Option::Some((h, w)) => Option::Some((w, h, next_line_start(data, rpos))),
                }
            }
        },
    }
}

/// The whole header: the signature line, the header scan, the resolution
/// line.  Yields width, height and the position where the pixel body starts,
/// or `None` for a malformed header.
pub open spec fn spec_parse_header(data: Seq<u8>) -> Option<(int, int, int)> {
    if data.subrange(0, content_end(data, 0)) == signature() {
        header_after_scan(data, scan_header_lines(data, next_line_start(data, 0), false))
    } else {
        Option::None
    }
}

/// The value of a run of digits never shrinks when more digits follow.
proof fn lemma_digits_prefix_le(t: Seq<u8>, j: int)
    requires
        0 <= j <= t.len(),
    ensures
        digits_value(t.subrange(0, j)) <= digits_value(t),
    decreases t.len() - j,
{
    if j == t.len() {
        assert(t.subrange(0, j) =~= t);
    } else {
        lemma_digits_prefix_le(t, j + 1);
        let a = t.subrange(0, j);
        let b = t.subrange(0, j + 1);
        assert(b.drop_last() =~= a);
        assert(digits_value(a) <= digits_value(a) * 10);
    }
}

/// The bytes of the Radiance signature, for the executable comparison.
fn signature_vec() -> (v: Vec<u8>)
    ensures
        v@ == signature(),
{
    let mut v: Vec<u8> = Vec::new();
    v.push(35);
    v.push(63);
    v.push(82);
    v.push(65);
    v.push(68);
    v.push(73);
    v.push(65);
    v.push(78);
    v.push(67);
    v.push(69);
    proof {
        assert(v@ =~= signature());
    }
    v
}

/// The bytes of `FORMAT=`, for the executable comparison.
fn format_prefix_vec() -> (v: Vec<u8>)
    ensures
        v@ == format_prefix(),
{
    let mut v: Vec<u8> = Vec::new();
    v.push(70);
    v.push(79);
    v.push(82);
    v.push(77);
    v.push(65);
    v.push(84);
    v.push(61);
    proof {
        assert(v@ =~= format_prefix());
    }
    v
}

/// The bytes of `FORMAT=32-bit_rle_rgbe`, for the executable comparison.
fn format_line_vec() -> (v: Vec<u8>)
    ensures
        v@ == format_line(),
{
    let mut v = format_prefix_vec();
    v.push(51);
    v.push(50);
    v.push(45);
    v.push(98);
    v.push(105);
    v.push(116);
    v.push(95);
    v.push(114);
    v.push(108);
    v.push(101);
    v.push(95);
    v.push(114);
    v.push(103);
    v.push(98);
    v.push(101);
    proof {
        assert(v@ =~= format_line());
    }
    v
}

/// Finds the end of the line that starts at `pos`.
fn find_line_end(data: &Vec<u8>, pos: usize) -> (e: usize)
    requires
        pos <= data@.len(),
    ensures
        e == line_end(data@, pos as int),
        pos <= e <= data@.len(),
{
    let mut i: usize = pos;
    while i < data.len() && data[i] != LINE_FEED
        invariant
            pos <= i <= data@.len(),
            line_end(data@, pos as int) == line_end(data@, i as int),
        decreases data@.len() - i,
    {
        proof {
            assert(line_end(data@, i as int) == line_end(data@, i + 1));
        }
        i = i + 1;
    }
    proof {
        assert(line_end(data@, i as int) == i);
    }
    i
}

/// Finds the end of the interpreted content of the line that starts at `pos`.
fn find_content_end(data: &Vec<u8>, pos: usize) -> (e: usize)
    requires
        pos <= data@.len(),
    ensures
        e == content_end(data@, pos as int),
        pos <= e <= data@.len(),
{
    let le = find_line_end(data, pos);
    if le > pos && data[le - 1] == CARRIAGE_RETURN {
        le - 1
    } else {
        le
    }
}

/// Finds where the line after the one starting at `pos` begins.
fn find_next_line(data: &Vec<u8>, pos: usize) -> (n: usize)
    requires
        pos <= data@.len(),
    ensures
        n == next_line_start(data@, pos as int),
        pos <= n <= data@.len(),
        pos < data@.len() ==> pos < n,
{
    let le = find_line_end(data, pos);
    if le < data.len() {
        le + 1
    } else {
        le
    }
}

/// Compares a range of the stream against a pattern.
fn range_eq(data: &Vec<u8>, start: usize, end: usize, pat: &Vec<u8>) -> (r: bool)
    requires
        start <= end <= data@.len(),
    ensures
        r == (data@.subrange(start as int, end as int) == pat@),
{
    if end - start != pat.len() {
        proof {
            assert(data@.subrange(start as int, end as int).len() == end - start);
        }
        return false;
    }
    let mut i: usize = 0;
    while i < pat.len()
        invariant
            start <= end <= data@.len(),
            end - start == pat@.len(),
            i <= pat@.len(),
            forall|k: int| 0 <= k < i ==> data@[start + k] == pat@[k],
        decreases pat@.len() - i,
    {
        if data[start + i] != pat[i] {
            proof {
                assert(data@.subrange(start as int, end as int)[i as int] == data@[start + i]);
                assert(data@.subrange(start as int, end as int) != pat@);
            }
            return false;
        }
        i = i + 1;
    }
    proof {
        assert(data@.subrange(start as int, end as int) =~= pat@);
    }
    true
}

/// Copies a range of the stream into an owned buffer.
fn copy_range(data: &Vec<u8>, start: usize, end: usize) -> (v: Vec<u8>)
    requires
        start <= end <= data@.len(),
    ensures
        v@ == data@.subrange(start as int, end as int),
{
    let mut v: Vec<u8> = Vec::new();
    let mut i: usize = start;
    while i < end
        invariant
            start <= i <= end <= data@.len(),
            v@.len() == i - start,
            forall|k: int| 0 <= k < v@.len() ==> v@[k] == data@[start + k],
        decreases end - i,
    {
        v.push(data[i]);
        i = i + 1;
    }
    proof {
        assert(v@ =~= data@.subrange(start as int, end as int));
    }
    v
}

/// Whether the byte is resolution-line whitespace.
fn is_space_x(b: u8) -> (r: bool)
    ensures
        r == is_space(b),
{
    b == 32 || (9 <= b && b <= 13)
}

/// Finds the first byte at or after `i` that is not whitespace.
fn skip_spaces_x(line: &Vec<u8>, i: usize) -> (r: usize)
    requires
        i <= line@.len(),
    ensures
        r == skip_spaces(line@, i as int),
        i <= r <= line@.len(),
{
    let mut j: usize = i;
    while j < line.len() && is_space_x(line[j])
        invariant
            i <= j <= line@.len(),
            skip_spaces(line@, i as int) == skip_spaces(line@, j as int),
        decreases line@.len() - j,
    {
        proof {
            assert(skip_spaces(line@, j as int) == skip_spaces(line@, j + 1));
        }
        j = j + 1;
    }
    proof {
        assert(skip_spaces(line@, j as int) == j);
    }
    j
}

/// Finds the end of the whitespace-separated field that starts at `i`.
fn token_end_x(line: &Vec<u8>, i: usize) -> (r: usize)
    requires
        i <= line@.len(),
    ensures
        r == token_end(line@, i as int),
        i <= r <= line@.len(),
{
    let mut j: usize = i;
    while j < line.len() && !is_space_x(line[j])
        invariant
            i <= j <= line@.len(),
            token_end(line@, i as int) == token_end(line@, j as int),
        decreases line@.len() - j,
    {
        proof {
            assert(token_end(line@, j as int) == token_end(line@, j + 1));
        }
        j = j + 1;
    }
    proof {
        assert(token_end(line@, j as int) == j);
    }
    j
}

/// Reads the decimal value of the field `line[start..end]`, or `None` when
/// the field is not a decimal number that fits the machine's word.
fn parse_usize_token(line: &Vec<u8>, start: usize, end: usize) -> (r: Option<usize>)
    requires
        start <= end <= line@.len(),
    ensures
        ({
            let t = line@.subrange(start as int, end as int);
            match r {
                Option::Some(v) => parses_as_usize(t) && v == token_value(t),
                Option::None => !parses_as_usize(t),
            }
        }),
{
    let ghost t = line@.subrange(start as int, end as int);
    let mut i: usize = start;
    if i < end && line[i] == 43 {
        i = i + 1;
    }
    let ghost ns: int = i as int;
    let ghost d = numeric_part(t);
    proof {
        assert(d =~= line@.subrange(ns, end as int));
    }
    if i == end {
        return Option::None;
    }
    let mut acc: usize = 0;
    while i < end
        invariant
            ns <= i <= end <= line@.len(),
            0 <= ns,
            d == line@.subrange(ns, end as int),
            d == numeric_part(t),
            t == line@.subrange(start as int, end as int),
            all_digits(d.subrange(0, i - ns)),
            acc == digits_value(d.subrange(0, i - ns)),
        decreases end - i,
    {
        let b = line[i];
        if !(48 <= b && b <= 57) {
            proof {
                assert(d[i - ns] == b);
            }
            return Option::None;
        }
        proof {
            assert(d.subrange(0, i - ns + 1).drop_last() =~= d.subrange(0, i - ns));
            assert(d.subrange(0, i - ns + 1).last() == b);
        }
        let next_acc: usize = match acc.checked_mul(10) {
            Option::Some(m) => match m.checked_add((b - 48) as usize) {
                Option::Some(s) => s,
                Option::None => {
                    proof {
                        lemma_digits_prefix_le(d, i - ns + 1);
                    }
                    return Option::None;
                },
            },
            Option::None => {
                proof {
                    lemma_digits_prefix_le(d, i - ns + 1);
                }
                return Option::None;
            },
        };
        acc = next_acc;
        i = i + 1;
    }
    proof {
        assert(d.subrange(0, end - ns) =~= d);
    }
    Option::Some(acc)
}

/// A repeat run is marked by a count byte above 128; its low seven bits give
/// the number of copies of the byte that follows.
pub const REPEAT_RUN_THRESHOLD: u8 = 128;

/// Decodes run-length records starting at `pos` until `remaining` bytes of
/// one component plane are produced.  A count byte above 128 is a repeat run
/// of `count - 128` copies of the following byte; otherwise it is a literal
/// run of `count` bytes taken verbatim.  Yields the plane's bytes and the
/// position after its last record, or `None` when a run would overrun the
/// scanline or the stream ends inside a record.
pub open spec fn spec_decode_plane(data: Seq<u8>, pos: int, remaining: nat) -> Option<
    (Seq<u8>, int),
>
    decreases data.len() - pos,
{
    if remaining == 0 {
        Option::Some((Seq::empty(), pos))
    } else if !(0 <= pos < data.len()) {
        Option::None
    } else {
        let c = data[pos];
        if c > REPEAT_RUN_THRESHOLD {
            let n = (c - REPEAT_RUN_THRESHOLD) as nat;
            if n > remaining || pos + 2 > data.len() {
                Option::None
            } else {
                match spec_decode_plane(data, pos + 2, (remaining - n) as nat) {
                    Option::None => Option::None,
                    Option::Some((rest, end)) => Option::Some(
                        (Seq::new(n, |k: int| data[pos + 1]) + rest, end),
                    ),
                }
            }
        } else {
            let n = c as nat;
            if n > remaining || pos + 1 + n > data.len() {
                Option::None
            } else {
                match spec_decode_plane(data, pos + 1 + n, (remaining - n) as nat) {
                    Option::None => Option::None,
                    Option::Some((rest, end)) => Option::Some(
                        (data.subrange(pos + 1, pos + 1 + n) + rest, end),
                    ),
                }
            }
        }
    }
}

/// `spec_decode_plane` with `done` already produced by earlier records; the
/// shape of the loop invariant of the executable decoder.
pub open spec fn plane_step(data: Seq<u8>, done: Seq<u8>, pos: int, remaining: nat) -> Option<
    (Seq<u8>, int),
> {
    match spec_decode_plane(data, pos, remaining) {
        Option::None => Option::None,
        Option::Some((rest, end)) => Option::Some((done + rest, end)),
    }
}

/// Consuming one record of the plane moves its bytes from the pending part to
/// the finished part.
proof fn lemma_plane_step_extend(
    data: Seq<u8>,
    done: Seq<u8>,
    run: Seq<u8>,
    pos: int,
    pos2: int,
    rem: nat,
    rem2: nat,
)
    requires
        spec_decode_plane(data, pos, rem) == (match spec_decode_plane(data, pos2, rem2) {
            Option::None => Option::None::<(Seq<u8>, int)>,
            Option::Some((rest, end)) => Option::Some((run + rest, end)),
        }),
    ensures
        plane_step(data, done, pos, rem) == plane_step(data, done + run, pos2, rem2),
{
    match spec_decode_plane(data, pos2, rem2) {
        Option::Some((rest, end)) => {
            assert(done + (run + rest) =~= (done + run) + rest);
        },
        Option::None => {},
    }
}

/// Decodes one component plane of `width` bytes starting at `pos`.
///
/// Returns the plane and the position after it exactly when the model
/// `spec_decode_plane` does; a malformed or truncated record is a
/// `DecodeError`.
fn decode_plane(data: &Vec<u8>, pos: usize, width: usize) -> (r: Result<(Vec<u8>, usize), HdrError>)
    requires
        pos <= data@.len(),
    ensures
        match r {
            Ok(pair) => spec_decode_plane(data@, pos as int, width as nat) == Option::Some(
                (pair.0@, pair.1 as int),
            ) && pair.1 <= data@.len() && pair.0@.len() == width,
            Err(e) => spec_decode_plane(data@, pos as int, width as nat) is None && e
                == HdrError::DecodeError,
        },
{
    let mut out: Vec<u8> = Vec::new();
    let mut cur: usize = pos;
    while out.len() < width
        invariant
            pos <= cur <= data@.len(),
            out@.len() <= width,
            spec_decode_plane(data@, pos as int, width as nat) == plane_step(
                data@,
                out@,
                cur as int,
                (width - out@.len()) as nat,
            ),
        decreases data@.len() - cur,
    {
        let ghost prefix = out@;
        let ghost cur0: int = cur as int;
        let ghost rem0: nat = (width - out@.len()) as nat;
        if cur == data.len() {
            return Err(HdrError::DecodeError);
        }
        let count = data[cur];
        if count > REPEAT_RUN_THRESHOLD {
            let n = (count - REPEAT_RUN_THRESHOLD) as usize;
            if n > width - out.len() || cur + 1 == data.len() {
                return Err(HdrError::DecodeError);
            }
            let value = data[cur + 1];
            let mut k: usize = 0;
            while k < n
                invariant
                    k <= n,
                    out@ == prefix + Seq::new(k as nat, |i: int| value),
                decreases n - k,
            {
                proof {
                    assert(prefix + Seq::new((k + 1) as nat, |i: int| value) =~= (prefix + Seq::new(
                        k as nat,
                        |i: int| value,
                    )).push(value));
                }
                out.push(value);
                k = k + 1;
            }
            let ghost run = Seq::new(n as nat, |i: int| value);
            proof {
                assert(run =~= Seq::new((data@[cur0] - REPEAT_RUN_THRESHOLD) as nat, |i: int|
                    data@[cur0 + 1]));
                lemma_plane_step_extend(
                    data@,
                    prefix,
                    run,
                    cur0,
                    cur0 + 2,
                    rem0,
                    (rem0 - n) as nat,
                );
            }
            cur = cur + 2;
        } else {
            let n = count as usize;
            if n > width - out.len() || n > data.len() - (cur + 1) {
                return Err(HdrError::DecodeError);
            }
            let dlen = data.len();
            let mut k: usize = 0;
            while k < n
                invariant
                    k <= n,
                    pos <= cur,
                    dlen == data@.len(),
                    cur + 1 + n <= dlen,
                    out@ == prefix + data@.subrange(cur as int + 1, cur as int + 1 + k),
                decreases n - k,
            {
                proof {
                    assert(prefix + data@.subrange(cur as int + 1, cur as int + 1 + (k + 1)) =~= (
                    prefix + data@.subrange(cur as int + 1, cur as int + 1 + k)).push(
                        data@[cur as int + 1 + k],
                    ));
                }
                out.push(data[cur + 1 + k]);
                k = k + 1;
            }
            let ghost run = data@.subrange(cur0 + 1, cur0 + 1 + n);
            proof {
                lemma_plane_step_extend(
                    data@,
                    prefix,
                    run,
                    cur0,
                    cur0 + 1 + n,
                    rem0,
                    (rem0 - n) as nat,
                );
            }
            cur = cur + 1 + n;
        }
    }
    proof {
        assert(spec_decode_plane(data@, cur as int, 0) == Option::Some(
            (Seq::<u8>::empty(), cur as int),
        ));
        assert(out@ + Seq::<u8>::empty() =~= out@);
    }
    Ok((out, cur))
}

/// Decodes one scanline of `width` pixels starting at `pos`: the two marker
/// bytes of the adaptive run-length format (the big-endian word `0x0202`),
/// the big-endian scanline width, which must equal the picture width, then
/// the four component planes in fixed order (red, green, blue, exponent),
/// each spanning the whole scanline.  Yields the pixels of the row and the
/// position after the scanline.
pub open spec fn spec_decode_scanline(data: Seq<u8>, pos: int, width: nat) -> Option<
    (Seq<Rgbe>, int),
> {
    if pos < 0 || pos + 4 > data.len() {
        Option::None
    } else if data[pos] * 256 + data[pos + 1] != 0x0202 {
        Option::None
    } else if data[pos + 2] * 256 + data[pos + 3] != width {
        Option::None
    } else {
        match spec_decode_plane(data, pos + 4, width) {
            Option::None => Option::None,
            Option::Some((red, p1)) => match spec_decode_plane(data, p1, width) {
                Option::None => Option::None,
                Option::Some((green, p2)) => match spec_decode_plane(data, p2, width) {
                    Option::None => Option::None,
                    Option::Some((blue, p3)) => match spec_decode_plane(data, p3, width) {
                        Option::None => Option::None,
                        Option::Some((exps, p4)) => Option::Some(
                            (
                                Seq::new(
                                    width,
                                    |x: int|
                                        Rgbe {
                                            r: red[x],
                                            g: green[x],
                                            b: blue[x],
                                            e: exps[x],
                                        },
                                ),
                                p4,
                            ),
                        ),
                    },
                },
            },
        }
    }
}

/// Decodes one scanline of `width` pixels starting at `pos`.
///
/// Returns the row and the position after it exactly when the model
/// `spec_decode_scanline` does; a bad marker, a mismatched scanline width or
/// a malformed run is a `DecodeError`.
pub fn unpack_rle_scanline(data: &Vec<u8>, pos: usize, width: usize) -> (r: Result<
    (Vec<Rgbe>, usize),
    HdrError,
>)
    requires
        pos <= data@.len(),
    ensures
        match r {
            Ok(pair) => spec_decode_scanline(data@, pos as int, width as nat) == Option::Some(
                (pair.0@, pair.1 as int),
            ) && pair.1 <= data@.len() && pair.0@.len() == width,
            Err(e) => spec_decode_scanline(data@, pos as int, width as nat) is None && e
                == HdrError::DecodeError,
        },
{
    if data.len() - pos < 4 {
        return Err(HdrError::DecodeError);
    }
    let marker: u32 = (data[pos] as u32) * 256 + (data[pos + 1] as u32);
    if marker != 0x0202 {
        return Err(HdrError::DecodeError);
    }
    let scanline_width: u32 = (data[pos + 2] as u32) * 256 + (data[pos + 3] as u32);
    if scanline_width as usize != width {
        return Err(HdrError::DecodeError);
    }
    let red_plane = match decode_plane(data, pos + 4, width) {
        Ok(t) => t,
        Err(_) => {
            return Err(HdrError::DecodeError);
        },
    };
    let green_plane = match decode_plane(data, red_plane.1, width) {
        Ok(t) => t,
        Err(_) => {
            return Err(HdrError::DecodeError);
        },
    };
    let blue_plane = match decode_plane(data, green_plane.1, width) {
        Ok(t) => t,
        Err(_) => {
            return Err(HdrError::DecodeError);
        },
    };
    let exp_plane = match decode_plane(data, blue_plane.1, width) {
        Ok(t) => t,
        Err(_) => {
            return Err(HdrError::DecodeError);
        },
    };
    let red = red_plane.0;
    let green = green_plane.0;
    let blue = blue_plane.0;
    let exps = exp_plane.0;
    let mut pixels: Vec<Rgbe> = Vec::new();
    let mut x: usize = 0;
    while x < width
        invariant
            x <= width,
            pixels@.len() == x,
            red@.len() == width,
            green@.len() == width,
            blue@.len() == width,
            exps@.len() == width,
            forall|k: int|
                0 <= k < x ==> pixels@[k] == (Rgbe {
                    r: red@[k],
                    g: green@[k],
                    b: blue@[k],
                    e: exps@[k],
                }),
        decreases width - x,
    {
        pixels.push(Rgbe { r: red[x], g: green[x], b: blue[x], e: exps[x] });
        x = x + 1;
    }
    proof {
        assert(pixels@ =~= Seq::new(
            width as nat,
            |x: int| Rgbe { r: red@[x], g: green@[x], b: blue@[x], e: exps@[x] },
        ));
    }
    Ok((pixels, exp_plane.1))
}

impl Header {
    /// Parses the header of a Radiance stream.
    ///
    /// Returns the picture dimensions and the position where the pixel body
    /// starts, exactly when the model `spec_parse_header` accepts the stream;
    /// any malformed header field is a `FormatError`.
    pub fn parse_header(data: &Vec<u8>) -> (r: Result<(Header, usize), HdrError>)
        ensures
            match r {
                Ok(pair) => spec_parse_header(data@) == Option::Some(
                    ((pair.0.width as int, pair.0.height as int, pair.1 as int)),
                ) && pair.1 <= data@.len(),
                Err(e) => spec_parse_header(data@) is None && e == HdrError::FormatError,
            },
    {
        let ce0 = find_content_end(data, 0);
        let sig = signature_vec();
        if !range_eq(data, 0, ce0, &sig) {
            return Err(HdrError::FormatError);
        }
        let fmt_prefix = format_prefix_vec();
        let fmt_line = format_line_vec();
        let mut pos: usize = find_next_line(data, 0);
        let mut seen: bool = false;
        loop
            invariant_except_break
                pos <= data@.len(),
                fmt_prefix@ == format_prefix(),
                fmt_line@ == format_line(),
                spec_parse_header(data@) == header_after_scan(
                    data@,
                    scan_header_lines(data@, pos as int, seen),
                ),
            ensures
                pos <= data@.len(),
                spec_parse_header(data@) == header_after_scan(
                    data@,
                    Option::Some((pos as int, seen)),
                ),
            decreases data@.len() - pos,
        {
            if pos == data.len() {
                proof {
                    assert(scan_header_lines(data@, pos as int, seen) is None);
                }
                return Err(HdrError::FormatError);
            }
            let ce = find_content_end(data, pos);
            let next = find_next_line(data, pos);
            if ce == pos {
                proof {
                    assert(scan_header_lines(data@, pos as int, seen) == Option::Some(
                        (next as int, seen),
                    ));
                }
                pos = next;
                break;
            }
            proof {
                assert(format_prefix().len() == 7);
            }
            if ce - pos >= 7 && range_eq(data, pos, pos + 7, &fmt_prefix) {
                if range_eq(data, pos, ce, &fmt_line) {
                    proof {
                        assert(scan_header_lines(data@, pos as int, seen) == scan_header_lines(
                            data@,
                            next as int,
                            true,
                        ));
                    }
                    seen = true;
                    pos = next;
                } else {
                    proof {
                        assert(scan_header_lines(data@, pos as int, seen) is None);
                    }
                    return Err(HdrError::FormatError);
                }
            } else {
                proof {
                    assert(scan_header_lines(data@, pos as int, seen) == scan_header_lines(
                        data@,
                        next as int,
                        seen,
                    ));
                }
                pos = next;
            }
        }
        if !seen {
            return Err(HdrError::FormatError);
        }
        let le = find_line_end(data, pos);
        let line = copy_range(data, pos, le);
        let ghost l = data@.subrange(pos as int, line_end(data@, pos as int));
        let s0 = skip_spaces_x(&line, 0);
        let e0 = token_end_x(&line, s0);
        let s1 = skip_spaces_x(&line, e0);
        let e1 = token_end_x(&line, s1);
        let s2 = skip_spaces_x(&line, e1);
        let e2 = token_end_x(&line, s2);
        let s3 = skip_spaces_x(&line, e2);
        let e3 = token_end_x(&line, s3);
        proof {
            assert(line@ == l);
            assert(token_start(l, 0) == skip_spaces(l, 0));
            assert(token_start(l, 1) == skip_spaces(l, token_end(l, token_start(l, 0))));
            assert(token_start(l, 2) == skip_spaces(l, token_end(l, token_start(l, 1))));
            assert(token_start(l, 3) == skip_spaces(l, token_end(l, token_start(l, 2))));
        }
        if s1 == line.len() || s3 == line.len() {
            return Err(HdrError::FormatError);
        }
        let height = match parse_usize_token(&line, s1, e1) {
            Option::Some(v) => v,
            Option::None => {
                return Err(HdrError::FormatError);
            },
        };
        let width = match parse_usize_token(&line, s3, e3) {
            Option::Some(v) => v,
            Option::None => {
                return Err(HdrError::FormatError);
            },
        };
        let body = find_next_line(data, pos);
        Ok((Header { width, height }, body))
    }
}

/// Decodes `rows` consecutive scanlines of `width` pixels starting at `pos`.
/// Bytes after the last scanline are ignored.
pub open spec fn spec_decode_scanlines(data: Seq<u8>, pos: int, width: nat, rows: nat) -> Option<
    Seq<Seq<Rgbe>>,
>
    decreases rows,
{
    if rows == 0 {
        Option::Some(Seq::empty())
    } else {
        match spec_decode_scanline(data, pos, width) {
            Option::None => Option::None,
            Option::Some((row, p)) => match spec_decode_scanlines(
                data,
                p,
                width,
                (rows - 1) as nat,
            ) {
                Option::None => Option::None,
                Option::Some(rest) => Option::Some(seq![row] + rest),
            },
        }
    }
}

/// `spec_decode_scanlines` with `done` rows already decoded; the shape of the
/// loop invariant of the executable decoder.
pub open spec fn scanlines_step(
    data: Seq<u8>,
    done: Seq<Seq<Rgbe>>,
    pos: int,
    width: nat,
    rows: nat,
) -> Option<Seq<Seq<Rgbe>>> {
    match spec_decode_scanlines(data, pos, width, rows) {
        Option::None => Option::None,
        Option::Some(rest) => Option::Some(done + rest),
    }
}

/// What a whole Radiance stream decodes to: the header, then one scanline per
/// row of the picture.  Yields width, height and the rows.
pub open spec fn spec_decode_hdr(data: Seq<u8>) -> Option<(int, int, Seq<Seq<Rgbe>>)> {
    match spec_parse_header(data) {
        Option::None => Option::None,
        Option::Some((w, h, body)) => match spec_decode_scanlines(
            data,
            body,
            w as nat,
            h as nat,
        ) {
            Option::None => Option::None,
            Option::Some(rows) => Option::Some((w, h, rows)),
        },
    }
}

/// Decodes a whole Radiance stream into a raster of RGBE pixels.
///
/// Succeeds exactly when the model `spec_decode_hdr` accepts the stream, and
/// then returns its rows laid out row-major; a malformed header is a
/// `FormatError`, a malformed pixel body a `DecodeError`.
#[verifier::rlimit(60)]
pub fn decode_hdr(data: &Vec<u8>) -> (r: Result<RgbeImage, HdrError>)
    ensures
        match r {
            Ok(img) => ({
                &&& img.wf()
                &&& spec_decode_hdr(data@) matches Option::Some((w, h, rows)) && img.width == w
                    && img.height == h && (forall|x: int, y: int|
                    0 <= x < w && 0 <= y < h ==> img.spec_pixel(x, y) == rows[y][x])
            }),
            Err(e) => spec_decode_hdr(data@) is None && (match spec_parse_header(data@) {
                Option::None => e == HdrError::FormatError,
                Option::Some(_) => e == HdrError::DecodeError,
            }),
        },
{
    let parsed = match Header::parse_header(data) {
        Ok(t) => t,
        Err(e) => {
            return Err(e);
        },
    };
    let header = parsed.0;
    let body = parsed.1;
    let width = header.width;
    let height = header.height;
    let mut pixels: Vec<Rgbe> = Vec::new();
    let ghost mut rows_done: Seq<Seq<Rgbe>> = Seq::empty();
    let mut cur: usize = body;
    let mut y: usize = 0;
    while y < height
        invariant
            y <= height,
            cur <= data@.len(),
            spec_parse_header(data@) == Option::Some((width as int, height as int, body as int)),
            rows_done.len() == y,
            forall|j: int| 0 <= j < y ==> #[trigger] rows_done[j].len() == width,
            pixels@.len() == y * width,
            forall|j: int, x: int|
                0 <= j < y && 0 <= x < width ==> pixels@[x + j * width] == rows_done[j][x],
            spec_decode_scanlines(data@, body as int, width as nat, height as nat)
                == scanlines_step(
                data@,
                rows_done,
                cur as int,
                width as nat,
                (height - y) as nat,
            ),
        decreases height - y,
    {
        let decoded = match unpack_rle_scanline(data, cur, width) {
            Ok(t) => t,
            Err(_) => {
                return Err(HdrError::DecodeError);
            },
        };
        let row = decoded.0;
        let next = decoded.1;
        let ghost pixels0 = pixels@;
        let mut x: usize = 0;
        while x < width
            invariant
                x <= width,
                row@.len() == width,
                pixels@ == pixels0 + row@.subrange(0, x as int),
            decreases width - x,
        {
            proof {
                assert(pixels0 + row@.subrange(0, x + 1) =~= (pixels0 + row@.subrange(
                    0,
                    x as int,
                )).push(row@[x as int]));
            }
            pixels.push(row[x]);
            x = x + 1;
        }
        proof {
            assert(pixels@ == pixels0 + row@) by {
                assert(row@.subrange(0, width as int) =~= row@);
            }
            assert(spec_decode_scanlines(
                data@,
                cur as int,
                width as nat,
                (height - y) as nat,
            ) == (match spec_decode_scanlines(
                data@,
                next as int,
                width as nat,
                (height - (y + 1)) as nat,
            ) {
                Option::None => Option::None::<Seq<Seq<Rgbe>>>,
                Option::Some(rest) => Option::Some(seq![row@] + rest),
            }));
            match spec_decode_scanlines(
                data@,
                next as int,
                width as nat,
                (height - (y + 1)) as nat,
            ) {
                Option::Some(rest) => {
                    assert(rows_done + (seq![row@] + rest) =~= rows_done.push(row@) + rest);
                },
                Option::None => {},
            }
            // every new pixel lands in the slot row-major addressing expects
            assert forall|j: int, x2: int|
                0 <= j < y + 1 && 0 <= x2 < width implies (pixels0 + row@)[x2 + j * width]
                == rows_done.push(row@)[j][x2] by {
                if j < y {
                    lemma_row_major_index_bound(x2, j, width as int, y as int);
                    assert(x2 + j * width < y * width) by (nonlinear_arith)
                        requires
                            0 <= x2 < width,
                            0 <= j < y,
                    {
                    }
                    assert((pixels0 + row@)[x2 + j * width] == pixels0[x2 + j * width]);
                } else {
                    assert(x2 + j * width == pixels0.len() + x2);
                }
            }
            assert((y + 1) * width == y * width + width) by (nonlinear_arith);
            rows_done = rows_done.push(row@);
        }
        cur = next;
        y = y + 1;
    }
    proof {
        assert(spec_decode_scanlines(data@, cur as int, width as nat, 0) == Option::Some(
            Seq::<Seq<Rgbe>>::empty(),
        ));
        assert(rows_done + Seq::<Seq<Rgbe>>::empty() =~= rows_done);
    }
    let img = RgbeImage { pixels, width, height };
    proof {
        assert(height * width == width * height) by (nonlinear_arith);
        assert(img.wf());
    }
    Ok(img)
}

/// Whether the line starting at `p` is one of the header lines scanned from
/// `pos`: it is reached from `pos` by stepping over non-blank lines.
pub open spec fn header_line_reached(data: Seq<u8>, pos: int, p: int) -> bool
    decreases data.len() - pos,
    via header_line_reached_decreases
{
    if !(0 <= pos < data.len()) {
        false
    } else if pos == p {
        true
    } else if content_end(data, pos) == pos {
        false
    } else {
        header_line_reached(data, next_line_start(data, pos), p)
    }
}

#[via_fn]
proof fn header_line_reached_decreases(data: Seq<u8>, pos: int, p: int) {
    if 0 <= pos < data.len() {
        lemma_line_end_bounds(data, pos);
    }
}

/// A header scan that meets a format declaration with the wrong value
/// rejects the stream, wherever in the header that line stands.
proof fn lemma_scan_rejects_bad_format(data: Seq<u8>, pos: int, seen_format: bool, p: int)
    requires
        header_line_reached(data, pos, p),
        content_end(data, p) - p >= format_prefix().len(),
        data.subrange(p, p + format_prefix().len() as int) == format_prefix(),
        data.subrange(p, content_end(data, p)) != format_line(),
    ensures
        scan_header_lines(data, pos, seen_format) is None,
    decreases data.len() - pos,
{
    lemma_line_end_bounds(data, pos);
    if pos == p {
        // the line at p is not blank, and its declared format is wrong
        assert(content_end(data, p) != p);
    } else {
        let ce = content_end(data, pos);
        let next = next_line_start(data, pos);
        if ce - pos >= format_prefix().len() && data.subrange(
            pos,
            pos + format_prefix().len(),
        ) == format_prefix() {
            if data.subrange(pos, ce) == format_line() {
                lemma_scan_rejects_bad_format(data, next, true, p);
            }
        } else {
            lemma_scan_rejects_bad_format(data, next, seen_format, p);
        }
    }
}

/// A stream whose first line is not the Radiance signature parses to no
/// header, so decoding rejects it with a `FormatError`.
pub proof fn lemma_bad_signature_rejected(data: Seq<u8>)
    requires
        data.subrange(0, content_end(data, 0)) != signature(),
    ensures
        spec_parse_header(data) is None,
        spec_decode_hdr(data) is None,
{
}

/// A stream whose header holds a format declaration with any value other
/// than `32-bit_rle_rgbe` parses to no header, so decoding rejects it with a
/// `FormatError`.
pub proof fn lemma_bad_format_rejected(data: Seq<u8>, p: int)
    requires
        header_line_reached(data, next_line_start(data, 0), p),
        content_end(data, p) - p >= format_prefix().len(),
        data.subrange(p, p + format_prefix().len() as int) == format_prefix(),
        data.subrange(p, content_end(data, p)) != format_line(),
    ensures
        spec_parse_header(data) is None,
        spec_decode_hdr(data) is None,
{
    if data.subrange(0, content_end(data, 0)) == signature() {
        lemma_scan_rejects_bad_format(data, next_line_start(data, 0), false, p);
    }
}

/// A stream whose header parses but whose first scanline does not begin with
/// the adaptive RLE marker word `0x0202` decodes to no picture, so decoding
/// rejects it with a `DecodeError`.
pub proof fn lemma_bad_marker_rejected(data: Seq<u8>)
    requires
        spec_parse_header(data) matches Option::Some((w, h, body)) && h >= 1 && !(body + 4
            <= data.len() && data[body] * 256 + data[body + 1] == 0x0202),
    ensures
        spec_decode_hdr(data) is None,
{
    match spec_parse_header(data) {
        Option::Some((w, h, body)) => {
            assert(spec_decode_scanline(data, body, w as nat) is None);
            assert(spec_decode_scanlines(data, body, w as nat, h as nat) is None);
        },
        Option::None => {},
    }
}

/// One repeat run whose count byte is `128 + n` yields exactly `n` copies of
/// the byte that follows it: the whole of a plane of width `n`.
pub proof fn lemma_repeat_run_plane(data: Seq<u8>, pos: int, n: u8)
    requires
        1 <= n <= 127,
        0 <= pos,
        pos + 2 <= data.len(),
        data[pos] == n + 128,
    ensures
        spec_decode_plane(data, pos, n as nat) == Option::Some(
            (Seq::new(n as nat, |k: int| data[pos + 1]), pos + 2),
        ),
{
    assert(spec_decode_plane(data, pos + 2, 0) == Option::Some((Seq::<u8>::empty(), pos + 2)));
    assert(Seq::new(n as nat, |k: int| data[pos + 1]) + Seq::<u8>::empty() =~= Seq::new(
        n as nat,
        |k: int| data[pos + 1],
    ));
}

} // verus!
