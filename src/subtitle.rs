use vstd::prelude::*;
use std::sync::Arc;
use crate::frame::Frame;
use vstd::string::StringSliceAdditionalSpecFns;

verus! {

/// Which of the two overlay regions a subtitle occupies.
#[derive(Clone, Copy, Debug, PartialEq, Eq, Structural)]
pub enum SubtitleType {
    /// Anchored to the bottom of the frame.
    Major,
    /// Anchored to the top of the frame.
    Minor,
}

/// A subtitle bitmap shown on frames `begin_flap..=end_flap` (counted from 1).
pub struct Subtitle {
    pub subtitle_type: SubtitleType,
    pub id: u64,
    pub begin_flap: u64,
    pub end_flap: u64,
    pub data: Arc<Frame>,
}

/// The metadata that a subtitle file's name carries.
#[derive(Clone, Copy, Debug, PartialEq, Eq, Structural)]
pub struct SubtitleName {
    pub subtitle_type: SubtitleType,
    pub id: u64,
    pub begin_flap: u64,
    pub end_flap: u64,
}

/// Why loading the subtitle files failed.
#[derive(Debug)]
pub enum LoadError {
    /// A file name of the subtitle form carries a number that does not fit in 64 bits.
    Config { file: String },
    /// The directory could not be read.
    Io { message: String },
    /// A subtitle file could not be decoded into a bitmap.
    MediaDecode { file: String },
}

pub open spec fn is_digit(c: u8) -> bool {
    48 <= c <= 57
}

/// End of the run of decimal digits of `b` that starts at `i`.
pub open spec fn digits_end(b: Seq<u8>, i: int) -> int
    decreases b.len() - i,
{
    if 0 <= i < b.len() && is_digit(b[i]) {
        digits_end(b, i + 1)
    } else {
        i
    }
}

/// The number that the decimal digits `d` spell.
pub open spec fn decimal(d: Seq<u8>) -> nat
    decreases d.len(),
{
    if d.len() == 0 {
        0
    } else {
        decimal(d.drop_last()) * 10 + (d.last() - 48) as nat
    }
}

/// `major` or `minor`.
pub open spec fn category_word(t: SubtitleType) -> Seq<u8> {
    match t {
        SubtitleType::Major => seq![109u8, 97, 106, 111, 114],
        SubtitleType::Minor => seq![109u8, 105, 110, 111, 114],
    }
}

/// `-subtitle-`
pub open spec fn infix_word() -> Seq<u8> {
    seq![45u8, 115, 117, 98, 116, 105, 116, 108, 101, 45]
}

/// `.png`
pub open spec fn suffix_word() -> Seq<u8> {
    seq![46u8, 112, 110, 103]
}

/// The type and the three digit runs of a name
/// `<major|minor>-subtitle-<id>-<begin>-<end>.png`, or `None` for any other name.
pub open spec fn name_fields(b: Seq<u8>) -> Option<(SubtitleType, Seq<u8>, Seq<u8>, Seq<u8>)> {
    let i1 = digits_end(b, 15);
    let i2 = digits_end(b, i1 + 1);
    let i3 = digits_end(b, i2 + 1);
    let t = if b.len() >= 5 && b.take(5) == category_word(SubtitleType::Major) {
        Some(SubtitleType::Major)
    } else if b.len() >= 5 && b.take(5) == category_word(SubtitleType::Minor) {
        Some(SubtitleType::Minor)
    } else {
        None
    };
    if t.is_some() && b.len() >= 15 && b.subrange(5, 15) == infix_word() && 15 < i1 < b.len() && b[i1]
        == 45 && i1 + 1 < i2 < b.len() && b[i2] == 45 && i2 + 1 < i3 && i3 + 4 == b.len() && b.subrange(
        i3,
        b.len() as int,
    ) == suffix_word() {
        Some((t.unwrap(), b.subrange(15, i1), b.subrange(i1 + 1, i2), b.subrange(i2 + 1, i3)))
    } else {
        None
    }
}

/// What reading the name `name` gives: `Ok(None)` for a name not of the
/// subtitle form, a `Config` error naming the file when one of its numbers
/// does not fit in 64 bits, else its metadata.
pub open spec fn name_result(name: &str, r: Result<Option<SubtitleName>, LoadError>) -> bool {
    match name_fields(name.spec_bytes()) {
        None => r matches Ok(None),
        Some((t, d1, d2, d3)) => if decimal(d1) <= u64::MAX && decimal(d2) <= u64::MAX && decimal(d3)
            <= u64::MAX {
            r == Ok::<Option<SubtitleName>, LoadError>(
                Some(
                    SubtitleName {
                        subtitle_type: t,
                        id: decimal(d1) as u64,
                        begin_flap: decimal(d2) as u64,
                        end_flap: decimal(d3) as u64,
                    },
                ),
            )
        } else {
            r matches Err(LoadError::Config { file }) && file@ == name@
        },
    }
}

fn word_at(b: &[u8], i: usize, word: &[u8]) -> (r: bool)
    ensures
        r == (i + word@.len() <= b@.len() && b@.subrange(i as int, i + word@.len()) == word@),
{
    let blen = b.len();
    if word.len() > blen || i > blen - word.len() {
        return false;
    }
    let mut k: usize = 0;
    while k < word.len()
        invariant
            b@.len() == blen,
            k <= word@.len(),
            i + word@.len() <= b@.len(),
            forall|m: int| 0 <= m < k ==> b@[i + m] == word@[m],
        decreases word@.len() - k,
    {
        if b[i + k] != word[k] {
            assert(b@.subrange(i as int, i + word@.len())[k as int] != word@[k as int]);
            return false;
        }
        k += 1;
    }
    assert(b@.subrange(i as int, i + word@.len()) =~= word@);
    true
}

fn scan_digits(b: &[u8], start: usize) -> (r: usize)
    requires
        start <= b@.len(),
    ensures
        r == digits_end(b@, start as int),
        start <= r <= b@.len(),
        forall|k: int| start <= k < r ==> is_digit(#[trigger] b@[k]),
{
    let mut i = start;
    while i < b.len() && b[i] >= 48 && b[i] <= 57
        invariant
            start <= i <= b@.len(),
            digits_end(b@, i as int) == digits_end(b@, start as int),
            forall|k: int| start <= k < i ==> is_digit(#[trigger] b@[k]),
        decreases b@.len() - i,
    {
        i += 1;
    }
    i
}

proof fn lemma_decimal_grows(s: Seq<u8>, i: int, j: int)
    requires
        0 <= i <= j <= s.len(),
    ensures
        decimal(s.take(i)) <= decimal(s.take(j)),
    decreases j - i,
{
    if i < j {
        lemma_decimal_grows(s, i, j - 1);
        assert(s.take(j).drop_last() =~= s.take(j - 1));
    }
}

/// The number spelled by the digits `b[lo..hi]`, or `None` when it does not fit in 64 bits.
fn parse_decimal(b: &[u8], lo: usize, hi: usize) -> (r: Option<u64>)
    requires
        lo <= hi <= b@.len(),
        forall|k: int| lo <= k < hi ==> is_digit(#[trigger] b@[k]),
    ensures
        match r {
            Some(v) => v == decimal(b@.subrange(lo as int, hi as int)),
            None => decimal(b@.subrange(lo as int, hi as int)) > u64::MAX,
        },
{
    let ghost s = b@.subrange(lo as int, hi as int);
    let mut v: u64 = 0;
    let mut i = lo;
    assert(s.take(0).len() == 0);
    while i < hi
        invariant
            lo <= i <= hi,
            hi <= b@.len(),
            s == b@.subrange(lo as int, hi as int),
            forall|k: int| lo <= k < hi ==> is_digit(#[trigger] b@[k]),
            v == decimal(s.take(i - lo)),
        decreases hi - i,
    {
        let d = (b[i] - 48) as u64;
        assert(s.take(i - lo + 1).drop_last() =~= s.take(i - lo));
        assert(s.take(i - lo + 1).last() == b@[i as int]);
        if v > 1844674407370955161 || (v == 1844674407370955161 && d > 5) {
            proof {
                lemma_decimal_grows(s, i - lo + 1, s.len() as int);
                assert(s.take(s.len() as int) =~= s);
            }
            return None;
        }
        v = v * 10 + d;
        i += 1;
    }
    assert(s.take(hi - lo) =~= s);
    Some(v)
}

/// Reads the metadata from a subtitle file name of the form
/// `<major|minor>-subtitle-<id>-<begin>-<end>.png`. Any other name gives
/// `Ok(None)`; a number too large for 64 bits gives a `Config` error naming the file.
pub fn parse_subtitle_name(name: &str) -> (r: Result<Option<SubtitleName>, LoadError>)
    ensures
        name_result(name, r),
{
    let b = name.as_bytes();
    let major: Vec<u8> = vec![109u8, 97, 106, 111, 114];
    let minor: Vec<u8> = vec![109u8, 105, 110, 111, 114];
    let infix: Vec<u8> = vec![45u8, 115, 117, 98, 116, 105, 116, 108, 101, 45];
    let suffix: Vec<u8> = vec![46u8, 112, 110, 103];
    assert(major@ =~= category_word(SubtitleType::Major));
    assert(minor@ =~= category_word(SubtitleType::Minor));
    assert(infix@ =~= infix_word());
    assert(suffix@ =~= suffix_word());
    let t = if word_at(b, 0, major.as_slice()) {
        SubtitleType::Major
    } else if word_at(b, 0, minor.as_slice()) {
        SubtitleType::Minor
    } else {
        return Ok(None);
    };
    assert(b@.subrange(0, 5) =~= b@.take(5));
    if !word_at(b, 5, infix.as_slice()) {
        return Ok(None);
    }
    let i1 = scan_digits(b, 15);
    if i1 == 15 || i1 >= b.len() || b[i1] != 45 {
        return Ok(None);
    }
    let i2 = scan_digits(b, i1 + 1);
    if i2 == i1 + 1 || i2 >= b.len() || b[i2] != 45 {
        return Ok(None);
    }
    let i3 = scan_digits(b, i2 + 1);
    if i3 == i2 + 1 || b.len() - i3 != 4 || !word_at(b, i3, suffix.as_slice()) {
        return Ok(None);
    }
    let id = parse_decimal(b, 15, i1);
    let begin = parse_decimal(b, i1 + 1, i2);
    let end = parse_decimal(b, i2 + 1, i3);
    match (id, begin, end) {
        (Some(id), Some(begin_flap), Some(end_flap)) => Ok(
            Some(SubtitleName { subtitle_type: t, id, begin_flap, end_flap }),
        ),
        _ => Err(LoadError::Config { file: name.to_owned() }),
    }
}

} // verus!
