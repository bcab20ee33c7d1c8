//! The heading grammar: depth markers, an optional keyword, an optional
//! priority cookie, and the title region with its optional stats cookie, tag
//! list and leftover text.
//!
//! Every parser takes the raw line bytes and reports how many bytes it
//! consumed next to its value, so the caller can continue behind it.  Only
//! the depth scanner can fail the whole parse; every later stage recovers
//! locally by leaving its field absent.

use vstd::prelude::*;

use crate::scan::digits_val;
use crate::scan::digit_run;
use crate::scan::is_alpha_byte;
use crate::scan::is_digit_byte;
use crate::scan::is_marker_byte;
use crate::scan::is_ws_byte;
use crate::scan::lemma_digit_run;
use crate::scan::lemma_digits_val_prefix;
use crate::scan::lemma_run_len_exact;
use crate::scan::lemma_tag_run;
use crate::scan::line_run;
use crate::scan::marker_pred;
use crate::scan::marker_run;
use crate::scan::scan_digits;
use crate::scan::scan_line_bytes;
use crate::scan::scan_markers;
use crate::scan::scan_tag_bytes;
use crate::scan::scan_title_bytes;
use crate::scan::scan_ws;
use crate::scan::tag_run;
use crate::scan::spec_line_byte;
use crate::scan::spec_tag_byte;
use crate::scan::spec_title_byte;
use crate::scan::title_run;
use crate::scan::ws_run;
use crate::tagset::canon_tags;
use crate::tagset::canonical_tag_vec;
use crate::tagset::lemma_canon_tags_order_independent;
use crate::text::bytes_to_string_checked;
use crate::text::lemma_ascii_valid_utf8;
use crate::text::spec_trim;
use crate::text::trim_ws;
use vstd::slice::spec_slice_len;
use vstd::string::StrSliceExecFns;
use vstd::string::StringExecFns;
use vstd::utf8::decode_utf8;
use vstd::utf8::encode_utf8;
use vstd::utf8::valid_utf8;

verus! {

/// How a parse attempt failed.
///
/// Only `StructuralError` (no depth marker, or no separator after the
/// markers) aborts a heading parse; the other three stay local to the
/// sub-grammar that raised them, whose field is then absent.
#[derive(Clone, Copy, Debug, PartialEq, Eq)]
pub enum ParseError {
    /// No leading depth marker, or no whitespace after the marker run.
    StructuralError,
    /// A stats-cookie digit run encodes a value above the target width.
    NumericOverflowError,
    /// A captured byte region is not valid text.
    EncodingError,
    /// A priority or stats bracket is malformed.
    CookieShapeError,
}

/// A progress indicator from the title region: either a percentage or a
/// done/total ratio.  Values are syntactic: percentages above 100 and ratios
/// with done above total are kept as written.
#[derive(Clone, Copy, Debug, PartialEq, Eq)]
pub enum Stat {
    Percentage(u8),
    Ratio(u8, u8),
}

/// Bytes allowed in a leading title fragment: anything but a newline, a `:`
/// or a `[`.
pub fn is_valid_title_char(c: u8) -> (r: bool)
    ensures
        r == spec_title_byte(c),
{
    c != 10 && c != 58 && c != 91
}

/// Bytes allowed in a tag token: alphanumerics, `_` and `@`.
pub fn is_valid_tag_char(candidate: u8) -> (r: bool)
    ensures
        r == spec_tag_byte(candidate),
{
    (65 <= candidate && candidate <= 90) || (97 <= candidate && candidate <= 122) || (48
        <= candidate && candidate <= 57) || candidate == 95 || candidate == 64
}

/// Value of a digit run as the target width, or the overflow error for a
/// run encoding a value above it.
pub fn numeric_str_to_u8(numeric: &[u8]) -> (r: Result<u8, ParseError>)
    requires
        numeric@.len() >= 1,
        forall|k: int| 0 <= k < numeric@.len() ==> is_digit_byte(numeric@[k]),
    ensures
        digits_val(numeric@) <= 255 ==> r == Ok::<u8, ParseError>(digits_val(numeric@) as u8),
        digits_val(numeric@) > 255 ==> r == Err::<u8, ParseError>(ParseError::NumericOverflowError),
{
    let mut acc: u32 = 0;
    let mut i: usize = 0;
    proof {
        assert(numeric@.subrange(0, 0) =~= Seq::<u8>::empty());
    }
    while i < numeric.len()
        invariant
            0 <= i <= numeric@.len(),
            forall|k: int| 0 <= k < numeric@.len() ==> is_digit_byte(numeric@[k]),
            acc == digits_val(numeric@.subrange(0, i as int)),
            acc <= 255,
        decreases numeric@.len() - i,
    {
        let d = numeric[i];
        proof {
            assert(is_digit_byte(numeric@[i as int]));
        }
        let v = acc * 10 + ((d - 48) as u32);
        proof {
            assert(numeric@.subrange(0, i + 1).drop_last() =~= numeric@.subrange(0, i as int));
            assert(numeric@.subrange(0, i + 1).last() == numeric@[i as int]);
            assert(digits_val(numeric@.subrange(0, i + 1)) == v);
        }
        if v > 255 {
            proof {
                lemma_digits_val_prefix(numeric@, i + 1);
            }
            return Err(ParseError::NumericOverflowError);
        }
        acc = v;
        i = i + 1;
    }
    proof {
        assert(numeric@.subrange(0, numeric@.len() as int) =~= numeric@);
    }
    Ok(acc as u8)
}

/// Owned text of a captured byte region, or the encoding error when the
/// region is not valid text.
pub fn byte_slice_to_string(x: &[u8]) -> (r: Result<String, ParseError>)
    ensures
        valid_utf8(x@) ==> (r matches Ok(s) && s@ == decode_utf8(x@)),
        !valid_utf8(x@) ==> r == Err::<String, ParseError>(ParseError::EncodingError),
{
    match bytes_to_string_checked(x) {
        Some(s) => Ok(s),
        None => Err(ParseError::EncodingError),
    }
}

/// Owned text of each captured byte region, or the encoding error when any
/// region is not valid text.
pub fn vec_byte_slice_to_vec_string(x: Vec<&[u8]>) -> (r: Result<Vec<String>, ParseError>)
    ensures
        (forall|k: int| 0 <= k < x.deep_view().len() ==> valid_utf8(x.deep_view()[k])) ==> (
        r matches Ok(v) && v.deep_view().len() == x.deep_view().len() && (forall|k: int|
            0 <= k < x.deep_view().len() ==> v.deep_view()[k] == decode_utf8(x.deep_view()[k]))),
        (exists|k: int| 0 <= k < x.deep_view().len() && !valid_utf8(x.deep_view()[k])) ==> r
            == Err::<Vec<String>, ParseError>(ParseError::EncodingError),
{
    let ghost dv = x.deep_view();
    let mut out: Vec<String> = Vec::new();
    let mut i: usize = 0;
    while i < x.len()
        invariant
            0 <= i <= x@.len(),
            dv == x.deep_view(),
            dv.len() == x@.len(),
            out.deep_view().len() == i,
            forall|k: int| 0 <= k < i ==> valid_utf8(dv[k]),
            forall|k: int| 0 <= k < i ==> out.deep_view()[k] == decode_utf8(dv[k]),
        decreases x@.len() - i,
    {
        proof {
            assert(dv[i as int] == x@[i as int]@);
        }
        match bytes_to_string_checked(x[i]) {
            Some(s) => {
                let ghost odv = out.deep_view();
                let ghost sv = s@;
                out.push(s);
                proof {
                    assert(out.deep_view() =~= odv.push(sv));
                }
            },
            None => {
                return Err(ParseError::EncodingError);
            },
        }
        i = i + 1;
    }
    Ok(out)
}

/// The single character of a one-byte capture; anything else is absent.
pub fn maybe_get_single_char(candidate: Option<&[u8]>) -> (r: Option<char>)
    ensures
        match candidate {
            None => r is None,
            Some(x) => if x@.len() == 1 {
                r == Some(x@[0] as char)
            } else {
                r is None
            },
        },
{
    match candidate {
        None => None,
        Some(x) => if x.len() == 1 {
            Some(x[0] as char)
        } else {
            None
        },
    }
}

/// Depth scanner: consumes one or more leading markers and counts them; a
/// line with none fails structurally.
pub fn depth(input: &[u8]) -> (r: Result<(usize, usize), ParseError>)
    ensures
        marker_run(input@, 0) == 0 ==> r == Err::<(usize, usize), ParseError>(
            ParseError::StructuralError,
        ),
        marker_run(input@, 0) > 0 ==> (r matches Ok(p) && p.0 == marker_run(input@, 0) && p.1
            == marker_run(input@, 0)),
{
    let n = scan_markers(input, 0);
    if n == 0 {
        Err(ParseError::StructuralError)
    } else {
        Ok((n, n))
    }
}

/// A priority cookie stands at the front: `[#`, one alphabetic character,
/// `]`.
pub open spec fn spec_priority_ok(s: Seq<u8>) -> bool {
    s.len() >= 4 && s[0] == 91 && s[1] == 35 && is_alpha_byte(s[2]) && s[3] == 93
}

/// Priority cookie parser: `[#` one alphabetic character `]`; on any
/// deviation the cookie is absent and nothing is consumed.
pub fn priority(input: &[u8]) -> (r: Option<(usize, &[u8])>)
    ensures
        spec_priority_ok(input@) ==> (r matches Some(p) && p.0 == 4 && p.1@ == seq![input@[2]]),
        !spec_priority_ok(input@) ==> r is None,
{
    if input.len() >= 4 {
        if input[0] == 91 && input[1] == 35 && input[3] == 93 {
            let c = input[2];
            if (65 <= c && c <= 90) || (97 <= c && c <= 122) {
                let piece = &input[2..3];
                proof {
                    assert(piece@ =~= seq![input@[2]]);
                }
                return Some((4, piece));
            }
        }
    }
    None
}

/// The leading title fragment of a title region: its run of title bytes as
/// text, absent when the run is empty or not valid text (in which case
/// nothing is consumed and the bytes fall through to the leftover capture).
pub open spec fn spec_title_start(s: Seq<u8>) -> Option<Seq<char>> {
    let e = title_run(s, 0) as int;
    if e > 0 && valid_utf8(s.subrange(0, e)) {
        Some(decode_utf8(s.subrange(0, e)))
    } else {
        None
    }
}

/// Bytes the title-start capture consumes: the run when it converts, zero
/// otherwise.
pub open spec fn spec_title_start_len(s: Seq<u8>) -> int {
    let e = title_run(s, 0) as int;
    if e > 0 && valid_utf8(s.subrange(0, e)) {
        e
    } else {
        0
    }
}

/// Title start parser: the longest run of bytes that are not a newline, a
/// `:` or a `[`, as text.
pub fn title_start(input: &[u8]) -> (r: Option<(usize, String)>)
    ensures
        match r {
            Some(p) => spec_title_start(input@) == Some(p.1@) && p.0 == spec_title_start_len(
                input@,
            ) && 0 < p.0 <= input@.len(),
            None => spec_title_start(input@) is None,
        },
{
    let e = scan_title_bytes(input, 0);
    if e == 0 {
        return None;
    }
    let (frag, _) = input.split_at(e);
    match bytes_to_string_checked(frag) {
        Some(s) => Some((e, s)),
        None => None,
    }
}

/// Leftover capture: the remaining bytes of the line, up to (not including)
/// the newline.
pub fn title_rest(input: &[u8]) -> (r: (usize, &[u8]))
    ensures
        r.0 == line_run(input@, 0),
        r.1@ == input@.subrange(0, line_run(input@, 0) as int),
{
    let e = scan_line_bytes(input, 0);
    let (frag, _) = input.split_at(e);
    (e, frag)
}

/// A keyword, as characters, prefixes the byte input when its encoding does.
pub open spec fn spec_kw_prefix(s: Seq<u8>, w: Seq<char>) -> bool {
    let b = encode_utf8(w);
    b.len() <= s.len() && s.subrange(0, b.len() as int) == b
}

/// The first keyword of the set that prefixes the input, by index; the set
/// is tried in order, as given.
pub open spec fn spec_keyword_match(s: Seq<u8>, kws: Seq<Seq<char>>) -> Option<int>
    decreases kws.len(),
{
    if kws.len() == 0 {
        None
    } else if spec_kw_prefix(s, kws[0]) {
        Some(0int)
    } else {
        match spec_keyword_match(s, kws.drop_first()) {
            None => None,
            Some(i) => Some(i + 1),
        }
    }
}

/// Matching restarted after `k` rejected keywords finds the same result,
/// shifted.
proof fn lemma_keyword_match_skip(s: Seq<u8>, kws: Seq<Seq<char>>, k: int)
    requires
        0 <= k <= kws.len(),
        forall|j: int| 0 <= j < k ==> !spec_kw_prefix(s, kws[j]),
    ensures
        spec_keyword_match(s, kws) == match spec_keyword_match(s, kws.skip(k)) {
            None => None::<int>,
            Some(i) => Some(i + k),
        },
    decreases k,
{
    if k == 0 {
        assert(kws.skip(0) =~= kws);
        assert(spec_keyword_match(s, kws) == match spec_keyword_match(s, kws) {
            None => None::<int>,
            Some(i) => Some(i + 0),
        });
    } else {
        let t = kws.drop_first();
        assert(!spec_kw_prefix(s, kws[0]));
        assert(forall|j: int| 0 <= j < k - 1 ==> t[j] == kws[j + 1]);
        lemma_keyword_match_skip(s, t, k - 1);
        assert(t.skip(k - 1) =~= kws.skip(k));
    }
}

/// Whether `p` is a byte prefix of `s`.
fn is_prefix(p: &[u8], s: &[u8]) -> (r: bool)
    ensures
        r == (p@.len() <= s@.len() && s@.subrange(0, p@.len() as int) == p@),
{
    if p.len() > s.len() {
        return false;
    }
    let mut j: usize = 0;
    while j < p.len()
        invariant
            0 <= j <= p@.len() <= s@.len(),
            forall|k: int| 0 <= k < j ==> s@[k] == p@[k],
        decreases p@.len() - j,
    {
        if s[j] != p[j] {
            proof {
                assert(s@.subrange(0, p@.len() as int)[j as int] == s@[j as int]);
            }
            return false;
        }
        j = j + 1;
    }
    proof {
        assert(s@.subrange(0, p@.len() as int) =~= p@);
    }
    true
}

/// Keyword matcher over an explicit keyword set: the first keyword of the
/// set that prefixes the input is consumed exactly; with no match nothing is
/// consumed and the attempt never fails the overall parse.
pub fn keyword_from(input: &[u8], keywords: &Vec<String>) -> (r: Option<(usize, String)>)
    ensures
        match spec_keyword_match(input@, keywords.deep_view()) {
            Some(i) => r matches Some(p) && p.1@ == keywords.deep_view()[i] && p.0 == encode_utf8(
                keywords.deep_view()[i],
            ).len() && p.0 <= input@.len(),
            None => r is None,
        },
{
    let ghost kws = keywords.deep_view();
    let mut ki: usize = 0;
    while ki < keywords.len()
        invariant
            0 <= ki <= keywords@.len(),
            kws == keywords.deep_view(),
            kws.len() == keywords@.len(),
            forall|j: int| 0 <= j < ki ==> !spec_kw_prefix(input@, kws[j]),
        decreases keywords@.len() - ki,
    {
        let kb = keywords[ki].as_str().as_bytes();
        proof {
            assert(kb@ == encode_utf8(kws[ki as int]));
        }
        if is_prefix(kb, input) {
            proof {
                lemma_keyword_match_skip(input@, kws, ki as int);
                assert(kws.skip(ki as int)[0] == kws[ki as int]);
                assert(kws.skip(ki as int).len() > 0);
                assert(spec_keyword_match(input@, kws.skip(ki as int)) == Some(0int));
                assert(spec_keyword_match(input@, kws) == Some(ki as int));
            }
            let w = keywords[ki].clone();
            return Some((kb.len(), w));
        }
        ki = ki + 1;
    }
    proof {
        lemma_keyword_match_skip(input@, kws, kws.len() as int);
        assert(kws.skip(kws.len() as int).len() == 0);
    }
    None
}

/// The baseline keyword set.
pub open spec fn baseline_keywords() -> Seq<Seq<char>> {
    seq!["TODO"@, "DONE"@]
}

/// The baseline keyword set as strings.
pub fn default_keywords() -> (r: Vec<String>)
    ensures
        r.deep_view() == baseline_keywords(),
{
    let mut v: Vec<String> = Vec::new();
    v.push(String::from_str("TODO"));
    v.push(String::from_str("DONE"));
    proof {
        assert(v.deep_view() =~= baseline_keywords());
    }
    v
}

/// Keyword matcher over the baseline set.
pub fn keyword(input: &[u8]) -> (r: Option<(usize, String)>)
    ensures
        match spec_keyword_match(input@, baseline_keywords()) {
            Some(i) => r matches Some(p) && p.1@ == baseline_keywords()[i] && p.0 == encode_utf8(
                baseline_keywords()[i],
            ).len() && p.0 <= input@.len(),
            None => r is None,
        },
{
    let kws = default_keywords();
    keyword_from(input, &kws)
}

/// A percentage cookie stands at the front: `[`, digits, `%]`.
pub open spec fn spec_pct_shape(s: Seq<u8>) -> bool {
    let d = digit_run(s, 1) as int;
    s.len() >= 1 && s[0] == 91 && d >= 1 && s.len() > 2 + d && s[1 + d] == 37 && s[2 + d] == 93
}

/// The percentage value, as written.
pub open spec fn spec_pct_val(s: Seq<u8>) -> nat {
    digits_val(s.subrange(1, 1 + digit_run(s, 1) as int))
}

/// Bytes a percentage cookie spans.
pub open spec fn spec_pct_len(s: Seq<u8>) -> int {
    3 + digit_run(s, 1) as int
}

/// A ratio cookie stands at the front: `[`, digits, `/`, digits, `]`.
pub open spec fn spec_ratio_shape(s: Seq<u8>) -> bool {
    let d1 = digit_run(s, 1) as int;
    let d2 = digit_run(s, 2 + d1) as int;
    s.len() >= 1 && s[0] == 91 && d1 >= 1 && s.len() > 1 + d1 && s[1 + d1] == 47 && d2 >= 1
        && s.len() > 2 + d1 + d2 && s[2 + d1 + d2] == 93
}

/// The two ratio values, as written.
pub open spec fn spec_ratio_done(s: Seq<u8>) -> nat {
    digits_val(s.subrange(1, 1 + digit_run(s, 1) as int))
}

pub open spec fn spec_ratio_total(s: Seq<u8>) -> nat {
    let d1 = digit_run(s, 1) as int;
    digits_val(s.subrange(2 + d1, 2 + d1 + digit_run(s, 2 + d1) as int))
}

/// Bytes a ratio cookie spans.
pub open spec fn spec_ratio_len(s: Seq<u8>) -> int {
    3 + digit_run(s, 1) as int + digit_run(s, 2 + digit_run(s, 1) as int) as int
}

/// What a stats attempt at the front of `s` yields: the percentage form,
/// else the ratio form, else the shape error; within a form, a value above
/// the width is the overflow error.
pub open spec fn spec_stats(s: Seq<u8>) -> Result<(int, Stat), ParseError> {
    if spec_pct_shape(s) {
        if spec_pct_val(s) <= 255 {
            Ok((spec_pct_len(s), Stat::Percentage(spec_pct_val(s) as u8)))
        } else {
            Err(ParseError::NumericOverflowError)
        }
    } else if spec_ratio_shape(s) {
        if spec_ratio_done(s) <= 255 && spec_ratio_total(s) <= 255 {
            Ok((spec_ratio_len(s), Stat::Ratio(spec_ratio_done(s) as u8, spec_ratio_total(s) as u8)))
        } else {
            Err(ParseError::NumericOverflowError)
        }
    } else {
        Err(ParseError::CookieShapeError)
    }
}

/// Percentage form of the stats cookie: `[` digits `%]`.
pub fn stats_percentage(input: &[u8]) -> (r: Result<(usize, Stat), ParseError>)
    ensures
        spec_pct_shape(input@) && spec_pct_val(input@) <= 255 ==> (r matches Ok(p) && p.0
            == spec_pct_len(input@) && p.1 == Stat::Percentage(spec_pct_val(input@) as u8)),
        spec_pct_shape(input@) && spec_pct_val(input@) > 255 ==> r == Err::<(usize, Stat),
            ParseError,
        >(ParseError::NumericOverflowError),
        !spec_pct_shape(input@) ==> r == Err::<(usize, Stat), ParseError>(
            ParseError::CookieShapeError,
        ),
{
    if input.len() == 0 || input[0] != 91 {
        return Err(ParseError::CookieShapeError);
    }
    let e = scan_digits(input, 1);
    if e == 1 {
        return Err(ParseError::CookieShapeError);
    }
    if e >= input.len() - 1 || input[e] != 37 || input[e + 1] != 93 {
        return Err(ParseError::CookieShapeError);
    }
    let digits = &input[1..e];
    proof {
        lemma_digit_run(input@, 1);
        assert(digits@ == input@.subrange(1, e as int));
        assert(digits@.len() == e - 1 >= 1);
        assert forall|k: int| 0 <= k < digits@.len() implies is_digit_byte(digits@[k]) by {
            assert(digits@[k] == input@[1 + k]);
        }
    }
    match numeric_str_to_u8(digits) {
        Ok(v) => Ok((e + 2, Stat::Percentage(v))),
        Err(err) => Err(err),
    }
}

/// Ratio form of the stats cookie: `[` digits `/` digits `]`.
pub fn stats_ratio(input: &[u8]) -> (r: Result<(usize, Stat), ParseError>)
    ensures
        spec_ratio_shape(input@) && spec_ratio_done(input@) <= 255 && spec_ratio_total(input@)
            <= 255 ==> (r matches Ok(p) && p.0 == spec_ratio_len(input@) && p.1 == Stat::Ratio(
            spec_ratio_done(input@) as u8,
            spec_ratio_total(input@) as u8,
        )),
        spec_ratio_shape(input@) && (spec_ratio_done(input@) > 255 || spec_ratio_total(input@)
            > 255) ==> r == Err::<(usize, Stat), ParseError>(ParseError::NumericOverflowError),
        !spec_ratio_shape(input@) ==> r == Err::<(usize, Stat), ParseError>(
            ParseError::CookieShapeError,
        ),
{
    if input.len() == 0 || input[0] != 91 {
        return Err(ParseError::CookieShapeError);
    }
    let e1 = scan_digits(input, 1);
    if e1 == 1 {
        return Err(ParseError::CookieShapeError);
    }
    if e1 >= input.len() || input[e1] != 47 {
        return Err(ParseError::CookieShapeError);
    }
    let e2 = scan_digits(input, e1 + 1);
    if e2 == e1 + 1 {
        return Err(ParseError::CookieShapeError);
    }
    if e2 >= input.len() || input[e2] != 93 {
        return Err(ParseError::CookieShapeError);
    }
    let first = &input[1..e1];
    let second = &input[e1 + 1..e2];
    proof {
        lemma_digit_run(input@, 1);
        lemma_digit_run(input@, e1 + 1);
        assert(first@ == input@.subrange(1, e1 as int));
        assert(second@ == input@.subrange(e1 + 1, e2 as int));
        assert forall|k: int| 0 <= k < first@.len() implies is_digit_byte(first@[k]) by {
            assert(first@[k] == input@[1 + k]);
        }
        assert forall|k: int| 0 <= k < second@.len() implies is_digit_byte(second@[k]) by {
            assert(second@[k] == input@[e1 + 1 + k]);
        }
        assert(spec_ratio_done(input@) == digits_val(first@));
        assert(spec_ratio_total(input@) == digits_val(second@));
    }
    let a = match numeric_str_to_u8(first) {
        Ok(v) => v,
        Err(err) => {
            return Err(err);
        },
    };
    let b = match numeric_str_to_u8(second) {
        Ok(v) => v,
        Err(err) => {
            return Err(err);
        },
    };
    Ok((e2 + 1, Stat::Ratio(a, b)))
}

/// Stats cookie parser: the percentage form, else the ratio form; a value
/// above the width is the overflow error, any other bracket shape the shape
/// error.  Nothing is consumed on failure.
pub fn stats(input: &[u8]) -> (r: Result<(usize, Stat), ParseError>)
    ensures
        match r {
            Ok(p) => spec_stats(input@) == Ok::<(int, Stat), ParseError>((p.0 as int, p.1)) && p.0
                <= input@.len(),
            Err(e) => spec_stats(input@) == Err::<(int, Stat), ParseError>(e),
        },
{
    proof {
        if input@.len() >= 1 {
            lemma_digit_run(input@, 1);
            if 2 + digit_run(input@, 1) as int <= input@.len() {
                lemma_digit_run(input@, 2 + digit_run(input@, 1) as int);
            }
        }
    }
    match stats_percentage(input) {
        Ok(p) => Ok(p),
        Err(ParseError::CookieShapeError) => stats_ratio(input),
        Err(e) => Err(e),
    }
}

/// The `token:` groups behind the opening `:` of a tag list, with the
/// position behind the last group: greedy, one group per trailing `:`.
pub open spec fn spec_tag_groups(s: Seq<u8>, i: int) -> (Seq<Seq<u8>>, int)
    decreases s.len() - i,
    when 0 <= i <= s.len()
{
    let t = tag_run(s, i) as int;
    if i + t < s.len() && s[i + t] == 58 {
        let r = spec_tag_groups(s, i + t + 1);
        (seq![s.subrange(i, i + t)] + r.0, r.1)
    } else {
        (seq![], i)
    }
}

/// What a tag list attempt at the front of `s` yields: `:` followed by one
/// or more `token:` groups, with the tokens in input order (duplicates and
/// empty tokens as captured) and the consumed length.
pub open spec fn spec_tag_list(s: Seq<u8>) -> Option<(Seq<Seq<u8>>, int)> {
    if s.len() >= 1 && s[0] == 58 && spec_tag_groups(s, 1).0.len() >= 1 {
        Some(spec_tag_groups(s, 1))
    } else {
        None
    }
}

/// Tag list parser: `:` then one or more colon-terminated tokens, returned
/// in input order, as captured; nothing is consumed when no full group
/// follows the opening `:`.
pub fn tag_list<'a>(input: &'a [u8]) -> (r: Option<(usize, Vec<&'a [u8]>)>)
    ensures
        match r {
            Some(p) => spec_tag_list(input@) matches Some(m) && p.0 == m.1 && p.1.deep_view()
                == m.0 && p.0 <= input@.len(),
            None => spec_tag_list(input@) is None,
        },
{
    if input.len() == 0 || input[0] != 58 {
        return None;
    }
    let mut toks: Vec<&[u8]> = Vec::new();
    let mut pos: usize = 1;
    proof {
        assert(toks.deep_view() =~= Seq::<Seq<u8>>::empty());
        assert(Seq::<Seq<u8>>::empty() + spec_tag_groups(input@, 1).0 =~= spec_tag_groups(
            input@,
            1,
        ).0);
    }
    loop
        invariant
            1 <= pos <= input@.len(),
            spec_tag_groups(input@, 1).0 == toks.deep_view() + spec_tag_groups(
                input@,
                pos as int,
            ).0,
            spec_tag_groups(input@, 1).1 == spec_tag_groups(input@, pos as int).1,
        ensures
            1 <= pos <= input@.len(),
            spec_tag_groups(input@, 1).0 == toks.deep_view(),
            spec_tag_groups(input@, 1).1 == pos,
        decreases input@.len() - pos,
    {
        let e = scan_tag_bytes(input, pos);
        if e < input.len() && input[e] == 58 {
            let tok = &input[pos..e];
            let ghost odv = toks.deep_view();
            toks.push(tok);
            proof {
                assert(toks.deep_view() =~~= odv.push(input@.subrange(pos as int, e as int)));
                let g = spec_tag_groups(input@, pos as int);
                let gn = spec_tag_groups(input@, e + 1);
                assert(g.0 == seq![input@.subrange(pos as int, e as int)] + gn.0 && g.1 == gn.1);
                assert(toks.deep_view() + gn.0 =~= odv + g.0);
            }
            pos = e + 1;
        } else {
            proof {
                assert(spec_tag_groups(input@, pos as int).0 =~= Seq::<Seq<u8>>::empty());
                assert(spec_tag_groups(input@, pos as int).1 == pos);
                assert(toks.deep_view() + Seq::<Seq<u8>>::empty() =~= toks.deep_view());
            }
            break ;
        }
    }
    if toks.len() == 0 {
        proof {
            assert(spec_tag_groups(input@, 1).0.len() == 0);
        }
        return None;
    }
    Some((pos, toks))
}

/// Every token of a tag group run is made of tag bytes, hence valid text.
proof fn lemma_tag_tokens_valid(s: Seq<u8>, i: int)
    requires
        0 <= i <= s.len(),
    ensures
        forall|k: int|
            0 <= k < spec_tag_groups(s, i).0.len() ==> valid_utf8(
                #[trigger] spec_tag_groups(s, i).0[k],
            ),
    decreases s.len() - i,
{
    let t = tag_run(s, i) as int;
    lemma_tag_run(s, i);
    if i + t < s.len() && s[i + t] == 58 {
        lemma_tag_tokens_valid(s, i + t + 1);
        let tok = s.subrange(i, i + t);
        assert forall|m: int| 0 <= m < tok.len() implies tok[m] < 128 by {
            assert(spec_tag_byte(s[i + m]));
        }
        lemma_ascii_valid_utf8(tok);
        let g = spec_tag_groups(s, i);
        let gn = spec_tag_groups(s, i + t + 1);
        assert forall|k: int| 0 <= k < g.0.len() implies valid_utf8(#[trigger] g.0[k]) by {
            if k == 0 {
                assert(g.0[0] == tok);
            } else {
                assert(g.0[k] == gn.0[k - 1]);
            }
        }
    }
}

/// The decoded text of each token of a list.
pub open spec fn decode_tokens(toks: Seq<Seq<u8>>) -> Seq<Seq<char>> {
    Seq::new(toks.len(), |k: int| decode_utf8(toks[k]))
}

/// The transient record of the title region: the leading fragment, the
/// optional stats cookie, the canonical tag collection, and the trailing
/// fragment, before they are merged into the heading.
#[derive(Clone, Debug, PartialEq, Eq)]
pub struct TitleMeta {
    pub start: Option<String>,
    pub stats: Option<Stat>,
    pub tags: Vec<String>,
    pub leftovers: Option<String>,
}

/// Position behind the title-start capture and the whitespace after it.
pub open spec fn tm_p2(t: Seq<u8>) -> int {
    spec_title_start_len(t) + ws_run(t, spec_title_start_len(t))
}

/// The stats attempt at its position in the title region.
pub open spec fn tm_stats_res(t: Seq<u8>) -> Result<(int, Stat), ParseError> {
    spec_stats(t.subrange(tm_p2(t), t.len() as int))
}

/// The stats field of the title region: absent on any local failure.
pub open spec fn tm_stats(t: Seq<u8>) -> Option<Stat> {
    match tm_stats_res(t) {
        Ok(p) => Some(p.1),
        Err(_) => None,
    }
}

/// Position behind the stats attempt.
pub open spec fn tm_p3(t: Seq<u8>) -> int {
    tm_p2(t) + match tm_stats_res(t) {
        Ok(p) => p.0,
        Err(_) => 0,
    }
}

/// Position behind the whitespace after the stats attempt.
pub open spec fn tm_p4(t: Seq<u8>) -> int {
    tm_p3(t) + ws_run(t, tm_p3(t))
}

/// The tag list attempt at its position in the title region.
pub open spec fn tm_tag_res(t: Seq<u8>) -> Option<(Seq<Seq<u8>>, int)> {
    spec_tag_list(t.subrange(tm_p4(t), t.len() as int))
}

/// The raw tag tokens of the title region, in input order.
pub open spec fn tm_tags_raw(t: Seq<u8>) -> Seq<Seq<u8>> {
    match tm_tag_res(t) {
        Some(m) => m.0,
        None => Seq::<Seq<u8>>::empty(),
    }
}

/// Position behind the tag list attempt.
pub open spec fn tm_p5(t: Seq<u8>) -> int {
    tm_p4(t) + match tm_tag_res(t) {
        Some(m) => m.1,
        None => 0,
    }
}

/// Position behind the whitespace after the tag list attempt.
pub open spec fn tm_p6(t: Seq<u8>) -> int {
    tm_p5(t) + ws_run(t, tm_p5(t))
}

/// End of the leftover capture: the rest of the line.
pub open spec fn tm_end(t: Seq<u8>) -> int {
    tm_p6(t) + line_run(t, tm_p6(t))
}

/// The leftover fragment: the remaining line text, absent when empty or not
/// valid text.
pub open spec fn tm_leftover(t: Seq<u8>) -> Option<Seq<char>> {
    let region = t.subrange(tm_p6(t), tm_end(t));
    if region.len() > 0 && valid_utf8(region) {
        Some(decode_utf8(region))
    } else {
        None
    }
}

/// The canonical tag collection of the title region.
pub open spec fn tm_tags(t: Seq<u8>) -> Seq<Seq<char>> {
    canon_tags(decode_tokens(tm_tags_raw(t)))
}

/// Title/metadata merger: a leading fragment, then (in order, each optional
/// and non-fatal) a stats cookie, a tag list, and the leftover text, with
/// separator whitespace between the stages.
pub fn title_meta(input: &[u8]) -> (r: (usize, TitleMeta))
    ensures
        r.0 == tm_end(input@),
        r.0 <= input@.len(),
        (match r.1.start {
            Some(s) => spec_title_start(input@) == Some(s@),
            None => spec_title_start(input@) is None,
        }),
        r.1.stats == tm_stats(input@),
        r.1.tags.deep_view() == tm_tags(input@),
        (match r.1.leftovers {
            Some(s) => tm_leftover(input@) == Some(s@),
            None => tm_leftover(input@) is None,
        }),
{
    proof {
        assert(spec_slice_len(input) == input@.len());
    }
    let (start, p1): (Option<String>, usize) = match title_start(input) {
        Some((n, st)) => (Some(st), n),
        None => (None, 0),
    };
    proof {
        assert(p1 == spec_title_start_len(input@));
    }
    let p2 = scan_ws(input, p1);
    let (_, r2) = input.split_at(p2);
    proof {
        assert(r2@ == input@.subrange(p2 as int, input@.len() as int));
        assert(p2 == tm_p2(input@));
    }
    let (sstats, sn): (Option<Stat>, usize) = match stats(r2) {
        Ok((n, st)) => (Some(st), n),
        Err(_) => (None, 0),
    };
    let p3 = p2 + sn;
    proof {
        assert(p3 == tm_p3(input@));
    }
    let p4 = scan_ws(input, p3);
    let (_, r4) = input.split_at(p4);
    proof {
        assert(r4@ == input@.subrange(p4 as int, input@.len() as int));
        assert(p4 == tm_p4(input@));
    }
    let (rawtoks, tn): (Vec<&[u8]>, usize) = match tag_list(r4) {
        Some((n, v)) => (v, n),
        None => (Vec::new(), 0),
    };
    let p5 = p4 + tn;
    proof {
        assert(p5 == tm_p5(input@));
        if spec_tag_list(r4@) is Some {
            lemma_tag_tokens_valid(r4@, 1);
        }
        assert(rawtoks.deep_view() == tm_tags_raw(input@)) by {
            if spec_tag_list(r4@) is None {
                assert(rawtoks.deep_view() =~= Seq::<Seq<u8>>::empty());
            }
        }
        assert(forall|k: int|
            0 <= k < rawtoks.deep_view().len() ==> valid_utf8(#[trigger] rawtoks.deep_view()[k]));
    }
    let p6 = scan_ws(input, p5);
    let e7 = scan_line_bytes(input, p6);
    proof {
        assert(p6 == tm_p6(input@));
        assert(e7 == tm_end(input@));
    }
    let leftovers: Option<String> = if e7 > p6 {
        let region = &input[p6..e7];
        proof {
            assert(region@ == input@.subrange(tm_p6(input@), tm_end(input@)));
        }
        bytes_to_string_checked(region)
    } else {
        proof {
            assert(input@.subrange(tm_p6(input@), tm_end(input@)).len() == 0);
        }
        None
    };
    let strs = match vec_byte_slice_to_vec_string(rawtoks) {
        Ok(v) => v,
        Err(_) => vstd::pervasive::unreached(),
    };
    proof {
        assert(strs.deep_view() =~= decode_tokens(tm_tags_raw(input@)));
    }
    let tags = canonical_tag_vec(&strs);
    (e7, TitleMeta { start, stats: sstats, tags, leftovers })
}

/// The structured record of one parsed heading line.  `timestamp` is always
/// unset at this layer: a later layer owns it.  `tags` is canonical:
/// deduplicated and in strict lexicographic order, never input order.
#[derive(Clone, Debug, PartialEq, Eq)]
pub struct Headline {
    pub depth: usize,
    pub keyword: Option<String>,
    pub priority: Option<char>,
    pub title: Option<String>,
    pub timestamp: Option<String>,
    pub stats: Option<Stat>,
    pub tags: Vec<String>,
}

/// A heading line is structurally well formed when one or more markers lead
/// it and at least one whitespace byte separates them from the rest.
pub open spec fn spec_headline_ok(s: Seq<u8>) -> bool {
    marker_run(s, 0) >= 1 && ws_run(s, marker_run(s, 0) as int) >= 1
}

/// Position behind the markers and their separator.
pub open spec fn hl_p0(s: Seq<u8>) -> int {
    marker_run(s, 0) + ws_run(s, marker_run(s, 0) as int) as int
}

/// The keyword field: a keyword of the set followed by whitespace; a match
/// without a separator is no keyword and is left for the title.
pub open spec fn spec_headline_keyword(s: Seq<u8>, kws: Seq<Seq<char>>) -> Option<Seq<char>> {
    let t = s.subrange(hl_p0(s), s.len() as int);
    match spec_keyword_match(t, kws) {
        Some(i) => if ws_run(t, encode_utf8(kws[i]).len() as int) >= 1 {
            Some(kws[i])
        } else {
            None
        },
        None => None,
    }
}

/// Bytes the keyword group consumes, separator included.
pub open spec fn hl_kw_len(s: Seq<u8>, kws: Seq<Seq<char>>) -> int {
    let t = s.subrange(hl_p0(s), s.len() as int);
    match spec_keyword_match(t, kws) {
        Some(i) => {
            let l = encode_utf8(kws[i]).len() as int;
            if ws_run(t, l) >= 1 {
                l + ws_run(t, l)
            } else {
                0
            }
        },
        None => 0,
    }
}

/// Position behind the keyword group.
pub open spec fn hl_p1(s: Seq<u8>, kws: Seq<Seq<char>>) -> int {
    hl_p0(s) + hl_kw_len(s, kws)
}

/// The priority field: a well-formed cookie followed by whitespace; a
/// malformed cookie or a missing separator leaves it absent.
pub open spec fn spec_headline_priority(s: Seq<u8>, kws: Seq<Seq<char>>) -> Option<char> {
    let t = s.subrange(hl_p1(s, kws), s.len() as int);
    if spec_priority_ok(t) && ws_run(t, 4) >= 1 {
        Some(t[2] as char)
    } else {
        None
    }
}

/// Bytes the priority group consumes, separator included.
pub open spec fn hl_prio_len(s: Seq<u8>, kws: Seq<Seq<char>>) -> int {
    let t = s.subrange(hl_p1(s, kws), s.len() as int);
    if spec_priority_ok(t) && ws_run(t, 4) >= 1 {
        4 + ws_run(t, 4) as int
    } else {
        0
    }
}

/// Position where the title region begins.
pub open spec fn hl_p2(s: Seq<u8>, kws: Seq<Seq<char>>) -> int {
    hl_p1(s, kws) + hl_prio_len(s, kws)
}

/// The title region: the rest of the line.
pub open spec fn hl_title_area(s: Seq<u8>, kws: Seq<Seq<char>>) -> Seq<u8> {
    s.subrange(hl_p2(s, kws), s.len() as int)
}

/// The title field: the leading fragment and the leftover fragment joined
/// directly, with surrounding separator whitespace excluded; absent when
/// nothing remains.
pub open spec fn spec_headline_title(s: Seq<u8>, kws: Seq<Seq<char>>) -> Option<Seq<char>> {
    let t = hl_title_area(s, kws);
    let sfrag = match spec_title_start(t) {
        Some(c) => c,
        None => Seq::<char>::empty(),
    };
    let lfrag = match tm_leftover(t) {
        Some(c) => c,
        None => Seq::<char>::empty(),
    };
    let trimmed = spec_trim(sfrag + lfrag);
    if trimmed.len() == 0 {
        None
    } else {
        Some(trimmed)
    }
}

/// What a parsed heading promises: every field agrees with the grammar on
/// the line bytes, under the given keyword set.
pub open spec fn headline_matches(s: Seq<u8>, kws: Seq<Seq<char>>, n: int, h: Headline) -> bool {
    let t = hl_title_area(s, kws);
    &&& n == hl_p2(s, kws) + tm_end(t)
    &&& h.depth == marker_run(s, 0)
    &&& (match h.keyword {
        Some(k) => spec_headline_keyword(s, kws) == Some(k@),
        None => spec_headline_keyword(s, kws) is None,
    })
    &&& h.priority == spec_headline_priority(s, kws)
    &&& (match h.title {
        Some(x) => spec_headline_title(s, kws) == Some(x@),
        None => spec_headline_title(s, kws) is None,
    })
    &&& h.timestamp is None
    &&& h.stats == tm_stats(t)
    &&& h.tags.deep_view() == tm_tags(t)
}

/// Headline parser over an explicit keyword set: mandatory depth and
/// separator, then the optional keyword group, the optional priority group,
/// and the title region.  Only the mandatory part can fail.
pub fn headline_with(input: &[u8], keywords: &Vec<String>) -> (r: Result<(usize, Headline),
    ParseError>)
    ensures
        !spec_headline_ok(input@) ==> r == Err::<(usize, Headline), ParseError>(
            ParseError::StructuralError,
        ),
        spec_headline_ok(input@) ==> (r matches Ok(p) && headline_matches(
            input@,
            keywords.deep_view(),
            p.0 as int,
            p.1,
        )),
{
    let ghost kws = keywords.deep_view();
    proof {
        assert(spec_slice_len(input) == input@.len());
    }
    let n = scan_markers(input, 0);
    if n == 0 {
        return Err(ParseError::StructuralError);
    }
    let w = scan_ws(input, n);
    if w == n {
        return Err(ParseError::StructuralError);
    }
    let p0 = w;
    proof {
        assert(p0 == hl_p0(input@));
    }
    let (_, rest0) = input.split_at(p0);
    proof {
        assert(rest0@ == input@.subrange(hl_p0(input@), input@.len() as int));
    }
    let (kw, p1): (Option<String>, usize) = match keyword_from(rest0, keywords) {
        Some((kn, ks)) => {
            let w1 = scan_ws(rest0, kn);
            if w1 > kn {
                (Some(ks), p0 + w1)
            } else {
                (None, p0)
            }
        },
        None => (None, p0),
    };
    proof {
        assert(p1 == hl_p1(input@, kws));
        assert(match kw {
            Some(k) => spec_headline_keyword(input@, kws) == Some(k@),
            None => spec_headline_keyword(input@, kws) is None,
        });
    }
    let (_, rest1) = input.split_at(p1);
    proof {
        assert(rest1@ == input@.subrange(hl_p1(input@, kws), input@.len() as int));
    }
    let (prio, p2): (Option<char>, usize) = match priority(rest1) {
        Some((pn, pb)) => {
            let w2 = scan_ws(rest1, pn);
            if w2 > pn {
                (maybe_get_single_char(Some(pb)), p1 + w2)
            } else {
                (None, p1)
            }
        },
        None => (None, p1),
    };
    proof {
        assert(p2 == hl_p2(input@, kws));
        assert(prio == spec_headline_priority(input@, kws));
    }
    let (_, rest2) = input.split_at(p2);
    proof {
        assert(rest2@ == hl_title_area(input@, kws));
    }
    let (tmn, tm) = title_meta(rest2);
    let TitleMeta { start, stats: st, tags, leftovers } = tm;
    let ghost sfrag = match spec_title_start(rest2@) {
        Some(c) => c,
        None => Seq::<char>::empty(),
    };
    let ghost lfrag = match tm_leftover(rest2@) {
        Some(c) => c,
        None => Seq::<char>::empty(),
    };
    let merged: String = match (start, leftovers) {
        (Some(a), Some(b)) => a.concat(b.as_str()),
        (Some(a), None) => {
            proof {
                assert(sfrag + lfrag =~= sfrag);
            }
            a
        },
        (None, Some(b)) => {
            proof {
                assert(sfrag + lfrag =~= lfrag);
            }
            b
        },
        (None, None) => {
            proof {
                assert(sfrag + lfrag =~= Seq::<char>::empty());
            }
            String::new()
        },
    };
    proof {
        assert(merged@ == sfrag + lfrag);
    }
    let trimmed = trim_ws(merged.as_str());
    let title: Option<String> = if trimmed.as_str().unicode_len() == 0 {
        None
    } else {
        Some(trimmed)
    };
    proof {
        assert(match title {
            Some(x) => spec_headline_title(input@, kws) == Some(x@),
            None => spec_headline_title(input@, kws) is None,
        });
    }
    Ok(
        (
            p2 + tmn,
            Headline {
                depth: n,
                keyword: kw,
                priority: prio,
                title,
                timestamp: None,
                stats: st,
                tags,
            },
        ),
    )
}

/// Headline parser over the baseline keyword set.
pub fn headline(input: &[u8]) -> (r: Result<(usize, Headline), ParseError>)
    ensures
        !spec_headline_ok(input@) ==> r == Err::<(usize, Headline), ParseError>(
            ParseError::StructuralError,
        ),
        spec_headline_ok(input@) ==> (r matches Ok(p) && headline_matches(
            input@,
            baseline_keywords(),
            p.0 as int,
            p.1,
        )),
{
    let kws = default_keywords();
    headline_with(input, &kws)
}

/// Depth law, first half: a line of `n` markers followed by a whitespace
/// byte is structurally well formed and its depth is exactly `n`.
pub proof fn lemma_depth_counts_markers(s: Seq<u8>, n: int)
    requires
        1 <= n < s.len(),
        forall|k: int| 0 <= k < n ==> is_marker_byte(s[k]),
        is_ws_byte(s[n]),
    ensures
        spec_headline_ok(s),
        marker_run(s, 0) == n,
{
    assert forall|k: int| 0 <= k < n implies marker_pred()(s[k]) by {
        assert(is_marker_byte(s[k]));
    }
    assert(!marker_pred()(s[n]));
    lemma_run_len_exact(s, n, marker_pred());
    assert(marker_run(s, 0) == n);
    assert(ws_run(s, n) >= 1) by {
        assert(ws_run(s, n) == 1 + ws_run(s, n + 1));
    }
}

/// Depth law, second half: a line with no leading marker is not a heading;
/// the parse fails with the structural error.
pub proof fn lemma_no_marker_is_structural(s: Seq<u8>)
    requires
        s.len() == 0 || !is_marker_byte(s[0]),
    ensures
        !spec_headline_ok(s),
{
    assert(marker_run(s, 0) == 0);
}

/// Tag law at the heading level: two title regions whose tag lists carry
/// the same nonempty tokens, in any order and multiplicity, produce the
/// same canonical tag collection.
pub proof fn lemma_headline_tags_order_independent(t1: Seq<u8>, t2: Seq<u8>)
    requires
        forall|x: Seq<char>|
            (decode_tokens(tm_tags_raw(t1)).contains(x) && x.len() > 0) <==> (decode_tokens(
                tm_tags_raw(t2),
            ).contains(x) && x.len() > 0),
    ensures
        tm_tags(t1) == tm_tags(t2),
{
    lemma_canon_tags_order_independent(decode_tokens(tm_tags_raw(t1)), decode_tokens(tm_tags_raw(t2)));
}

/// Stats law: stats parsing is total over its two forms and rejects any
/// third bracket shape.  An attempt succeeds exactly on a well-shaped
/// percentage or (failing that) ratio cookie whose values fit the width,
/// and any other bracket shape is the shape error.
pub proof fn lemma_stats_total_over_two_forms(t: Seq<u8>)
    ensures
        (spec_stats(t) is Ok) <==> ((spec_pct_shape(t) && spec_pct_val(t) <= 255) || (
        !spec_pct_shape(t) && spec_ratio_shape(t) && spec_ratio_done(t) <= 255 && spec_ratio_total(
            t,
        ) <= 255)),
        !spec_pct_shape(t) && !spec_ratio_shape(t) ==> spec_stats(t) == Err::<(int, Stat),
            ParseError,
        >(ParseError::CookieShapeError),
{
}

/// Overflow law, first half: a percentage cookie whose digit run encodes a
/// value above the width fails with the overflow error, not the shape error.
pub proof fn lemma_stats_overflow_percentage(t: Seq<u8>)
    requires
        spec_pct_shape(t),
        spec_pct_val(t) > 255,
    ensures
        spec_stats(t) == Err::<(int, Stat), ParseError>(ParseError::NumericOverflowError),
{
}

/// Overflow law for the ratio form.
pub proof fn lemma_stats_overflow_ratio(t: Seq<u8>)
    requires
        !spec_pct_shape(t),
        spec_ratio_shape(t),
        spec_ratio_done(t) > 255 || spec_ratio_total(t) > 255,
    ensures
        spec_stats(t) == Err::<(int, Stat), ParseError>(ParseError::NumericOverflowError),
{
}

/// Overflow law, second half: a failed stats attempt of any kind leaves the
/// heading parse intact; the stats field is merely absent.
pub proof fn lemma_stats_failure_keeps_heading(s: Seq<u8>, kws: Seq<Seq<char>>)
    requires
        spec_headline_ok(s),
        tm_stats_res(hl_title_area(s, kws)) is Err,
    ensures
        spec_headline_ok(s),
        tm_stats(hl_title_area(s, kws)) is None,
{
}

} // verus!
