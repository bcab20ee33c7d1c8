//! Byte-level character classes of the heading grammar, together with the
//! run scanners that every parsing stage is built from: each stage consumes
//! the longest run of bytes in one class starting at a position.

use vstd::prelude::*;

verus! {

/// The outline depth marker `*`.
pub open spec fn is_marker_byte(b: u8) -> bool {
    b == 42
}

/// Whitespace separating heading fields: space, tab, carriage return, newline.
pub open spec fn is_ws_byte(b: u8) -> bool {
    b == 32 || b == 9 || b == 13 || b == 10
}

/// ASCII decimal digit.
pub open spec fn is_digit_byte(b: u8) -> bool {
    48 <= b && b <= 57
}

/// ASCII alphabetic character.
pub open spec fn is_alpha_byte(b: u8) -> bool {
    (65 <= b && b <= 90) || (97 <= b && b <= 122)
}

/// ASCII alphanumeric character.
pub open spec fn is_alnum_byte(b: u8) -> bool {
    is_alpha_byte(b) || is_digit_byte(b)
}

/// Bytes a tag token consists of: alphanumerics, `_`, and `@`.
pub open spec fn spec_tag_byte(b: u8) -> bool {
    is_alnum_byte(b) || b == 95 || b == 64
}

/// Bytes a leading title fragment consists of: anything but a newline, a `:`
/// (candidate tag list) or a `[` (candidate cookie).
pub open spec fn spec_title_byte(b: u8) -> bool {
    b != 10 && b != 58 && b != 91
}

/// Bytes a trailing title fragment consists of: anything but a newline.
pub open spec fn spec_line_byte(b: u8) -> bool {
    b != 10
}

/// Each character class as a single predicate value, so that every mention of
/// a class in a run denotes the same function.
pub open spec fn marker_pred() -> spec_fn(u8) -> bool {
    |b: u8| is_marker_byte(b)
}

pub open spec fn ws_pred() -> spec_fn(u8) -> bool {
    |b: u8| is_ws_byte(b)
}

pub open spec fn digit_pred() -> spec_fn(u8) -> bool {
    |b: u8| is_digit_byte(b)
}

pub open spec fn tag_pred() -> spec_fn(u8) -> bool {
    |b: u8| spec_tag_byte(b)
}

pub open spec fn title_pred() -> spec_fn(u8) -> bool {
    |b: u8| spec_title_byte(b)
}

pub open spec fn line_pred() -> spec_fn(u8) -> bool {
    |b: u8| spec_line_byte(b)
}

/// Length of the longest run of bytes satisfying `p` starting at `i`.
pub open spec fn run_len(s: Seq<u8>, i: int, p: spec_fn(u8) -> bool) -> nat
    decreases s.len() - i,
    when 0 <= i <= s.len()
{
    if i >= s.len() || !p(s[i]) {
        0
    } else {
        (run_len(s, i + 1, p) + 1) as nat
    }
}

/// Run of depth markers starting at `i`.
pub open spec fn marker_run(s: Seq<u8>, i: int) -> nat {
    run_len(s, i, marker_pred())
}

/// Run of whitespace starting at `i`.
pub open spec fn ws_run(s: Seq<u8>, i: int) -> nat {
    run_len(s, i, ws_pred())
}

/// Run of decimal digits starting at `i`.
pub open spec fn digit_run(s: Seq<u8>, i: int) -> nat {
    run_len(s, i, digit_pred())
}

/// Run of tag token bytes starting at `i`.
pub open spec fn tag_run(s: Seq<u8>, i: int) -> nat {
    run_len(s, i, tag_pred())
}

/// Run of leading title fragment bytes starting at `i`.
pub open spec fn title_run(s: Seq<u8>, i: int) -> nat {
    run_len(s, i, title_pred())
}

/// Run of non-newline bytes starting at `i`.
pub open spec fn line_run(s: Seq<u8>, i: int) -> nat {
    run_len(s, i, line_pred())
}

/// A run stays inside the sequence, all its bytes satisfy the class, and it
/// is maximal: the byte after it (if any) falls outside the class.
pub proof fn lemma_run_len(s: Seq<u8>, i: int, p: spec_fn(u8) -> bool)
    requires
        0 <= i <= s.len(),
    ensures
        i + run_len(s, i, p) <= s.len(),
        forall|k: int| i <= k < i + run_len(s, i, p) ==> p(s[k]),
        i + run_len(s, i, p) < s.len() ==> !p(s[i + run_len(s, i, p)]),
    decreases s.len() - i,
{
    if i < s.len() && p(s[i]) {
        lemma_run_len(s, i + 1, p);
    }
}

/// A sequence made of `n` bytes of the class followed by a byte outside it
/// (or by the end) has a run of exactly `n` at position 0.
pub proof fn lemma_run_len_exact(s: Seq<u8>, n: int, p: spec_fn(u8) -> bool)
    requires
        0 <= n <= s.len(),
        forall|k: int| 0 <= k < n ==> p(s[k]),
        n < s.len() ==> !p(s[n]),
    ensures
        run_len(s, 0, p) == n,
{
    lemma_run_len_exact_from(s, 0, n, p);
}

proof fn lemma_run_len_exact_from(s: Seq<u8>, i: int, n: int, p: spec_fn(u8) -> bool)
    requires
        0 <= i <= n <= s.len(),
        forall|k: int| i <= k < n ==> p(s[k]),
        n < s.len() ==> !p(s[n]),
    ensures
        run_len(s, i, p) == n - i,
    decreases n - i,
{
    if i < n {
        lemma_run_len_exact_from(s, i + 1, n, p);
    }
}

/// Digit runs: in bounds, digits throughout, maximal.
pub proof fn lemma_digit_run(s: Seq<u8>, i: int)
    requires
        0 <= i <= s.len(),
    ensures
        i + digit_run(s, i) <= s.len(),
        forall|k: int| i <= k < i + digit_run(s, i) ==> is_digit_byte(s[k]),
        i + digit_run(s, i) < s.len() ==> !is_digit_byte(s[i + digit_run(s, i)]),
{
    lemma_run_len(s, i, digit_pred());
    assert forall|k: int| i <= k < i + digit_run(s, i) implies is_digit_byte(s[k]) by {
        assert(digit_pred()(s[k]));
    }
    if i + digit_run(s, i) < s.len() {
        assert(!digit_pred()(s[i + digit_run(s, i)]));
    }
}

/// Tag byte runs: in bounds, tag bytes throughout, maximal.
pub proof fn lemma_tag_run(s: Seq<u8>, i: int)
    requires
        0 <= i <= s.len(),
    ensures
        i + tag_run(s, i) <= s.len(),
        forall|k: int| i <= k < i + tag_run(s, i) ==> spec_tag_byte(s[k]),
        i + tag_run(s, i) < s.len() ==> !spec_tag_byte(s[i + tag_run(s, i)]),
{
    lemma_run_len(s, i, tag_pred());
    assert forall|k: int| i <= k < i + tag_run(s, i) implies spec_tag_byte(s[k]) by {
        assert(tag_pred()(s[k]));
    }
    if i + tag_run(s, i) < s.len() {
        assert(!tag_pred()(s[i + tag_run(s, i)]));
    }
}

/// End of the run of depth markers starting at `from`.
pub fn scan_markers(s: &[u8], from: usize) -> (to: usize)
    requires
        from <= s@.len(),
    ensures
        from <= to <= s@.len(),
        to - from == marker_run(s@, from as int),
{
    let mut j: usize = from;
    while j < s.len() && s[j] == 42
        invariant
            from <= j <= s@.len(),
            marker_run(s@, from as int) == (j - from) + marker_run(s@, j as int),
        decreases s@.len() - j,
    {
        proof {
            assert(marker_run(s@, j as int) == 1 + marker_run(s@, j + 1));
        }
        j = j + 1;
    }
    proof {
        assert(marker_run(s@, j as int) == 0);
    }
    j
}

/// End of the run of whitespace starting at `from`.
pub fn scan_ws(s: &[u8], from: usize) -> (to: usize)
    requires
        from <= s@.len(),
    ensures
        from <= to <= s@.len(),
        to - from == ws_run(s@, from as int),
{
    let mut j: usize = from;
    while j < s.len() && (s[j] == 32 || s[j] == 9 || s[j] == 13 || s[j] == 10)
        invariant
            from <= j <= s@.len(),
            ws_run(s@, from as int) == (j - from) + ws_run(s@, j as int),
        decreases s@.len() - j,
    {
        proof {
            assert(ws_run(s@, j as int) == 1 + ws_run(s@, j + 1));
        }
        j = j + 1;
    }
    proof {
        assert(ws_run(s@, j as int) == 0);
    }
    j
}

/// End of the run of decimal digits starting at `from`.
pub fn scan_digits(s: &[u8], from: usize) -> (to: usize)
    requires
        from <= s@.len(),
    ensures
        from <= to <= s@.len(),
        to - from == digit_run(s@, from as int),
{
    let mut j: usize = from;
    while j < s.len() && 48 <= s[j] && s[j] <= 57
        invariant
            from <= j <= s@.len(),
            digit_run(s@, from as int) == (j - from) + digit_run(s@, j as int),
        decreases s@.len() - j,
    {
        proof {
            assert(digit_run(s@, j as int) == 1 + digit_run(s@, j + 1));
        }
        j = j + 1;
    }
    proof {
        assert(digit_run(s@, j as int) == 0);
    }
    j
}

/// End of the run of tag token bytes starting at `from`.
pub fn scan_tag_bytes(s: &[u8], from: usize) -> (to: usize)
    requires
        from <= s@.len(),
    ensures
        from <= to <= s@.len(),
        to - from == tag_run(s@, from as int),
{
    let mut j: usize = from;
    while j < s.len() && ((65 <= s[j] && s[j] <= 90) || (97 <= s[j] && s[j] <= 122) || (48 <= s[j]
        && s[j] <= 57) || s[j] == 95 || s[j] == 64)
        invariant
            from <= j <= s@.len(),
            tag_run(s@, from as int) == (j - from) + tag_run(s@, j as int),
        decreases s@.len() - j,
    {
        proof {
            assert(tag_run(s@, j as int) == 1 + tag_run(s@, j + 1));
        }
        j = j + 1;
    }
    proof {
        assert(tag_run(s@, j as int) == 0);
    }
    j
}

/// End of the run of leading title fragment bytes starting at `from`.
pub fn scan_title_bytes(s: &[u8], from: usize) -> (to: usize)
    requires
        from <= s@.len(),
    ensures
        from <= to <= s@.len(),
        to - from == title_run(s@, from as int),
{
    let mut j: usize = from;
    while j < s.len() && s[j] != 10 && s[j] != 58 && s[j] != 91
        invariant
            from <= j <= s@.len(),
            title_run(s@, from as int) == (j - from) + title_run(s@, j as int),
        decreases s@.len() - j,
    {
        proof {
            assert(title_run(s@, j as int) == 1 + title_run(s@, j + 1));
        }
        j = j + 1;
    }
    proof {
        assert(title_run(s@, j as int) == 0);
    }
    j
}

/// End of the run of non-newline bytes starting at `from`.
pub fn scan_line_bytes(s: &[u8], from: usize) -> (to: usize)
    requires
        from <= s@.len(),
    ensures
        from <= to <= s@.len(),
        to - from == line_run(s@, from as int),
{
    let mut j: usize = from;
    while j < s.len() && s[j] != 10
        invariant
            from <= j <= s@.len(),
            line_run(s@, from as int) == (j - from) + line_run(s@, j as int),
        decreases s@.len() - j,
    {
        proof {
            assert(line_run(s@, j as int) == 1 + line_run(s@, j + 1));
        }
        j = j + 1;
    }
    proof {
        assert(line_run(s@, j as int) == 0);
    }
    j
}

/// Value of a run of decimal digit bytes, most significant first.
pub open spec fn digits_val(s: Seq<u8>) -> nat
    decreases s.len(),
{
    if s.len() == 0 {
        0
    } else {
        (digits_val(s.drop_last()) * 10 + (s.last() - 48)) as nat
    }
}

/// The value of a digit run is at least the value of any of its prefixes, so
/// a prefix already too large for the target width decides the whole run.
pub proof fn lemma_digits_val_prefix(s: Seq<u8>, i: int)
    requires
        0 <= i <= s.len(),
        forall|k: int| 0 <= k < s.len() ==> is_digit_byte(s[k]),
    ensures
        digits_val(s.subrange(0, i)) <= digits_val(s),
    decreases s.len() - i,
{
    if i < s.len() {
        let t = s.subrange(0, i + 1);
        assert(t.drop_last() =~= s.subrange(0, i));
        assert(digits_val(s.subrange(0, i)) <= digits_val(s.subrange(0, i + 1)));
        lemma_digits_val_prefix(s, i + 1);
    } else {
        assert(s.subrange(0, i) =~= s);
    }
}

} // verus!
