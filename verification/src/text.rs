//! Text handling for captured byte regions: UTF-8 conversion of fragments,
//! the ASCII special case used for tag tokens, and whitespace trimming of the
//! reassembled title.

use vstd::prelude::*;
use vstd::string::StrSliceExecFns;
use vstd::string::StringExecFns;
use vstd::utf8::decode_first_scalar;
use vstd::utf8::decode_utf8;
use vstd::utf8::length_of_first_scalar;
use vstd::utf8::pop_first_scalar;
use vstd::utf8::valid_first_scalar;
use vstd::utf8::valid_utf8;

verus! {

/// Relies on `str::from_utf8`: it returns `Ok` exactly when the bytes are a
/// valid UTF-8 encoding, and the returned string consists of those bytes, so
/// its characters are their decoded scalars.
#[verifier::external_body]
fn utf8_to_str(b: &[u8]) -> (r: Option<&str>)
    ensures
        r is Some <==> valid_utf8(b@),
        r matches Some(s) ==> s@ == decode_utf8(b@),
{
    match std::str::from_utf8(b) {
        Ok(s) => Some(s),
        Err(_) => None,
    }
}

/// Owned text of a captured byte region; `None` when the region is not valid
/// UTF-8, in which case the caller treats the carrying field as absent.
pub fn bytes_to_string_checked(b: &[u8]) -> (r: Option<String>)
    ensures
        r is Some <==> valid_utf8(b@),
        r matches Some(s) ==> s@ == decode_utf8(b@),
{
    match utf8_to_str(b) {
        Some(s) => Some(String::from_str(s)),
        None => None,
    }
}

/// ASCII bytes are valid UTF-8 and decode to themselves, character for
/// character; tag tokens are ASCII by construction, so their conversion
/// never fails.
pub proof fn lemma_ascii_valid_utf8(s: Seq<u8>)
    requires
        forall|k: int| 0 <= k < s.len() ==> s[k] < 128,
    ensures
        valid_utf8(s),
        decode_utf8(s).len() == s.len(),
        forall|k: int| 0 <= k < s.len() ==> decode_utf8(s)[k] == s[k] as char,
    decreases s.len(),
{
    if s.len() > 0 {
        let b0 = s[0];
        assert(b0 & 0x7F == b0) by (bit_vector)
            requires
                b0 < 128,
        ;
        assert(valid_first_scalar(s));
        assert(decode_first_scalar(s) == b0 as u32);
        let rest = pop_first_scalar(s);
        assert(rest =~= s.subrange(1, s.len() as int));
        lemma_ascii_valid_utf8(rest);
        assert(valid_utf8(s));
        assert(decode_utf8(s) == seq![decode_first_scalar(s) as char] + decode_utf8(rest));
        assert forall|k: int| 0 <= k < s.len() implies decode_utf8(s)[k] == s[k] as char by {
            if k > 0 {
                assert(decode_utf8(s)[k] == decode_utf8(rest)[k - 1]);
                assert(rest[k - 1] == s[k]);
            }
        }
    }
}

/// Characters stripped from the ends of a reassembled title: the separator
/// whitespace of the heading grammar.
pub open spec fn is_trim_char(c: char) -> bool {
    c == ' ' || c == '\t' || c == '\r' || c == '\n'
}

/// Length of the leading run of trimmable characters.
pub open spec fn ws_prefix(s: Seq<char>) -> nat
    decreases s.len(),
{
    if s.len() == 0 || !is_trim_char(s[0]) {
        0
    } else {
        (ws_prefix(s.drop_first()) + 1) as nat
    }
}

/// Length of the trailing run of trimmable characters.
pub open spec fn ws_suffix(s: Seq<char>) -> nat
    decreases s.len(),
{
    if s.len() == 0 || !is_trim_char(s.last()) {
        0
    } else {
        (ws_suffix(s.drop_last()) + 1) as nat
    }
}

/// The sequence with leading and trailing trimmable characters removed.
pub open spec fn spec_trim(s: Seq<char>) -> Seq<char> {
    let lo = ws_prefix(s) as int;
    let hi = s.len() - ws_suffix(s);
    if lo <= hi {
        s.subrange(lo, hi)
    } else {
        seq![]
    }
}

/// `ws_prefix` is the unique boundary: everything before it trims, the
/// character at it (if any) does not.
pub proof fn lemma_ws_prefix_exact(s: Seq<char>, p: int)
    requires
        0 <= p <= s.len(),
        forall|k: int| 0 <= k < p ==> is_trim_char(s[k]),
        p < s.len() ==> !is_trim_char(s[p]),
    ensures
        ws_prefix(s) == p,
    decreases s.len(),
{
    if p > 0 {
        let t = s.drop_first();
        assert(forall|k: int| 0 <= k < p - 1 ==> t[k] == s[k + 1]);
        lemma_ws_prefix_exact(t, p - 1);
    }
}

/// `ws_suffix` is the unique boundary from the right.
pub proof fn lemma_ws_suffix_exact(s: Seq<char>, q: int)
    requires
        0 <= q <= s.len(),
        forall|k: int| s.len() - q <= k < s.len() ==> is_trim_char(s[k]),
        q < s.len() ==> !is_trim_char(s[s.len() - q - 1]),
    ensures
        ws_suffix(s) == q,
    decreases s.len(),
{
    if q > 0 {
        let t = s.drop_last();
        lemma_ws_suffix_exact(t, q - 1);
    }
}

fn is_trim_char_x(c: char) -> (r: bool)
    ensures
        r == is_trim_char(c),
{
    c == ' ' || c == '\t' || c == '\r' || c == '\n'
}

/// The string with leading and trailing separator whitespace removed.
pub fn trim_ws(s: &str) -> (r: String)
    ensures
        r@ == spec_trim(s@),
{
    let n = s.unicode_len();
    let mut lo: usize = 0;
    while lo < n && is_trim_char_x(s.get_char(lo))
        invariant
            0 <= lo <= n == s@.len(),
            forall|k: int| 0 <= k < lo ==> is_trim_char(s@[k]),
        decreases n - lo,
    {
        lo = lo + 1;
    }
    proof {
        lemma_ws_prefix_exact(s@, lo as int);
    }
    let mut hi: usize = n;
    while hi > lo && is_trim_char_x(s.get_char(hi - 1))
        invariant
            lo <= hi <= n == s@.len(),
            forall|k: int| hi <= k < n ==> is_trim_char(s@[k]),
        decreases hi,
    {
        hi = hi - 1;
    }
    proof {
        if lo == n {
            assert(hi == n);
            assert(spec_trim(s@) =~= s@.subrange(lo as int, hi as int));
        } else {
            assert(!is_trim_char(s@[lo as int]));
            assert(hi > lo);
            assert(!is_trim_char(s@[hi - 1]));
            lemma_ws_suffix_exact(s@, n - hi);
            assert(spec_trim(s@) == s@.subrange(lo as int, hi as int));
        }
    }
    let t = s.substring_char(lo, hi);
    String::from_str(t)
}

} // verus!
