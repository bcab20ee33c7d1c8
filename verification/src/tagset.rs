//! The canonical tag collection: tag tokens are deduplicated and kept in a
//! strict lexicographic order, so that two headings carrying the same tags in
//! any order and multiplicity produce identical collections.

use vstd::prelude::*;
use vstd::string::StrSliceExecFns;
use vstd::string::StringExecFns;

verus! {

/// Strict lexicographic order on character sequences, by scalar value.
pub open spec fn lex_lt(a: Seq<char>, b: Seq<char>) -> bool
    decreases a.len(),
{
    if b.len() == 0 {
        false
    } else if a.len() == 0 {
        true
    } else if (a[0] as u32) < (b[0] as u32) {
        true
    } else if a[0] == b[0] {
        lex_lt(a.drop_first(), b.drop_first())
    } else {
        false
    }
}

/// Exactly one of `a < b`, `a == b`, `b < a` holds.
pub proof fn lemma_lex_trichotomy(a: Seq<char>, b: Seq<char>)
    ensures
        lex_lt(a, b) || lex_lt(b, a) || a == b,
        lex_lt(a, b) ==> !lex_lt(b, a) && a != b,
        lex_lt(b, a) ==> !lex_lt(a, b) && a != b,
    decreases a.len(),
{
    if a.len() > 0 && b.len() > 0 {
        vstd::utf8::char_u32_cast(a[0], a[0] as u32);
        vstd::utf8::char_u32_cast(b[0], b[0] as u32);
        if a[0] == b[0] {
            lemma_lex_trichotomy(a.drop_first(), b.drop_first());
            if a.drop_first() == b.drop_first() {
                assert forall|k: int| 0 <= k < a.len() implies a[k] == b[k] by {
                    if k > 0 {
                        assert(a.drop_first()[k - 1] == a[k]);
                        assert(b.drop_first()[k - 1] == b[k]);
                    }
                }
                assert(a =~= b);
            }
            if a == b {
                assert(a.drop_first() =~= b.drop_first());
            }
        } else {
            assert((a[0] as u32) != (b[0] as u32));
        }
    }
}

/// The order is transitive.
pub proof fn lemma_lex_transitive(a: Seq<char>, b: Seq<char>, c: Seq<char>)
    requires
        lex_lt(a, b),
        lex_lt(b, c),
    ensures
        lex_lt(a, c),
    decreases a.len(),
{
    if a.len() > 0 && b.len() > 0 && c.len() > 0 && a[0] == b[0] && b[0] == c[0] {
        lemma_lex_transitive(a.drop_first(), b.drop_first(), c.drop_first());
    }
}

/// Skipping an equal prefix on both sides does not change the order.
pub proof fn lemma_lex_skip(a: Seq<char>, b: Seq<char>, i: int)
    requires
        0 <= i <= a.len(),
        i <= b.len(),
        forall|k: int| 0 <= k < i ==> a[k] == b[k],
    ensures
        lex_lt(a, b) == lex_lt(a.skip(i), b.skip(i)),
    decreases i,
{
    if i > 0 {
        let ta = a.drop_first();
        let tb = b.drop_first();
        assert(forall|k: int| 0 <= k < i - 1 ==> ta[k] == tb[k]);
        lemma_lex_skip(ta, tb, i - 1);
        assert(ta.skip(i - 1) =~= a.skip(i));
        assert(tb.skip(i - 1) =~= b.skip(i));
    } else {
        assert(a.skip(0) =~= a);
        assert(b.skip(0) =~= b);
    }
}

/// Whether `a` comes strictly before `b` in the canonical tag order.
pub fn str_lt(a: &str, b: &str) -> (r: bool)
    ensures
        r == lex_lt(a@, b@),
{
    let na = a.unicode_len();
    let nb = b.unicode_len();
    let mut i: usize = 0;
    while i < na && i < nb
        invariant
            0 <= i <= na == a@.len(),
            i <= nb == b@.len(),
            forall|k: int| 0 <= k < i ==> a@[k] == b@[k],
        decreases na - i,
    {
        let ca = a.get_char(i);
        let cb = b.get_char(i);
        if ca != cb {
            proof {
                lemma_lex_skip(a@, b@, i as int);
                assert(a@.skip(i as int)[0] == a@[i as int]);
                assert(b@.skip(i as int)[0] == b@[i as int]);
            }
            return (ca as u32) < (cb as u32);
        }
        i = i + 1;
    }
    proof {
        lemma_lex_skip(a@, b@, i as int);
        if i == na {
            assert(a@.skip(i as int).len() == 0);
        } else {
            assert(b@.skip(i as int).len() == 0);
            assert(a@.skip(i as int).len() > 0);
        }
    }
    na < nb
}

/// A collection is canonical when its entries are strictly increasing, which
/// also means no entry occurs twice.
pub open spec fn strict_sorted(s: Seq<Seq<char>>) -> bool {
    forall|i: int, j: int| 0 <= i < j < s.len() ==> lex_lt(s[i], s[j])
}

/// Insertion of one tag into a canonical collection: before the first entry
/// it does not exceed, and dropped if that entry equals it.
pub open spec fn insert_tag(acc: Seq<Seq<char>>, t: Seq<char>) -> Seq<Seq<char>>
    decreases acc.len(),
{
    if acc.len() == 0 {
        seq![t]
    } else if t == acc[0] {
        acc
    } else if lex_lt(t, acc[0]) {
        seq![t] + acc
    } else {
        seq![acc[0]] + insert_tag(acc.drop_first(), t)
    }
}

/// Insertion keeps the collection canonical and its contents are the old
/// contents plus the new tag.
pub proof fn lemma_insert_tag(acc: Seq<Seq<char>>, t: Seq<char>)
    requires
        strict_sorted(acc),
    ensures
        strict_sorted(insert_tag(acc, t)),
        forall|x: Seq<char>|
            #![trigger insert_tag(acc, t).contains(x)]
            insert_tag(acc, t).contains(x) <==> (acc.contains(x) || x == t),
    decreases acc.len(),
{
    let ins = insert_tag(acc, t);
    if acc.len() == 0 {
        assert(ins =~= seq![t]);
        assert(ins[0] == t);
        assert forall|x: Seq<char>| ins.contains(x) <==> (acc.contains(x) || x == t) by {
            if ins.contains(x) {
                let k = choose|k: int| 0 <= k < ins.len() && ins[k] == x;
                assert(x == t);
            }
            if x == t {
                assert(ins[0] == x);
            }
        }
    } else if t == acc[0] {
        assert(acc.contains(t)) by {
            assert(acc[0] == t);
        }
    } else if lex_lt(t, acc[0]) {
        assert forall|i: int, j: int| 0 <= i < j < ins.len() implies lex_lt(ins[i], ins[j]) by {
            if i == 0 {
                assert(ins[j] == acc[j - 1]);
                if j > 1 {
                    lemma_lex_transitive(t, acc[0], acc[j - 1]);
                }
            } else {
                assert(ins[i] == acc[i - 1]);
                assert(ins[j] == acc[j - 1]);
            }
        }
        assert forall|x: Seq<char>| ins.contains(x) <==> (acc.contains(x) || x == t) by {
            if ins.contains(x) {
                let k = choose|k: int| 0 <= k < ins.len() && ins[k] == x;
                if k == 0 {
                    assert(x == t);
                } else {
                    assert(acc[k - 1] == x);
                }
            }
            if x == t {
                assert(ins[0] == x);
            }
            if acc.contains(x) {
                let k = choose|k: int| 0 <= k < acc.len() && acc[k] == x;
                assert(ins[k + 1] == x);
            }
        }
    } else {
        let tail = acc.drop_first();
        lemma_lex_trichotomy(t, acc[0]);
        assert(lex_lt(acc[0], t));
        assert(strict_sorted(tail)) by {
            assert(forall|i: int, j: int|
                0 <= i < j < tail.len() ==> tail[i] == acc[i + 1] && tail[j] == acc[j + 1]);
        }
        lemma_insert_tag(tail, t);
        let tins = insert_tag(tail, t);
        assert(ins =~= seq![acc[0]] + tins);
        assert forall|i: int, j: int| 0 <= i < j < ins.len() implies lex_lt(ins[i], ins[j]) by {
            if i == 0 {
                assert(ins[j] == tins[j - 1]);
                assert(tins.contains(tins[j - 1]));
                if tins[j - 1] == t {
                    assert(lex_lt(acc[0], ins[j]));
                } else {
                    assert(tail.contains(tins[j - 1]));
                    let k = choose|k: int| 0 <= k < tail.len() && tail[k] == tins[j - 1];
                    assert(tail[k] == acc[k + 1]);
                    assert(lex_lt(acc[0], acc[k + 1]));
                }
            } else {
                assert(ins[i] == tins[i - 1]);
                assert(ins[j] == tins[j - 1]);
            }
        }
        assert forall|x: Seq<char>| ins.contains(x) <==> (acc.contains(x) || x == t) by {
            if ins.contains(x) {
                let k = choose|k: int| 0 <= k < ins.len() && ins[k] == x;
                if k == 0 {
                    assert(acc[0] == x);
                } else {
                    assert(tins[k - 1] == x);
                    assert(tins.contains(x));
                    if x != t {
                        assert(tail.contains(x));
                        let m = choose|m: int| 0 <= m < tail.len() && tail[m] == x;
                        assert(acc[m + 1] == x);
                    }
                }
            }
            if x == t {
                assert(tail.contains(x) || x == t);
                assert(tins.contains(x));
                let m = choose|m: int| 0 <= m < tins.len() && tins[m] == x;
                assert(ins[m + 1] == x);
            }
            if acc.contains(x) {
                let k = choose|k: int| 0 <= k < acc.len() && acc[k] == x;
                if k == 0 {
                    assert(ins[0] == x);
                } else {
                    assert(tail[k - 1] == x);
                    assert(tail.contains(x));
                    assert(tins.contains(x));
                    let m = choose|m: int| 0 <= m < tins.len() && tins[m] == x;
                    assert(ins[m + 1] == x);
                }
            }
        }
    }
}

/// The canonical collection of a token list: empty tokens are dropped, the
/// rest are inserted in order.
pub open spec fn canon_tags(toks: Seq<Seq<char>>) -> Seq<Seq<char>>
    decreases toks.len(),
{
    if toks.len() == 0 {
        seq![]
    } else {
        let rest = canon_tags(toks.drop_last());
        if toks.last().len() == 0 {
            rest
        } else {
            insert_tag(rest, toks.last())
        }
    }
}

/// The canonical collection is canonical, and holds exactly the nonempty
/// tokens of the list.
pub proof fn lemma_canon_tags(toks: Seq<Seq<char>>)
    ensures
        strict_sorted(canon_tags(toks)),
        forall|x: Seq<char>|
            #![trigger canon_tags(toks).contains(x)]
            canon_tags(toks).contains(x) <==> (toks.contains(x) && x.len() > 0),
    decreases toks.len(),
{
    let c = canon_tags(toks);
    if toks.len() == 0 {
        assert(forall|x: Seq<char>| !c.contains(x));
        assert(forall|x: Seq<char>| !toks.contains(x));
    } else {
        let front = toks.drop_last();
        let rest = canon_tags(front);
        lemma_canon_tags(front);
        assert forall|x: Seq<char>| toks.contains(x) <==> (front.contains(x) || x == toks.last())
            by {
            if toks.contains(x) {
                let k = choose|k: int| 0 <= k < toks.len() && toks[k] == x;
                if k < toks.len() - 1 {
                    assert(front[k] == x);
                }
            }
            if front.contains(x) {
                let k = choose|k: int| 0 <= k < front.len() && front[k] == x;
                assert(toks[k] == x);
            }
            if x == toks.last() {
                assert(toks[toks.len() - 1] == x);
            }
        }
        if toks.last().len() == 0 {
            assert forall|x: Seq<char>| c.contains(x) <==> (toks.contains(x) && x.len() > 0) by {
                if x == toks.last() && x.len() > 0 {
                    assert(false);
                }
            }
        } else {
            lemma_insert_tag(rest, toks.last());
        }
    }
}

/// Canonical collections built from token lists with the same nonempty
/// tokens are identical: two strictly sorted sequences with the same
/// contents are equal.
pub proof fn lemma_strict_sorted_unique(a: Seq<Seq<char>>, b: Seq<Seq<char>>)
    requires
        strict_sorted(a),
        strict_sorted(b),
        forall|x: Seq<char>| a.contains(x) <==> b.contains(x),
    ensures
        a == b,
    decreases a.len(),
{
    if a.len() == 0 {
        if b.len() > 0 {
            assert(b.contains(b[0]));
            assert(a.contains(b[0]));
            assert(false);
        }
        assert(a =~= b);
    } else {
        assert(a.contains(a[0]));
        assert(b.contains(a[0]));
        assert(b.contains(b[0]));
        assert(a.contains(b[0]));
        let i = choose|i: int| 0 <= i < a.len() && a[i] == b[0];
        let j = choose|j: int| 0 <= j < b.len() && b[j] == a[0];
        if i > 0 {
            assert(lex_lt(a[0], a[i]));
        }
        if j > 0 {
            assert(lex_lt(b[0], b[j]));
        }
        if a[0] != b[0] {
            assert(lex_lt(a[0], b[0]) && lex_lt(b[0], a[0]));
            lemma_lex_trichotomy(a[0], b[0]);
            assert(false);
        }
        let ta = a.drop_first();
        let tb = b.drop_first();
        assert(strict_sorted(ta)) by {
            assert(forall|p: int, q: int|
                0 <= p < q < ta.len() ==> ta[p] == a[p + 1] && ta[q] == a[q + 1]);
        }
        assert(strict_sorted(tb)) by {
            assert(forall|p: int, q: int|
                0 <= p < q < tb.len() ==> tb[p] == b[p + 1] && tb[q] == b[q + 1]);
        }
        assert forall|x: Seq<char>| ta.contains(x) <==> tb.contains(x) by {
            if ta.contains(x) {
                let k = choose|k: int| 0 <= k < ta.len() && ta[k] == x;
                assert(a[k + 1] == x);
                assert(lex_lt(a[0], x));
                lemma_lex_trichotomy(a[0], x);
                assert(a.contains(x));
                assert(b.contains(x));
                let m = choose|m: int| 0 <= m < b.len() && b[m] == x;
                assert(m != 0);
                assert(tb[m - 1] == x);
            }
            if tb.contains(x) {
                let k = choose|k: int| 0 <= k < tb.len() && tb[k] == x;
                assert(b[k + 1] == x);
                assert(lex_lt(b[0], x));
                lemma_lex_trichotomy(b[0], x);
                assert(b.contains(x));
                assert(a.contains(x));
                let m = choose|m: int| 0 <= m < a.len() && a[m] == x;
                assert(m != 0);
                assert(ta[m - 1] == x);
            }
        }
        lemma_strict_sorted_unique(ta, tb);
        assert forall|k: int| 0 <= k < a.len() implies a[k] == b[k] by {
            if k > 0 {
                assert(ta[k - 1] == a[k]);
                assert(tb[k - 1] == b[k]);
            }
        }
        assert(a =~= b);
    }
}

/// Tags are idempotent under reordering and duplication: token lists with
/// the same nonempty tokens, in any order and multiplicity, canonicalize to
/// the same collection.
pub proof fn lemma_canon_tags_order_independent(t1: Seq<Seq<char>>, t2: Seq<Seq<char>>)
    requires
        forall|x: Seq<char>|
            (t1.contains(x) && x.len() > 0) <==> (t2.contains(x) && x.len() > 0),
    ensures
        canon_tags(t1) == canon_tags(t2),
{
    lemma_canon_tags(t1);
    lemma_canon_tags(t2);
    assert forall|x: Seq<char>| canon_tags(t1).contains(x) <==> canon_tags(t2).contains(x) by {
        assert(canon_tags(t1).contains(x) <==> (t1.contains(x) && x.len() > 0));
        assert(canon_tags(t2).contains(x) <==> (t2.contains(x) && x.len() > 0));
    }
    lemma_strict_sorted_unique(canon_tags(t1), canon_tags(t2));
}

/// Where a new tag lands in a canonical collection: before the first entry
/// it does not precede, replacing nothing when that entry equals it.
proof fn lemma_insert_tag_at(acc: Seq<Seq<char>>, t: Seq<char>, k: int)
    requires
        0 <= k <= acc.len(),
        forall|j: int| 0 <= j < k ==> lex_lt(acc[j], t),
        k < acc.len() ==> !lex_lt(acc[k], t),
    ensures
        k < acc.len() && acc[k] == t ==> insert_tag(acc, t) == acc,
        !(k < acc.len() && acc[k] == t) ==> insert_tag(acc, t) == acc.subrange(0, k) + seq![t]
            + acc.subrange(k, acc.len() as int),
    decreases k,
{
    if k == 0 {
        if acc.len() == 0 {
            assert(insert_tag(acc, t) =~= acc.subrange(0, 0) + seq![t] + acc.subrange(0, 0));
        } else if acc[0] == t {
        } else {
            lemma_lex_trichotomy(t, acc[0]);
            assert(lex_lt(t, acc[0]));
            assert(insert_tag(acc, t) =~= acc.subrange(0, 0) + seq![t] + acc.subrange(
                0,
                acc.len() as int,
            ));
        }
    } else {
        let tail = acc.drop_first();
        lemma_lex_trichotomy(t, acc[0]);
        assert(forall|j: int| 0 <= j < k - 1 ==> tail[j] == acc[j + 1]);
        assert(k - 1 < tail.len() ==> tail[k - 1] == acc[k]);
        lemma_insert_tag_at(tail, t, k - 1);
        if k < acc.len() && acc[k] == t {
            assert(insert_tag(tail, t) == tail);
            assert(insert_tag(acc, t) =~= acc);
        } else {
            assert(insert_tag(acc, t) =~= acc.subrange(0, k) + seq![t] + acc.subrange(
                k,
                acc.len() as int,
            ));
        }
    }
}

/// Inserts a tag into a canonical collection, keeping it canonical.
fn insert_sorted(v: &mut Vec<String>, t: String)
    ensures
        final(v).deep_view() == insert_tag(old(v).deep_view(), t@),
{
    let ghost dv = v.deep_view();
    let mut idx: usize = 0;
    while idx < v.len() && str_lt(v[idx].as_str(), t.as_str())
        invariant
            0 <= idx <= v@.len(),
            *v == *old(v),
            dv == v.deep_view(),
            forall|j: int| 0 <= j < idx ==> lex_lt(dv[j], t@),
        decreases v@.len() - idx,
    {
        idx = idx + 1;
    }
    proof {
        assert(idx < v@.len() ==> !lex_lt(dv[idx as int], t@));
    }
    if idx < v.len() && v[idx] == t {
        proof {
            lemma_insert_tag_at(dv, t@, idx as int);
            assert(dv[idx as int] == t@);
        }
        return ;
    }
    proof {
        lemma_insert_tag_at(dv, t@, idx as int);
    }
    v.insert(idx, t);
    proof {
        assert(final(v).deep_view() =~= dv.subrange(0, idx as int) + seq![t@] + dv.subrange(
            idx as int,
            dv.len() as int,
        ));
    }
}

/// The canonical tag collection of a list of tag strings: deduplicated, in
/// strict lexicographic order, empty tokens dropped.
pub fn canonical_tag_vec(list: &Vec<String>) -> (r: Vec<String>)
    ensures
        r.deep_view() == canon_tags(list.deep_view()),
{
    let ghost full = list.deep_view();
    let mut out: Vec<String> = Vec::new();
    let mut i: usize = 0;
    proof {
        assert(out.deep_view() =~= canon_tags(full.subrange(0, 0)));
    }
    while i < list.len()
        invariant
            0 <= i <= list@.len(),
            full == list.deep_view(),
            full.len() == list@.len(),
            out.deep_view() == canon_tags(full.subrange(0, i as int)),
        decreases list@.len() - i,
    {
        let ghost pre = full.subrange(0, i as int);
        let ghost cur = full.subrange(0, i + 1);
        proof {
            assert(cur.drop_last() =~= pre);
            assert(cur.last() == full[i as int]);
            assert(full[i as int] == list@[i as int]@);
        }
        if !list[i].as_str().is_empty() {
            let t = list[i].clone();
            insert_sorted(&mut out, t);
        } else {
            proof {
                assert(full[i as int].len() == 0);
            }
        }
        i = i + 1;
    }
    proof {
        assert(full.subrange(0, full.len() as int) =~= full);
    }
    out
}

} // verus!
