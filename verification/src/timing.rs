//! The timing table that upstream requests share: moments as seconds and as
//! display text, kept in the order of `(u32, String)` tuples.

use vstd::prelude::*;
use crate::trend::timing_view;

verus! {

/// Lexicographic order on texts by character, the order of `String`.
pub open spec fn text_le(a: Seq<char>, b: Seq<char>) -> bool
    decreases a.len(),
{
    if a.len() == 0 {
        true
    } else if b.len() == 0 {
        false
    } else if a[0] != b[0] {
        (a[0] as int) < (b[0] as int)
    } else {
        text_le(a.drop_first(), b.drop_first())
    }
}

/// The order of timing rows: by seconds, then by display text.
pub open spec fn timing_le(a: (u32, Seq<char>), b: (u32, Seq<char>)) -> bool {
    a.0 < b.0 || (a.0 == b.0 && text_le(a.1, b.1))
}

/// Rows in non-decreasing order.
pub open spec fn timing_sorted(s: Seq<(u32, Seq<char>)>) -> bool {
    forall|i: int, j: int| 0 <= i < j < s.len() ==> timing_le(#[trigger] s[i], #[trigger] s[j])
}

/// Where a row goes in a sorted table: before the first row that is not below it.
pub open spec fn insert_pos(s: Seq<(u32, Seq<char>)>, x: (u32, Seq<char>)) -> int
    decreases s.len(),
{
    if s.len() == 0 || timing_le(x, s[0]) {
        0
    } else {
        1 + insert_pos(s.drop_first(), x)
    }
}

/// The table sorted the way `slice::sort` sorts `(u32, String)` rows.
pub open spec fn sort_timing(s: Seq<(u32, Seq<char>)>) -> Seq<(u32, Seq<char>)>
    decreases s.len(),
{
    if s.len() == 0 {
        s
    } else {
        let pre = sort_timing(s.drop_last());
        pre.insert(insert_pos(pre, s.last()), s.last())
    }
}

proof fn lemma_text_le_total(a: Seq<char>, b: Seq<char>)
    ensures
        text_le(a, b) || text_le(b, a),
        text_le(a, b) && text_le(b, a) ==> a == b,
    decreases a.len(),
{
    if a.len() > 0 && b.len() > 0 && a[0] == b[0] {
        lemma_text_le_total(a.drop_first(), b.drop_first());
        if text_le(a, b) && text_le(b, a) {
            assert(a =~= seq![a[0]] + a.drop_first());
            assert(b =~= seq![b[0]] + b.drop_first());
        }
    }
    if a.len() == 0 && b.len() == 0 {
        assert(a =~= b);
    }
    if a.len() > 0 && b.len() > 0 && a[0] != b[0] {
        assert((a[0] as int) != (b[0] as int));
    }
}

proof fn lemma_text_le_trans(a: Seq<char>, b: Seq<char>, c: Seq<char>)
    requires
        text_le(a, b),
        text_le(b, c),
    ensures
        text_le(a, c),
    decreases a.len(),
{
    if a.len() > 0 && b.len() > 0 && c.len() > 0 && a[0] == b[0] && b[0] == c[0] {
        lemma_text_le_trans(a.drop_first(), b.drop_first(), c.drop_first());
    }
}

/// `timing_le` is a total order.
pub proof fn lemma_timing_le_order(a: (u32, Seq<char>), b: (u32, Seq<char>), c: (u32, Seq<char>))
    ensures
        timing_le(a, b) || timing_le(b, a),
        timing_le(a, b) && timing_le(b, a) ==> a == b,
        timing_le(a, b) && timing_le(b, c) ==> timing_le(a, c),
{
    lemma_text_le_total(a.1, b.1);
    if a.0 == b.0 && b.0 == c.0 && text_le(a.1, b.1) && text_le(b.1, c.1) {
        lemma_text_le_trans(a.1, b.1, c.1);
    }
}

proof fn lemma_insert_pos(s: Seq<(u32, Seq<char>)>, x: (u32, Seq<char>))
    ensures
        0 <= insert_pos(s, x) <= s.len(),
        forall|k: int| 0 <= k < insert_pos(s, x) ==> !timing_le(x, #[trigger] s[k]),
        insert_pos(s, x) < s.len() ==> timing_le(x, s[insert_pos(s, x)]),
    decreases s.len(),
{
    if s.len() > 0 && !timing_le(x, s[0]) {
        lemma_insert_pos(s.drop_first(), x);
        assert forall|k: int| 0 <= k < insert_pos(s, x) implies !timing_le(x, #[trigger] s[k]) by {
            if k > 0 {
                assert(s[k] == s.drop_first()[k - 1]);
            }
        }
    }
}

proof fn lemma_insert_pos_unique(s: Seq<(u32, Seq<char>)>, x: (u32, Seq<char>), j: int)
    requires
        0 <= j <= s.len(),
        forall|k: int| 0 <= k < j ==> !timing_le(x, #[trigger] s[k]),
        j < s.len() ==> timing_le(x, s[j]),
    ensures
        insert_pos(s, x) == j,
    decreases s.len(),
{
    if s.len() > 0 && j > 0 {
        assert(!timing_le(x, s[0]));
        assert forall|k: int| 0 <= k < j - 1 implies !timing_le(x, #[trigger] s.drop_first()[k]) by {
            assert(s.drop_first()[k] == s[k + 1]);
        }
        lemma_insert_pos_unique(s.drop_first(), x, j - 1);
    }
}

proof fn lemma_insert_sorted(s: Seq<(u32, Seq<char>)>, x: (u32, Seq<char>))
    requires
        timing_sorted(s),
    ensures
        timing_sorted(s.insert(insert_pos(s, x), x)),
{
    lemma_insert_pos(s, x);
    let p = insert_pos(s, x);
    let t = s.insert(p, x);
    assert forall|i: int, j: int| 0 <= i < j < t.len() implies timing_le(#[trigger] t[i], #[trigger] t[j]) by {
        if i < p && j < p {
            assert(t[i] == s[i] && t[j] == s[j]);
        } else if i < p && j == p {
            lemma_timing_le_order(s[i], x, x);
            assert(!timing_le(x, s[i]));
        } else if i < p {
            assert(t[i] == s[i] && t[j] == s[j - 1]);
        } else if i == p {
            assert(t[j] == s[j - 1]);
            assert(timing_le(x, s[p]));
            if j - 1 > p {
                lemma_timing_le_order(x, s[p], s[j - 1]);
            }
        } else {
            assert(t[i] == s[i - 1] && t[j] == s[j - 1]);
        }
    }
}

/// Sorting leaves the rows in order and keeps each row as often as it was there.
pub proof fn lemma_sort_timing(s: Seq<(u32, Seq<char>)>)
    ensures
        timing_sorted(sort_timing(s)),
        sort_timing(s).to_multiset() == s.to_multiset(),
    decreases s.len(),
{
    broadcast use vstd::seq_lib::group_to_multiset_ensures;
    if s.len() > 0 {
        let pre = sort_timing(s.drop_last());
        lemma_sort_timing(s.drop_last());
        lemma_insert_sorted(pre, s.last());
        lemma_insert_pos(pre, s.last());
        vstd::seq_lib::to_multiset_insert(pre, insert_pos(pre, s.last()), s.last());
        assert(s =~= s.drop_last().push(s.last()));
        vstd::seq_lib::to_multiset_build(s.drop_last(), s.last());
    }
}

/// Sorting a sorted table changes nothing.
pub proof fn lemma_sort_sorted(s: Seq<(u32, Seq<char>)>)
    requires
        timing_sorted(s),
    ensures
        sort_timing(s) == s,
    decreases s.len(),
{
    if s.len() > 0 {
        let pre = s.drop_last();
        assert(timing_sorted(pre));
        lemma_sort_sorted(pre);
        assert forall|k: int| 0 <= k < pre.len() implies !timing_le(s.last(), #[trigger] pre[k]) || pre[k] == s.last() by {
            assert(timing_le(s[k], s[s.len() - 1]));
            lemma_timing_le_order(s[k], s.last(), s.last());
        }
        // Equal rows may sit on either side of the insertion point; either way the result is `s`.
        let p = insert_pos(pre, s.last());
        lemma_insert_pos(pre, s.last());
        assert forall|k: int| p <= k < pre.len() implies pre[k] == s.last() by {
            assert(timing_le(s.last(), pre[p]));
            assert(timing_le(pre[p], pre[k]) || k == p);
            if k > p {
                lemma_timing_le_order(s.last(), pre[p], pre[k]);
            }
            assert(timing_le(pre[k], s.last()));
            lemma_timing_le_order(pre[k], s.last(), s.last());
        }
        let t = pre.insert(p, s.last());
        assert forall|k: int| 0 <= k < s.len() implies t[k] == s[k] by {
            if k > p && k < s.len() - 1 {
                assert(t[k] == pre[k - 1]);
                assert(s[k] == pre[k]);
            }
        }
        assert(t =~= s);
    }
}

fn text_le_exec(a: &str, b: &str) -> (r: bool)
    ensures
        r == text_le(a@, b@),
{
    let an = a.unicode_len();
    let bn = b.unicode_len();
    let mut i: usize = 0;
    assert(a@.skip(0) =~= a@);
    assert(b@.skip(0) =~= b@);
    while i < an && i < bn && a.get_char(i) == b.get_char(i)
        invariant
            an == a@.len(),
            bn == b@.len(),
            i <= an,
            i <= bn,
            text_le(a@, b@) == text_le(a@.skip(i as int), b@.skip(i as int)),
        decreases an - i,
    {
        assert(a@.skip(i as int).drop_first() =~= a@.skip(i + 1));
        assert(b@.skip(i as int).drop_first() =~= b@.skip(i + 1));
        i = i + 1;
    }
    if i == an {
        return true;
    }
    if i == bn {
        return false;
    }
    (a.get_char(i) as u32) < (b.get_char(i) as u32)
}

fn timing_le_exec(a: &(u32, String), b: &(u32, String)) -> (r: bool)
    ensures
        r == timing_le((a.0, a.1@), (b.0, b.1@)),
{
    a.0 < b.0 || (a.0 == b.0 && text_le_exec(a.1.as_str(), b.1.as_str()))
}

/// Sorts a timing table as `slice::sort` does: by seconds, then by display text.
pub fn sort_timing_table(t: Vec<(u32, String)>) -> (r: Vec<(u32, String)>)
    ensures
        timing_view(r@) == sort_timing(timing_view(t@)),
{
    let ghost tv = timing_view(t@);
    let mut out: Vec<(u32, String)> = Vec::new();
    let mut rest = t;
    let ghost mut done: int = 0;
    assert(tv.take(0) =~= Seq::<(u32, Seq<char>)>::empty());
    while rest.len() > 0
        invariant
            0 <= done <= tv.len(),
            rest@.len() == tv.len() - done,
            forall|i: int| 0 <= i < rest@.len() ==> (#[trigger] rest@[i].0, rest@[i].1@) == tv[done + i],
            timing_view(out@) == sort_timing(tv.take(done)),
        decreases rest@.len(),
    {
        let x = rest.remove(0);
        let ghost xv = (x.0, x.1@);
        assert(xv == tv[done]);
        assert(tv.take(done + 1).drop_last() =~= tv.take(done));
        let ghost ov = timing_view(out@);
        let mut j: usize = 0;
        while j < out.len() && !timing_le_exec(&x, &out[j])
            invariant
                j <= out@.len(),
                ov == timing_view(out@),
                xv == (x.0, x.1@),
                forall|k: int| 0 <= k < j ==> !timing_le(xv, #[trigger] ov[k]),
            decreases out@.len() - j,
        {
            j = j + 1;
        }
        proof {
            lemma_insert_pos_unique(ov, xv, j as int);
        }
        out.insert(j, x);
        assert(timing_view(out@) =~= ov.insert(j as int, xv));
        proof {
            done = done + 1;
        }
    }
    assert(tv.take(done) =~= tv);
    out
}

} // verus!
