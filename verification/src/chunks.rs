//! Cutting keyword lists into the groups that one upstream request can compare.

use vstd::prelude::*;
use crate::text::strings_view;

verus! {

/// What `slice::chunks(n)` yields: consecutive pieces of `n` items, the last
/// one possibly shorter; no piece for an empty sequence.
pub open spec fn chunks_of<A>(s: Seq<A>, n: nat) -> Seq<Seq<A>>
    decreases s.len(),
{
    if s.len() == 0 || n == 0 {
        Seq::empty()
    } else if s.len() <= n {
        seq![s]
    } else {
        seq![s.take(n as int)] + chunks_of(s.skip(n as int), n)
    }
}

/// The size of the keyword groups: 4 when there are more than 5 keywords (so
/// that each group has room for one more), 5 otherwise.
pub open spec fn group_size(len: nat) -> nat {
    if len > 5 {
        4
    } else {
        5
    }
}

/// The chunks put back together give the sequence; every chunk holds between
/// 1 and `n` items, every chunk but the last exactly `n`; there are
/// `ceil(len / n)` chunks.
pub proof fn lemma_chunks_of<A>(s: Seq<A>, n: nat)
    requires
        n > 0,
    ensures
        chunks_of(s, n).flatten() == s,
        forall|i: int| 0 <= i < chunks_of(s, n).len() ==> 0 < #[trigger] chunks_of(s, n)[i].len() <= n,
        forall|i: int| 0 <= i < chunks_of(s, n).len() - 1 ==> #[trigger] chunks_of(s, n)[i].len() == n,
        chunks_of(s, n).len() == (s.len() + n - 1) / n as int,
    decreases s.len(),
{
    if s.len() == 0 {
        assert((n - 1) / n as int == 0) by (nonlinear_arith)
            requires n > 0;
    } else if s.len() <= n {
        let c = chunks_of(s, n);
        assert(c.drop_first() =~= Seq::<Seq<A>>::empty());
        assert(c.first() == s);
        assert(c.drop_first().flatten() =~= Seq::<A>::empty());
        assert(c.flatten() =~= s);
        assert((s.len() + n - 1) / n as int == 1) by (nonlinear_arith)
            requires 0 < s.len() <= n;
    } else {
        let rest = s.skip(n as int);
        lemma_chunks_of(rest, n);
        let c = chunks_of(s, n);
        assert(c.drop_first() =~= chunks_of(rest, n));
        assert(c.flatten() == s.take(n as int) + chunks_of(rest, n).flatten());
        assert(s.take(n as int) + rest =~= s);
        assert forall|i: int| 0 <= i < c.len() implies 0 < #[trigger] c[i].len() <= n by {
            if i > 0 {
                assert(c[i] == chunks_of(rest, n)[i - 1]);
            }
        }
        assert forall|i: int| 0 <= i < c.len() - 1 implies #[trigger] c[i].len() == n by {
            if i > 0 {
                assert(c[i] == chunks_of(rest, n)[i - 1]);
            }
        }
        let m = rest.len();
        assert((m + n - 1) / n as int + 1 == (m + n + n - 1) / n as int) by (nonlinear_arith)
            requires n > 0, m >= 0;
    }
}

/// A round of grouping leaves fewer groups than there were keywords, as long
/// as there were at least two; so repeated rounds come down to one group.
pub proof fn lemma_round_shrinks<A>(s: Seq<A>)
    requires
        s.len() > 1,
    ensures
        chunks_of(s, group_size(s.len())).len() < s.len(),
        chunks_of(s, group_size(s.len())).len() >= 1,
{
    let n = group_size(s.len());
    lemma_chunks_of(s, n);
    let l = s.len();
    if l > 5 {
        assert((l + 4 - 1) / 4 < l) by (nonlinear_arith)
            requires l > 5;
        assert((l + 4 - 1) / 4 >= 1) by (nonlinear_arith)
            requires l > 5;
    } else {
        assert((l + 5 - 1) / 5 == 1) by (nonlinear_arith)
            requires 1 < l <= 5;
    }
}

/// The views of a list of keyword lists.
pub open spec fn lists_view(v: Seq<Vec<String>>) -> Seq<Seq<Seq<char>>> {
    v.map_values(|l: Vec<String>| strings_view(l@))
}

/// The group size for a list of `len` keywords.
pub fn keyword_group_size(len: usize) -> (n: usize)
    ensures
        n == group_size(len as nat),
{
    if len > 5 {
        4
    } else {
        5
    }
}

fn copy_range(list: &Vec<String>, from: usize, to: usize) -> (r: Vec<String>)
    requires
        from <= to <= list@.len(),
    ensures
        strings_view(r@) == strings_view(list@).subrange(from as int, to as int),
{
    let mut r: Vec<String> = Vec::new();
    let mut i = from;
    while i < to
        invariant
            from <= i <= to <= list@.len(),
            strings_view(r@) == strings_view(list@).subrange(from as int, i as int),
        decreases to - i,
    {
        let ghost before = strings_view(r@);
        let x = list[i].clone();
        assert(x@ == list@[i as int]@);
        r.push(x);
        assert(strings_view(r@) =~= before.push(x@));
        assert(strings_view(r@) =~= strings_view(list@).subrange(from as int, i + 1));
        i = i + 1;
    }
    r
}

/// Cuts a keyword list into consecutive groups of `n`, as `slice::chunks(n)` does.
pub fn chunk_keywords(list: &Vec<String>, n: usize) -> (r: Vec<Vec<String>>)
    requires
        n > 0,
    ensures
        lists_view(r@) == chunks_of(strings_view(list@), n as nat),
{
    let ghost sv = strings_view(list@);
    let len = list.len();
    let mut out: Vec<Vec<String>> = Vec::new();
    let mut i: usize = 0;
    assert(sv.skip(0) =~= sv);
    assert(lists_view(out@) + chunks_of(sv.skip(0), n as nat) =~= chunks_of(sv, n as nat));
    while i < len
        invariant
            len == list@.len(),
            sv == strings_view(list@),
            i <= len,
            n > 0,
            lists_view(out@) + chunks_of(sv.skip(i as int), n as nat) == chunks_of(sv, n as nat),
        decreases len - i,
    {
        let end = if len - i <= n { len } else { i + n };
        let piece = copy_range(list, i, end);
        let ghost rest = sv.skip(i as int);
        if len - i > n {
            assert(rest.take(n as int) =~= sv.subrange(i as int, i + n));
            assert(rest.skip(n as int) =~= sv.skip(i + n));
        }
        assert(sv.skip(len as int) =~= Seq::<Seq<char>>::empty());
        assert(rest =~= sv.subrange(i as int, len as int));
        let ghost before = lists_view(out@);
        out.push(piece);
        assert(lists_view(out@) =~= before.push(sv.subrange(i as int, end as int)));
        if len - i <= n {
            assert(chunks_of(rest, n as nat) =~= seq![sv.subrange(i as int, end as int)]);
        } else {
            assert(chunks_of(rest, n as nat) =~= seq![sv.subrange(i as int, end as int)] + chunks_of(sv.skip(end as int), n as nat));
        }
        assert(lists_view(out@) + chunks_of(sv.skip(end as int), n as nat) =~= before + chunks_of(rest, n as nat));
        i = end;
    }
    assert(sv.skip(len as int) =~= Seq::<Seq<char>>::empty());
    assert(lists_view(out@) =~= chunks_of(sv, n as nat));
    out
}

} // verus!
