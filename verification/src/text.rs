//! Text utilities on `char` sequences: quote trimming, splitting, searching,
//! replacing and decimal parsing.

use vstd::prelude::*;
use vstd::utf8::{encode_utf8, decode_utf8, is_char_boundary, group_utf8_lib};
use vstd::string::StringSliceAdditionalSpecFns;

verus! {

/// The text with every leading `"` removed.
pub open spec fn trim_start_quotes(s: Seq<char>) -> Seq<char>
    decreases s.len(),
{
    if s.len() > 0 && s[0] == '"' {
        trim_start_quotes(s.drop_first())
    } else {
        s
    }
}

/// The text with every trailing `"` removed.
pub open spec fn trim_end_quotes(s: Seq<char>) -> Seq<char>
    decreases s.len(),
{
    if s.len() > 0 && s.last() == '"' {
        trim_end_quotes(s.drop_last())
    } else {
        s
    }
}

/// What `str::trim_matches('"')` leaves of a text.
pub open spec fn trim_quotes(s: Seq<char>) -> Seq<char> {
    trim_end_quotes(trim_start_quotes(s))
}

/// Removes every leading and trailing double quote.
pub fn trim_quotes_str(s: &str) -> (r: String)
    ensures
        r@ == trim_quotes(s@),
{
    let n = s.unicode_len();
    let mut i: usize = 0;
    assert(s@.subrange(0, n as int) =~= s@);
    while i < n && s.get_char(i) == '"'
        invariant
            n == s@.len(),
            i <= n,
            trim_start_quotes(s@) == trim_start_quotes(s@.subrange(i as int, n as int)),
        decreases n - i,
    {
        assert(s@.subrange(i as int, n as int).drop_first() =~= s@.subrange(i + 1, n as int));
        i = i + 1;
    }
    assert(trim_start_quotes(s@) == s@.subrange(i as int, n as int));
    let mut j: usize = n;
    while j > i && s.get_char(j - 1) == '"'
        invariant
            n == s@.len(),
            i <= j <= n,
            trim_quotes(s@) == trim_end_quotes(s@.subrange(i as int, j as int)),
        decreases j,
    {
        assert(s@.subrange(i as int, j as int).drop_last() =~= s@.subrange(i as int, j - 1));
        j = j - 1;
    }
    String::from_str(s.substring_char(i, j))
}

} // verus!

verus! {

/// The pieces that `str::split(sep)` yields: the text cut at every `sep`,
/// so `n` separators give `n + 1` pieces (an empty text gives one empty piece).
pub open spec fn split_on(s: Seq<char>, sep: char) -> Seq<Seq<char>>
    decreases s.len(),
{
    if s.len() == 0 {
        seq![Seq::<char>::empty()]
    } else {
        let pre = split_on(s.drop_last(), sep);
        if s.last() == sep {
            pre.push(Seq::<char>::empty())
        } else {
            pre.update(pre.len() - 1, pre.last().push(s.last()))
        }
    }
}

/// The pieces put back together with `sep` between each two.
pub open spec fn join_with(pieces: Seq<Seq<char>>, sep: char) -> Seq<char>
    decreases pieces.len(),
{
    if pieces.len() == 0 {
        Seq::<char>::empty()
    } else if pieces.len() == 1 {
        pieces[0]
    } else {
        join_with(pieces.drop_last(), sep).push(sep) + pieces.last()
    }
}

/// The views of a vector of strings.
pub open spec fn strings_view(v: Seq<String>) -> Seq<Seq<char>> {
    v.map_values(|x: String| x@)
}

/// Splitting gives at least one piece.
pub proof fn lemma_split_on_nonempty(s: Seq<char>, sep: char)
    ensures
        split_on(s, sep).len() >= 1,
    decreases s.len(),
{
    if s.len() > 0 {
        lemma_split_on_nonempty(s.drop_last(), sep);
    }
}

/// Splitting at a separator and joining the pieces with it gives the text back,
/// and no piece holds the separator.
pub proof fn lemma_split_join(s: Seq<char>, sep: char)
    ensures
        join_with(split_on(s, sep), sep) == s,
        forall|i: int, j: int|
            0 <= i < split_on(s, sep).len() && 0 <= j < split_on(s, sep)[i].len()
                ==> split_on(s, sep)[i][j] != sep,
    decreases s.len(),
{
    if s.len() > 0 {
        let t = s.drop_last();
        lemma_split_join(t, sep);
        lemma_split_on_nonempty(t, sep);
        let pre = split_on(t, sep);
        if s.last() == sep {
            assert(split_on(s, sep).drop_last() =~= pre);
            assert(join_with(split_on(s, sep), sep) =~= s);
        } else {
            let post = split_on(s, sep);
            if pre.len() == 1 {
                assert(join_with(post, sep) =~= s);
            } else {
                assert(post.drop_last() =~= pre.drop_last());
                let a = join_with(pre.drop_last(), sep).push(sep);
                assert(join_with(pre, sep) == a + pre.last());
                assert(post.last() == pre.last().push(s.last()));
                assert(join_with(post, sep) == a + post.last());
                assert(a + pre.last().push(s.last()) =~= (a + pre.last()).push(s.last()));
                assert(s =~= t.push(s.last()));
                assert(join_with(post, sep) =~= s);
            }
            assert forall|i: int, j: int|
                0 <= i < post.len() && 0 <= j < post[i].len() implies post[i][j] != sep by {
                if i == post.len() - 1 && j == post[i].len() - 1 {
                } else if i == post.len() - 1 {
                    assert(post[i][j] == pre.last()[j]);
                } else {
                    assert(post[i] == pre[i]);
                }
            }
        }
    }
}

/// Cuts a text at every occurrence of `sep`, as `str::split` does.
pub fn split_text(s: &str, sep: char) -> (r: Vec<String>)
    ensures
        strings_view(r@) == split_on(s@, sep),
{
    let n = s.unicode_len();
    let mut pieces: Vec<String> = Vec::new();
    let mut start: usize = 0;
    let mut i: usize = 0;
    assert(s@.take(0) =~= Seq::<char>::empty());
    assert(s@.subrange(0, 0) =~= Seq::<char>::empty());
    assert(strings_view(pieces@).push(s@.subrange(0, 0)) =~= split_on(s@.take(0), sep));
    while i < n
        invariant
            n == s@.len(),
            start <= i <= n,
            strings_view(pieces@).push(s@.subrange(start as int, i as int)) == split_on(
                s@.take(i as int),
                sep,
            ),
        decreases n - i,
    {
        let c = s.get_char(i);
        let ghost before = strings_view(pieces@);
        assert(s@.take(i + 1).drop_last() =~= s@.take(i as int));
        if c == sep {
            let piece = String::from_str(s.substring_char(start, i));
            let ghost old_start = start;
            pieces.push(piece);
            start = i + 1;
            assert(strings_view(pieces@) =~= before.push(s@.subrange(old_start as int, i as int)));
            assert(s@.subrange(start as int, i + 1) =~= Seq::<char>::empty());
            assert(strings_view(pieces@).push(s@.subrange(start as int, i + 1)) =~= split_on(
                s@.take(i + 1),
                sep,
            ));
        } else {
            assert(s@.subrange(start as int, i + 1) =~= s@.subrange(start as int, i as int).push(
                c,
            ));
            assert(strings_view(pieces@).push(s@.subrange(start as int, i + 1)) =~= split_on(
                s@.take(i + 1),
                sep,
            ));
        }
        i = i + 1;
    }
    let last = String::from_str(s.substring_char(start, n));
    pieces.push(last);
    assert(s@.take(n as int) =~= s@);
    assert(strings_view(pieces@) =~= split_on(s@, sep));
    pieces
}

} // verus!

verus! {

/// A decimal digit `0` to `9`.
pub open spec fn is_digit(c: char) -> bool {
    '0' <= c && c <= '9'
}

/// The digits that an unsigned integer parse reads: one leading `+` is dropped.
pub open spec fn unsigned_digits(s: Seq<char>) -> Seq<char> {
    if s.len() > 0 && s[0] == '+' {
        s.drop_first()
    } else {
        s
    }
}

/// The number that a string of decimal digits denotes.
pub open spec fn decimal_value(d: Seq<char>) -> nat
    decreases d.len(),
{
    if d.len() == 0 {
        0
    } else {
        decimal_value(d.drop_last()) * 10 + ((d.last() as int - '0' as int) as nat)
    }
}

/// Whether `str::parse` succeeds for an unsigned type whose largest value is `max`:
/// after an optional `+`, at least one digit, only digits, and a value within range.
pub open spec fn parses_unsigned(s: Seq<char>, max: nat) -> bool {
    let d = unsigned_digits(s);
    &&& d.len() > 0
    &&& forall|i: int| 0 <= i < d.len() ==> is_digit(#[trigger] d[i])
    &&& decimal_value(d) <= max
}

proof fn lemma_saturating_step(v: nat, x: nat, m: nat)
    requires
        x < 10,
    ensures
        (if v * 10 + x > m + 1 { m + 1 } else { v * 10 + x }) == (if (if v > m + 1 { m + 1 } else { v }) * 10 + x > m + 1 { m + 1 } else { (if v > m + 1 { m + 1 } else { v }) * 10 + x }),
{
    if v > m + 1 {
        assert(v * 10 + x > m + 1) by (nonlinear_arith)
            requires v > m + 1;
        assert((m + 1) * 10 + x > m + 1) by (nonlinear_arith);
    }
}

/// Parses an unsigned decimal whose largest allowed value is `max`, as
/// `str::parse` does for `u8` (`max` 255) and `u32` (`max` 4294967295).
pub fn parse_unsigned(s: &str, max: u32) -> (r: Option<u32>)
    ensures
        r is Some <==> parses_unsigned(s@, max as nat),
        r matches Some(v) ==> v as nat == decimal_value(unsigned_digits(s@)),
{
    let n = s.unicode_len();
    let mut i: usize = 0;
    if n > 0 && s.get_char(0) == '+' {
        i = 1;
    }
    let ghost d = unsigned_digits(s@);
    assert(d =~= s@.subrange(i as int, n as int));
    let start = i;
    let mut acc: u64 = 0;
    assert(d.take(0) =~= Seq::<char>::empty());
    while i < n
        invariant
            n == s@.len(),
            start <= i <= n,
            d == s@.subrange(start as int, n as int),
            d == unsigned_digits(s@),
            acc as nat == (if decimal_value(d.take(i - start)) > max as nat + 1 {
                max as nat + 1
            } else {
                decimal_value(d.take(i - start))
            }),
            forall|k: int| 0 <= k < i - start ==> is_digit(#[trigger] d[k]),
        decreases n - i,
    {
        let c = s.get_char(i);
        let ghost k = i - start;
        assert(d[k] == c);
        assert(d.take(k + 1).drop_last() =~= d.take(k));
        if '0' <= c && c <= '9' {
            let digit: u64 = (c as u32 - '0' as u32) as u64;
            proof {
                lemma_saturating_step(decimal_value(d.take(k)), digit as nat, max as nat);
            }
            assert(decimal_value(d.take(k + 1)) == decimal_value(d.take(k)) * 10 + digit as nat);
            let next = acc * 10 + digit;
            acc = if next > max as u64 + 1 { max as u64 + 1 } else { next };
        } else {
            assert(!is_digit(d[k]));
            return None;
        }
        i = i + 1;
    }
    assert(d.take(n - start) =~= d);
    if n > start && acc <= max as u64 {
        Some(acc as u32)
    } else {
        None
    }
}

} // verus!

verus! {

/// `pat` occurs in `hay` starting at position `i`.
pub open spec fn occurs_at(hay: Seq<char>, pat: Seq<char>, i: int) -> bool {
    0 <= i && i + pat.len() <= hay.len() && hay.subrange(i, i + pat.len()) == pat
}

/// `pat` occurs somewhere in `hay` (`str::contains`).
pub open spec fn contains_text(hay: Seq<char>, pat: Seq<char>) -> bool {
    exists|i: int| occurs_at(hay, pat, i)
}

/// What `str::replace(pat, rep)` gives for a non-empty `pat`: the occurrences of
/// `pat` found from left to right, without overlap, each replaced by `rep`.
pub open spec fn replace_all(hay: Seq<char>, pat: Seq<char>, rep: Seq<char>) -> Seq<char>
    decreases hay.len(),
{
    if pat.len() == 0 || hay.len() < pat.len() {
        hay
    } else if hay.take(pat.len() as int) == pat {
        rep + replace_all(hay.skip(pat.len() as int), pat, rep)
    } else {
        seq![hay[0]] + replace_all(hay.drop_first(), pat, rep)
    }
}

fn occurs_at_exec(hay: &str, pat: &str, i: usize) -> (r: bool)
    ensures
        r == occurs_at(hay@, pat@, i as int),
{
    let hn = hay.unicode_len();
    let pn = pat.unicode_len();
    if i > hn || pn > hn - i {
        return false;
    }
    let mut k: usize = 0;
    while k < pn
        invariant
            hn == hay@.len(),
            pn == pat@.len(),
            i + pn <= hn,
            k <= pn,
            forall|j: int| 0 <= j < k ==> hay@[i + j] == pat@[j],
        decreases pn - k,
    {
        if hay.get_char(i + k) != pat.get_char(k) {
            assert(hay@.subrange(i as int, i + pn)[k as int] != pat@[k as int]);
            return false;
        }
        k = k + 1;
    }
    assert(hay@.subrange(i as int, i + pn) =~= pat@);
    true
}

/// Whether `pat` occurs in `hay`, as `str::contains` answers.
pub fn contains_str(hay: &str, pat: &str) -> (r: bool)
    ensures
        r == contains_text(hay@, pat@),
{
    let hn = hay.unicode_len();
    let mut i: usize = 0;
    while i < hn
        invariant
            hn == hay@.len(),
            i <= hn,
            forall|j: int| 0 <= j < i ==> !occurs_at(hay@, pat@, j),
        decreases hn - i,
    {
        if occurs_at_exec(hay, pat, i) {
            return true;
        }
        i = i + 1;
    }
    if occurs_at_exec(hay, pat, hn) {
        return true;
    }
    assert forall|j: int| !occurs_at(hay@, pat@, j) by {
        if j > hn as int {
            assert(!occurs_at(hay@, pat@, j));
        }
    }
    false
}

/// Replaces each occurrence of a non-empty `pat`, from left to right and
/// without overlap, by `rep`, as `str::replace` does.
pub fn replace_str(hay: &str, pat: &str, rep: &str) -> (r: String)
    requires
        pat@.len() > 0,
    ensures
        r@ == replace_all(hay@, pat@, rep@),
{
    let hn = hay.unicode_len();
    let pn = pat.unicode_len();
    let mut out = String::new();
    let mut start: usize = 0;
    let mut i: usize = 0;
    assert(hay@.skip(0) =~= hay@);
    while pn <= hn - i
        invariant
            hn == hay@.len(),
            pn == pat@.len(),
            pn > 0,
            start <= i <= hn,
            out@ + hay@.subrange(start as int, i as int) + replace_all(hay@.skip(i as int), pat@, rep@)
                == replace_all(hay@, pat@, rep@),
        decreases hn - i,
    {
        let ghost rest = hay@.skip(i as int);
        assert(rest.take(pn as int) =~= hay@.subrange(i as int, i + pn));
        if occurs_at_exec(hay, pat, i) {
            let ghost before = out@ + hay@.subrange(start as int, i as int);
            out.append(hay.substring_char(start, i));
            out.append(rep);
            assert(rest.skip(pn as int) =~= hay@.skip(i + pn));
            i = i + pn;
            start = i;
            assert(hay@.subrange(start as int, i as int) =~= Seq::<char>::empty());
            assert(out@ + hay@.subrange(start as int, i as int) + replace_all(hay@.skip(i as int), pat@, rep@)
                =~= before + (rep@ + replace_all(hay@.skip(i as int), pat@, rep@)));
        } else {
            let ghost before = out@ + hay@.subrange(start as int, i as int);
            assert(rest.drop_first() =~= hay@.skip(i + 1));
            assert(out@ + hay@.subrange(start as int, i + 1) =~= before + seq![hay@[i as int]]);
            i = i + 1;
            assert(out@ + hay@.subrange(start as int, i as int) + replace_all(hay@.skip(i as int), pat@, rep@)
                =~= before + (seq![rest[0]] + replace_all(rest.drop_first(), pat@, rep@)));
        }
    }
    assert(replace_all(hay@.skip(i as int), pat@, rep@) == hay@.skip(i as int));
    out.append(hay.substring_char(start, hn));
    assert(hay@.subrange(start as int, i as int) + hay@.skip(i as int) =~= hay@.subrange(start as int, hn as int));
    assert(out@ =~= replace_all(hay@, pat@, rep@));
    out
}

} // verus!

verus! {

/// Whether a list of strings holds one equal to `x`.
pub fn contains_string(v: &Vec<String>, x: &String) -> (r: bool)
    ensures
        r == strings_view(v@).contains(x@),
{
    let ghost vv = strings_view(v@);
    let mut i: usize = 0;
    while i < v.len()
        invariant
            i <= v@.len(),
            vv == strings_view(v@),
            forall|k: int| 0 <= k < i ==> vv[k] != x@,
        decreases v@.len() - i,
    {
        if v[i] == *x {
            assert(vv[i as int] == x@);
            return true;
        }
        i = i + 1;
    }
    false
}

/// A copy of a list of strings.
pub fn copy_strings(v: &Vec<String>) -> (r: Vec<String>)
    ensures
        strings_view(r@) == strings_view(v@),
{
    let mut r: Vec<String> = Vec::new();
    let mut i: usize = 0;
    while i < v.len()
        invariant
            i <= v@.len(),
            strings_view(r@) == strings_view(v@).take(i as int),
        decreases v@.len() - i,
    {
        let ghost before = strings_view(r@);
        let x = v[i].clone();
        r.push(x);
        assert(strings_view(r@) =~= before.push(x@));
        assert(strings_view(v@).take(i + 1) =~= strings_view(v@).take(i as int).push(v@[i as int]@));
        i = i + 1;
    }
    assert(strings_view(v@).take(v@.len() as int) =~= strings_view(v@));
    r
}

} // verus!

verus! {

/// What is left of a text once its first `n` UTF-8 bytes are cut off, as the
/// slice `&text[n..]` gives it; `None` where that slice panics (byte `n` is
/// not a character boundary, or past the end).
pub open spec fn text_after_bytes(text: Seq<char>, n: int) -> Option<Seq<char>> {
    if is_char_boundary(encode_utf8(text), n) {
        Some(decode_utf8(encode_utf8(text).skip(n)))
    } else {
        None
    }
}

/// Cuts off the first `n` bytes of a text, where that is a character boundary.
pub fn cut_bytes(text: &str, n: usize) -> (r: Option<String>)
    ensures
        r is Some <==> text_after_bytes(text@, n as int) is Some,
        r matches Some(b) ==> text_after_bytes(text@, n as int) == Some(b@),
{
    proof {
        broadcast use group_utf8_lib;
    }
    if !text.is_char_boundary(n) {
        return None;
    }
    let (_, rest) = text.split_at(n);
    assert(rest.spec_bytes() == encode_utf8(rest@));
    Some(rest.to_owned())
}

} // verus!

verus! {

proof fn lemma_trim_start_shape(s: Seq<char>)
    ensures
        trim_start_quotes(s).len() > 0 ==> trim_start_quotes(s)[0] != '"',
        trim_start_quotes(trim_start_quotes(s)) == trim_start_quotes(s),
    decreases s.len(),
{
    if s.len() > 0 && s[0] == '"' {
        lemma_trim_start_shape(s.drop_first());
    }
}

proof fn lemma_trim_end_shape(s: Seq<char>)
    ensures
        trim_end_quotes(s).len() > 0 ==> trim_end_quotes(s).last() != '"',
        trim_end_quotes(trim_end_quotes(s)) == trim_end_quotes(s),
        trim_end_quotes(s).len() <= s.len(),
        forall|i: int| 0 <= i < trim_end_quotes(s).len() ==> trim_end_quotes(s)[i] == s[i],
    decreases s.len(),
{
    if s.len() > 0 && s.last() == '"' {
        lemma_trim_end_shape(s.drop_last());
        assert forall|i: int| 0 <= i < trim_end_quotes(s).len() implies trim_end_quotes(s)[i] == s[i] by {
            assert(s.drop_last()[i] == s[i]);
        }
    }
}

/// Trimmed text neither starts nor ends with a quote, and trimming it again
/// changes nothing.
pub proof fn lemma_trim_quotes(s: Seq<char>)
    ensures
        trim_quotes(s).len() > 0 ==> trim_quotes(s)[0] != '"' && trim_quotes(s).last() != '"',
        trim_quotes(trim_quotes(s)) == trim_quotes(s),
{
    let a = trim_start_quotes(s);
    lemma_trim_start_shape(s);
    lemma_trim_end_shape(a);
    let b = trim_end_quotes(a);
    if b.len() > 0 {
        assert(b[0] == a[0]);
    }
    // `b` starts like `a`, so it has no leading quote to trim.
    assert(trim_start_quotes(b) == b);
    lemma_trim_end_shape(b);
}

/// A text in which the pattern does not occur is left unchanged by replacing.
pub proof fn lemma_replace_absent(hay: Seq<char>, pat: Seq<char>, rep: Seq<char>)
    requires
        !contains_text(hay, pat),
    ensures
        replace_all(hay, pat, rep) == hay,
    decreases hay.len(),
{
    if pat.len() > 0 && hay.len() >= pat.len() {
        assert(!occurs_at(hay, pat, 0));
        assert(hay.take(pat.len() as int) =~= hay.subrange(0, pat.len() as int));
        let rest = hay.drop_first();
        assert forall|i: int| !occurs_at(rest, pat, i) by {
            if occurs_at(rest, pat, i) {
                assert(rest.subrange(i, i + pat.len()) =~= hay.subrange(i + 1, i + 1 + pat.len()));
                assert(occurs_at(hay, pat, i + 1));
            }
        }
        lemma_replace_absent(rest, pat, rep);
        assert(seq![hay[0]] + rest =~= hay);
    }
}

} // verus!

verus! {

/// A text occurs in any text that it sits in the middle of.
pub proof fn lemma_contains_middle(a: Seq<char>, b: Seq<char>, c: Seq<char>)
    ensures
        contains_text(a + b + c, b),
{
    assert((a + b + c).subrange(a.len() as int, (a.len() + b.len()) as int) =~= b);
    assert(occurs_at(a + b + c, b, a.len() as int));
}

/// What occurs in a text occurs in any text around it.
pub proof fn lemma_contains_within(a: Seq<char>, x: Seq<char>, c: Seq<char>, y: Seq<char>)
    requires
        contains_text(x, y),
    ensures
        contains_text(a + x + c, y),
{
    let i = choose|i: int| occurs_at(x, y, i);
    assert((a + x + c).subrange(a.len() + i, a.len() + i + y.len()) =~= x.subrange(i, i + y.len()));
    assert(occurs_at(a + x + c, y, a.len() + i));
}

/// How often a character occurs in a text.
pub open spec fn count_char(s: Seq<char>, c: char) -> nat
    decreases s.len(),
{
    if s.len() == 0 {
        0
    } else {
        count_char(s.drop_last(), c) + if s.last() == c {
            1nat
        } else {
            0nat
        }
    }
}

/// Splitting at a separator gives one piece more than there are separators.
pub proof fn lemma_split_count(s: Seq<char>, sep: char)
    ensures
        split_on(s, sep).len() == count_char(s, sep) + 1,
    decreases s.len(),
{
    if s.len() > 0 {
        lemma_split_count(s.drop_last(), sep);
    }
}

} // verus!
