//! The mathematical model of the search: how a body of text splits into
//! lines, what it means for one character sequence to contain another, and
//! the case-folding policy. The laws that relate exact and case-folded
//! search are proved here as well.

use vstd::prelude::*;
use vstd::seq_lib::group_filter_ensures;

verus! {

broadcast use group_filter_ensures;

// The characters that the standard library's char::to_lowercase yields
// for a character: its Unicode lowercase mapping, one or more characters,
// depending on the character alone.
pub uninterp spec fn char_lower(c: char) -> Seq<char>;

/// The case-folded form of a character sequence: each character replaced,
/// independently of its neighbours, by its Unicode lowercase mapping.
pub open spec fn fold_seq(s: Seq<char>) -> Seq<char>
    decreases s.len(),
{
    if s.len() == 0 {
        Seq::empty()
    } else {
        char_lower(s[0]) + fold_seq(s.drop_first())
    }
}

/// `needle` occurs verbatim in `hay` starting at position `i`.
pub open spec fn occurs_at<T>(hay: Seq<T>, needle: Seq<T>, i: int) -> bool {
    0 <= i && i + needle.len() <= hay.len() && hay.subrange(i, i + needle.len() as int)
        == needle
}

/// `needle` occurs verbatim somewhere in `hay`; the empty sequence occurs
/// in everything.
pub open spec fn contains_seq<T>(hay: Seq<T>, needle: Seq<T>) -> bool {
    exists|i: int| occurs_at(hay, needle, i)
}

/// A line satisfies the exact search for `query`: it contains the query
/// with no transformation applied to either side.
pub open spec fn line_matches_exact(line: Seq<char>, query: Seq<char>) -> bool {
    contains_seq(line, query)
}

/// A line satisfies the case-folded search for `query`: its folded form
/// contains the folded query.
pub open spec fn line_matches_fold(line: Seq<char>, query: Seq<char>) -> bool {
    contains_seq(fold_seq(line), fold_seq(query))
}

/// The number of characters before the first newline of `s`, or the length
/// of `s` when it has none.
pub open spec fn first_line_len(s: Seq<char>) -> int
    decreases s.len(),
{
    if s.len() == 0 {
        0
    } else if s[0] == '\n' {
        0
    } else {
        1 + first_line_len(s.drop_first())
    }
}

/// A line as it is reported: a single carriage return directly before the
/// line's terminating newline is discarded with it.
pub open spec fn strip_cr(line: Seq<char>) -> Seq<char> {
    if line.len() > 0 && line.last() == '\r' {
        line.drop_last()
    } else {
        line
    }
}

/// The lines of `s`, in order: `s` is split at each newline, the newline
/// itself and a carriage return directly before it are discarded, the text
/// after the last newline forms a final line kept as it is, and a trailing
/// newline adds no empty line.
pub open spec fn spec_lines(s: Seq<char>) -> Seq<Seq<char>>
    decreases s.len() via spec_lines_decreases
{
    if s.len() == 0 {
        Seq::empty()
    } else {
        let n = first_line_len(s);
        if n == s.len() {
            seq![s]
        } else {
            seq![strip_cr(s.subrange(0, n))] + spec_lines(s.subrange(n + 1, s.len() as int))
        }
    }
}

#[via_fn]
proof fn spec_lines_decreases(s: Seq<char>) {
    lemma_first_line_len_bounds(s);
}

/// Position and contents of the first line: `first_line_len` stays within
/// `s`, points at a newline unless `s` has none, and no earlier character
/// is a newline.
pub proof fn lemma_first_line_len_bounds(s: Seq<char>)
    ensures
        0 <= first_line_len(s) <= s.len(),
        first_line_len(s) < s.len() ==> s[first_line_len(s)] == '\n',
        forall|k: int| 0 <= k < first_line_len(s) ==> s[k] != '\n',
    decreases s.len(),
{
    if s.len() == 0 {
    } else if s[0] == '\n' {
    } else {
        let t = s.drop_first();
        lemma_first_line_len_bounds(t);
        assert forall|k: int| 0 <= k < first_line_len(s) implies s[k] != '\n' by {
            if k > 0 {
                assert(s[k] == t[k - 1]);
            }
        }
        if first_line_len(s) < s.len() {
            assert(s[first_line_len(s)] == t[first_line_len(t)]);
        }
    }
}

/// The exact search's test for one line, as a predicate over lines.
pub open spec fn exact_pred(query: Seq<char>) -> spec_fn(Seq<char>) -> bool {
    |line: Seq<char>| line_matches_exact(line, query)
}

/// The case-folded search's test for one line, as a predicate over lines.
pub open spec fn fold_pred(query: Seq<char>) -> spec_fn(Seq<char>) -> bool {
    |line: Seq<char>| line_matches_fold(line, query)
}

/// The lines of `contents` that the exact search for `query` selects, in
/// file order.
pub open spec fn exact_matches(query: Seq<char>, contents: Seq<char>) -> Seq<Seq<char>> {
    spec_lines(contents).filter(exact_pred(query))
}

/// The lines of `contents` that the case-folded search for `query`
/// selects, in file order.
pub open spec fn fold_matches(query: Seq<char>, contents: Seq<char>) -> Seq<Seq<char>> {
    spec_lines(contents).filter(fold_pred(query))
}

/// The lines one run of the search reports: the exact matches under a
/// case-sensitive policy, the case-folded matches otherwise.
pub open spec fn spec_search(query: Seq<char>, contents: Seq<char>, case_sensitive: bool) -> Seq<
    Seq<char>,
> {
    if case_sensitive {
        exact_matches(query, contents)
    } else {
        fold_matches(query, contents)
    }
}

/// Case folding distributes over concatenation.
pub proof fn lemma_fold_seq_add(a: Seq<char>, b: Seq<char>)
    ensures
        fold_seq(a + b) == fold_seq(a) + fold_seq(b),
    decreases a.len(),
{
    if a.len() == 0 {
        assert(a + b =~= b);
        assert(fold_seq(a) =~= Seq::<char>::empty());
        assert(fold_seq(a) + fold_seq(b) =~= fold_seq(b));
    } else {
        assert((a + b).len() != 0);
        assert((a + b)[0] == a[0]);
        assert((a + b).drop_first() =~= a.drop_first() + b);
        lemma_fold_seq_add(a.drop_first(), b);
        assert(char_lower(a[0]) + (fold_seq(a.drop_first()) + fold_seq(b)) =~= (char_lower(a[0])
            + fold_seq(a.drop_first())) + fold_seq(b));
    }
}

/// Exact containment survives case folding: the folds of the text before
/// and after the occurrence frame the fold of the query. The fold maps
/// each character on its own, so this holds of every occurrence.
pub proof fn lemma_contains_implies_fold_contains(line: Seq<char>, query: Seq<char>)
    requires
        contains_seq(line, query),
    ensures
        contains_seq(fold_seq(line), fold_seq(query)),
{
    let i = choose|i: int| occurs_at(line, query, i);
    let before = line.subrange(0, i);
    let after = line.subrange(i + query.len() as int, line.len() as int);
    assert(line =~= before + (query + after));
    lemma_fold_seq_add(before, query + after);
    lemma_fold_seq_add(query, after);
    let fb = fold_seq(before);
    let fq = fold_seq(query);
    let fa = fold_seq(after);
    assert(fold_seq(line) == fb + (fq + fa));
    assert forall|j: int| 0 <= j < fq.len() implies fold_seq(line).subrange(
        fb.len() as int,
        fb.len() + fq.len() as int,
    )[j] == fq[j] by {
        assert((fb + (fq + fa))[fb.len() + j] == (fq + fa)[j]);
    }
    assert(fold_seq(line).subrange(fb.len() as int, fb.len() + fq.len() as int) =~= fq);
    assert(occurs_at(fold_seq(line), fq, fb.len() as int));
}

/// The empty sequence occurs in every sequence.
pub proof fn lemma_contains_empty<T>(hay: Seq<T>)
    ensures
        contains_seq(hay, Seq::<T>::empty()),
{
    assert(hay.subrange(0, 0) =~= Seq::<T>::empty());
    assert(occurs_at(hay, Seq::<T>::empty(), 0));
}

/// Everything a filter keeps was an element of the sequence it filtered.
proof fn lemma_filter_is_subset<A>(s: Seq<A>, pred: spec_fn(A) -> bool)
    ensures
        forall|x: A| #[trigger] s.filter(pred).contains(x) ==> s.contains(x),
    decreases s.len(),
{
    reveal(Seq::filter);
    if s.len() != 0 {
        lemma_filter_is_subset(s.drop_last(), pred);
        assert forall|x: A| #[trigger] s.filter(pred).contains(x) implies s.contains(x) by {
            if x == s.last() {
                assert(s[s.len() - 1] == x);
            } else {
                assert(s.drop_last().filter(pred).contains(x));
                let k = choose|k: int|
                    0 <= k < s.drop_last().len() && s.drop_last()[k] == x;
                assert(s[k] == x);
            }
        }
    }
}

/// Filtering a one-element sequence keeps or drops that element as the
/// predicate says.
pub(crate) proof fn lemma_filter_singleton<A>(x: A, pred: spec_fn(A) -> bool)
    ensures
        seq![x].filter(pred) == if pred(x) {
            seq![x]
        } else {
            Seq::<A>::empty()
        },
{
    reveal_with_fuel(Seq::filter, 2);
    assert(seq![x].drop_last() =~= Seq::<A>::empty());
    assert(seq![x].last() == x);
    if pred(x) {
        assert(seq![x].filter(pred) =~= seq![x]);
    } else {
        assert(seq![x].filter(pred) =~= Seq::<A>::empty());
    }
}

/// A filter whose predicate holds of every element keeps the sequence as
/// it is.
proof fn lemma_filter_all<A>(s: Seq<A>, pred: spec_fn(A) -> bool)
    requires
        forall|i: int| 0 <= i < s.len() ==> pred(#[trigger] s[i]),
    ensures
        s.filter(pred) == s,
    decreases s.len(),
{
    reveal(Seq::filter);
    if s.len() != 0 {
        let t = s.drop_last();
        assert forall|i: int| 0 <= i < t.len() implies pred(#[trigger] t[i]) by {
            assert(t[i] == s[i]);
        }
        lemma_filter_all(t, pred);
        assert(pred(s[s.len() - 1]));
        assert(s.filter(pred) =~= s);
    }
}

/// Filtering by `q` first and then by a stronger predicate `p` gives the
/// same sequence as filtering by `p` alone.
proof fn lemma_filter_stronger<A>(s: Seq<A>, p: spec_fn(A) -> bool, q: spec_fn(A) -> bool)
    requires
        forall|x: A| #[trigger] p(x) ==> q(x),
    ensures
        s.filter(p) == s.filter(q).filter(p),
    decreases s.len(),
{
    reveal(Seq::filter);
    if s.len() != 0 {
        let t = s.drop_last();
        let x = s.last();
        lemma_filter_stronger(t, p, q);
        if q(x) {
            assert(s.filter(q) == t.filter(q).push(x));
            assert(t.filter(q).push(x).drop_last() =~= t.filter(q));
            assert(t.filter(q).push(x).last() == x);
        } else {
            assert(!p(x));
            assert(s.filter(q) == t.filter(q));
        }
    }
}

/// Every line of a text stands verbatim somewhere in it.
pub proof fn lemma_lines_in_text(s: Seq<char>)
    ensures
        forall|i: int|
            0 <= i < spec_lines(s).len() ==> contains_seq(s, #[trigger] spec_lines(s)[i]),
    decreases s.len(),
{
    lemma_first_line_len_bounds(s);
    if s.len() == 0 {
    } else {
        let n = first_line_len(s);
        if n == s.len() {
            assert(s.subrange(0, s.len() as int) =~= s);
            assert(occurs_at(s, s, 0));
        } else {
            let head = s.subrange(0, n);
            let line = strip_cr(head);
            let suffix = s.subrange(n + 1, s.len() as int);
            lemma_lines_in_text(suffix);
            if head.len() > 0 && head.last() == '\r' {
                assert(line =~= s.subrange(0, n - 1));
            }
            assert(s.subrange(0, line.len() as int) =~= line);
            assert(occurs_at(s, line, 0));
            assert forall|i: int| 0 <= i < spec_lines(s).len() implies contains_seq(
                s,
                #[trigger] spec_lines(s)[i],
            ) by {
                if i == 0 {
                    assert(spec_lines(s)[0] == line);
                } else {
                    let l2 = spec_lines(suffix)[i - 1];
                    assert(spec_lines(s)[i] == l2);
                    assert(contains_seq(suffix, l2));
                    let p = choose|p: int| occurs_at(suffix, l2, p);
                    assert forall|j: int| 0 <= j < l2.len() implies s.subrange(
                        n + 1 + p,
                        n + 1 + p + l2.len() as int,
                    )[j] == l2[j] by {
                        assert(suffix.subrange(p, p + l2.len() as int)[j] == suffix[p + j]);
                        assert(suffix[p + j] == s[n + 1 + p + j]);
                    }
                    assert(s.subrange(n + 1 + p, n + 1 + p + l2.len() as int) =~= l2);
                    assert(occurs_at(s, l2, n + 1 + p));
                }
            }
        }
    }
}

/// Soundness of the exact search: every reported line is one of the body's
/// lines, stands verbatim in the body, and contains the query as a literal
/// substring.
pub proof fn lemma_exact_matches_sound(query: Seq<char>, contents: Seq<char>)
    ensures
        forall|i: int|
            0 <= i < exact_matches(query, contents).len() ==> {
                &&& spec_lines(contents).contains(
                    #[trigger] exact_matches(query, contents)[i],
                )
                &&& contains_seq(contents, exact_matches(query, contents)[i])
                &&& contains_seq(exact_matches(query, contents)[i], query)
            },
{
    let pred = exact_pred(query);
    let lines = spec_lines(contents);
    let m = exact_matches(query, contents);
    lemma_filter_is_subset(lines, pred);
    lemma_lines_in_text(contents);
    assert forall|i: int|
        0 <= i < m.len() implies {
        &&& lines.contains(#[trigger] m[i])
        &&& contains_seq(contents, m[i])
        &&& contains_seq(m[i], query)
    } by {
        lines.lemma_filter_pred(pred, i);
        assert(m.contains(m[i]));
        assert(lines.contains(m[i]));
        let k = choose|k: int| 0 <= k < lines.len() && lines[k] == m[i];
        assert(contains_seq(contents, lines[k]));
    }
}

/// Soundness of the case-folded search: every reported line is one of the
/// body's lines in its original form, stands verbatim in the body, and its
/// folded form contains the folded query.
pub proof fn lemma_fold_matches_sound(query: Seq<char>, contents: Seq<char>)
    ensures
        forall|i: int|
            0 <= i < fold_matches(query, contents).len() ==> {
                &&& spec_lines(contents).contains(#[trigger] fold_matches(query, contents)[i])
                &&& contains_seq(contents, fold_matches(query, contents)[i])
                &&& contains_seq(fold_seq(fold_matches(query, contents)[i]), fold_seq(query))
            },
{
    let pred = fold_pred(query);
    let lines = spec_lines(contents);
    let m = fold_matches(query, contents);
    lemma_filter_is_subset(lines, pred);
    lemma_lines_in_text(contents);
    assert forall|i: int|
        0 <= i < m.len() implies {
        &&& lines.contains(#[trigger] m[i])
        &&& contains_seq(contents, m[i])
        &&& contains_seq(fold_seq(m[i]), fold_seq(query))
    } by {
        lines.lemma_filter_pred(pred, i);
        assert(m.contains(m[i]));
        assert(lines.contains(m[i]));
        let k = choose|k: int| 0 <= k < lines.len() && lines[k] == m[i];
        assert(contains_seq(contents, lines[k]));
    }
}

/// The exact matches are an ordered subsequence of the case-folded
/// matches: filtering the folded matches by exact containment gives the
/// exact matches back, and every exact match occurs among the folded
/// matches.
pub proof fn lemma_exact_subset_of_fold(query: Seq<char>, contents: Seq<char>)
    ensures
        exact_matches(query, contents) == fold_matches(query, contents).filter(
            exact_pred(query),
        ),
        forall|line: Seq<char>|
            exact_matches(query, contents).contains(line) ==> #[trigger] fold_matches(
                query,
                contents,
            ).contains(line),
{
    let p = exact_pred(query);
    let q = fold_pred(query);
    assert forall|line: Seq<char>| #[trigger] p(line) implies q(line) by {
        lemma_contains_implies_fold_contains(line, query);
    }
    lemma_filter_stronger(spec_lines(contents), p, q);
    lemma_filter_is_subset(fold_matches(query, contents), p);
}

/// An empty query selects every line of the body, in order, in both
/// search modes.
pub proof fn lemma_empty_query_matches_all(contents: Seq<char>)
    ensures
        exact_matches(Seq::empty(), contents) == spec_lines(contents),
        fold_matches(Seq::empty(), contents) == spec_lines(contents),
{
    let p = exact_pred(Seq::<char>::empty());
    let q = fold_pred(Seq::<char>::empty());
    let lines = spec_lines(contents);
    assert forall|i: int| 0 <= i < lines.len() implies p(#[trigger] lines[i]) by {
        lemma_contains_empty(lines[i]);
    }
    assert forall|i: int| 0 <= i < lines.len() implies q(#[trigger] lines[i]) by {
        assert(fold_seq(Seq::<char>::empty()) =~= Seq::<char>::empty());
        lemma_contains_empty(fold_seq(lines[i]));
    }
    lemma_filter_all(lines, p);
    lemma_filter_all(lines, q);
}

/// `first_line_len` is the unique position `n` with no newline before it
/// that either ends the text or carries a newline.
pub proof fn lemma_first_line_len_is(s: Seq<char>, n: int)
    requires
        0 <= n <= s.len(),
        forall|k: int| 0 <= k < n ==> s[k] != '\n',
        n < s.len() ==> s[n] == '\n',
    ensures
        first_line_len(s) == n,
    decreases s.len(),
{
    if s.len() == 0 {
    } else if n == 0 {
    } else {
        let t = s.drop_first();
        assert forall|k: int| 0 <= k < n - 1 implies t[k] != '\n' by {
            assert(t[k] == s[k + 1]);
        }
        if n - 1 < t.len() {
            assert(t[n - 1] == s[n]);
        }
        lemma_first_line_len_is(t, n - 1);
    }
}

} // verus!
