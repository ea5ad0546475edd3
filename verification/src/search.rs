//! The search engine: split a body of text into lines and keep, in file
//! order, the lines that contain the query, either exactly or under case
//! folding. The returned lines borrow the body's own text.

use vstd::prelude::*;
use vstd::string::StrSliceExecFns;

use crate::config::Config;
use crate::text::char_lower;
use crate::text::exact_matches;
use crate::text::exact_pred;
use crate::text::fold_matches;
use crate::text::fold_pred;
use crate::text::fold_seq;
use crate::text::contains_seq;
use crate::text::lemma_filter_singleton;
use crate::text::lemma_first_line_len_is;
use crate::text::lemma_fold_seq_add;
use crate::text::occurs_at;
use crate::text::spec_lines;
use crate::text::spec_search;
use crate::text::strip_cr;

verus! {

/// The character sequences a vector of borrowed lines stands for.
pub open spec fn line_views<'a>(lines: Seq<&'a str>) -> Seq<Seq<char>> {
    lines.map_values(|l: &'a str| l@)
}

/// Splits a text into its lines, each borrowed from the text itself.
fn split_lines<'a>(contents: &'a str) -> (lines: Vec<&'a str>)
    ensures
        line_views(lines@) == spec_lines(contents@),
{
    let len = contents.unicode_len();
    let mut lines: Vec<&'a str> = Vec::new();
    let mut start: usize = 0;
    proof {
        assert(contents@.subrange(0, len as int) =~= contents@);
        assert(line_views(lines@) =~= Seq::<Seq<char>>::empty());
    }
    while start < len
        invariant
            len == contents@.len(),
            start <= len,
            spec_lines(contents@) == line_views(lines@) + spec_lines(
                contents@.subrange(start as int, len as int),
            ),
        decreases len - start,
    {
        let ghost suffix = contents@.subrange(start as int, len as int);
        let ghost old_lines = lines@;
        let mut j = start;
        while j < len && contents.get_char(j) != '\n'
            invariant
                len == contents@.len(),
                start <= j <= len,
                forall|k: int| start <= k < j ==> contents@[k] != '\n',
            decreases len - j,
        {
            j += 1;
        }
        proof {
            assert forall|k: int| 0 <= k < j - start implies suffix[k] != '\n' by {
                assert(suffix[k] == contents@[start + k]);
            }
            if j < len {
                assert(suffix[j - start] == contents@[j as int]);
            }
            lemma_first_line_len_is(suffix, j - start);
        }
        if j == len {
            let line = contents.substring_char(start, len);
            lines.push(line);
            proof {
                assert(line@ =~= suffix);
                assert(spec_lines(suffix) == seq![suffix]);
                assert(line_views(lines@) =~= line_views(old_lines) + seq![suffix]);
                assert(contents@.subrange(len as int, len as int) =~= Seq::<char>::empty());
                assert(spec_lines(contents@) == line_views(lines@) + spec_lines(
                    contents@.subrange(len as int, len as int),
                ));
            }
            start = len;
        } else {
            let end = if j > start && contents.get_char(j - 1) == '\r' {
                j - 1
            } else {
                j
            };
            let line = contents.substring_char(start, end);
            lines.push(line);
            proof {
                let n = j - start;
                let head = suffix.subrange(0, n as int);
                assert(head =~= contents@.subrange(start as int, j as int));
                let tail = suffix.subrange(n + 1, suffix.len() as int);
                assert(tail =~= contents@.subrange(j + 1, len as int));
                assert(spec_lines(suffix) == seq![strip_cr(head)] + spec_lines(tail));
                if end < j {
                    assert(head.last() == contents@[j - 1]);
                    assert(strip_cr(head) == head.drop_last());
                    assert(line@ =~= head.drop_last());
                } else {
                    if head.len() > 0 {
                        assert(head.last() == contents@[j - 1]);
                    }
                    assert(strip_cr(head) == head);
                    assert(line@ =~= head);
                }
                assert(line_views(lines@) =~= line_views(old_lines) + seq![strip_cr(head)]);
                assert((line_views(old_lines) + seq![strip_cr(head)]) + spec_lines(tail)
                    =~= line_views(old_lines) + (seq![strip_cr(head)] + spec_lines(tail)));
                assert(spec_lines(contents@) == line_views(lines@) + spec_lines(
                    contents@.subrange(j + 1, len as int),
                ));
            }
            start = j + 1;
        }
    }
    proof {
        assert(contents@.subrange(start as int, len as int) =~= Seq::<char>::empty());
        assert(spec_lines(Seq::<char>::empty()) == Seq::<Seq<char>>::empty());
        assert(line_views(lines@) + Seq::<Seq<char>>::empty() =~= line_views(lines@));
    }
    lines
}

/// Relies on char::to_lowercase: the Unicode lowercase mapping of a
/// character, one or more characters, a function of the character alone.
#[verifier::external_body]
fn lower_char(c: char) -> (r: Vec<char>)
    ensures
        r@ == char_lower(c),
{
    c.to_lowercase().collect()
}

/// The characters of a string, collected into a vector.
fn str_chars(s: &str) -> (chars: Vec<char>)
    ensures
        chars@ == s@,
{
    let len = s.unicode_len();
    let mut chars: Vec<char> = Vec::new();
    let mut i: usize = 0;
    proof {
        assert(s@.subrange(0, 0) =~= Seq::<char>::empty());
        assert(chars@ =~= s@.subrange(0, 0));
    }
    while i < len
        invariant
            len == s@.len(),
            i <= len,
            chars@ == s@.subrange(0, i as int),
        decreases len - i,
    {
        chars.push(s.get_char(i));
        proof {
            assert(s@.subrange(0, i + 1) =~= s@.subrange(0, i as int).push(s@[i as int]));
        }
        i += 1;
    }
    proof {
        assert(s@.subrange(0, len as int) =~= s@);
    }
    chars
}

/// The case-folded form of a string: each character's lowercase mapping,
/// in order.
fn fold_chars(s: &str) -> (folded: Vec<char>)
    ensures
        folded@ == fold_seq(s@),
{
    let len = s.unicode_len();
    let mut folded: Vec<char> = Vec::new();
    let mut i: usize = 0;
    proof {
        assert(s@.subrange(0, 0) =~= Seq::<char>::empty());
        assert(fold_seq(Seq::<char>::empty()) == Seq::<char>::empty());
        assert(folded@ =~= fold_seq(s@.subrange(0, 0)));
    }
    while i < len
        invariant
            len == s@.len(),
            i <= len,
            folded@ == fold_seq(s@.subrange(0, i as int)),
        decreases len - i,
    {
        let c = s.get_char(i);
        let mut low = lower_char(c);
        folded.append(&mut low);
        proof {
            let pre = s@.subrange(0, i as int);
            assert(s@.subrange(0, i + 1) =~= pre + seq![s@[i as int]]);
            lemma_fold_seq_add(pre, seq![s@[i as int]]);
            assert(seq![s@[i as int]].drop_first() =~= Seq::<char>::empty());
            assert(fold_seq(Seq::<char>::empty()) == Seq::<char>::empty());
            assert(fold_seq(seq![s@[i as int]]) =~= char_lower(s@[i as int]));
        }
        i += 1;
    }
    proof {
        assert(s@.subrange(0, len as int) =~= s@);
    }
    folded
}

/// Whether `needle` occurs verbatim in `hay`, by a linear scan of every
/// starting position.
fn chars_contain(hay: &Vec<char>, needle: &Vec<char>) -> (found: bool)
    ensures
        found == contains_seq(hay@, needle@),
{
    let hlen = hay.len();
    let nlen = needle.len();
    if nlen > hlen {
        proof {
            assert(forall|p: int| !occurs_at(hay@, needle@, p));
        }
        return false;
    }
    let mut i: usize = 0;
    while i <= hlen - nlen
        invariant
            hlen == hay@.len(),
            nlen == needle@.len(),
            nlen <= hlen,
            i <= hlen - nlen + 1,
            forall|p: int| 0 <= p < i ==> !occurs_at(hay@, needle@, p),
        decreases hlen - nlen - i + 1,
    {
        let mut j: usize = 0;
        while j < nlen && hay[i + j] == needle[j]
            invariant
                hlen == hay@.len(),
                nlen == needle@.len(),
                i + nlen <= hlen,
                j <= nlen,
                forall|q: int| 0 <= q < j ==> hay@[i + q] == needle@[q],
            decreases nlen - j,
        {
            j += 1;
        }
        if j == nlen {
            proof {
                assert forall|q: int| 0 <= q < nlen implies hay@.subrange(
                    i as int,
                    i + nlen,
                )[q] == needle@[q] by {
                    assert(hay@.subrange(i as int, i + nlen)[q] == hay@[i + q]);
                }
                assert(hay@.subrange(i as int, i + nlen) =~= needle@);
                assert(occurs_at(hay@, needle@, i as int));
            }
            return true;
        }
        proof {
            assert(hay@[i + j] != needle@[j as int]);
            assert(hay@.subrange(i as int, i + nlen)[j as int] == hay@[i + j]);
            assert(!occurs_at(hay@, needle@, i as int));
        }
        i += 1;
    }
    proof {
        assert forall|p: int| !occurs_at(hay@, needle@, p) by {
            if p >= i {
                assert(p + needle@.len() > hay@.len());
            }
        }
    }
    false
}

/// Whether `needle` occurs verbatim in `hay`.
fn str_contains(hay: &str, needle: &str) -> (found: bool)
    ensures
        found == contains_seq(hay@, needle@),
{
    let hay_chars = str_chars(hay);
    let needle_chars = str_chars(needle);
    chars_contain(&hay_chars, &needle_chars)
}

/// Returns, in file order, the lines of `contents` that contain `query`
/// verbatim; each returned line borrows the body's own text.
pub fn search_case_sensitive<'a>(query: &str, contents: &'a str) -> (matches: Vec<&'a str>)
    ensures
        line_views(matches@) == exact_matches(query@, contents@),
{
    let lines = split_lines(contents);
    let ghost lv = line_views(lines@);
    let ghost pred = exact_pred(query@);
    let mut matches: Vec<&'a str> = Vec::new();
    let mut idx: usize = 0;
    proof {
        assert(lv.take(0) =~= Seq::<Seq<char>>::empty());
        assert(Seq::<Seq<char>>::empty().filter(pred) == Seq::<Seq<char>>::empty()) by {
            reveal(Seq::filter);
        }
        assert(line_views(matches@) =~= Seq::<Seq<char>>::empty());
    }
    while idx < lines.len()
        invariant
            idx <= lines.len(),
            lv == line_views(lines@),
            lv == spec_lines(contents@),
            pred == exact_pred(query@),
            line_views(matches@) == lv.take(idx as int).filter(pred),
        decreases lines.len() - idx,
    {
        let line = lines[idx];
        let ghost old_matches = matches@;
        if str_contains(line, query) {
            matches.push(line);
        }
        proof {
            assert(line@ == lv[idx as int]);
            assert(lv.take(idx + 1) =~= lv.take(idx as int) + seq![line@]);
            Seq::filter_distributes_over_add(lv.take(idx as int), seq![line@], pred);
            lemma_filter_singleton(line@, pred);
            if pred(line@) {
                assert(line_views(matches@) =~= line_views(old_matches) + seq![line@]);
            } else {
                assert(line_views(matches@) == line_views(old_matches));
                assert(line_views(old_matches) + Seq::<Seq<char>>::empty() =~= line_views(
                    old_matches,
                ));
            }
        }
        idx += 1;
    }
    proof {
        assert(lv.take(lines@.len() as int) =~= lv);
    }
    matches
}

/// Returns, in file order, the lines of `contents` whose case-folded form
/// contains the case-folded `query`; the returned lines keep their
/// original case and borrow the body's own text.
pub fn search_case_insensitive<'a>(query: &str, contents: &'a str) -> (matches: Vec<&'a str>)
    ensures
        line_views(matches@) == fold_matches(query@, contents@),
{
    let lines = split_lines(contents);
    let folded_query = fold_chars(query);
    let ghost lv = line_views(lines@);
    let ghost pred = fold_pred(query@);
    let mut matches: Vec<&'a str> = Vec::new();
    let mut idx: usize = 0;
    proof {
        assert(lv.take(0) =~= Seq::<Seq<char>>::empty());
        assert(Seq::<Seq<char>>::empty().filter(pred) == Seq::<Seq<char>>::empty()) by {
            reveal(Seq::filter);
        }
        assert(line_views(matches@) =~= Seq::<Seq<char>>::empty());
    }
    while idx < lines.len()
        invariant
            idx <= lines.len(),
            lv == line_views(lines@),
            lv == spec_lines(contents@),
            pred == fold_pred(query@),
            folded_query@ == fold_seq(query@),
            line_views(matches@) == lv.take(idx as int).filter(pred),
        decreases lines.len() - idx,
    {
        let line = lines[idx];
        let ghost old_matches = matches@;
        let folded_line = fold_chars(line);
        if chars_contain(&folded_line, &folded_query) {
            matches.push(line);
        }
        proof {
            assert(line@ == lv[idx as int]);
            assert(lv.take(idx + 1) =~= lv.take(idx as int) + seq![line@]);
            Seq::filter_distributes_over_add(lv.take(idx as int), seq![line@], pred);
            lemma_filter_singleton(line@, pred);
            if pred(line@) {
                assert(line_views(matches@) =~= line_views(old_matches) + seq![line@]);
            } else {
                assert(line_views(matches@) == line_views(old_matches));
                assert(line_views(old_matches) + Seq::<Seq<char>>::empty() =~= line_views(
                    old_matches,
                ));
            }
        }
        idx += 1;
    }
    proof {
        assert(lv.take(lines@.len() as int) =~= lv);
    }
    matches
}

/// One search, one answer: any two match vectors that meet the search's
/// contract for the same query, body and case policy stand for the same
/// lines, so running the search twice yields identical match sets.
pub proof fn lemma_search_deterministic<'a>(
    m1: Seq<&'a str>,
    m2: Seq<&'a str>,
    query: Seq<char>,
    contents: Seq<char>,
    case_sensitive: bool,
)
    requires
        line_views(m1) == spec_search(query, contents, case_sensitive),
        line_views(m2) == spec_search(query, contents, case_sensitive),
    ensures
        line_views(m1) == line_views(m2),
{
}

/// Runs the search a configuration asks for: the exact search when it is
/// case-sensitive, the case-folded search otherwise.
pub fn run_search<'a>(config: &Config, contents: &'a str) -> (matches: Vec<&'a str>)
    ensures
        line_views(matches@) == spec_search(config.query@, contents@, config.case_sensitive),
{
    if config.case_sensitive {
        search_case_sensitive(config.query.as_str(), contents)
    } else {
        search_case_insensitive(config.query.as_str(), contents)
    }
}

} // verus!
