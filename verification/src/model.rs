//! Mathematical model of the separator vote.
//!
//! The content is a sequence of characters; it is split into lines, each
//! line elects the candidate separator that occurs most often on it (ties
//! go to the character with the larger code point), and the candidate that
//! wins the most lines (ties again to the larger code point) is the overall
//! winner.

use vstd::prelude::*;

verus! {

/// Number of times `c` occurs in `s`.
pub open spec fn count_in(s: Seq<char>, c: char) -> nat
    decreases s.len(),
{
    if s.len() == 0 {
        0
    } else {
        count_in(s.drop_last(), c) + (if s.last() == c {
            1nat
        } else {
            0nat
        })
    }
}

/// `c` occurs in `s` exactly when its count is positive.
pub proof fn lemma_count_in_positive(s: Seq<char>, c: char)
    ensures
        count_in(s, c) >= 1 <==> s.contains(c),
    decreases s.len(),
{
    if s.len() > 0 {
        lemma_count_in_positive(s.drop_last(), c);
        if s.last() != c && s.contains(c) {
            let i = choose|i: int| 0 <= i < s.len() && s[i] == c;
            assert(s.drop_last()[i] == c);
        }
    }
}

/// Index of the first line feed in `s`, or `s.len()` when there is none.
pub open spec fn first_newline(s: Seq<char>) -> int
    decreases s.len(),
{
    if s.len() == 0 {
        0
    } else if s[0] == '\n' {
        0
    } else {
        1 + first_newline(s.drop_first())
    }
}

pub proof fn lemma_first_newline(s: Seq<char>)
    ensures
        0 <= first_newline(s) <= s.len(),
        first_newline(s) < s.len() ==> s[first_newline(s)] == '\n',
        forall|j: int| 0 <= j < first_newline(s) ==> s[j] != '\n',
    decreases s.len(),
{
    if s.len() > 0 && s[0] != '\n' {
        lemma_first_newline(s.drop_first());
        assert forall|j: int| 0 <= j < first_newline(s) implies s[j] != '\n' by {
            if j > 0 {
                assert(s.drop_first()[j - 1] == s[j]);
            }
        }
    }
}

/// The first line feed is wherever a scan finds it: before `k` nothing,
/// and at `k` either a line feed or the end of the sequence.
pub proof fn lemma_first_newline_is(s: Seq<char>, k: int)
    requires
        0 <= k <= s.len(),
        forall|j: int| 0 <= j < k ==> s[j] != '\n',
        k < s.len() ==> s[k] == '\n',
    ensures
        first_newline(s) == k,
    decreases s.len(),
{
    if s.len() > 0 && s[0] != '\n' {
        assert forall|j: int| 0 <= j < k - 1 implies s.drop_first()[j] != '\n' by {
            assert(s.drop_first()[j] == s[j + 1]);
        }
        lemma_first_newline_is(s.drop_first(), k - 1);
    }
}

/// A line terminated by a line feed drops one carriage return, if any,
/// directly before the line feed.
pub open spec fn strip_trailing_cr(l: Seq<char>) -> Seq<char> {
    if l.len() > 0 && l.last() == '\r' {
        l.drop_last()
    } else {
        l
    }
}

/// The lines of `s`: maximal runs between line feeds, each stripped of one
/// carriage return before its line feed. A final run without a terminator
/// still counts as a line; the empty run after a terminating line feed does
/// not.
pub open spec fn split_into_lines(s: Seq<char>) -> Seq<Seq<char>>
    decreases s.len(),
{
    if s.len() == 0 {
        Seq::empty()
    } else {
        let i = first_newline(s);
        if 0 <= i < s.len() {
            seq![strip_trailing_cr(s.take(i))] + split_into_lines(s.skip(i + 1))
        } else {
            seq![s]
        }
    }
}

/// In `line`, candidate `w` beats candidate `c`: a strictly higher count,
/// or an equal count and at least as large a code point.
pub open spec fn outscores(line: Seq<char>, w: char, c: char) -> bool {
    count_in(line, c) < count_in(line, w) || (count_in(line, c) == count_in(line, w) && c as u32
        <= w as u32)
}

/// `w` is the winner of `line` among the candidates `cs`: it occurs on the
/// line and beats every candidate, ties going to the larger code point.
pub open spec fn is_line_winner(line: Seq<char>, cs: Set<char>, w: char) -> bool {
    &&& cs.contains(w)
    &&& count_in(line, w) >= 1
    &&& forall|c: char| cs.contains(c) ==> outscores(line, w, c)
}

/// Some candidate from `cs` occurs on `line`.
pub open spec fn line_has_candidate(line: Seq<char>, cs: Set<char>) -> bool {
    exists|c: char| cs.contains(c) && count_in(line, c) >= 1
}

/// The winner of `line` among the candidates `cs`, if any candidate occurs
/// on the line at all.
pub open spec fn line_winner(line: Seq<char>, cs: Set<char>) -> Option<char> {
    if exists|w: char| is_line_winner(line, cs, w) {
        Some(choose|w: char| is_line_winner(line, cs, w))
    } else {
        None
    }
}

/// A line has at most one winner.
pub proof fn lemma_line_winner_unique(line: Seq<char>, cs: Set<char>, w1: char, w2: char)
    requires
        is_line_winner(line, cs, w1),
        is_line_winner(line, cs, w2),
    ensures
        w1 == w2,
{
    assert(outscores(line, w1, w2));
    assert(outscores(line, w2, w1));
}

/// Number of lines whose winner among `cs` is `c`.
pub open spec fn votes_for(lines: Seq<Seq<char>>, cs: Set<char>, c: char) -> nat
    decreases lines.len(),
{
    if lines.len() == 0 {
        0
    } else {
        votes_for(lines.drop_last(), cs, c) + (if line_winner(lines.last(), cs) == Some(c) {
            1nat
        } else {
            0nat
        })
    }
}

/// `w` is the overall winner: it wins at least one line and wins at least
/// as many lines as every candidate, ties going to the larger code point.
pub open spec fn is_overall_winner(lines: Seq<Seq<char>>, cs: Set<char>, w: char) -> bool {
    &&& cs.contains(w)
    &&& votes_for(lines, cs, w) >= 1
    &&& forall|c: char|
        cs.contains(c) ==> votes_for(lines, cs, c) < votes_for(lines, cs, w) || (votes_for(
            lines,
            cs,
            c,
        ) == votes_for(lines, cs, w) && c as u32 <= w as u32)
}

/// Some line contains some candidate from `cs`.
pub open spec fn has_any_vote(lines: Seq<Seq<char>>, cs: Set<char>) -> bool {
    exists|i: int| 0 <= i < lines.len() && line_has_candidate(lines[i], cs)
}

/// There is at most one overall winner.
pub proof fn lemma_overall_winner_unique(lines: Seq<Seq<char>>, cs: Set<char>, w1: char, w2: char)
    requires
        is_overall_winner(lines, cs, w1),
        is_overall_winner(lines, cs, w2),
    ensures
        w1 == w2,
{
}

/// A candidate with a vote won some line.
pub proof fn lemma_positive_votes(lines: Seq<Seq<char>>, cs: Set<char>, c: char)
    requires
        votes_for(lines, cs, c) >= 1,
    ensures
        exists|i: int| 0 <= i < lines.len() && line_winner(lines[i], cs) == Some(c),
    decreases lines.len(),
{
    if lines.len() > 0 {
        if line_winner(lines.last(), cs) == Some(c) {
            assert(lines[lines.len() - 1] == lines.last());
        } else {
            lemma_positive_votes(lines.drop_last(), cs, c);
            let i = choose|i: int|
                0 <= i < lines.drop_last().len() && line_winner(lines.drop_last()[i], cs) == Some(
                    c,
                );
            assert(lines[i] == lines.drop_last()[i]);
        }
    }
}

/// A line whose winner is `c` gives `c` at least one vote.
pub proof fn lemma_vote_counted(lines: Seq<Seq<char>>, cs: Set<char>, i: int, c: char)
    requires
        0 <= i < lines.len(),
        line_winner(lines[i], cs) == Some(c),
    ensures
        votes_for(lines, cs, c) >= 1,
    decreases lines.len(),
{
    if i == lines.len() - 1 {
        assert(lines.last() == lines[i]);
    } else {
        assert(lines.drop_last()[i] == lines[i]);
        lemma_vote_counted(lines.drop_last(), cs, i, c);
    }
}

/// Splitting into lines introduces no character: a character absent from
/// the content is absent from every line.
pub proof fn lemma_lines_keep_absence(s: Seq<char>, c: char)
    requires
        !s.contains(c),
    ensures
        forall|i: int|
            0 <= i < split_into_lines(s).len() ==> !(#[trigger] split_into_lines(s)[i]).contains(c),
    decreases s.len(),
{
    if s.len() > 0 {
        lemma_first_newline(s);
        let k = first_newline(s);
        if k < s.len() {
            let line0 = strip_trailing_cr(s.take(k));
            assert(!line0.contains(c)) by {
                if line0.contains(c) {
                    let j = choose|j: int| 0 <= j < line0.len() && line0[j] == c;
                    assert(s[j] == c);
                }
            }
            let rest = s.skip(k + 1);
            assert(!rest.contains(c)) by {
                if rest.contains(c) {
                    let j = choose|j: int| 0 <= j < rest.len() && rest[j] == c;
                    assert(s[k + 1 + j] == c);
                }
            }
            lemma_lines_keep_absence(rest, c);
            assert forall|i: int| 0 <= i < split_into_lines(s).len() implies !(
            #[trigger] split_into_lines(s)[i]).contains(c) by {
                if i > 0 {
                    assert(split_into_lines(s)[i] == split_into_lines(rest)[i - 1]);
                }
            }
        }
    }
}

/// If no candidate occurs anywhere in the content, no line can cast a vote.
pub proof fn lemma_no_candidate_no_vote(content: Seq<char>, cs: Set<char>)
    requires
        forall|c: char| cs.contains(c) ==> !content.contains(c),
    ensures
        !has_any_vote(split_into_lines(content), cs),
{
    let lines = split_into_lines(content);
    assert forall|i: int| 0 <= i < lines.len() implies !line_has_candidate(lines[i], cs) by {
        if line_has_candidate(lines[i], cs) {
            let c = choose|c: char| cs.contains(c) && count_in(lines[i], c) >= 1;
            lemma_lines_keep_absence(content, c);
            lemma_count_in_positive(lines[i], c);
        }
    }
}

} // verus!
