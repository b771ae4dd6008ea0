//! The separator guesser and its query contract.

use crate::model::{
    count_in, has_any_vote, is_line_winner, is_overall_winner, line_has_candidate, line_winner,
    split_into_lines, votes_for,
};
use vstd::prelude::*;

verus! {

/// Declares std::io::Error so the error enum below can carry the failure
/// a content source reported; the value stays opaque to the verifier.
#[verifier::external_type_specification]
#[verifier::external_body]
pub struct ExIoError(std::io::Error);

/// Why a construction or a query failed.
#[derive(Debug)]
pub enum Error {
    /// The content source could not be read to completion.
    Io(std::io::Error),
    /// No line of the content contains any of the candidate separators.
    NoDelimiterFound,
}

/// What a query answers on content `content` with candidate set `cs`:
/// the unique overall winner when any line casts a vote, and
/// `NoDelimiterFound` when none does.
pub open spec fn guess_post(content: Seq<char>, cs: Set<char>, r: Result<char, Error>) -> bool {
    let lines = split_into_lines(content);
    match r {
        Ok(w) => has_any_vote(lines, cs) && is_overall_winner(lines, cs, w),
        Err(e) => !has_any_vote(lines, cs) && e == Error::NoDelimiterFound,
    }
}

/// Determinism: the query's contract pins its result, so two results for
/// the same content and the same candidate set are equal.
pub proof fn lemma_guess_deterministic(
    content: Seq<char>,
    cs: Set<char>,
    r1: Result<char, Error>,
    r2: Result<char, Error>,
)
    requires
        guess_post(content, cs, r1),
        guess_post(content, cs, r2),
    ensures
        r1 == r2,
{
    let lines = split_into_lines(content);
    if r1 is Ok && r2 is Ok {
        crate::model::lemma_overall_winner_unique(lines, cs, r1->Ok_0, r2->Ok_0);
    }
}

/// The order in which the candidates are supplied is irrelevant: the query
/// depends only on the set of candidate characters.
pub proof fn lemma_candidate_order_irrelevant(
    content: Seq<char>,
    seps1: Seq<char>,
    seps2: Seq<char>,
    r1: Result<char, Error>,
    r2: Result<char, Error>,
)
    requires
        seps1.to_set() == seps2.to_set(),
        guess_post(content, seps1.to_set(), r1),
        guess_post(content, seps2.to_set(), r2),
    ensures
        r1 == r2,
{
    lemma_guess_deterministic(content, seps1.to_set(), r1, r2);
}

/// Content in which no candidate character occurs — empty content
/// included — yields `NoDelimiterFound`.
pub proof fn lemma_no_candidate_gives_no_delimiter(
    content: Seq<char>,
    cs: Set<char>,
    r: Result<char, Error>,
)
    requires
        guess_post(content, cs, r),
        forall|c: char| cs.contains(c) ==> !content.contains(c),
    ensures
        r == Err::<char, Error>(Error::NoDelimiterFound),
{
    crate::model::lemma_no_candidate_no_vote(content, cs);
}

/// Guesses the separator by a line-by-line winner-takes-all vote: per line
/// the candidate occurring most often wins, and the candidate winning the
/// most lines is the guess.
pub struct MostFrequentLineByLine {
    /// The full decoded text the guesser was built over.
    content: String,
}

impl View for MostFrequentLineByLine {
    type V = Seq<char>;

    closed spec fn view(&self) -> Seq<char> {
        self.content@
    }
}

impl MostFrequentLineByLine {
    /// Builds a guesser over already-decoded text.
    pub fn from_content(content: String) -> (g: MostFrequentLineByLine)
        ensures
            g@ == content@,
    {
        MostFrequentLineByLine { content }
    }

    /// Builds a guesser by reading a source to completion. The only way
    /// this fails is with the source's own read or decoding error.
    pub fn try_new<R: std::io::Read>(source: &mut R) -> (r: Result<MostFrequentLineByLine, Error>)
        ensures
            r matches Err(e) ==> e is Io,
    {
        match read_to_end(source) {
            Ok(buffer) => Ok(MostFrequentLineByLine { content: buffer }),
            Err(e) => Err(Error::Io(e)),
        }
    }
}

/// Relies on std::io::Read::read_to_string: reads the source to its end
/// into a fresh buffer, or fails with the underlying I/O or decoding
/// error. What was read depends on the source, so nothing is promised of
/// the returned text.
#[verifier::external_body]
fn read_to_end<R: std::io::Read>(source: &mut R) -> Result<String, std::io::Error> {
    let mut buffer = String::new();
    match source.read_to_string(&mut buffer) {
        Ok(_) => Ok(buffer),
        Err(e) => Err(e),
    }
}

/// The characters of `s`, in order, as a vector.
fn to_char_vec(s: &str) -> (v: Vec<char>)
    ensures
        v@ == s@,
{
    let n = s.unicode_len();
    let mut v: Vec<char> = Vec::new();
    let mut i: usize = 0;
    while i < n
        invariant
            i <= n,
            n == s@.len(),
            v@ == s@.take(i as int),
        decreases n - i,
    {
        let c = s.get_char(i);
        v.push(c);
        i = i + 1;
        proof {
            assert(s@.take(i as int) =~= s@.take(i as int - 1).push(s@[i as int - 1]));
        }
    }
    proof {
        assert(s@.take(n as int) =~= s@);
    }
    v
}

/// How many times `c` occurs in `line`.
fn count_occurrences(line: &Vec<char>, c: char) -> (n: usize)
    ensures
        n as nat == count_in(line@, c),
{
    let mut n: usize = 0;
    let mut i: usize = 0;
    while i < line.len()
        invariant
            i <= line@.len(),
            n <= i,
            n as nat == count_in(line@.take(i as int), c),
        decreases line@.len() - i,
    {
        proof {
            assert(line@.take(i + 1).drop_last() =~= line@.take(i as int));
            assert(line@.take(i + 1).last() == line@[i as int]);
        }
        if line[i] == c {
            n = n + 1;
        }
        i = i + 1;
    }
    proof {
        assert(line@.take(line@.len() as int) =~= line@);
    }
    n
}

/// The lines of `chars`, as `split_into_lines` describes them.
fn split_lines(chars: &Vec<char>) -> (lines: Vec<Vec<char>>)
    ensures
        lines@.map_values(|l: Vec<char>| l@) == split_into_lines(chars@),
{
    let ghost whole = chars@;
    let mut lines: Vec<Vec<char>> = Vec::new();
    let mut cur: Vec<char> = Vec::new();
    let mut start: usize = 0;
    let mut i: usize = 0;
    proof {
        assert(whole.skip(0) =~= whole);
        assert(lines@.map_values(|l: Vec<char>| l@) + split_into_lines(whole) =~= split_into_lines(
            whole,
        ));
    }
    while i < chars.len()
        invariant
            start <= i <= whole.len(),
            whole == chars@,
            cur@ == whole.subrange(start as int, i as int),
            forall|j: int| start <= j < i ==> whole[j] != '\n',
            split_into_lines(whole) == lines@.map_values(|l: Vec<char>| l@) + split_into_lines(
                whole.skip(start as int),
            ),
        decreases whole.len() - i,
    {
        let c = chars[i];
        if c == '\n' {
            let ghost t = whole.skip(start as int);
            proof {
                assert forall|j: int| 0 <= j < i - start implies t[j] != '\n' by {
                    assert(t[j] == whole[start + j]);
                }
                assert(t[i - start] == whole[i as int]);
                crate::model::lemma_first_newline_is(t, i - start);
                assert(t.take(i - start) =~= whole.subrange(start as int, i as int));
                assert(t.skip(i - start + 1) =~= whole.skip(i + 1));
            }
            if cur.len() > 0 && cur[cur.len() - 1] == '\r' {
                cur.pop();
            }
            proof {
                assert(cur@ == crate::model::strip_trailing_cr(
                    whole.subrange(start as int, i as int),
                ));
                assert(lines@.map_values(|l: Vec<char>| l@).push(cur@) =~= lines@.push(
                    cur,
                ).map_values(|l: Vec<char>| l@));
                assert(lines@.map_values(|l: Vec<char>| l@) + (seq![cur@] + split_into_lines(
                    whole.skip(i + 1),
                )) =~= lines@.map_values(|l: Vec<char>| l@).push(cur@) + split_into_lines(
                    whole.skip(i + 1),
                ));
            }
            lines.push(cur);
            cur = Vec::new();
            start = i + 1;
        } else {
            cur.push(c);
        }
        i = i + 1;
        proof {
            assert(cur@ =~= whole.subrange(start as int, i as int));
        }
    }
    proof {
        assert(i == whole.len());
    }
    if cur.len() > 0 {
        let ghost t = whole.skip(start as int);
        proof {
            assert forall|j: int| 0 <= j < t.len() implies t[j] != '\n' by {
                assert(t[j] == whole[start + j]);
            }
            crate::model::lemma_first_newline_is(t, t.len() as int);
            assert(cur@ == t);
            assert(t.len() > 0);
            assert(lines@.map_values(|l: Vec<char>| l@).push(cur@) =~= lines@.push(cur).map_values(
                |l: Vec<char>| l@,
            ));
            assert(lines@.map_values(|l: Vec<char>| l@) + seq![t] =~= lines@.map_values(
                |l: Vec<char>| l@,
            ).push(cur@));
        }
        lines.push(cur);
    } else {
        proof {
            assert(whole.skip(start as int) =~= Seq::<char>::empty());
            assert(lines@.map_values(|l: Vec<char>| l@) + split_into_lines(
                whole.skip(start as int),
            ) =~= lines@.map_values(|l: Vec<char>| l@));
        }
    }
    lines
}

/// The winner of one line: the candidate occurring most often on it, ties
/// going to the larger code point; none when no candidate occurs on it.
fn pick_line_winner(line: &Vec<char>, separators: &[char]) -> (r: Option<char>)
    ensures
        r == line_winner(line@, separators@.to_set()),
        r is Some <==> line_has_candidate(line@, separators@.to_set()),
{
    let ghost cs = separators@.to_set();
    let mut best: Option<char> = None;
    let mut best_n: usize = 0;
    let mut j: usize = 0;
    while j < separators.len()
        invariant
            j <= separators@.len(),
            best is None ==> forall|k: int|
                0 <= k < j ==> count_in(line@, #[trigger] separators@[k]) == 0,
            best matches Some(w) ==> {
                &&& separators@.contains(w)
                &&& best_n as nat == count_in(line@, w)
                &&& best_n >= 1
                &&& forall|k: int|
                    0 <= k < j ==> crate::model::outscores(line@, w, #[trigger] separators@[k])
            },
        decreases separators@.len() - j,
    {
        let c = separators[j];
        let n = count_occurrences(line, c);
        let replace = n >= 1 && (match best {
            None => true,
            Some(w) => n > best_n || (n == best_n && c as u32 > w as u32),
        });
        if replace {
            best = Some(c);
            best_n = n;
        }
        j = j + 1;
    }
    proof {
        match best {
            Some(w) => {
                assert(is_line_winner(line@, cs, w)) by {
                    assert forall|c: char| cs.contains(c) implies crate::model::outscores(
                        line@,
                        w,
                        c,
                    ) by {
                        let k = choose|k: int| 0 <= k < separators@.len() && separators@[k] == c;
                        assert(crate::model::outscores(line@, w, separators@[k]));
                    }
                }
                let picked = choose|x: char| is_line_winner(line@, cs, x);
                crate::model::lemma_line_winner_unique(line@, cs, picked, w);
            },
            None => {
                assert forall|c: char| cs.contains(c) implies count_in(line@, c) == 0 by {
                    let k = choose|k: int| 0 <= k < separators@.len() && separators@[k] == c;
                    assert(count_in(line@, separators@[k]) == 0);
                }
                assert(!(exists|x: char| is_line_winner(line@, cs, x)));
            },
        }
    }
    best
}

/// How many entries of `winners` are a win for `c`.
fn count_votes(
    winners: &Vec<Option<char>>,
    c: char,
    Ghost(lines): Ghost<Seq<Seq<char>>>,
    Ghost(cs): Ghost<Set<char>>,
) -> (v: usize)
    requires
        winners@.len() == lines.len(),
        forall|k: int| 0 <= k < lines.len() ==> winners@[k] == line_winner(#[trigger] lines[k], cs),
    ensures
        v as nat == votes_for(lines, cs, c),
{
    let mut v: usize = 0;
    let mut i: usize = 0;
    while i < winners.len()
        invariant
            i <= winners@.len(),
            winners@.len() == lines.len(),
            forall|k: int|
                0 <= k < lines.len() ==> winners@[k] == line_winner(#[trigger] lines[k], cs),
            v <= i,
            v as nat == votes_for(lines.take(i as int), cs, c),
        decreases winners@.len() - i,
    {
        proof {
            assert(lines.take(i + 1).drop_last() =~= lines.take(i as int));
            assert(lines.take(i + 1).last() == lines[i as int]);
        }
        let vote: bool = match winners[i] {
            Some(w) => w == c,
            None => false,
        };
        if vote {
            v = v + 1;
        }
        i = i + 1;
    }
    proof {
        assert(lines.take(lines.len() as int) =~= lines);
    }
    v
}

/// A strategy that guesses which separator its text most likely uses.
pub trait GuessSeparator {
    /// The text the strategy judges.
    spec fn text(&self) -> Seq<char>;

    /// Checks which of the provided separators occurs most often per line;
    /// that character wins the line, and the character winning the most
    /// lines is the guess. Fails with `NoDelimiterFound` when no line
    /// contains any of the separators.
    fn guess(&self, separators: &[char]) -> (r: Result<char, Error>)
        ensures
            guess_post(self.text(), separators@.to_set(), r),
            r matches Ok(w) ==> separators@.to_set().contains(w),
    ;
}

impl GuessSeparator for MostFrequentLineByLine {
    open spec fn text(&self) -> Seq<char> {
        self@
    }

    fn guess(&self, separators: &[char]) -> (r: Result<char, Error>) {
        let ghost cs = separators@.to_set();
        let ghost lines_s = split_into_lines(self@);
        let chars = to_char_vec(self.content.as_str());
        let lines = split_lines(&chars);
        let mut winners: Vec<Option<char>> = Vec::new();
        let mut i: usize = 0;
        while i < lines.len()
            invariant
                i <= lines@.len(),
                cs == separators@.to_set(),
                lines@.map_values(|l: Vec<char>| l@) == lines_s,
                winners@.len() == i,
                forall|k: int|
                    0 <= k < i ==> winners@[k] == line_winner(#[trigger] lines_s[k], cs),
                forall|k: int|
                    0 <= k < i ==> ((#[trigger] winners@[k]) is Some <==> line_has_candidate(
                        lines_s[k],
                        cs,
                    )),
            decreases lines@.len() - i,
        {
            proof {
                assert(lines@.map_values(|l: Vec<char>| l@)[i as int] == lines@[i as int]@);
                assert(lines@[i as int]@ == lines_s[i as int]);
            }
            let w = pick_line_winner(&lines[i], separators);
            proof {
                assert(w == line_winner(lines_s[i as int], cs));
                assert(w is Some <==> line_has_candidate(lines_s[i as int], cs));
            }
            winners.push(w);
            i = i + 1;
        }
        let mut best: Option<char> = None;
        let mut best_v: usize = 0;
        let mut j: usize = 0;
        while j < separators.len()
            invariant
                j <= separators@.len(),
                cs == separators@.to_set(),
                winners@.len() == lines_s.len(),
                forall|k: int|
                    0 <= k < lines_s.len() ==> winners@[k] == line_winner(
                        #[trigger] lines_s[k],
                        cs,
                    ),
                forall|k: int|
                    0 <= k < lines_s.len() ==> ((#[trigger] winners@[k]) is Some
                        <==> line_has_candidate(lines_s[k], cs)),
                best is None ==> forall|k: int|
                    0 <= k < j ==> votes_for(lines_s, cs, #[trigger] separators@[k]) == 0,
                best matches Some(w) ==> {
                    &&& separators@.contains(w)
                    &&& best_v as nat == votes_for(lines_s, cs, w)
                    &&& best_v >= 1
                    &&& forall|k: int|
                        0 <= k < j ==> votes_for(lines_s, cs, #[trigger] separators@[k])
                            < votes_for(lines_s, cs, w) || (votes_for(lines_s, cs, separators@[k])
                            == votes_for(lines_s, cs, w) && separators@[k] as u32 <= w as u32)
                },
            decreases separators@.len() - j,
        {
            let c = separators[j];
            let v = count_votes(&winners, c, Ghost(lines_s), Ghost(cs));
            let replace = v >= 1 && (match best {
                None => true,
                Some(w) => v > best_v || (v == best_v && c as u32 > w as u32),
            });
            if replace {
                best = Some(c);
                best_v = v;
            }
            j = j + 1;
        }
        match best {
            Some(w) => {
                proof {
                    assert forall|c: char| cs.contains(c) implies votes_for(lines_s, cs, c)
                        < votes_for(lines_s, cs, w) || (votes_for(lines_s, cs, c) == votes_for(
                        lines_s,
                        cs,
                        w,
                    ) && c as u32 <= w as u32) by {
                        let k = choose|k: int| 0 <= k < separators@.len() && separators@[k] == c;
                        assert(votes_for(lines_s, cs, separators@[k]) < votes_for(lines_s, cs, w)
                            || (votes_for(lines_s, cs, separators@[k]) == votes_for(lines_s, cs, w)
                            && separators@[k] as u32 <= w as u32));
                    }
                    assert(is_overall_winner(lines_s, cs, w));
                    crate::model::lemma_positive_votes(lines_s, cs, w);
                    let li = choose|li: int|
                        0 <= li < lines_s.len() && line_winner(lines_s[li], cs) == Some(w);
                    assert(winners@[li] is Some);
                    assert(line_has_candidate(lines_s[li], cs));
                    assert(has_any_vote(lines_s, cs));
                }
                Ok(w)
            },
            None => {
                proof {
                    if has_any_vote(lines_s, cs) {
                        let li = choose|li: int|
                            0 <= li < lines_s.len() && line_has_candidate(lines_s[li], cs);
                        assert(winners@[li] is Some);
                        let w = winners@[li]->Some_0;
                        assert(line_winner(lines_s[li], cs) == Some(w));
                        assert(is_line_winner(lines_s[li], cs, choose|x: char|
                            is_line_winner(lines_s[li], cs, x)));
                        assert(cs.contains(w));
                        crate::model::lemma_vote_counted(lines_s, cs, li, w);
                        let k = choose|k: int| 0 <= k < separators@.len() && separators@[k] == w;
                        assert(votes_for(lines_s, cs, separators@[k]) == 0);
                    }
                }
                Err(Error::NoDelimiterFound)
            },
        }
    }
}

} // verus!
