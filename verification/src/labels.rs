//! The parsers for output that holds one line of labels for each line of
//! input, with or without a score after each label.

use vstd::prelude::*;
use crate::number::{is_number, number};
use crate::outcome::{agrees, followed, gather, lemma_gather_fails, Failure, ParseError};
use crate::text::{chars_of, split, split_slices, string_of, texts, token_slices, tokens};

verus! {

/// A label and the text of its score.
pub type Scored = (Seq<char>, Seq<char>);

/// The lists of tokens of `lines`, the lines without tokens left out.
pub open spec fn token_lists(lines: Seq<Seq<char>>) -> Seq<Seq<Seq<char>>> {
    lines.map_values(|line: Seq<char>| tokens(line)).filter(|found: Seq<Seq<char>>| found.len() > 0)
}

/// What `label_lines` returns for the output `text`: the tokens of each line
/// that has any.
pub open spec fn labels(text: Seq<char>) -> Seq<Seq<Seq<char>>> {
    token_lists(split(text, '\n'))
}

/// The tokens `found` of `line`, taken two by two as a label and its score.
/// A token that should be a score and is no number fails the line, and so
/// does a last label without a score.
pub open spec fn pairs(found: Seq<Seq<char>>, line: Seq<char>) -> Result<Seq<Scored>, Failure>
    decreases found.len(),
{
    if found.len() == 0 {
        Ok(Seq::empty())
    } else if found.len() == 1 {
        Err(Failure::MissingScore(line))
    } else if !is_number(found[1]) {
        Err(Failure::BadNumber(found[1]))
    } else {
        followed(seq![(found[0], found[1])], pairs(found.skip(2), line))
    }
}

/// The labels and scores of one line.
pub open spec fn scored_line(line: Seq<char>) -> Result<Seq<Scored>, Failure> {
    pairs(tokens(line), line)
}

/// The reading of each of `lines`.
pub open spec fn scored_each(lines: Seq<Seq<char>>) -> Seq<Result<Seq<Scored>, Failure>> {
    lines.map_values(|line: Seq<char>| scored_line(line))
}

/// What `scored_lines` returns for the output `text`: the labels and scores
/// of each line that has any, or the failure of the first line that cannot
/// be read.
pub open spec fn scored(text: Seq<char>) -> Result<Seq<Seq<Scored>>, Failure> {
    gather(scored_each(split(text, '\n')))
}

/// `label_lines` hands out no entry without a label.
pub proof fn lemma_labels_nonempty(text: Seq<char>)
    ensures
        forall|i: int| 0 <= i < labels(text).len() ==> (#[trigger] labels(text)[i]).len() > 0,
{
    let read = split(text, '\n').map_values(|line: Seq<char>| tokens(line));
    assert forall|i: int| 0 <= i < labels(text).len() implies (#[trigger] labels(text)[i]).len()
        > 0 by {
        read.lemma_filter_pred(|found: Seq<Seq<char>>| found.len() > 0, i);
    }
}

proof fn lemma_token_lists_push(lines: Seq<Seq<char>>, line: Seq<char>)
    ensures
        token_lists(lines.push(line)) == if tokens(line).len() > 0 {
            token_lists(lines).push(tokens(line))
        } else {
            token_lists(lines)
        },
{
    let read = |line: Seq<char>| tokens(line);
    let kept = |found: Seq<Seq<char>>| found.len() > 0;
    lines.lemma_push_map_commute(read, line);
    lines.map_values(read).lemma_filter_push(tokens(line), kept);
}

/// The strings that hold the texts of `pieces`.
fn strings_of(pieces: &Vec<&[char]>) -> (out: Vec<String>)
    ensures
        out.deep_view() == texts(pieces@),
{
    let mut out: Vec<String> = Vec::new();
    let mut i: usize = 0;
    while i < pieces.len()
        invariant
            i <= pieces@.len(),
            out.deep_view() == texts(pieces@).take(i as int),
        decreases pieces@.len() - i,
    {
        let ghost before = out.deep_view();
        out.push(string_of(pieces[i]));
        assert(out.deep_view() =~= before.push(pieces@[i as int]@));
        assert(texts(pieces@).take(i + 1) =~= before.push(pieces@[i as int]@));
        i += 1;
    }
    assert(texts(pieces@).take(pieces@.len() as int) =~= texts(pieces@));
    out
}

/// Reads output that holds one line of labels for each line of input: for
/// each line that holds any token, its tokens in order. Blank lines give no
/// entry.
pub fn label_lines(text: &str) -> (out: Vec<Vec<String>>)
    ensures
        out.deep_view() == labels(text@),
{
    let chars = chars_of(text);
    let lines = split_slices(chars.as_slice(), '\n');
    let ghost all = texts(lines@);
    let mut out: Vec<Vec<String>> = Vec::new();
    let mut i: usize = 0;
    assert(out.deep_view() =~= token_lists(all.take(0))) by {
        reveal_with_fuel(Seq::filter, 1);
        assert(all.take(0).map_values(|line: Seq<char>| tokens(line)) =~= Seq::empty());
    }
    while i < lines.len()
        invariant
            all == texts(lines@),
            i <= lines@.len(),
            out.deep_view() == token_lists(all.take(i as int)),
        decreases lines@.len() - i,
    {
        let ghost before = out.deep_view();
        let found = token_slices(lines[i]);
        proof {
            assert(all.take(i + 1) =~= all.take(i as int).push(lines@[i as int]@));
            lemma_token_lists_push(all.take(i as int), lines@[i as int]@);
        }
        if found.len() > 0 {
            out.push(strings_of(&found));
            assert(out.deep_view() =~= before.push(texts(found@)));
        }
        i += 1;
    }
    assert(all.take(lines@.len() as int) =~= all);
    out
}

/// Reads the labels and scores of one line.
fn read_scored_line(line: &[char]) -> (r: Result<Vec<(String, String)>, ParseError>)
    ensures
        agrees(r, scored_line(line@)),
{
    let found = token_slices(line);
    let ghost all = texts(found@);
    let mut out: Vec<(String, String)> = Vec::new();
    let mut i: usize = 0;
    assert(out.deep_view() =~= Seq::<Scored>::empty());
    assert(all.skip(0) =~= all);
    assert(followed(out.deep_view(), pairs(all.skip(0), line@)) == pairs(all, line@)) by {
        match pairs(all, line@) {
            Ok(whole) => assert(Seq::<Scored>::empty() + whole =~= whole),
            Err(_) => {},
        }
    }
    while i < found.len()
        invariant
            all == texts(found@),
            all == tokens(line@),
            i <= found@.len(),
            followed(out.deep_view(), pairs(all.skip(i as int), line@)) == scored_line(line@),
        decreases found@.len() - i,
    {
        let ghost before = out.deep_view();
        let ghost here = all.skip(i as int);
        assert(here[0] == found@[i as int]@);
        if found.len() - i == 1 {
            return Err(ParseError::MissingScore(string_of(line)));
        }
        assert(here[1] == found@[i + 1]@);
        if !number(found[i + 1]) {
            return Err(ParseError::BadNumber(string_of(found[i + 1])));
        }
        let pair = (string_of(found[i]), string_of(found[i + 1]));
        proof {
            assert(here.skip(2) =~= all.skip(i + 2));
            match pairs(all.skip(i + 2), line@) {
                Ok(later) => assert(before + (seq![pair.deep_view()] + later) =~= before.push(
                    pair.deep_view(),
                ) + later),
                Err(_) => {},
            }
        }
        out.push(pair);
        assert(out.deep_view() =~= before.push(pair.deep_view()));
        i += 2;
    }
    assert(out.deep_view() + Seq::<Scored>::empty() =~= out.deep_view());
    Ok(out)
}

/// Reads output that holds, for each line of input, one line of labels with
/// a score after each: for each line that holds any token, its labels with
/// their scores, in the order of the line. Blank lines give no entry. The
/// first line that cannot be read fails the whole.
pub fn scored_lines(text: &str) -> (r: Result<Vec<Vec<(String, String)>>, ParseError>)
    ensures
        agrees(r, scored(text@)),
{
    let chars = chars_of(text);
    let lines = split_slices(chars.as_slice(), '\n');
    let ghost all = texts(lines@);
    let mut out: Vec<Vec<(String, String)>> = Vec::new();
    let mut i: usize = 0;
    assert(out.deep_view() =~= Seq::<Seq<Scored>>::empty());
    assert(scored_each(all.take(0)) =~= Seq::empty());
    while i < lines.len()
        invariant
            all == texts(lines@),
            all == split(text@, '\n'),
            i <= lines@.len(),
            gather(scored_each(all.take(i as int))) == Ok::<_, Failure>(out.deep_view()),
        decreases lines@.len() - i,
    {
        let ghost before = out.deep_view();
        let ghost head = all.take(i + 1);
        assert(scored_each(head).drop_last() =~= scored_each(all.take(i as int)));
        assert(scored_each(head).last() == scored_line(lines@[i as int]@));
        match read_scored_line(lines[i]) {
            Err(e) => {
                proof {
                    let tail = all.skip(i + 1);
                    assert(scored_each(all) =~= scored_each(head) + scored_each(tail));
                    lemma_gather_fails(scored_each(head), scored_each(tail));
                }
                return Err(e);
            },
            Ok(found) => {
                if found.len() > 0 {
                    out.push(found);
                    assert(out.deep_view() =~= before.push(found.deep_view()));
                }
            },
        }
        i += 1;
    }
    assert(all.take(lines@.len() as int) =~= all);
    Ok(out)
}

} // verus!
