//! The parser for output that holds one vector on each line.

use vstd::prelude::*;
use vstd::slice::slice_subrange;
use crate::number::{is_number, number};
use crate::outcome::{agrees, gather, lemma_gather_fails, Failure, ParseError};
use crate::text::{
    append_chars, chars_of, find, first_match, lemma_first_match, split, split_slices, string_of,
    texts, token_slices, tokens,
};

verus! {

/// `text` without the occurrences of `pat`, found from left to right without
/// overlap. The empty pattern takes nothing out.
pub open spec fn remove_all(text: Seq<char>, pat: Seq<char>) -> Seq<char>
    decreases text.len(),
    via remove_all_decreases
{
    if pat.len() == 0 {
        text
    } else {
        match first_match(text, pat) {
            None => text,
            Some(i) => text.take(i as int) + remove_all(text.skip((i + pat.len()) as int), pat),
        }
    }
}

#[via_fn]
proof fn remove_all_decreases(text: Seq<char>, pat: Seq<char>) {
    lemma_first_match(text, pat);
}

/// `found` where each of them is a number, and else the first that is none.
pub open spec fn numbers(found: Seq<Seq<char>>) -> Result<Seq<Seq<char>>, Failure>
    decreases found.len(),
{
    if found.len() == 0 {
        Ok(Seq::empty())
    } else {
        match numbers(found.drop_last()) {
            Err(e) => Err(e),
            Ok(done) => if is_number(found.last()) {
                Ok(done.push(found.last()))
            } else {
                Err(Failure::BadNumber(found.last()))
            },
        }
    }
}

/// The tokens of `line` that stand for components: all of them, or all but
/// the first where the line is `named`, that is, begins with the word whose
/// vector it holds.
pub open spec fn components(line: Seq<char>, named: bool) -> Seq<Seq<char>> {
    if named && tokens(line).len() > 0 {
        tokens(line).skip(1)
    } else {
        tokens(line)
    }
}

/// The vector of one line.
pub open spec fn vector_line(line: Seq<char>, named: bool) -> Result<Seq<Seq<char>>, Failure> {
    numbers(components(line, named))
}

/// The reading of each of `lines`.
pub open spec fn vector_each(lines: Seq<Seq<char>>, named: bool) -> Seq<
    Result<Seq<Seq<char>>, Failure>,
> {
    lines.map_values(|line: Seq<char>| vector_line(line, named))
}

/// What `parse_vec` returns for the output `text`.
///
/// Without a sentence the output is that of a query for words: each line
/// begins with the word, which is left out. With a sentence the output is
/// that of a query for this sentence: the tool echoes the sentence, so its
/// occurrences are taken out first and every token that is left is a
/// component. Either way a line without components gives no entry, and the
/// first token that should be a component and is no number fails the whole.
pub open spec fn vectors(text: Seq<char>, sentence: Option<Seq<char>>) -> Result<
    Seq<Seq<Seq<char>>>,
    Failure,
> {
    match sentence {
        None => gather(vector_each(split(text, '\n'), true)),
        Some(echo) => gather(vector_each(split(remove_all(text, echo), '\n'), false)),
    }
}

/// `numbers` hands back the whole list where each token is a number, and
/// else fails with the first token that is none.
pub proof fn lemma_numbers(found: Seq<Seq<char>>)
    ensures
        (forall|i: int| 0 <= i < found.len() ==> is_number(#[trigger] found[i])) ==> numbers(found)
            == Ok::<_, Failure>(found),
        forall|i: int|
            0 <= i < found.len() && !is_number(#[trigger] found[i]) && (forall|j: int|
                0 <= j < i ==> is_number(#[trigger] found[j])) ==> numbers(found) == Err::<
                Seq<Seq<char>>,
                _,
            >(Failure::BadNumber(found[i])),
    decreases found.len(),
{
    if found.len() > 0 {
        let head = found.drop_last();
        let last = found.len() - 1;
        lemma_numbers(head);
        if forall|i: int| 0 <= i < head.len() ==> is_number(#[trigger] head[i]) {
            assert(head.push(found.last()) =~= found);
            assert forall|i: int|
                0 <= i < found.len() && !is_number(#[trigger] found[i]) && (forall|j: int|
                    0 <= j < i ==> is_number(#[trigger] found[j])) implies i == last by {
                if i < last {
                    assert(head[i] == found[i]);
                }
            }
        } else {
            let k = choose|k: int| 0 <= k < head.len() && !is_number(#[trigger] head[k]);
            assert(found[k] == head[k]);
            assert forall|i: int|
                0 <= i < found.len() && !is_number(#[trigger] found[i]) && (forall|j: int|
                    0 <= j < i ==> is_number(#[trigger] found[j])) implies numbers(found) == Err::<
                Seq<Seq<char>>,
                _,
            >(Failure::BadNumber(found[i])) by {
                assert(i <= k);
                assert(head[i] == found[i]);
                assert forall|j: int| 0 <= j < i implies is_number(#[trigger] head[j]) by {
                    assert(head[j] == found[j]);
                }
            }
        }
    } else {
        assert(found =~= Seq::<Seq<char>>::empty());
    }
}

/// A token that is no number fails the list, whatever follows it.
proof fn lemma_numbers_fails(head: Seq<Seq<char>>, tail: Seq<Seq<char>>)
    requires
        numbers(head) is Err,
    ensures
        numbers(head + tail) == numbers(head),
    decreases tail.len(),
{
    if tail.len() == 0 {
        assert(head + tail =~= head);
    } else {
        lemma_numbers_fails(head, tail.drop_last());
        assert((head + tail).drop_last() =~= head + tail.drop_last());
    }
}

/// `text` without the occurrences of `pat`.
pub fn without(text: &[char], pat: &[char]) -> (out: Vec<char>)
    ensures
        out@ == remove_all(text@, pat@),
{
    let mut out: Vec<char> = Vec::new();
    let mut rest: &[char] = text;
    let mut more = pat.len() > 0;
    assert(out@ + rest@ =~= text@);
    while more
        invariant
            more ==> pat@.len() > 0,
            more ==> out@ + remove_all(rest@, pat@) == remove_all(text@, pat@),
            !more ==> out@ + rest@ == remove_all(text@, pat@),
        decreases
                (if more {
                    rest@.len() + 1
                } else {
                    0
                }),
    {
        match find(rest, pat) {
            None => {
                more = false;
            },
            Some(i) => {
                let ghost before = out@;
                append_chars(&mut out, slice_subrange(rest, 0, i));
                let end = rest.len();
                let next = slice_subrange(rest, i + pat.len(), end);
                assert(out@ + remove_all(next@, pat@) =~= before + remove_all(rest@, pat@));
                rest = next;
            },
        }
    }
    let ghost before = out@;
    append_chars(&mut out, rest);
    out
}

/// Hands back the tokens `parts` where each of them is a number.
fn read_numbers(parts: &[&[char]]) -> (r: Result<Vec<String>, ParseError>)
    ensures
        agrees(r, numbers(texts(parts@))),
{
    let ghost all = texts(parts@);
    let mut out: Vec<String> = Vec::new();
    let mut i: usize = 0;
    assert(out.deep_view() =~= Seq::<Seq<char>>::empty());
    assert(all.take(0) =~= Seq::<Seq<char>>::empty());
    while i < parts.len()
        invariant
            i <= parts@.len(),
            all == texts(parts@),
            numbers(all.take(i as int)) == Ok::<_, Failure>(out.deep_view()),
        decreases parts@.len() - i,
    {
        let ghost before = out.deep_view();
        let ghost head = all.take(i + 1);
        assert(head.drop_last() =~= all.take(i as int));
        assert(head.last() == parts@[i as int]@);
        if !number(parts[i]) {
            proof {
                assert(head + all.skip(i + 1) =~= all);
                lemma_numbers_fails(head, all.skip(i + 1));
            }
            return Err(ParseError::BadNumber(string_of(parts[i])));
        }
        out.push(string_of(parts[i]));
        assert(out.deep_view() =~= before.push(parts@[i as int]@));
        i += 1;
    }
    assert(all.take(parts@.len() as int) =~= all);
    Ok(out)
}

/// Reads the vector of one line.
fn read_vector_line(line: &[char], named: bool) -> (r: Result<Vec<String>, ParseError>)
    ensures
        agrees(r, vector_line(line@, named)),
{
    let found = token_slices(line);
    let from: usize = if named && found.len() > 0 {
        1
    } else {
        0
    };
    let parts = slice_subrange(found.as_slice(), from, found.len());
    assert(texts(parts@) =~= components(line@, named));
    read_numbers(parts)
}

/// Reads output that holds one vector on each line: for each line that holds
/// any component, the texts of its components in order.
///
/// Pass no sentence for the output of a query for words, where each line
/// begins with its word, and the sentence for the output of a query for that
/// sentence, where the tool echoes it.
pub fn parse_vec(text: &str, sentence: Option<&str>) -> (r: Result<Vec<Vec<String>>, ParseError>)
    ensures
        agrees(r, vectors(text@, sentence.deep_view())),
{
    let raw = chars_of(text);
    let named = sentence.is_none();
    let chars = match sentence {
        None => raw,
        Some(echo) => {
            let pat = chars_of(echo);
            without(raw.as_slice(), pat.as_slice())
        },
    };
    let ghost whole = vectors(text@, sentence.deep_view());
    let lines = split_slices(chars.as_slice(), '\n');
    let ghost all = texts(lines@);
    assert(whole == gather(vector_each(all, named)));
    let mut out: Vec<Vec<String>> = Vec::new();
    let mut i: usize = 0;
    assert(out.deep_view() =~= Seq::<Seq<Seq<char>>>::empty());
    assert(vector_each(all.take(0), named) =~= Seq::empty());
    while i < lines.len()
        invariant
            all == texts(lines@),
            whole == vectors(text@, sentence.deep_view()),
            whole == gather(vector_each(all, named)),
            i <= lines@.len(),
            gather(vector_each(all.take(i as int), named)) == Ok::<_, Failure>(out.deep_view()),
        decreases lines@.len() - i,
    {
        let ghost before = out.deep_view();
        let ghost head = all.take(i + 1);
        assert(vector_each(head, named).drop_last() =~= vector_each(all.take(i as int), named));
        assert(vector_each(head, named).last() == vector_line(lines@[i as int]@, named));
        match read_vector_line(lines[i], named) {
            Err(e) => {
                proof {
                    let tail = all.skip(i + 1);
                    assert(vector_each(all, named) =~= vector_each(head, named) + vector_each(
                        tail,
                        named,
                    ));
                    lemma_gather_fails(vector_each(head, named), vector_each(tail, named));
                }
                return Err(e);
            },
            Ok(found) => {
                if found.len() > 0 {
                    out.push(found);
                    assert(out.deep_view() =~= before.push(found.deep_view()));
                }
            },
        }
        i += 1;
    }
    assert(all.take(lines@.len() as int) =~= all);
    Ok(out)
}

} // verus!
