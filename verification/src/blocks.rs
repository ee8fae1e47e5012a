//! The parser for output that repeats a prompt before each query's results.
//!
//! The tool was written to be used at a terminal: before it reads a query it
//! prints a prompt, and the results of the query follow on the same line and
//! on the lines below. A block is the text from one occurrence of the prompt
//! on; its results end where the next query begins.

use vstd::prelude::*;
use vstd::slice::slice_subrange;
use crate::labels::Scored;
use crate::number::{is_number, number};
use crate::outcome::{agrees, followed, gather, lemma_gather_fails, Failure, ParseError};
use crate::text::{
    chars_of, find, find_char, first_match, same_chars, split, split_slices, string_of, texts,
};

verus! {

/// The prompt that the tool prints before it reads a word whose nearest
/// neighbours are wanted.
pub const NEIGHBOUR_PROMPT: &'static str = "Query word? ";

/// The prompt that the tool prints before it reads an analogy.
pub const ANALOGY_PROMPT: &'static str = "Query triplet (A - B + C)? ";

/// Where the scan of one block stands.
#[derive(Debug, Clone, Copy, PartialEq, Eq, Structural)]
pub enum ScanState {
    /// No line of four fields has been read: the next one opens the block.
    AwaitingFirstLine,
    /// The opening line has been read: the next line of four fields belongs
    /// to the query after this one.
    InBlock,
    /// The results of this block are complete.
    BlockClosed,
}

/// What a line does to the scan: the state after it, and the result that it
/// holds, if any. The fields of a line are its pieces between single blanks,
/// empty pieces included.
///
/// - A line of two fields holds a result: a label and its score.
/// - The first line of four fields opens the block. Its first two fields are
///   the prompt's words, and its other two hold a result.
/// - A line that is the prompt, and any later line of four fields, belong to
///   the next query: they close the block.
/// - An empty line is passed over.
/// - Any other line fails the scan, and so does a score that is no number.
///
/// A closed block takes no more lines.
pub open spec fn spec_scan_line(state: ScanState, line: Seq<char>, prompt: Seq<char>) -> Result<
    (ScanState, Option<Scored>),
    Failure,
> {
    let fields = split(line, ' ');
    if state == ScanState::BlockClosed {
        Ok((ScanState::BlockClosed, None))
    } else if fields.len() == 2 {
        if is_number(fields[1]) {
            Ok((state, Some((fields[0], fields[1]))))
        } else {
            Err(Failure::BadNumber(fields[1]))
        }
    } else if fields.len() == 4 && state == ScanState::AwaitingFirstLine {
        if is_number(fields[3]) {
            Ok((ScanState::InBlock, Some((fields[2], fields[3]))))
        } else {
            Err(Failure::BadNumber(fields[3]))
        }
    } else if line == prompt || fields.len() == 4 {
        Ok((ScanState::BlockClosed, None))
    } else if line.len() == 0 {
        Ok((state, None))
    } else {
        Err(Failure::Misformatted(line))
    }
}

/// The results that `lines` hold for a scan that stands at `state`: those of
/// each line in turn, up to the line that closes the block. The first line
/// that cannot be read fails the scan.
pub open spec fn scan(lines: Seq<Seq<char>>, prompt: Seq<char>, state: ScanState) -> Result<
    Seq<Scored>,
    Failure,
>
    decreases lines.len(),
{
    if lines.len() == 0 || state == ScanState::BlockClosed {
        Ok(Seq::empty())
    } else {
        match spec_scan_line(state, lines[0], prompt) {
            Err(e) => Err(e),
            Ok((next, found)) => match scan(lines.drop_first(), prompt, next) {
                Err(e) => Err(e),
                Ok(rest) => Ok(
                    match found {
                        Some(r) => seq![r] + rest,
                        None => rest,
                    },
                ),
            },
        }
    }
}

/// The blocks of `text`: for each occurrence of `prompt`, found from left to
/// right without overlap, the text from that occurrence to the end.
pub open spec fn blocks(text: Seq<char>, prompt: Seq<char>) -> Seq<Seq<char>>
    decreases text.len(),
{
    match first_match(text, prompt) {
        None => Seq::empty(),
        Some(i) => {
            let next = i + if prompt.len() == 0 {
                1
            } else {
                prompt.len()
            };
            if next > text.len() {
                seq![text.skip(i as int)]
            } else {
                seq![text.skip(i as int)] + blocks(text.skip(next as int), prompt)
            }
        },
    }
}

/// The results in the block that `block` begins with.
pub open spec fn read_block(block: Seq<char>, prompt: Seq<char>) -> Result<Seq<Scored>, Failure> {
    scan(split(block, '\n'), prompt, ScanState::AwaitingFirstLine)
}

/// The reading of each of `blocks`.
pub open spec fn read_blocks(blocks: Seq<Seq<char>>, prompt: Seq<char>) -> Seq<
    Result<Seq<Scored>, Failure>,
> {
    blocks.map_values(|block: Seq<char>| read_block(block, prompt))
}

/// What `resp` returns for the output `text` of a tool that prompts with
/// `prompt`: the results of each block that has any, in the order of the
/// blocks, or the failure of the first block that cannot be read.
pub open spec fn responses(text: Seq<char>, prompt: Seq<char>) -> Result<
    Seq<Seq<Scored>>,
    Failure,
> {
    gather(read_blocks(blocks(text, prompt), prompt))
}

/// Reads one line of a block: what the line does to a scan that stands at
/// `state`.
pub fn scan_line(state: ScanState, line: &[char], prompt: &[char]) -> (r: Result<
    (ScanState, Option<(String, String)>),
    ParseError,
>)
    ensures
        match r {
            Ok((next, found)) => spec_scan_line(state, line@, prompt@) == Ok::<_, Failure>(
                (next, found.deep_view()),
            ),
            Err(e) => spec_scan_line(state, line@, prompt@) == Err::<
                (ScanState, Option<Scored>),
                _,
            >(e@),
        },
{
    if state == ScanState::BlockClosed {
        return Ok((ScanState::BlockClosed, None));
    }
    let fields = split_slices(line, ' ');
    assert(texts(fields@).len() == fields@.len());
    if fields.len() == 2 {
        assert(texts(fields@)[0] == fields@[0]@ && texts(fields@)[1] == fields@[1]@);
        if number(fields[1]) {
            Ok((state, Some((string_of(fields[0]), string_of(fields[1])))))
        } else {
            Err(ParseError::BadNumber(string_of(fields[1])))
        }
    } else if fields.len() == 4 && state == ScanState::AwaitingFirstLine {
        assert(texts(fields@)[2] == fields@[2]@ && texts(fields@)[3] == fields@[3]@);
        if number(fields[3]) {
            Ok((ScanState::InBlock, Some((string_of(fields[2]), string_of(fields[3])))))
        } else {
            Err(ParseError::BadNumber(string_of(fields[3])))
        }
    } else if same_chars(line, prompt) || fields.len() == 4 {
        Ok((ScanState::BlockClosed, None))
    } else if line.len() == 0 {
        Ok((state, None))
    } else {
        Err(ParseError::Misformatted(string_of(line)))
    }
}

/// Reads the results of the block that `block` begins with.
pub fn scan_block(block: &[char], prompt: &[char]) -> (r: Result<Vec<(String, String)>, ParseError>)
    ensures
        agrees(r, read_block(block@, prompt@)),
{
    let ghost whole = scan(split(block@, '\n'), prompt@, ScanState::AwaitingFirstLine);
    let mut found: Vec<(String, String)> = Vec::new();
    let mut state = ScanState::AwaitingFirstLine;
    let mut rest: &[char] = block;
    let mut more = true;
    let ghost mut pending = split(block@, '\n');
    assert(found.deep_view() =~= Seq::<Scored>::empty());
    assert(followed(found.deep_view(), scan(pending, prompt@, state)) == whole) by {
        match scan(pending, prompt@, state) {
            Ok(all) => assert(Seq::<Scored>::empty() + all =~= all),
            Err(_) => {},
        }
    }
    while more
        invariant
            whole == scan(split(block@, '\n'), prompt@, ScanState::AwaitingFirstLine),
            more ==> pending == split(rest@, '\n') && state != ScanState::BlockClosed,
            !more ==> pending.len() == 0 || state == ScanState::BlockClosed,
            followed(found.deep_view(), scan(pending, prompt@, state)) == whole,
        decreases
                (if more {
                    rest@.len() + 1
                } else {
                    0
                }),
    {
        let ghost before = found.deep_view();
        let i = find_char(rest, '\n');
        let line = slice_subrange(rest, 0, i);
        let ghost tail = pending.drop_first();
        assert(pending.len() > 0 && pending[0] == line@);
        match scan_line(state, line, prompt) {
            Err(e) => {
                assert(scan(pending, prompt@, state) == Err::<Seq<Scored>, _>(e@));
                return Err(e);
            },
            Ok((next, result)) => {
                proof {
                    match scan(tail, prompt@, next) {
                        Ok(later) => match result.deep_view() {
                            Some(r) => assert(before + (seq![r] + later) =~= before.push(r)
                                + later),
                            None => {},
                        },
                        Err(_) => {},
                    }
                }
                match result {
                    Some(r) => {
                        found.push(r);
                        assert(found.deep_view() =~= before.push(r.deep_view()));
                    },
                    None => {},
                }
                state = next;
            },
        }
        proof {
            pending = tail;
        }
        if i < rest.len() && state != ScanState::BlockClosed {
            rest = slice_subrange(rest, i + 1, rest.len());
            assert(pending =~= split(rest@, '\n'));
        } else {
            more = false;
        }
    }
    assert(scan(pending, prompt@, state) == Ok::<_, Failure>(Seq::<Scored>::empty()));
    assert(found.deep_view() + Seq::<Scored>::empty() =~= found.deep_view());
    Ok(found)
}

/// Reads the output `text` of a tool that prints `prompt` before the results
/// of each query: one list of labels and scores for each query that has any,
/// in the order in which the tool printed them. A score is handed out as the
/// tool wrote it, and is a number. The first line that cannot be read fails
/// the whole, and is named in the error.
pub fn resp(prompt: &str, text: &str) -> (r: Result<Vec<Vec<(String, String)>>, ParseError>)
    ensures
        agrees(r, responses(text@, prompt@)),
{
    let chars = chars_of(text);
    let mark = chars_of(prompt);
    let step: usize = if mark.len() == 0 {
        1
    } else {
        mark.len()
    };
    let mut out: Vec<Vec<(String, String)>> = Vec::new();
    let mut rest: &[char] = chars.as_slice();
    let ghost mut done: Seq<Seq<char>> = Seq::empty();
    let mut more = true;
    assert(out.deep_view() =~= Seq::<Seq<Scored>>::empty());
    assert(read_blocks(done, prompt@) =~= Seq::empty());
    while more
        invariant
            chars@ == text@,
            mark@ == prompt@,
            step == if prompt@.len() == 0 {
                1
            } else {
                prompt@.len()
            },
            more ==> blocks(text@, prompt@) == done + blocks(rest@, prompt@),
            !more ==> blocks(text@, prompt@) == done,
            gather(read_blocks(done, prompt@)) == Ok::<_, Failure>(out.deep_view()),
        decreases
                (if more {
                    rest@.len() + 1
                } else {
                    0
                }),
    {
        match find(rest, mark.as_slice()) {
            None => {
                assert(done + Seq::<Seq<char>>::empty() =~= done);
                more = false;
            },
            Some(i) => {
                let ghost before = out.deep_view();
                let block = slice_subrange(rest, i, rest.len());
                let ghost here = done.push(block@);
                assert(read_blocks(here, prompt@).drop_last() =~= read_blocks(done, prompt@));
                match scan_block(block, mark.as_slice()) {
                    Err(e) => {
                        proof {
                            let later = if i + step > rest@.len() {
                                Seq::<Seq<char>>::empty()
                            } else {
                                blocks(rest@.skip(i + step), prompt@)
                            };
                            assert(blocks(rest@, prompt@) =~= seq![block@] + later);
                            assert(blocks(text@, prompt@) =~= here + later);
                            assert(read_blocks(here + later, prompt@) =~= read_blocks(
                                here,
                                prompt@,
                            ) + read_blocks(later, prompt@));
                            lemma_gather_fails(
                                read_blocks(here, prompt@),
                                read_blocks(later, prompt@),
                            );
                        }
                        return Err(e);
                    },
                    Ok(found) => {
                        if found.len() > 0 {
                            out.push(found);
                            assert(out.deep_view() =~= before.push(found.deep_view()));
                        }
                    },
                }
                proof {
                    done = here;
                }
                if step <= rest.len() - i {
                    rest = slice_subrange(rest, i + step, rest.len());
                    assert(blocks(text@, prompt@) =~= done + blocks(rest@, prompt@));
                } else {
                    more = false;
                    assert(blocks(text@, prompt@) =~= done);
                }
            },
        }
    }
    Ok(out)
}

} // verus!
