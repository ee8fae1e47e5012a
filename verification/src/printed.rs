//! What the tool prints for a run of queries, and that `resp` reads it back.

use vstd::prelude::*;
use crate::blocks::{
    blocks, read_block, read_blocks, responses, scan, spec_scan_line, ScanState, NEIGHBOUR_PROMPT,
};
use crate::labels::Scored;
use crate::number::{is_number, lemma_number_unbroken};
use crate::outcome::{followed, gather, Failure};
use crate::text::{
    lemma_first_match, lemma_first_match_is, lemma_occurs_after, lemma_split_join,
    lemma_split_whole, occurs_at, split,
};

verus! {

/// Whether `word` holds neither a blank nor a line feed.
pub open spec fn solid(word: Seq<char>) -> bool {
    forall|i: int| 0 <= i < word.len() ==> word[i] != ' ' && word[i] != '\n'
}

/// Whether `prompt` is two words, each with a blank after it.
pub open spec fn two_words(prompt: Seq<char>) -> bool {
    exists|a: Seq<char>, b: Seq<char>|
        solid(a) && solid(b) && prompt == #[trigger] (a + seq![' '] + b + seq![' '])
}

/// The prompt of a query for neighbours is two words, each with a blank
/// after it.
pub proof fn lemma_query_prompt()
    ensures
        two_words(NEIGHBOUR_PROMPT@),
{
    reveal_strlit("Query word? ");
    let a = seq!['Q', 'u', 'e', 'r', 'y'];
    let b = seq!['w', 'o', 'r', 'd', '?'];
    assert("Query word? "@ =~= a + seq![' '] + b + seq![' ']);
    assert(solid(a) && solid(b));
}

/// Whether `result` is a label without blank or line feed and a score that
/// is a number.
pub open spec fn printable(result: Scored) -> bool {
    solid(result.0) && is_number(result.1)
}

/// The line that holds `result`: the label, a blank and the score.
pub open spec fn result_line(result: Scored) -> Seq<char> {
    result.0 + seq![' '] + result.1
}

/// The lines that hold `results`, a line feed after each.
pub open spec fn result_lines(results: Seq<Scored>) -> Seq<char>
    decreases results.len(),
{
    if results.len() == 0 {
        Seq::empty()
    } else {
        result_line(results[0]) + seq!['\n'] + result_lines(results.drop_first())
    }
}

/// What the tool prints for one query: the prompt, and the results from the
/// same line on.
pub open spec fn printed_block(prompt: Seq<char>, results: Seq<Scored>) -> Seq<char> {
    prompt + result_lines(results)
}

/// The line of a result has the label and the score for its two fields, and
/// no line feed.
proof fn lemma_result_line(result: Scored)
    requires
        printable(result),
    ensures
        split(result_line(result), ' ') == seq![result.0, result.1],
        forall|i: int| 0 <= i < result_line(result).len() ==> result_line(result)[i] != '\n',
        result_line(result).len() == result.0.len() + 1 + result.1.len(),
        result.1.len() > 0,
        forall|i: int|
            0 <= i < result_line(result).len() && result_line(result)[i] == ' ' ==> i
                == result.0.len(),
{
    lemma_number_unbroken(result.1);
    lemma_split_join(result.0, result.1, ' ');
    lemma_split_whole(result.0, ' ');
    lemma_split_whole(result.1, ' ');
}

/// Each of the lines that hold `results`.
pub open spec fn each_line(results: Seq<Scored>) -> Seq<Seq<char>> {
    results.map_values(|result: Scored| result_line(result))
}

/// Whether each of `results` is printable.
pub open spec fn all_printable(results: Seq<Scored>) -> bool {
    forall|i: int| 0 <= i < results.len() ==> printable(#[trigger] results[i])
}

/// A prompt of two words holds two blanks and no line feed.
proof fn lemma_two_words(prompt: Seq<char>) -> (first: int)
    requires
        two_words(prompt),
    ensures
        0 <= first < prompt.len() - 1,
        prompt[first] == ' ',
        prompt[prompt.len() - 1] == ' ',
        forall|i: int| 0 <= i < prompt.len() ==> prompt[i] != '\n',
        split(prompt, ' ').len() == 3,
        split(prompt, ' ')[2].len() == 0,
        forall|tail: Seq<char>|
            split(tail, ' ').len() == 2 ==> #[trigger] split(prompt + tail, ' ') == seq![
                split(prompt, ' ')[0],
                split(prompt, ' ')[1],
                split(tail, ' ')[0],
                split(tail, ' ')[1],
            ],
{
    let (a, b) = choose|a: Seq<char>, b: Seq<char>|
        solid(a) && solid(b) && prompt == #[trigger] (a + seq![' '] + b + seq![' ']);
    let none = Seq::<char>::empty();
    lemma_split_whole(a, ' ');
    lemma_split_whole(b, ' ');
    lemma_split_whole(none, ' ');
    lemma_split_join(a, b, ' ');
    assert(prompt =~= (a + seq![' '] + b) + seq![' '] + none);
    lemma_split_join(a + seq![' '] + b, none, ' ');
    assert forall|tail: Seq<char>| split(tail, ' ').len() == 2 implies #[trigger] split(
        prompt + tail,
        ' ',
    ) == seq![
        split(prompt, ' ')[0],
        split(prompt, ' ')[1],
        split(tail, ' ')[0],
        split(tail, ' ')[1],
    ] by {
        assert(prompt + tail =~= (a + seq![' '] + b) + seq![' '] + tail);
        lemma_split_join(a + seq![' '] + b, tail, ' ');
        assert(split(prompt + tail, ' ') =~= seq![a, b, split(tail, ' ')[0], split(tail, ' ')[1]]);
    }
    a.len() as int
}

/// The prompt does not stand in the lines of results.
proof fn lemma_no_prompt(prompt: Seq<char>, results: Seq<Scored>, tail: Seq<char>, j: int)
    requires
        two_words(prompt),
        all_printable(results),
        0 <= j < result_lines(results).len(),
    ensures
        !occurs_at(result_lines(results) + tail, prompt, j),
    decreases results.len(),
{
    let text = result_lines(results) + tail;
    let line = result_line(results[0]);
    let rest = results.drop_first();
    let m = prompt.len() as int;
    let first = lemma_two_words(prompt);
    lemma_result_line(results[0]);
    assert(text =~= (line + seq!['\n']) + (result_lines(rest) + tail));
    if j <= line.len() {
        if occurs_at(text, prompt, j) {
            let window = text.subrange(j, j + m);
            if j + m > line.len() {
                assert(window[line.len() - j] == '\n');
            } else {
                assert(window[first] == line[j + first]);
                assert(window[m - 1] == line[j + m - 1]);
            }
        }
    } else {
        let k = j - line.len() - 1;
        lemma_occurs_after(line + seq!['\n'], result_lines(rest) + tail, prompt, k);
        assert forall|i: int| 0 <= i < rest.len() implies printable(#[trigger] rest[i]) by {
            assert(rest[i] == results[i + 1]);
        }
        lemma_no_prompt(prompt, rest, tail, k);
    }
}

/// The lines of results split into one line for each result, and then the
/// lines of what follows.
proof fn lemma_lines(results: Seq<Scored>, tail: Seq<char>)
    requires
        all_printable(results),
    ensures
        split(result_lines(results) + tail, '\n') == each_line(results) + split(tail, '\n'),
    decreases results.len(),
{
    if results.len() == 0 {
        assert(result_lines(results) + tail =~= tail);
        assert(each_line(results) + split(tail, '\n') =~= split(tail, '\n'));
    } else {
        let line = result_line(results[0]);
        let rest = results.drop_first();
        lemma_result_line(results[0]);
        assert forall|i: int| 0 <= i < rest.len() implies printable(#[trigger] rest[i]) by {
            assert(rest[i] == results[i + 1]);
        }
        lemma_lines(rest, tail);
        assert(result_lines(results) + tail =~= line + seq!['\n'] + (result_lines(rest) + tail));
        lemma_split_join(line, result_lines(rest) + tail, '\n');
        lemma_split_whole(line, '\n');
        assert(each_line(results) =~= seq![line] + each_line(rest));
        assert(seq![line] + (each_line(rest) + split(tail, '\n')) =~= each_line(results) + split(
            tail,
            '\n',
        ));
    }
}

/// A scan that is under way takes each line of results for a result.
proof fn lemma_scan_results(
    results: Seq<Scored>,
    more: Seq<Seq<char>>,
    prompt: Seq<char>,
    state: ScanState,
)
    requires
        all_printable(results),
        state != ScanState::BlockClosed,
    ensures
        scan(each_line(results) + more, prompt, state) == followed(
            results,
            scan(more, prompt, state),
        ),
    decreases results.len(),
{
    if results.len() == 0 {
        assert(each_line(results) + more =~= more);
        match scan(more, prompt, state) {
            Ok(found) => assert(results + found =~= found),
            Err(_) => {},
        }
    } else {
        let rest = results.drop_first();
        let lines = each_line(results) + more;
        lemma_result_line(results[0]);
        assert forall|i: int| 0 <= i < rest.len() implies printable(#[trigger] rest[i]) by {
            assert(rest[i] == results[i + 1]);
        }
        lemma_scan_results(rest, more, prompt, state);
        assert(lines[0] == result_line(results[0]));
        assert(lines.drop_first() =~= each_line(rest) + more);
        assert(spec_scan_line(state, lines[0], prompt) == Ok::<_, Failure>(
            (state, Some(results[0])),
        ));
        match scan(more, prompt, state) {
            Ok(found) => assert(seq![results[0]] + (rest + found) =~= results + found),
            Err(_) => {},
        }
    }
}

/// The lines of a printed block and of what follows it: the prompt with
/// the first result, one line for each other result, and the lines of what
/// follows.
proof fn lemma_block_lines(prompt: Seq<char>, results: Seq<Scored>, tail: Seq<char>)
    requires
        two_words(prompt),
        all_printable(results),
        results.len() > 0,
    ensures
        split(printed_block(prompt, results) + tail, '\n') == seq![
            prompt + result_line(results[0]),
        ] + each_line(results.drop_first()) + split(tail, '\n'),
{
    let line = result_line(results[0]);
    let rest = results.drop_first();
    let after = result_lines(rest) + tail;
    lemma_two_words(prompt);
    lemma_result_line(results[0]);
    assert forall|i: int| 0 <= i < rest.len() implies printable(#[trigger] rest[i]) by {
        assert(rest[i] == results[i + 1]);
    }
    assert(printed_block(prompt, results) + tail =~= (prompt + line) + seq!['\n'] + after);
    lemma_split_join(prompt + line, after, '\n');
    lemma_split_whole(prompt + line, '\n');
    lemma_lines(rest, tail);
    assert(seq![prompt + line] + (each_line(rest) + split(tail, '\n')) =~= seq![prompt + line]
        + each_line(rest) + split(tail, '\n'));
}

/// The prompt with a result after it opens a block, and closes a block that
/// is open.
proof fn lemma_first_line(prompt: Seq<char>, result: Scored)
    requires
        two_words(prompt),
        printable(result),
    ensures
        spec_scan_line(ScanState::AwaitingFirstLine, prompt + result_line(result), prompt) == Ok::<
            _,
            Failure,
        >((ScanState::InBlock, Some(result))),
        spec_scan_line(ScanState::InBlock, prompt + result_line(result), prompt) == Ok::<
            _,
            Failure,
        >((ScanState::BlockClosed, None::<Scored>)),
{
    lemma_two_words(prompt);
    lemma_result_line(result);
    let fields = split(prompt + result_line(result), ' ');
    assert(fields.len() == 4 && fields[2] == result.0 && fields[3] == result.1);
}

/// The scan of a printed block and of the lines after it finds the results
/// of the block, and goes on after them with the block open.
proof fn lemma_scan_block(prompt: Seq<char>, results: Seq<Scored>, more: Seq<Seq<char>>)
    requires
        two_words(prompt),
        all_printable(results),
        results.len() > 0,
    ensures
        scan(
            seq![prompt + result_line(results[0])] + each_line(results.drop_first()) + more,
            prompt,
            ScanState::AwaitingFirstLine,
        ) == followed(results, scan(more, prompt, ScanState::InBlock)),
{
    let rest = results.drop_first();
    let lines = seq![prompt + result_line(results[0])] + each_line(rest) + more;
    assert forall|i: int| 0 <= i < rest.len() implies printable(#[trigger] rest[i]) by {
        assert(rest[i] == results[i + 1]);
    }
    lemma_first_line(prompt, results[0]);
    lemma_scan_results(rest, more, prompt, ScanState::InBlock);
    assert(lines[0] == prompt + result_line(results[0]));
    assert(lines.drop_first() =~= each_line(rest) + more);
    match scan(more, prompt, ScanState::InBlock) {
        Ok(found) => assert(seq![results[0]] + (rest + found) =~= results + found),
        Err(_) => {},
    }
}

/// The prompt stands at the head of each of two printed blocks, and nowhere
/// else in them.
proof fn lemma_blocks_of_two(prompt: Seq<char>, first: Seq<Scored>, second: Seq<Scored>)
    requires
        two_words(prompt),
        all_printable(first),
        all_printable(second),
    ensures
        blocks(printed_block(prompt, first) + printed_block(prompt, second), prompt) == seq![
            printed_block(prompt, first) + printed_block(prompt, second),
            printed_block(prompt, second),
        ],
{
    let one = result_lines(first);
    let two = result_lines(second);
    let latter = printed_block(prompt, second);
    let text = printed_block(prompt, first) + latter;
    let none = Seq::<char>::empty();
    let m = prompt.len() as int;
    lemma_two_words(prompt);
    assert(text.subrange(0, m) =~= prompt);
    lemma_first_match_is(text, prompt, 0);
    let inner = text.skip(m);
    assert(inner =~= one + latter);
    assert(latter.subrange(0, m) =~= prompt);
    lemma_occurs_after(one, latter, prompt, 0);
    assert forall|j: int| 0 <= j < one.len() implies !occurs_at(inner, prompt, j) by {
        lemma_no_prompt(prompt, first, latter, j);
    }
    lemma_first_match_is(inner, prompt, one.len() as int);
    assert(inner.skip(one.len() as int) =~= latter);
    assert(inner.skip(one.len() + m) =~= two);
    assert forall|j: int| !occurs_at(two, prompt, j) by {
        if 0 <= j < two.len() {
            assert(two + none =~= two);
            lemma_no_prompt(prompt, second, none, j);
        }
    }
    lemma_first_match(two, prompt);
    assert(blocks(two, prompt) =~= Seq::<Seq<char>>::empty());
    assert(blocks(inner, prompt) =~= seq![latter]);
    assert(text.skip(0) =~= text);
    assert(blocks(text, prompt) =~= seq![text, latter]);
}

/// The scan of a printed block finds the results of the block, whether the
/// text ends after it or another printed block follows.
proof fn lemma_read_printed(prompt: Seq<char>, results: Seq<Scored>, next: Seq<Scored>)
    requires
        two_words(prompt),
        all_printable(results),
        all_printable(next),
        results.len() > 0,
    ensures
        read_block(printed_block(prompt, results), prompt) == Ok::<_, Failure>(results),
        next.len() > 0 ==> read_block(
            printed_block(prompt, results) + printed_block(prompt, next),
            prompt,
        ) == Ok::<_, Failure>(results),
{
    let none = Seq::<char>::empty();
    let block = printed_block(prompt, results);
    lemma_two_words(prompt);
    assert(results + Seq::<Scored>::empty() =~= results);

    let end = split(none, '\n');
    lemma_split_whole(none, '\n');
    assert(scan(end, prompt, ScanState::InBlock) == Ok::<_, Failure>(Seq::<Scored>::empty())) by {
        reveal_with_fuel(scan, 2);
        assert(end[0] == none);
        assert(end.drop_first() =~= Seq::<Seq<char>>::empty());
    }
    assert(block + none =~= block);
    lemma_block_lines(prompt, results, none);
    lemma_scan_block(prompt, results, end);

    if next.len() > 0 {
        let latter = printed_block(prompt, next);
        let lines = split(latter, '\n');
        assert(latter + none =~= latter);
        lemma_block_lines(prompt, next, none);
        lemma_first_line(prompt, next[0]);
        assert(scan(lines, prompt, ScanState::InBlock) == Ok::<_, Failure>(
            Seq::<Scored>::empty(),
        )) by {
            reveal_with_fuel(scan, 2);
            assert(lines[0] == prompt + result_line(next[0]));
        }
        lemma_block_lines(prompt, results, latter);
        lemma_scan_block(prompt, results, lines);
    }
}

/// Two blocks as the tool prints them, one after the other: the prompt
/// `prompt` of two words and the lines of `first`, then the prompt again and
/// the lines of `second`, with at least one result in each. `resp` hands out
/// as many lists as the prompt occurs, which is twice, and each list holds
/// the results of its block, one for each line of results.
pub proof fn lemma_two_blocks(prompt: Seq<char>, first: Seq<Scored>, second: Seq<Scored>)
    requires
        two_words(prompt),
        all_printable(first),
        all_printable(second),
        first.len() > 0,
        second.len() > 0,
    ensures
        blocks(
            printed_block(prompt, first) + printed_block(prompt, second),
            prompt,
        ).len() == 2,
        responses(printed_block(prompt, first) + printed_block(prompt, second), prompt) == Ok::<
            _,
            Failure,
        >(seq![first, second]),
{
    let latter = printed_block(prompt, second);
    let text = printed_block(prompt, first) + latter;
    lemma_blocks_of_two(prompt, first, second);
    lemma_read_printed(prompt, first, second);
    lemma_read_printed(prompt, second, Seq::empty());
    let read = read_blocks(seq![text, latter], prompt);
    assert(read =~= seq![Ok::<_, Failure>(first), Ok::<_, Failure>(second)]);
    assert(read.drop_last() =~= seq![Ok::<_, Failure>(first)]);
    assert(read.drop_last().drop_last() =~= Seq::empty());
    assert(gather(read.drop_last()) == Ok::<_, Failure>(seq![first])) by {
        assert(gather(read.drop_last().drop_last()) == Ok::<_, Failure>(
            Seq::<Seq<Scored>>::empty(),
        ));
        assert(Seq::<Seq<Scored>>::empty().push(first) =~= seq![first]);
    }
    assert(seq![first].push(second) =~= seq![first, second]);
}

} // verus!
