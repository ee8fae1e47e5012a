//! What a parser reports when the tool's output has an unexpected shape, and
//! how the readings of several pieces of an output combine into one.

use vstd::prelude::*;
use vstd::string::StringExecFns;

verus! {

/// The reason why an output could not be read. Each variant holds the text
/// that gave offence, so that a message can name it.
#[derive(Debug, PartialEq, Eq)]
pub enum ParseError {
    /// A line of labels and scores ends in a label with no score; the line.
    MissingScore(String),
    /// A token stands where a number is due and is none; the token.
    BadNumber(String),
    /// A line has a shape that no line of results has; the line.
    Misformatted(String),
}

/// A `ParseError` as contracts see it.
pub enum Failure {
    MissingScore(Seq<char>),
    BadNumber(Seq<char>),
    Misformatted(Seq<char>),
}

impl View for ParseError {
    type V = Failure;

    open spec fn view(&self) -> Failure {
        match self {
            ParseError::MissingScore(line) => Failure::MissingScore(line@),
            ParseError::BadNumber(token) => Failure::BadNumber(token@),
            ParseError::Misformatted(line) => Failure::Misformatted(line@),
        }
    }
}

/// The words of a failure's message, with the text that gave offence at
/// the end.
pub open spec fn message_text(failure: Failure) -> Seq<char> {
    match failure {
        Failure::MissingScore(line) => "label without a score in line: "@ + line,
        Failure::BadNumber(token) => "not a number: "@ + token,
        Failure::Misformatted(line) => "misformatted line in input: "@ + line,
    }
}

impl ParseError {
    /// A message for a reader, which names the text that gave offence.
    pub fn message(&self) -> (text: String)
        ensures
            text@ == message_text(self@),
    {
        match self {
            ParseError::MissingScore(line) => {
                let mut text = String::from_str("label without a score in line: ");
                text.append(line.as_str());
                text
            },
            ParseError::BadNumber(token) => {
                let mut text = String::from_str("not a number: ");
                text.append(token.as_str());
                text
            },
            ParseError::Misformatted(line) => {
                let mut text = String::from_str("misformatted line in input: ");
                text.append(line.as_str());
                text
            },
        }
    }
}

/// Whether a parser's answer `r` is the reading `wanted`: the same values,
/// or the same failure.
pub open spec fn agrees<T: DeepView>(r: Result<T, ParseError>, wanted: Result<T::V, Failure>) -> bool {
    match r {
        Ok(found) => wanted == Ok::<T::V, Failure>(found.deep_view()),
        Err(e) => wanted == Err::<T::V, Failure>(e@),
    }
}

/// `found`, and then what `rest` holds.
pub open spec fn followed<T>(found: Seq<T>, rest: Result<Seq<T>, Failure>) -> Result<
    Seq<T>,
    Failure,
> {
    match rest {
        Ok(more) => Ok(found + more),
        Err(e) => Err(e),
    }
}

/// The readings `read` of the pieces of an output, as one: the first failure
/// if any piece failed, and else the lists that were read, in order, the
/// empty ones left out.
pub open spec fn gather<T>(read: Seq<Result<Seq<T>, Failure>>) -> Result<Seq<Seq<T>>, Failure>
    decreases read.len(),
{
    if read.len() == 0 {
        Ok(Seq::empty())
    } else {
        match gather(read.drop_last()) {
            Err(e) => Err(e),
            Ok(done) => match read.last() {
                Err(e) => Err(e),
                Ok(found) => Ok(
                    if found.len() > 0 {
                        done.push(found)
                    } else {
                        done
                    },
                ),
            },
        }
    }
}

/// A failure stands, whatever is read after it.
pub proof fn lemma_gather_fails<T>(
    head: Seq<Result<Seq<T>, Failure>>,
    tail: Seq<Result<Seq<T>, Failure>>,
)
    requires
        gather(head) is Err,
    ensures
        gather(head + tail) == gather(head),
    decreases tail.len(),
{
    if tail.len() == 0 {
        assert(head + tail =~= head);
    } else {
        lemma_gather_fails(head, tail.drop_last());
        assert((head + tail).drop_last() =~= head + tail.drop_last());
    }
}

/// No list that `gather` hands out is empty, and each is one of the lists
/// that were read.
pub proof fn lemma_gather_nonempty<T>(read: Seq<Result<Seq<T>, Failure>>)
    ensures
        gather(read) matches Ok(lists) ==> forall|i: int|
            0 <= i < lists.len() ==> (#[trigger] lists[i]).len() > 0 && read.contains(Ok(lists[i])),
    decreases read.len(),
{
    if read.len() > 0 {
        lemma_gather_nonempty(read.drop_last());
        if let Ok(lists) = gather(read) {
            let done = gather(read.drop_last())->Ok_0;
            assert forall|i: int| 0 <= i < lists.len() implies (#[trigger] lists[i]).len() > 0
                && read.contains(Ok(lists[i])) by {
                if i < done.len() {
                    let j = choose|j: int|
                        0 <= j < read.drop_last().len() && read.drop_last()[j] == Ok::<_, Failure>(
                            done[i],
                        );
                    assert(read[j] == Ok::<_, Failure>(lists[i]));
                } else {
                    assert(read[read.len() - 1] == Ok::<_, Failure>(lists[i]));
                }
            }
        }
    }
}

} // verus!
