//! The policy that brings the tool in place when a run finds it missing.
//!
//! The coordinator runs nothing itself. A driver performs what it is told
//! and reports back what happened; the coordinator answers each report with
//! the next thing to do. A command is run, and that is all, unless the run
//! ends as a shell ends when it finds no such program and the executable is
//! indeed not there. Then the tool is installed and the command run once
//! more. A second run that ends the same way is fatal: there is no third.

use vstd::prelude::*;
use vstd::string::StringExecFns;
use crate::text::{decimal, push_decimal};

verus! {

/// The exit code with which a shell reports that it found no such command.
pub const NOT_FOUND: i32 = 127;

/// What the coordinator waits for.
#[derive(Debug, Clone, Copy, PartialEq, Eq, Structural)]
pub enum Phase {
    /// The first run of the command.
    FirstRun,
    /// The installation.
    Installing,
    /// The run after the installation.
    SecondRun,
    /// Nothing: the last answer was final.
    Done,
}

/// What the driver reports.
#[derive(Debug, Clone, Copy, PartialEq, Eq)]
pub enum Event {
    /// The command ran and left `status`; `present` says whether the
    /// executable was found on disk after the run.
    Ran { status: Option<i32>, present: bool },
    /// The installation ran; `failed` is the first step that did not
    /// succeed.
    Installed { failed: Option<usize> },
}

/// Why the coordinator gives up.
#[derive(Debug, Clone, Copy, PartialEq, Eq)]
pub enum Fatal {
    /// The step of this number did not succeed.
    InstallFailed(usize),
    /// The executable is missing after an installation that succeeded.
    StillMissing,
    /// The report is not the one that was due.
    OutOfTurn,
}

/// The words of the message for `fatal`. Steps count from 0, as they do in
/// `Fatal::InstallFailed`.
pub open spec fn fatal_text(fatal: Fatal) -> Seq<char> {
    match fatal {
        Fatal::InstallFailed(k) => "Missing files / executable: installation failed at step "@
            + decimal(k as nat),
        Fatal::StillMissing => "Missing files / executable: not found after installation"@,
        Fatal::OutOfTurn => "report out of turn"@,
    }
}

impl Fatal {
    /// A message for a reader.
    pub fn message(&self) -> (text: String)
        ensures
            text@ == fatal_text(*self),
    {
        match self {
            Fatal::InstallFailed(k) => {
                let mut text = String::from_str(
                    "Missing files / executable: installation failed at step ",
                );
                push_decimal(&mut text, *k as u64);
                text
            },
            Fatal::StillMissing => String::from_str(
                "Missing files / executable: not found after installation",
            ),
            Fatal::OutOfTurn => String::from_str("report out of turn"),
        }
    }
}

/// What the driver is to do next.
#[derive(Debug, Clone, Copy, PartialEq, Eq)]
pub enum Action {
    /// Run the command, and report with `Event::Ran`.
    Run,
    /// Run the installation, and report with `Event::Installed`.
    Install,
    /// Hand the outcome of the last run to the caller.
    Return,
    /// Give up.
    Fail(Fatal),
}

/// Whether a run that left `status` failed for want of the executable.
pub open spec fn missing(status: Option<i32>, present: bool) -> bool {
    status == Some(NOT_FOUND) && !present
}

/// The coordinator's answer to `event` in `phase`, and the phase after it.
pub open spec fn spec_step(phase: Phase, event: Event) -> (Phase, Action) {
    match (phase, event) {
        (Phase::FirstRun, Event::Ran { status, present }) => if missing(status, present) {
            (Phase::Installing, Action::Install)
        } else {
            (Phase::Done, Action::Return)
        },
        (Phase::Installing, Event::Installed { failed }) => match failed {
            None => (Phase::SecondRun, Action::Run),
            Some(k) => (Phase::Done, Action::Fail(Fatal::InstallFailed(k))),
        },
        (Phase::SecondRun, Event::Ran { status, present }) => if missing(status, present) {
            (Phase::Done, Action::Fail(Fatal::StillMissing))
        } else {
            (Phase::Done, Action::Return)
        },
        _ => (Phase::Done, Action::Fail(Fatal::OutOfTurn)),
    }
}

/// The coordinator's answers to `events`, reported one after the other from
/// `phase` on.
pub open spec fn answers(phase: Phase, events: Seq<Event>) -> Seq<Action>
    decreases events.len(),
{
    if events.len() == 0 {
        Seq::empty()
    } else {
        seq![spec_step(phase, events[0]).1] + answers(
            spec_step(phase, events[0]).0,
            events.drop_first(),
        )
    }
}

/// Where a driver begins: with a run of the command.
pub fn start() -> (r: (Phase, Action))
    ensures
        r == (Phase::FirstRun, Action::Run),
{
    (Phase::FirstRun, Action::Run)
}

/// Answers the report `event` that came in `phase`.
pub fn step(phase: Phase, event: Event) -> (r: (Phase, Action))
    ensures
        r == spec_step(phase, event),
{
    match (phase, event) {
        (Phase::FirstRun, Event::Ran { status, present }) => {
            if is_missing(status, present) {
                (Phase::Installing, Action::Install)
            } else {
                (Phase::Done, Action::Return)
            }
        },
        (Phase::Installing, Event::Installed { failed }) => match failed {
            None => (Phase::SecondRun, Action::Run),
            Some(k) => (Phase::Done, Action::Fail(Fatal::InstallFailed(k))),
        },
        (Phase::SecondRun, Event::Ran { status, present }) => {
            if is_missing(status, present) {
                (Phase::Done, Action::Fail(Fatal::StillMissing))
            } else {
                (Phase::Done, Action::Return)
            }
        },
        _ => (Phase::Done, Action::Fail(Fatal::OutOfTurn)),
    }
}

/// Whether a run that left `status` failed for want of the executable.
pub fn is_missing(status: Option<i32>, present: bool) -> (r: bool)
    ensures
        r == missing(status, present),
{
    match status {
        Some(code) => code == NOT_FOUND && !present,
        None => false,
    }
}

/// After the last answer every report is out of turn.
pub proof fn lemma_done(events: Seq<Event>)
    ensures
        answers(Phase::Done, events).len() == events.len(),
        forall|i: int|
            0 <= i < events.len() ==> #[trigger] answers(Phase::Done, events)[i] == Action::Fail(
                Fatal::OutOfTurn,
            ),
    decreases events.len(),
{
    if events.len() > 0 {
        lemma_done(events.drop_first());
    }
}

/// Whatever is reported, the coordinator asks for an installation at most
/// once, and only in answer to the first run; and it asks for another run
/// at most once, and only in answer to that installation. From its fourth
/// answer on it does neither.
pub proof fn lemma_one_install_one_retry(events: Seq<Event>)
    ensures
        answers(Phase::FirstRun, events).len() == events.len(),
        forall|i: int|
            0 <= i < events.len() && #[trigger] answers(Phase::FirstRun, events)[i]
                == Action::Install ==> i == 0,
        forall|i: int|
            0 <= i < events.len() && #[trigger] answers(Phase::FirstRun, events)[i] == Action::Run
                ==> i == 1 && answers(Phase::FirstRun, events)[0] == Action::Install,
{
    let all = answers(Phase::FirstRun, events);
    if events.len() > 0 {
        let (second, install) = spec_step(Phase::FirstRun, events[0]);
        let later = events.drop_first();
        lemma_done(later);
        if later.len() > 0 {
            let (third, retry) = spec_step(second, later[0]);
            let latest = later.drop_first();
            lemma_done(latest);
            if latest.len() > 0 {
                let (last, verdict) = spec_step(third, latest[0]);
                lemma_done(latest.drop_first());
                assert(last == Phase::Done);
                assert(answers(third, latest) =~= seq![verdict] + answers(
                    last,
                    latest.drop_first(),
                ));
            }
            assert(answers(second, later) =~= seq![retry] + answers(third, latest));
        }
        assert(all =~= seq![install] + answers(second, later));
    }
}

/// A run that finds the executable missing, an installation that succeeds
/// and a second run: the coordinator asks for the installation, then for
/// the second run, and its third answer is final. It hands the second
/// outcome to the caller, unless the second run found the executable missing
/// again: then it gives up. Either way it asks for nothing more.
pub proof fn lemma_install_then_retry(events: Seq<Event>)
    requires
        events.len() >= 3,
        events[0] matches Event::Ran { status, present } && missing(status, present),
        events[1] == (Event::Installed { failed: None }),
        events[2] is Ran,
    ensures
        answers(Phase::FirstRun, events).len() == events.len(),
        answers(Phase::FirstRun, events)[0] == Action::Install,
        answers(Phase::FirstRun, events)[1] == Action::Run,
        answers(Phase::FirstRun, events)[2] == if missing(
            events[2]->Ran_status,
            events[2]->Ran_present,
        ) {
            Action::Fail(Fatal::StillMissing)
        } else {
            Action::Return
        },
        forall|i: int|
            3 <= i < events.len() ==> #[trigger] answers(Phase::FirstRun, events)[i]
                == Action::Fail(Fatal::OutOfTurn),
{
    let later = events.drop_first();
    let latest = later.drop_first();
    lemma_done(latest.drop_first());
    assert(later[0] == events[1] && latest[0] == events[2]);
    assert(answers(Phase::SecondRun, latest) =~= seq![
        spec_step(Phase::SecondRun, latest[0]).1,
    ] + answers(Phase::Done, latest.drop_first()));
    assert(answers(Phase::Installing, later) =~= seq![Action::Run] + answers(
        Phase::SecondRun,
        latest,
    ));
    assert(answers(Phase::FirstRun, events) =~= seq![Action::Install] + answers(
        Phase::Installing,
        later,
    ));
}

/// A first run that does not find the executable missing is final: its
/// outcome goes to the caller, and the coordinator asks neither for an
/// installation nor for another run, whatever is reported after it.
pub proof fn lemma_fast_path(events: Seq<Event>)
    requires
        events.len() > 0,
        events[0] matches Event::Ran { status, present } && !missing(status, present),
    ensures
        spec_step(Phase::FirstRun, events[0]) == (Phase::Done, Action::Return),
        answers(Phase::FirstRun, events).len() == events.len(),
        answers(Phase::FirstRun, events)[0] == Action::Return,
        forall|i: int|
            0 <= i < events.len() ==> #[trigger] answers(Phase::FirstRun, events)[i]
                != Action::Install && answers(Phase::FirstRun, events)[i] != Action::Run,
{
    lemma_done(events.drop_first());
    assert(answers(Phase::FirstRun, events) =~= seq![Action::Return] + answers(
        Phase::Done,
        events.drop_first(),
    ));
}

} // verus!
