//! The steps that put the tool in place, and the verdict on a run of them.

use vstd::prelude::*;
use vstd::string::StringExecFns;

verus! {

/// The release of the tool that is fetched where the caller names no other.
pub const VERSION: &'static str = "0.1.0";

/// The number of steps of an installation.
pub const STEPS: usize = 6;

/// The commands of an installation of the release `version`, in the order
/// in which they run: fetch the archive, unpack it, build, move the
/// executable to the working directory, and remove the sources and the
/// archive.
pub open spec fn install_texts(version: Seq<char>) -> Seq<Seq<char>> {
    seq![
        "wget https://github.com/facebookresearch/fastText/archive/v"@ + version + ".zip"@,
        "unzip v"@ + version + ".zip"@,
        "cd fastText-"@ + version + "; make"@,
        "mv fastText-"@ + version + "/fasttext ."@,
        "rm -r fastText-"@ + version,
        "rm v"@ + version + ".zip"@,
    ]
}

/// Whether step `i` ran and left with the exit code 0. A step that a signal
/// ended has no exit code.
pub open spec fn step_succeeded(statuses: Seq<Option<i32>>, i: int) -> bool {
    0 <= i < statuses.len() && statuses[i] == Some(0i32)
}

fn around(before: &str, version: &str, after: &str) -> (text: String)
    ensures
        text@ == before@ + version@ + after@,
{
    let mut text = String::from_str(before);
    text.append(version);
    text.append(after);
    text
}

/// The commands of an installation of the release `version`.
pub fn install_commands(version: &str) -> (commands: Vec<String>)
    ensures
        commands.deep_view() == install_texts(version@),
        commands@.len() == STEPS,
{
    let mut commands: Vec<String> = Vec::new();
    commands.push(
        around("wget https://github.com/facebookresearch/fastText/archive/v", version, ".zip"),
    );
    commands.push(around("unzip v", version, ".zip"));
    commands.push(around("cd fastText-", version, "; make"));
    commands.push(around("mv fastText-", version, "/fasttext ."));
    let mut clean = String::from_str("rm -r fastText-");
    clean.append(version);
    commands.push(clean);
    commands.push(around("rm v", version, ".zip"));
    assert(commands.deep_view() =~= install_texts(version@));
    commands
}

/// The first step of an installation that did not succeed, given the exit
/// status of each step that ran, in order: `None` where all of them
/// succeeded. A step without a status did not run, and so did not succeed.
pub fn install_outcome(statuses: &[Option<i32>]) -> (failed: Option<usize>)
    ensures
        match failed {
            None => forall|i: int| 0 <= i < STEPS ==> step_succeeded(statuses@, i),
            Some(k) => k < STEPS && !step_succeeded(statuses@, k as int) && forall|i: int|
                0 <= i < k ==> step_succeeded(statuses@, i),
        },
{
    let mut i: usize = 0;
    while i < STEPS
        invariant
            i <= STEPS,
            forall|j: int| 0 <= j < i ==> step_succeeded(statuses@, j),
        decreases STEPS - i,
    {
        if i >= statuses.len() {
            return Some(i);
        }
        match statuses[i] {
            Some(code) => {
                if code != 0 {
                    return Some(i);
                }
            },
            None => {
                return Some(i);
            },
        }
        i += 1;
    }
    None
}

} // verus!
