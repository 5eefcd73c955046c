//! What `fed` reports and how it ends: the messages for files it could not
//! open, the exit status of a run, and the lines of an options listing.
use vstd::prelude::*;

use crate::options::{keys_of, sorted_unique, sorted_unique_options, OpenOption};

verus! {

/// What became of one file that `fed` was asked to open.
pub enum OpenOutcome {
    /// The path does not exist.
    Missing,
    /// The opener failed, for the given reason.
    Failed(String),
    /// The file was handed to its default application.
    Opened,
}

pub open spec fn missing_text(path: Seq<char>) -> Seq<char> {
    "fed: '"@ + path + "': no such file or directory"@
}

pub open spec fn open_failure_text(path: Seq<char>, reason: Seq<char>) -> Seq<char> {
    "fed: could not open '"@ + path + "': "@ + reason
}

pub open spec fn failure_text(reason: Seq<char>) -> Seq<char> {
    "fed: "@ + reason
}

/// Whether a run has failed after one more outcome.
pub open spec fn failed_after(failed: bool, outcome: OpenOutcome) -> bool {
    failed || !(outcome is Opened)
}

/// Whether a run that had `failed` before has failed after `outcomes`.
pub open spec fn failed_after_all(failed: bool, outcomes: Seq<OpenOutcome>) -> bool
    decreases outcomes.len(),
{
    if outcomes.len() == 0 {
        failed
    } else {
        failed_after(failed_after_all(failed, outcomes.drop_last()), outcomes.last())
    }
}

/// The message for a path that does not exist.
pub fn missing_path_message(path: &str) -> (r: String)
    ensures
        r@ == missing_text(path@),
{
    let mut r = String::new();
    r.append("fed: '");
    r.append(path);
    r.append("': no such file or directory");
    assert(Seq::<char>::empty() + "fed: '"@ == "fed: '"@);
    r
}

/// The message for a file that could not be opened, for `reason`.
pub fn open_failure_message(path: &str, reason: &str) -> (r: String)
    ensures
        r@ == open_failure_text(path@, reason@),
{
    let mut r = String::new();
    r.append("fed: could not open '");
    r.append(path);
    r.append("': ");
    r.append(reason);
    assert(Seq::<char>::empty() + "fed: could not open '"@ == "fed: could not open '"@);
    r
}

/// The message when listing the applications for a file failed, for `reason`.
pub fn failure_message(reason: &str) -> (r: String)
    ensures
        r@ == failure_text(reason@),
{
    let mut r = String::new();
    r.append("fed: ");
    r.append(reason);
    assert(Seq::<char>::empty() + "fed: "@ == "fed: "@);
    r
}

/// A run that opens files one after the other: a file that fails does not
/// stop the later ones, and the run fails when any file failed.
pub struct OpenRun {
    had_error: bool,
}

impl OpenRun {
    /// Some file of this run has failed.
    pub closed spec fn failed(&self) -> bool {
        self.had_error
    }

    /// A run where nothing has been opened yet.
    pub fn new() -> (r: OpenRun)
        ensures
            !r.failed(),
    {
        OpenRun { had_error: false }
    }

    /// Takes note of what became of the file at `path`, and gives the message
    /// to report for it, if any.
    pub fn record(&mut self, path: &str, outcome: OpenOutcome) -> (message: Option<String>)
        ensures
            final(self).failed() == failed_after(old(self).failed(), outcome),
            match outcome {
                OpenOutcome::Missing => message matches Some(m) && m@ == missing_text(path@),
                OpenOutcome::Failed(reason) => message matches Some(m) && m@ == open_failure_text(
                    path@,
                    reason@,
                ),
                OpenOutcome::Opened => message is None,
            },
    {
        match outcome {
            OpenOutcome::Missing => {
                self.had_error = true;
                Some(missing_path_message(path))
            },
            OpenOutcome::Failed(reason) => {
                self.had_error = true;
                Some(open_failure_message(path, reason.as_str()))
            },
            OpenOutcome::Opened => None,
        }
    }

    /// The exit status of the run: 1 when some file failed, else 0.
    pub fn exit_code(&self) -> (c: i32)
        ensures
            c == if self.failed() {
                1i32
            } else {
                0i32
            },
    {
        if self.had_error {
            1
        } else {
            0
        }
    }
}

/// A run fails exactly when one of its files failed, whatever came before or
/// after that file.
pub proof fn lemma_run_fails_iff_some_file_fails(outcomes: Seq<OpenOutcome>)
    ensures
        failed_after_all(false, outcomes) <==> exists|i: int|
            0 <= i < outcomes.len() && !(#[trigger] outcomes[i] is Opened),
    decreases outcomes.len(),
{
    if outcomes.len() > 0 {
        let init = outcomes.drop_last();
        lemma_run_fails_iff_some_file_fails(init);
        if failed_after_all(false, init) {
            let i = choose|i: int| 0 <= i < init.len() && !(#[trigger] init[i] is Opened);
            assert(outcomes[i] == init[i]);
        }
        if exists|i: int| 0 <= i < outcomes.len() && !(#[trigger] outcomes[i] is Opened) {
            let i = choose|i: int| 0 <= i < outcomes.len() && !(#[trigger] outcomes[i] is Opened);
            if i < outcomes.len() - 1 {
                assert(init[i] == outcomes[i]);
            }
        }
    }
}

/// The lines that `fed --options` prints: the names of the listed options.
pub fn option_names(options: Vec<OpenOption>) -> (r: Vec<String>)
    ensures
        exists|listed: Seq<OpenOption>|
            sorted_unique(options@, keys_of(options@), listed) && r.deep_view() == listed.map_values(
                |o: OpenOption| o.name@,
            ),
{
    let ghost s = options@;
    let listed = sorted_unique_options(options);
    let mut r: Vec<String> = Vec::new();
    for i in 0..listed.len()
        invariant
            r.deep_view() == listed@.take(i as int).map_values(|o: OpenOption| o.name@),
    {
        let ghost before = r.deep_view();
        r.push(listed[i].name.clone());
        assert(r.deep_view() =~= before.push(listed@[i as int].name@));
        assert(listed@.take(i + 1).map_values(|o: OpenOption| o.name@) =~= listed@.take(
            i as int,
        ).map_values(|o: OpenOption| o.name@).push(listed@[i as int].name@));
    }
    assert(listed@.take(listed@.len() as int) == listed@);
    r
}

} // verus!
