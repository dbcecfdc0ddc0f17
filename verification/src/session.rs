//! The protocol by which one command reaches the shell session.
//!
//! The daemon keeps one shell process and writes each command to its input.
//! A write that fails means the shell is gone: the daemon starts a fresh
//! one, primes it, and tries the same command once more. The caller does the
//! writing and spawning and reports each outcome; the stages here say what
//! to do next.

use crate::model::{keys_view, Shell};
use vstd::prelude::*;
use vstd::string::*;

verus! {

/// Where the forwarding of one command stands.
#[derive(Debug, Copy, Clone, PartialEq, Eq, Structural)]
pub enum Stage {
    /// The command is being written to the session.
    Writing,
    /// The write failed; a fresh shell is being started.
    Spawning,
    /// The fresh shell is being primed.
    Priming,
    /// The command is being written to the fresh session.
    Retrying,
    /// The command was written.
    Delivered,
    /// The second write failed too; the command is dropped and reported.
    Dropped,
    /// No fresh session could be had.
    SessionLost,
}

impl Stage {
    /// Whether nothing is left to do.
    pub open spec fn is_final(self) -> bool {
        self == Stage::Delivered || self == Stage::Dropped || self == Stage::SessionLost
    }

    /// The stage that follows once the work of this stage succeeded or
    /// failed.
    pub open spec fn after(self, ok: bool) -> Stage {
        match self {
            Stage::Writing => if ok {
                Stage::Delivered
            } else {
                Stage::Spawning
            },
            Stage::Spawning => if ok {
                Stage::Priming
            } else {
                Stage::SessionLost
            },
            Stage::Priming => if ok {
                Stage::Retrying
            } else {
                Stage::SessionLost
            },
            Stage::Retrying => if ok {
                Stage::Delivered
            } else {
                Stage::Dropped
            },
            Stage::Delivered => Stage::Delivered,
            Stage::Dropped => Stage::Dropped,
            Stage::SessionLost => Stage::SessionLost,
        }
    }

    /// How far the stage is from the start.
    pub open spec fn rank(self) -> nat {
        match self {
            Stage::Writing => 0,
            Stage::Spawning => 1,
            Stage::Priming => 2,
            Stage::Retrying => 3,
            _ => 4,
        }
    }

    /// The stage after a row of outcomes.
    pub open spec fn after_all(self, outcomes: Seq<bool>) -> Stage
        decreases outcomes.len(),
    {
        if outcomes.len() == 0 {
            self
        } else {
            self.after(outcomes[0]).after_all(outcomes.drop_first())
        }
    }

    /// How often a row of outcomes leads into the stage `target`.
    pub open spec fn entries_into(self, outcomes: Seq<bool>, target: Stage) -> nat
        decreases outcomes.len(),
    {
        if outcomes.len() == 0 {
            0
        } else {
            let next = self.after(outcomes[0]);
            let here: nat = if next == target && self != target {
                1
            } else {
                0
            };
            here + next.entries_into(outcomes.drop_first(), target)
        }
    }

    /// The first stage of every command.
    pub fn start() -> (r: Stage)
        ensures
            r == Stage::Writing,
    {
        Stage::Writing
    }

    /// Whether nothing is left to do.
    pub fn finished(self) -> (r: bool)
        ensures
            r == self.is_final(),
    {
        match self {
            Stage::Delivered => true,
            Stage::Dropped => true,
            Stage::SessionLost => true,
            _ => false,
        }
    }

    /// Moves on by the outcome of this stage's work.
    pub fn advance(self, ok: bool) -> (r: Stage)
        ensures
            r == self.after(ok),
    {
        match self {
            Stage::Writing => if ok {
                Stage::Delivered
            } else {
                Stage::Spawning
            },
            Stage::Spawning => if ok {
                Stage::Priming
            } else {
                Stage::SessionLost
            },
            Stage::Priming => if ok {
                Stage::Retrying
            } else {
                Stage::SessionLost
            },
            Stage::Retrying => if ok {
                Stage::Delivered
            } else {
                Stage::Dropped
            },
            done => done,
        }
    }

    /// The work of this stage for `command` on a session of `shell`.
    pub fn work(self, shell: Shell, command: &str) -> (r: Work)
        ensures
            r@ == work_of(self, shell, command@),
    {
        match self {
            Stage::Writing => Work::Write {
                line: line_of(command),
                echo: if shell.echoes() {
                    Some(String::from_str(command))
                } else {
                    None
                },
            },
            Stage::Retrying => Work::Write {
                line: line_of(command),
                echo: if shell.echoes() {
                    Some(String::from_str(command))
                } else {
                    None
                },
            },
            Stage::Spawning => Work::Spawn {
                program: shell.to_string(),
                arguments: shell.launch_args(),
            },
            Stage::Priming => {
                let setup = shell.priming_line();
                Work::Write { line: line_of(setup.as_str()), echo: None }
            },
            _ => Work::Nothing,
        }
    }
}

/// What the caller is to do.
#[derive(Debug, Clone, PartialEq, Eq)]
pub enum Work {
    /// Write `line` to the session's input; before that, print `echo`.
    Write { line: String, echo: Option<String> },
    /// Start `program` with `arguments` and keep its input as the session.
    Spawn { program: String, arguments: Vec<String> },
    /// Nothing: the forwarding has ended.
    Nothing,
}

/// Work as contracts see it.
pub enum WorkView {
    Write { line: Seq<char>, echo: Option<Seq<char>> },
    Spawn { program: Seq<char>, arguments: Seq<Seq<char>> },
    Nothing,
}

impl View for Work {
    type V = WorkView;

    open spec fn view(&self) -> WorkView {
        match self {
            Work::Write { line, echo } => WorkView::Write {
                line: line@,
                echo: match echo {
                    Some(e) => Some(e@),
                    None => None,
                },
            },
            Work::Spawn { program, arguments } => WorkView::Spawn {
                program: program@,
                arguments: keys_view(arguments@),
            },
            Work::Nothing => WorkView::Nothing,
        }
    }
}

/// A text as one line of input: the text and a line feed.
pub open spec fn as_line(text: Seq<char>) -> Seq<char> {
    text.push('\n')
}

/// The writing of `command`: the shells of the PowerShell family get the
/// command echoed first.
pub open spec fn command_write(shell: Shell, command: Seq<char>) -> WorkView {
    WorkView::Write {
        line: as_line(command),
        echo: if shell.is_powershell_family() {
            Some(command)
        } else {
            None
        },
    }
}

/// The work of each stage.
pub open spec fn work_of(stage: Stage, shell: Shell, command: Seq<char>) -> WorkView {
    match stage {
        Stage::Writing => command_write(shell, command),
        Stage::Retrying => command_write(shell, command),
        Stage::Spawning => WorkView::Spawn { program: shell.name(), arguments: shell.arguments() },
        Stage::Priming => WorkView::Write { line: as_line(shell.priming()), echo: None },
        _ => WorkView::Nothing,
    }
}

/// A text with a line feed after it.
fn line_of(text: &str) -> (r: String)
    ensures
        r@ == as_line(text@),
{
    let mut line = String::from_str(text);
    proof {
        reveal_strlit("\n");
        assert("\n"@ =~= seq!['\n']);
    }
    line.append("\n");
    assert(line@ =~= as_line(text@));
    line
}

/// No stage is entered twice: a row of outcomes leads into a stage of work
/// once at most, and only from an earlier stage.
pub proof fn lemma_entered_once(stage: Stage, outcomes: Seq<bool>, target: Stage)
    requires
        !target.is_final(),
    ensures
        stage.entries_into(outcomes, target) <= if stage.rank() < target.rank() {
            1nat
        } else {
            0nat
        },
    decreases outcomes.len(),
{
    if outcomes.len() > 0 {
        lemma_entered_once(stage.after(outcomes[0]), outcomes.drop_first(), target);
    }
}

/// A final stage stays.
pub proof fn lemma_final_stays(stage: Stage, outcomes: Seq<bool>)
    requires
        stage.is_final(),
    ensures
        stage.after_all(outcomes) == stage,
    decreases outcomes.len(),
{
    if outcomes.len() > 0 {
        lemma_final_stays(stage, outcomes.drop_first());
    }
}

/// Whatever the writes and the spawn do, one command leads to one spawn at
/// most and to one second write at most.
pub proof fn law_retry_bound(outcomes: Seq<bool>)
    ensures
        Stage::Writing.entries_into(outcomes, Stage::Spawning) <= 1,
        Stage::Writing.entries_into(outcomes, Stage::Priming) <= 1,
        Stage::Writing.entries_into(outcomes, Stage::Retrying) <= 1,
{
    lemma_entered_once(Stage::Writing, outcomes, Stage::Spawning);
    lemma_entered_once(Stage::Writing, outcomes, Stage::Priming);
    lemma_entered_once(Stage::Writing, outcomes, Stage::Retrying);
}

/// A first write that fails leads to exactly one spawn, whatever follows.
pub proof fn law_failed_write_spawns_once(outcomes: Seq<bool>)
    requires
        outcomes.len() >= 1,
        !outcomes[0],
    ensures
        Stage::Writing.entries_into(outcomes, Stage::Spawning) == 1,
{
    lemma_entered_once(Stage::Spawning, outcomes.drop_first(), Stage::Spawning);
}

/// When the second write fails too, the command is dropped, and nothing that
/// is reported afterwards starts another attempt.
pub proof fn law_failed_retry_drops(outcomes: Seq<bool>)
    requires
        outcomes.len() >= 4,
        !outcomes[0],
        outcomes[1],
        outcomes[2],
        !outcomes[3],
    ensures
        Stage::Writing.after_all(outcomes) == Stage::Dropped,
        Stage::Writing.after_all(outcomes.take(4)) == Stage::Dropped,
{
    let a = outcomes.drop_first();
    let b = a.drop_first();
    let c = b.drop_first();
    let d = c.drop_first();
    assert(Stage::Writing.after_all(outcomes) == Stage::Spawning.after_all(a));
    assert(Stage::Spawning.after_all(a) == Stage::Priming.after_all(b));
    assert(Stage::Priming.after_all(b) == Stage::Retrying.after_all(c));
    assert(Stage::Retrying.after_all(c) == Stage::Dropped.after_all(d));
    lemma_final_stays(Stage::Dropped, d);
    let t = outcomes.take(4);
    let ta = t.drop_first();
    let tb = ta.drop_first();
    let tc = tb.drop_first();
    let td = tc.drop_first();
    assert(Stage::Writing.after_all(t) == Stage::Spawning.after_all(ta));
    assert(Stage::Spawning.after_all(ta) == Stage::Priming.after_all(tb));
    assert(Stage::Priming.after_all(tb) == Stage::Retrying.after_all(tc));
    assert(Stage::Retrying.after_all(tc) == Stage::Dropped.after_all(td));
    lemma_final_stays(Stage::Dropped, td);
}

} // verus!
