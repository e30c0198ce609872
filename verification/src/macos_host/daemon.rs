//! The control plane of the `rustscreen` daemon: where its files are, what its PID file says, what
//! `start`, `stop` and `status` do about it, and the command line.

use vstd::prelude::*;
use crate::path::{join, joined};
use crate::text::{all_digits, decimal, digits_value, law_decimal_round_trip, trimmed};
use crate::text::{law_trim_takes_the_space, white_space};
use crate::text::{chars_of, parse_decimal, part, push_decimal, same_text, string_of, trim};

verus! {

/// The directory of the PID and log files: `.rustscreen` in the home directory.
pub fn runtime_dir(home: &str) -> (out: String)
    ensures
        out@ == joined(home@, ".rustscreen"@),
{
    join(home, ".rustscreen")
}

/// The PID file.
pub fn pid_path(home: &str) -> (out: String)
    ensures
        out@ == joined(joined(home@, ".rustscreen"@), "rustscreen.pid"@),
{
    let dir: String = runtime_dir(home);
    join(dir.as_str(), "rustscreen.pid")
}

/// The log file.
pub fn log_path(home: &str) -> (out: String)
    ensures
        out@ == joined(joined(home@, ".rustscreen"@), "rustscreen.log"@),
{
    let dir: String = runtime_dir(home);
    join(dir.as_str(), "rustscreen.log")
}

/// The digits of a PID file: its contents without the white space around them and without a plus
/// sign.
pub open spec fn pid_digits(contents: Seq<char>) -> Seq<char> {
    let text = trimmed(contents);
    if text.len() > 0 && text[0] == '+' {
        text.skip(1)
    } else {
        text
    }
}

/// The PID that the contents of a PID file hold: a decimal number above zero that fits.
pub open spec fn pid_of(contents: Seq<char>) -> Option<i32> {
    let digits = pid_digits(contents);
    if digits.len() > 0 && all_digits(digits) && 0 < digits_value(digits) <= i32::MAX {
        Some(digits_value(digits) as i32)
    } else {
        None
    }
}

/// Read the contents of a PID file; `None` if they are empty, malformed or not above zero.
pub fn parse_pid(contents: &str) -> (r: Option<i32>)
    ensures
        r == pid_of(contents@),
{
    let all: Vec<char> = chars_of(contents);
    let text: Vec<char> = trim(&all);
    let from: usize = if text.len() > 0 && text[0] == '+' {
        1
    } else {
        0
    };
    let digits: Vec<char> = part(&text, from, text.len());
    proof {
        assert(digits@ =~= pid_digits(contents@));
    }
    match parse_decimal(&digits, i32::MAX as u32) {
        Some(n) => if n > 0 {
            Some(n as i32)
        } else {
            None
        },
        None => None,
    }
}

/// The contents of the PID file of a process: the number in decimal and a line feed.
pub open spec fn pid_chars(pid: i32) -> Seq<char> {
    if pid < 0 {
        seq!['-'] + decimal((-pid) as nat) + seq!['\n']
    } else {
        decimal(pid as nat) + seq!['\n']
    }
}

/// What to write to the PID file.
pub fn pid_text(pid: i32) -> (out: String)
    ensures
        out@ == pid_chars(pid),
{
    let mut chars: Vec<char> = Vec::new();
    if pid < 0 {
        chars.push('-');
        push_decimal(&mut chars, (-(pid as i64)) as u64);
    } else {
        push_decimal(&mut chars, pid as u64);
    }
    chars.push('\n');
    proof {
        assert(chars@ =~= pid_chars(pid));
    }
    string_of(&chars)
}

/// What is written for a process is read back as that process.
pub proof fn law_pid_round_trip(pid: i32)
    requires
        pid > 0,
    ensures
        pid_of(pid_chars(pid)) == Some(pid),
{
    let digits = decimal(pid as nat);
    law_decimal_round_trip(pid as nat);
    let text = pid_chars(pid);
    assert('0' <= digits[0] <= '9');
    assert(text[0] == digits[0]);
    assert(crate::text::trimmed_start(text) == text);
    assert(text.last() == '\n');
    assert(text.drop_last() =~= digits);
    assert('0' <= digits[digits.len() - 1] <= '9');
    assert(digits.last() == digits[digits.len() - 1]);
    assert(crate::text::trimmed_end(digits) == digits);
    assert(crate::text::trimmed_end(text) == digits);
}

/// What `start` finds.
#[derive(Clone, Copy, Debug, PartialEq, Eq, Structural)]
pub enum StartState {
    /// No process is recorded: go ahead.
    NotRunning,
    /// The recorded process is alive: refuse.
    Running(i32),
    /// The recorded process is gone: overwrite the record and go ahead.
    Stale(i32),
}

/// Decide what `start` does about the recorded process, asking `alive` about it.
pub fn start_state<F: Fn(i32) -> bool>(recorded: Option<i32>, alive: F) -> (r: StartState)
    requires
        recorded matches Some(pid) ==> alive.requires((pid,)),
    ensures
        match recorded {
            None => r == StartState::NotRunning,
            Some(pid) => {
                ||| r == StartState::Running(pid) && alive.ensures((pid,), true)
                ||| r == StartState::Stale(pid) && alive.ensures((pid,), false)
            },
        },
{
    match recorded {
        None => StartState::NotRunning,
        Some(pid) => if alive(pid) {
            StartState::Running(pid)
        } else {
            StartState::Stale(pid)
        },
    }
}

/// What `start` does.
#[derive(Clone, Copy, Debug, PartialEq, Eq, Structural)]
pub enum StartPlan {
    /// Ask the system for the capture permission, tell the user, and give up.
    RequestPermission,
    /// Leave the process that is running alone.
    LeaveRunning(i32),
    /// Start a worker; the record of a process that is gone is overwritten.
    Spawn { stale: Option<i32> },
}

/// Decide what `start` does: nothing without the permission to capture, and nothing while a worker
/// is running. `alive` is asked only if the permission is there.
pub fn start_plan<F: Fn(i32) -> bool>(granted: bool, recorded: Option<i32>, alive: F) -> (r:
    StartPlan)
    requires
        granted ==> (recorded matches Some(pid) ==> alive.requires((pid,))),
    ensures
        if !granted {
            r == StartPlan::RequestPermission
        } else {
            match recorded {
                None => r == (StartPlan::Spawn { stale: None }),
                Some(pid) => {
                    ||| r == StartPlan::LeaveRunning(pid) && alive.ensures((pid,), true)
                    ||| r == (StartPlan::Spawn { stale: Some(pid) }) && alive.ensures((pid,), false)
                },
            }
        },
{
    if !granted {
        return StartPlan::RequestPermission;
    }
    match start_state(recorded, alive) {
        StartState::NotRunning => StartPlan::Spawn { stale: None },
        StartState::Running(pid) => StartPlan::LeaveRunning(pid),
        StartState::Stale(pid) => StartPlan::Spawn { stale: Some(pid) },
    }
}

/// What `stop` does.
#[derive(Clone, Copy, Debug, PartialEq, Eq, Structural)]
pub enum StopPlan {
    /// Ask the process group `group`, which the worker `pid` leads, to end; then forget the record.
    End { pid: i32, group: i32 },
    /// Forget the record of a process that is gone.
    Forget(i32),
    /// There is nothing to stop.
    Nothing,
}

/// Decide what `stop` does about the recorded process. Signals go to the worker's whole process
/// group, which a system call names by the negated process id.
pub fn stop_plan<F: Fn(i32) -> bool>(recorded: Option<i32>, alive: F) -> (r: StopPlan)
    requires
        recorded matches Some(pid) ==> pid > 0 && alive.requires((pid,)),
    ensures
        match recorded {
            None => r == StopPlan::Nothing,
            Some(pid) => {
                ||| r == (StopPlan::End { pid, group: (-pid) as i32 }) && alive.ensures(
                    (pid,),
                    true,
                )
                ||| r == StopPlan::Forget(pid) && alive.ensures((pid,), false)
            },
        },
{
    match start_state(recorded, alive) {
        StartState::NotRunning => StopPlan::Nothing,
        StartState::Running(pid) => StopPlan::End { pid, group: -pid },
        StartState::Stale(pid) => StopPlan::Forget(pid),
    }
}

/// How often a process that was asked to end is looked at, before it is forced to.
pub const GRACE_POLLS: u32 = 30;

/// How often a process that was forced to end is looked at, before it is given up.
pub const KILL_POLLS: u32 = 10;

/// What `stop` does next about a process that is to end.
#[derive(Clone, Copy, Debug, PartialEq, Eq, Structural)]
pub enum StopAction {
    /// Wait a tenth of a second and look again.
    Wait,
    /// Force it to end, and look again.
    Kill,
    /// Nothing more to do.
    Finished,
}

/// The stop of one process, from the moment it was asked to end.
#[derive(Clone, Copy, Debug, PartialEq, Eq, Structural)]
pub struct Shutdown {
    pub polls: u32,
    pub killed: bool,
}

impl Shutdown {
    /// A process that was just asked to end.
    pub fn new() -> (r: Self)
        ensures
            r == (Shutdown { polls: 0, killed: false }),
    {
        Shutdown { polls: 0, killed: false }
    }

    /// What follows from looking at the process.
    pub open spec fn next_of(self, alive: bool) -> (Shutdown, StopAction) {
        if !alive {
            (self, StopAction::Finished)
        } else if !self.killed && self.polls < GRACE_POLLS {
            (Shutdown { polls: (self.polls + 1) as u32, killed: false }, StopAction::Wait)
        } else if !self.killed {
            (Shutdown { polls: 0, killed: true }, StopAction::Kill)
        } else if self.polls < KILL_POLLS {
            (Shutdown { polls: (self.polls + 1) as u32, killed: true }, StopAction::Wait)
        } else {
            (self, StopAction::Finished)
        }
    }

    /// How many more steps the stop can take.
    pub open spec fn budget(self) -> int {
        if self.killed {
            if self.polls < KILL_POLLS {
                KILL_POLLS - self.polls
            } else {
                0
            }
        } else if self.polls < GRACE_POLLS {
            GRACE_POLLS - self.polls + 1 + KILL_POLLS
        } else {
            1 + KILL_POLLS
        }
    }

    /// Decide what to do after looking at the process.
    pub fn next(&mut self, alive: bool) -> (r: StopAction)
        ensures
            (*final(self), r) == old(self).next_of(alive),
    {
        if !alive {
            return StopAction::Finished;
        }
        if !self.killed {
            if self.polls < GRACE_POLLS {
                self.polls = self.polls + 1;
                StopAction::Wait
            } else {
                self.killed = true;
                self.polls = 0;
                StopAction::Kill
            }
        } else if self.polls < KILL_POLLS {
            self.polls = self.polls + 1;
            StopAction::Wait
        } else {
            StopAction::Finished
        }
    }
}

/// A stop ends: every step but the last uses up some of a budget. A process is forced to end at
/// most once, and only after it has outlived the whole grace period.
pub proof fn law_stop_ends(s: Shutdown, alive: bool)
    ensures
        s.next_of(alive).1 != StopAction::Finished ==> 0 <= s.next_of(alive).0.budget() < s.budget(),
        s.next_of(alive).1 == StopAction::Kill ==> !s.killed && s.polls >= GRACE_POLLS
            && s.next_of(alive).0.killed,
        s.killed ==> s.next_of(alive).0.killed,
{
}

/// The commands of the daemon.
#[derive(Clone, Debug, PartialEq, Eq)]
pub enum Command {
    Start,
    Stop,
    Status,
    /// The detached worker.
    Serve,
    Help,
    Unknown(String),
}

/// A command by its values.
pub enum CommandView {
    Start,
    Stop,
    Status,
    Serve,
    Help,
    Unknown(Seq<char>),
}

impl View for Command {
    type V = CommandView;

    open spec fn view(&self) -> CommandView {
        match self {
            Command::Start => CommandView::Start,
            Command::Stop => CommandView::Stop,
            Command::Status => CommandView::Status,
            Command::Serve => CommandView::Serve,
            Command::Help => CommandView::Help,
            Command::Unknown(name) => CommandView::Unknown(name@),
        }
    }
}

/// The command that the first argument names.
pub open spec fn command_of(arg: Option<Seq<char>>) -> CommandView {
    match arg {
        None => CommandView::Help,
        Some(name) => if name == "help"@ || name == "-h"@ || name == "--help"@ {
            CommandView::Help
        } else if name == "start"@ {
            CommandView::Start
        } else if name == "stop"@ {
            CommandView::Stop
        } else if name == "status"@ {
            CommandView::Status
        } else if name == "__serve"@ {
            CommandView::Serve
        } else {
            CommandView::Unknown(name)
        },
    }
}

/// Read the first argument of the command line.
pub fn parse_command(arg: Option<&str>) -> (r: Command)
    ensures
        r@ == command_of(
            match arg {
                Some(name) => Some(name@),
                None => None,
            },
        ),
{
    let name: &str = match arg {
        Some(name) => name,
        None => {
            return Command::Help;
        },
    };
    if same_text(name, "help") || same_text(name, "-h") || same_text(name, "--help") {
        Command::Help
    } else if same_text(name, "start") {
        Command::Start
    } else if same_text(name, "stop") {
        Command::Stop
    } else if same_text(name, "status") {
        Command::Status
    } else if same_text(name, "__serve") {
        Command::Serve
    } else {
        Command::Unknown(name.to_owned())
    }
}

/// What [`permission_help`] says.
pub const PERMISSION_HELP: &'static str =
    "rustscreen needs the macOS Screen & System Audio Recording permission to capture your display.\nGrant it in: System Settings \u{25b8} Privacy & Security \u{25b8} Screen & System Audio Recording\nEnable the terminal app you launched rustscreen from, then run `rustscreen start` again.\nA permission prompt has been requested now; if you don't see it, add the app manually.";

/// What [`usage`] says.
pub const USAGE: &'static str =
    "rustscreen \u{2014} turn your phone into a USB-C second monitor for your Mac\n\nUSAGE:\n    rustscreen start     Start the host in the background; streams when the phone app opens\n    rustscreen stop      Stop the host and remove the virtual display\n    rustscreen status    Show whether the host is running\n";

/// What to do about a missing screen-recording permission.
pub fn permission_help() -> (out: String)
    ensures
        out@ == PERMISSION_HELP@,
{
    PERMISSION_HELP.to_owned()
}

/// How to call the daemon.
pub fn usage() -> (out: String)
    ensures
        out@ == USAGE@,
{
    USAGE.to_owned()
}

/// A stop after some looks at a process that was alive each time.
pub open spec fn after_looks(looks: nat) -> Shutdown
    decreases looks,
{
    if looks == 0 {
        Shutdown { polls: 0, killed: false }
    } else {
        after_looks((looks - 1) as nat).next_of(true).0
    }
}

/// The schedule of a stop: a process that stays alive is looked at thirty times before it is forced
/// to end, ten times more after that, and then given up. One that is gone is not looked at again.
pub proof fn law_stop_schedule(looks: nat)
    ensures
        looks < 30 ==> after_looks(looks).next_of(true).1 == StopAction::Wait,
        looks == 30 ==> after_looks(looks).next_of(true).1 == StopAction::Kill,
        30 < looks <= 40 ==> after_looks(looks).next_of(true).1 == StopAction::Wait,
        looks > 40 ==> after_looks(looks).next_of(true).1 == StopAction::Finished,
        after_looks(looks).next_of(false).1 == StopAction::Finished,
{
    lemma_after_looks(looks);
}

proof fn lemma_after_looks(looks: nat)
    ensures
        looks <= 30 ==> after_looks(looks) == (Shutdown { polls: looks as u32, killed: false }),
        31 <= looks <= 41 ==> after_looks(looks) == (Shutdown {
            polls: (looks - 31) as u32,
            killed: true,
        }),
        looks >= 41 ==> after_looks(looks) == (Shutdown { polls: 10, killed: true }),
    decreases looks,
{
    if looks > 0 {
        lemma_after_looks((looks - 1) as nat);
    }
}

/// White space around a process id does not count, and neither does one plus sign in front of it;
/// zero and what is too large are no process ids.
pub proof fn law_pid_is_a_positive_number(n: nat, before: Seq<char>, after: Seq<char>)
    requires
        forall|i: int| 0 <= i < before.len() ==> white_space(#[trigger] before[i]),
        forall|i: int| 0 <= i < after.len() ==> white_space(#[trigger] after[i]),
    ensures
        pid_of(before + decimal(n) + after) == if 0 < n <= i32::MAX {
            Some(n as i32)
        } else {
            None
        },
        pid_of(before + (seq!['+'] + decimal(n)) + after) == if 0 < n <= i32::MAX {
            Some(n as i32)
        } else {
            None
        },
{
    let digits = decimal(n);
    let signed = seq!['+'] + digits;
    law_decimal_round_trip(n);
    assert('0' <= digits[0] <= '9');
    assert('0' <= digits[digits.len() - 1] <= '9');
    assert(signed[signed.len() - 1] == digits[digits.len() - 1]);
    law_trim_takes_the_space(before, digits, after);
    law_trim_takes_the_space(before, signed, after);
    assert(signed.skip(1) =~= digits);
}

/// Each command is named by its own word, help by three, and no other word is a command.
pub proof fn law_commands_have_their_words(name: Seq<char>)
    ensures
        command_of(None) == CommandView::Help,
        command_of(Some("start"@)) == CommandView::Start,
        command_of(Some("stop"@)) == CommandView::Stop,
        command_of(Some("status"@)) == CommandView::Status,
        command_of(Some("__serve"@)) == CommandView::Serve,
        command_of(Some("help"@)) == CommandView::Help,
        command_of(Some("-h"@)) == CommandView::Help,
        command_of(Some("--help"@)) == CommandView::Help,
        name != "start"@ && name != "stop"@ && name != "status"@ && name != "__serve"@ && name
            != "help"@ && name != "-h"@ && name != "--help"@ <==> command_of(Some(name))
            == CommandView::Unknown(name),
{
    reveal_strlit("start");
    reveal_strlit("stop");
    reveal_strlit("status");
    reveal_strlit("__serve");
    reveal_strlit("help");
    reveal_strlit("-h");
    reveal_strlit("--help");
    assert("start"@.len() == 5 && "stop"@.len() == 4 && "status"@.len() == 6 && "__serve"@.len() == 7
        && "help"@.len() == 4 && "-h"@.len() == 2 && "--help"@.len() == 6);
    assert("stop"@[0] == 's' && "help"@[0] == 'h' && "status"@[0] == 's' && "--help"@[0] == '-');
}

} // verus!
