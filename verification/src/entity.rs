//! Value types shared by the registry: entries, their commands, the
//! exit-kill policy, and logged tool calls, together with their
//! mathematical views.

use vstd::prelude::*;

verus! {

/// What a tracked entry runs: either an assisted invocation built from a
/// prompt (with an optional agent identifier), or an arbitrary shell
/// command.
#[derive(Debug, PartialEq)]
pub enum Command {
    Claude { prompt: String, agent: Option<String> },
    Raw { cmd: String },
}

/// Mathematical view of a `Command`.
#[verifier::ext_equal]
pub ghost enum CommandV {
    Claude { prompt: Seq<char>, agent: Option<Seq<char>> },
    Raw { cmd: Seq<char> },
}

impl View for Command {
    type V = CommandV;

    open spec fn view(&self) -> CommandV {
        match self {
            Command::Claude { prompt, agent } => CommandV::Claude {
                prompt: prompt@,
                agent: agent.deep_view(),
            },
            Command::Raw { cmd } => CommandV::Raw { cmd: cmd@ },
        }
    }
}

impl DeepView for Command {
    type V = CommandV;

    open spec fn deep_view(&self) -> CommandV {
        self.view()
    }
}

/// Policy deciding whether a finished entry's window is torn down:
/// `Any` matches every exit code, `Codes` matches exactly the listed
/// codes. Absence of a policy (an `Option<ExitKill>` that is `None`)
/// never matches.
#[derive(Debug, PartialEq)]
pub enum ExitKill {
    Codes(Vec<i32>),
    Any,
}

/// Mathematical view of an `ExitKill` policy.
#[verifier::ext_equal]
pub ghost enum ExitKillV {
    Codes(Seq<i32>),
    Any,
}

impl View for ExitKill {
    type V = ExitKillV;

    open spec fn view(&self) -> ExitKillV {
        match self {
            ExitKill::Codes(codes) => ExitKillV::Codes(codes@),
            ExitKill::Any => ExitKillV::Any,
        }
    }
}

impl DeepView for ExitKill {
    type V = ExitKillV;

    open spec fn deep_view(&self) -> ExitKillV {
        self.view()
    }
}

impl ExitKillV {
    /// What `ExitKill::matches` returns, as a mathematical predicate.
    pub open spec fn spec_matches(self, code: i32) -> bool {
        match self {
            ExitKillV::Any => true,
            ExitKillV::Codes(codes) => codes.contains(code),
        }
    }
}

/// What an optional policy decides: a missing policy never matches.
pub open spec fn policy_matches(policy: Option<ExitKillV>, code: i32) -> bool {
    match policy {
        Some(p) => p.spec_matches(code),
        None => false,
    }
}

impl ExitKill {
    /// Whether this policy fires for the given exit code.
    pub fn matches(&self, code: i32) -> (r: bool)
        ensures
            r == self@.spec_matches(code),
    {
        match self {
            ExitKill::Any => true,
            ExitKill::Codes(codes) => {
                let mut i: usize = 0;
                while i < codes.len()
                    invariant
                        i <= codes.len(),
                        self@ == ExitKillV::Codes(codes@),
                        forall|k: int| 0 <= k < i ==> codes@[k] != code,
                    decreases codes.len() - i,
                {
                    if codes[i] == code {
                        proof {
                            assert(codes@[i as int] == code);
                            assert(codes@.contains(code));
                        }
                        return true;
                    }
                    i = i + 1;
                }
                false
            },
        }
    }
}

impl Clone for Command {
    fn clone(&self) -> (res: Self)
        ensures
            res@ == self@,
    {
        match self {
            Command::Claude { prompt, agent } => Command::Claude {
                prompt: prompt.clone(),
                agent: match agent {
                    Some(a) => Some(a.clone()),
                    None => None,
                },
            },
            Command::Raw { cmd } => Command::Raw { cmd: cmd.clone() },
        }
    }
}

impl Clone for ExitKill {
    fn clone(&self) -> (res: Self)
        ensures
            res@ == self@,
    {
        match self {
            ExitKill::Codes(codes) => {
                let mut copy: Vec<i32> = Vec::new();
                let mut i: usize = 0;
                while i < codes.len()
                    invariant
                        i <= codes.len(),
                        copy@ == codes@.take(i as int),
                    decreases codes.len() - i,
                {
                    copy.push(codes[i]);
                    i = i + 1;
                }
                proof {
                    assert(copy@ =~= codes@);
                }
                ExitKill::Codes(copy)
            },
            ExitKill::Any => ExitKill::Any,
        }
    }
}

/// Derived lifecycle stage of an entry: `Spawned` while no exit code has
/// been recorded, `Exited` once one has. Removal is not a stored stage;
/// it is deletion of the entry.
#[derive(Debug, Clone, Copy, PartialEq, Eq, Structural)]
pub enum Status {
    Spawned,
    Exited,
}

/// One tracked work session: a work directory plus the multiplexer
/// window that hosts its command.
#[derive(Debug, PartialEq)]
pub struct Entry {
    pub id: String,
    pub project: String,
    pub branch: String,
    pub path: String,
    pub tmux_session: String,
    pub tmux_window: String,
    pub command: Command,
    pub exit_kill: Option<ExitKill>,
    pub exit_code: Option<i32>,
    pub created_at: i64,
    pub updated_at: i64,
}

/// Mathematical view of an `Entry`.
#[verifier::ext_equal]
pub ghost struct EntryV {
    pub id: Seq<char>,
    pub project: Seq<char>,
    pub branch: Seq<char>,
    pub path: Seq<char>,
    pub tmux_session: Seq<char>,
    pub tmux_window: Seq<char>,
    pub command: CommandV,
    pub exit_kill: Option<ExitKillV>,
    pub exit_code: Option<i32>,
    pub created_at: i64,
    pub updated_at: i64,
}

impl View for Entry {
    type V = EntryV;

    open spec fn view(&self) -> EntryV {
        EntryV {
            id: self.id@,
            project: self.project@,
            branch: self.branch@,
            path: self.path@,
            tmux_session: self.tmux_session@,
            tmux_window: self.tmux_window@,
            command: self.command@,
            exit_kill: self.exit_kill.deep_view(),
            exit_code: self.exit_code,
            created_at: self.created_at,
            updated_at: self.updated_at,
        }
    }
}

impl DeepView for Entry {
    type V = EntryV;

    open spec fn deep_view(&self) -> EntryV {
        self.view()
    }
}

impl EntryV {
    /// The lifecycle stage derived from `exit_code`.
    pub open spec fn spec_status(self) -> Status {
        if self.exit_code is Some {
            Status::Exited
        } else {
            Status::Spawned
        }
    }
}

impl Entry {
    /// Returns the derived lifecycle stage.
    pub fn status(&self) -> (s: Status)
        ensures
            s == self@.spec_status(),
    {
        match self.exit_code {
            Some(_) => Status::Exited,
            None => Status::Spawned,
        }
    }
}

impl Clone for Entry {
    fn clone(&self) -> (res: Self)
        ensures
            res@ == self@,
    {
        let res = Entry {
            id: self.id.clone(),
            project: self.project.clone(),
            branch: self.branch.clone(),
            path: self.path.clone(),
            tmux_session: self.tmux_session.clone(),
            tmux_window: self.tmux_window.clone(),
            command: self.command.clone(),
            exit_kill: match &self.exit_kill {
                Some(ek) => Some(ek.clone()),
                None => None,
            },
            exit_code: self.exit_code,
            created_at: self.created_at,
            updated_at: self.updated_at,
        };
        proof {
            assert(res@ =~= self@);
        }
        res
    }
}

/// One immutable record of a tool invocation made during an entry's
/// lifetime, tagged with the `pre` or `post` hook that reported it.
#[derive(Debug, PartialEq)]
pub struct ToolCall {
    pub id: i64,
    pub process_id: String,
    pub hook_type: String,
    pub tool_name: String,
    pub tool_input: String,
    pub timestamp: i64,
    pub sequence: i64,
}

/// Mathematical view of a `ToolCall`.
#[verifier::ext_equal]
pub ghost struct ToolCallV {
    pub id: i64,
    pub process_id: Seq<char>,
    pub hook_type: Seq<char>,
    pub tool_name: Seq<char>,
    pub tool_input: Seq<char>,
    pub timestamp: i64,
    pub sequence: i64,
}

impl View for ToolCall {
    type V = ToolCallV;

    open spec fn view(&self) -> ToolCallV {
        ToolCallV {
            id: self.id,
            process_id: self.process_id@,
            hook_type: self.hook_type@,
            tool_name: self.tool_name@,
            tool_input: self.tool_input@,
            timestamp: self.timestamp,
            sequence: self.sequence,
        }
    }
}

impl DeepView for ToolCall {
    type V = ToolCallV;

    open spec fn deep_view(&self) -> ToolCallV {
        self.view()
    }
}

impl Clone for ToolCall {
    fn clone(&self) -> (res: Self)
        ensures
            res@ == self@,
    {
        let res = ToolCall {
            id: self.id,
            process_id: self.process_id.clone(),
            hook_type: self.hook_type.clone(),
            tool_name: self.tool_name.clone(),
            tool_input: self.tool_input.clone(),
            timestamp: self.timestamp,
            sequence: self.sequence,
        };
        proof {
            assert(res@ =~= self@);
        }
        res
    }
}

} // verus!
