//! The protocol of the daemon's socket (root and WebUI only): what a request
//! asks for, and how it is answered. Requests and responses are tagged with a
//! protocol version.

use vstd::prelude::*;
use vstd::string::*;

use crate::engine::Engine;
use crate::extension::{extension_outcome, ExtensionError};
use crate::gate::GateHealth;
use crate::number::{decimal, u32_text};
use crate::state::KillCount;
use crate::status::{reports, Status};
use crate::text::str_eq;

verus! {

/// Bumped whenever the request or response shape changes. An unknown version is
/// refused with a clear message instead of being misread: a stale binary talking
/// to a newer daemon must be visible, not mysterious.
pub const PROTOCOL_VERSION: u32 = 2;

/// The minutes of an extension that names none.
pub const DEFAULT_MINUTES: u32 = 5;

/// What a client asks for.
#[derive(Debug)]
pub struct Request {
    /// Protocol version; 0 means a client from before versioning existed.
    pub v: u32,
    pub cmd: String,
    pub key: Option<String>,
    pub minutes: Option<u32>,
    /// File to validate and install (`apply`).
    pub path: Option<String>,
}

/// What an answer carries.
#[derive(Debug)]
pub enum ReplyData {
    /// nothing
    Empty,
    /// a status snapshot
    Status { status: Status },
    /// the minutes that were added
    Minutes { minutes: u32 },
    /// how many apps the rules that became live are about
    Applied { apps: usize },
}

/// What a client is answered.
#[derive(Debug)]
pub struct Response {
    pub v: u32,
    pub ok: bool,
    pub error: Option<String>,
    pub data: ReplyData,
}

impl Response {
    /// Whether this is the answer to a request that was refused for the reason
    /// `msg`.
    pub open spec fn refuses(self, msg: Seq<char>) -> bool {
        &&& self.v == PROTOCOL_VERSION
        &&& !self.ok
        &&& self.error matches Some(e) && e@ == msg
        &&& self.data is Empty
    }

    /// Whether this is the answer to a request that was carried out.
    pub open spec fn grants(self, data: ReplyData) -> bool {
        &&& self.v == PROTOCOL_VERSION
        &&& self.ok
        &&& self.error is None
        &&& self.data == data
    }
}

/// The answer to a request that was carried out.
pub fn ok_resp(data: ReplyData) -> (r: Response)
    ensures
        r.grants(data),
{
    Response { v: PROTOCOL_VERSION, ok: true, error: None, data }
}

/// The answer to a request that is refused.
pub fn err_resp(msg: &str) -> (r: Response)
    ensures
        r.refuses(msg@),
{
    Response {
        v: PROTOCOL_VERSION,
        ok: false,
        error: Some(msg.to_owned()),
        data: ReplyData::Empty,
    }
}

// ---------------------------------------------------------------------------
// What a request asks for
// ---------------------------------------------------------------------------

/// What a request asks for.
#[derive(Debug)]
pub enum Command {
    Reload,
    Status,
    Extension { key: String, minutes: u32 },
    Apply { path: String },
    /// the request cannot be carried out
    Refused { why: String },
}

/// What a request asks for.
pub enum CommandView {
    Reload,
    Status,
    Extension { key: Seq<char>, minutes: u32 },
    Apply { path: Seq<char> },
    Refused { why: Seq<char> },
}

impl View for Command {
    type V = CommandView;

    open spec fn view(&self) -> CommandView {
        match self {
            Command::Reload => CommandView::Reload,
            Command::Status => CommandView::Status,
            Command::Extension { key, minutes } => CommandView::Extension {
                key: key@,
                minutes: *minutes,
            },
            Command::Apply { path } => CommandView::Apply { path: path@ },
            Command::Refused { why } => CommandView::Refused { why: why@ },
        }
    }
}

/// The text of an argument; empty where it is missing.
pub open spec fn text_or_empty(s: Option<String>) -> Seq<char> {
    match s {
        Some(t) => t@,
        None => Seq::empty(),
    }
}

/// The refusal of a version of the protocol.
pub open spec fn wrong_version(v: u32) -> Seq<char> {
    "protocol v"@ + decimal(v as nat) + " is not supported by this daemon (v"@ + decimal(
        PROTOCOL_VERSION as nat,
    ) + "); reinstall the module"@
}

impl Request {
    /// What the request asks for. Version 0 is a client that predates
    /// versioning; anything else must match exactly.
    pub open spec fn asks(self) -> CommandView {
        if self.v != 0 && self.v != PROTOCOL_VERSION {
            CommandView::Refused { why: wrong_version(self.v) }
        } else if self.cmd@ == "reload"@ {
            CommandView::Reload
        } else if self.cmd@ == "status"@ {
            CommandView::Status
        } else if self.cmd@ == "extension"@ {
            CommandView::Extension {
                key: text_or_empty(self.key),
                minutes: match self.minutes {
                    Some(m) => m,
                    None => DEFAULT_MINUTES,
                },
            }
        } else if self.cmd@ == "apply"@ {
            if text_or_empty(self.path).len() == 0 {
                CommandView::Refused { why: "apply needs a file path"@ }
            } else {
                CommandView::Apply { path: text_or_empty(self.path) }
            }
        } else {
            CommandView::Refused { why: "unknown cmd: "@ + self.cmd@ }
        }
    }

    /// What the request asks for.
    pub fn command(&self) -> (r: Command)
        ensures
            r@ == self.asks(),
    {
        if self.v != 0 && self.v != PROTOCOL_VERSION {
            let mut s = "protocol v".to_owned();
            s.append(u32_text(self.v).as_str());
            s.append(" is not supported by this daemon (v");
            s.append(u32_text(PROTOCOL_VERSION).as_str());
            s.append("); reinstall the module");
            return Command::Refused { why: s };
        }
        let cmd = self.cmd.as_str();
        if str_eq(cmd, "reload") {
            Command::Reload
        } else if str_eq(cmd, "status") {
            Command::Status
        } else if str_eq(cmd, "extension") {
            let key = match &self.key {
                Some(k) => k.clone(),
                None => String::new(),
            };
            let minutes: u32 = match self.minutes {
                Some(m) => m,
                None => DEFAULT_MINUTES,
            };
            Command::Extension { key, minutes }
        } else if str_eq(cmd, "apply") {
            match &self.path {
                Some(p) => if p.as_str().is_empty() {
                    Command::Refused { why: "apply needs a file path".to_owned() }
                } else {
                    Command::Apply { path: p.clone() }
                },
                None => Command::Refused { why: "apply needs a file path".to_owned() },
            }
        } else {
            let mut s = "unknown cmd: ".to_owned();
            s.append(cmd);
            Command::Refused { why: s }
        }
    }
}

// ---------------------------------------------------------------------------
// How a request is answered
// ---------------------------------------------------------------------------

/// An answer, and whether the request changed daemon state, so that the main
/// loop knows whether an immediate tick is needed.
#[derive(Debug)]
pub struct Answer {
    pub resp: Response,
    pub changed: bool,
}

/// What becomes of a request.
#[derive(Debug)]
pub enum Handled {
    /// it is answered
    Answered { answer: Answer },
    /// the rules have to be reloaded first
    Reload,
    /// a candidate rules file has to be made live first
    Apply { path: String },
}

/// Whether `answer` is what a request for an extension is answered, and
/// `after` the engine that carried it out.
pub open spec fn extends(
    before: Engine,
    after: Engine,
    key: Seq<char>,
    minutes: u32,
    now: u64,
    answer: Answer,
) -> bool {
    exists|r: Result<u32, ExtensionError>| #[trigger]
        extension_outcome(before, after, key, minutes, now, r) && match r {
            Ok(m) => answer.changed && answer.resp.grants(ReplyData::Minutes { minutes: m }),
            Err(e) => !answer.changed && answer.resp.refuses(e.text()),
        }
}

/// Whether `r` is what becomes of a request that asks for `what`, and `after` what the
/// engine `before` becomes by it.
pub open spec fn is_handled(
    before: Engine,
    after: Engine,
    what: CommandView,
    now: u64,
    gate: GateHealth,
    kills: Map<u32, u64>,
    r: Handled,
) -> bool {
    match (what, r) {
        (CommandView::Reload, Handled::Reload) => after == before,
        (CommandView::Apply { path }, Handled::Apply { path: p }) => p@ == path && after == before,
        (CommandView::Refused { why }, Handled::Answered { answer }) => answer.resp.refuses(why)
            && !answer.changed && after == before,
        (CommandView::Status, Handled::Answered { answer }) => !answer.changed && after == before
            && answer.resp.data is Status && answer.resp.grants(answer.resp.data) && reports(
            answer.resp.data->status,
            before,
            now,
            gate,
            kills,
        ),
        (CommandView::Extension { key, minutes }, Handled::Answered { answer }) => extends(
            before,
            after,
            key,
            minutes,
            now,
            answer,
        ),
        _ => false,
    }
}

/// Handles one request: what needs nothing but the engine is carried out.
pub fn handle(
    req: &Request,
    engine: &mut Engine,
    now: u64,
    gate: &GateHealth,
    kills: &KillCount,
) -> (r: Handled)
    requires
        old(engine).wf(),
        req.asks() matches CommandView::Extension { key, minutes } ==> old(engine).room_to_extend(
            key,
            minutes,
            now,
        ),
    ensures
        final(engine).wf(),
        is_handled(*old(engine), *final(engine), req.asks(), now, *gate, kills@, r),
{
    match req.command() {
        Command::Reload => Handled::Reload,
        Command::Apply { path } => Handled::Apply { path },
        Command::Refused { why } => Handled::Answered {
            answer: Answer { resp: err_resp(why.as_str()), changed: false },
        },
        // Read-only snapshot: never tick here. A status query is what the WebUI
        // polls, and ticking would let opening the WebUI kill processes as a
        // side effect.
        Command::Status => {
            let status = engine.status(now, gate, kills);
            Handled::Answered {
                answer: Answer { resp: ok_resp(ReplyData::Status { status }), changed: false },
            }
        },
        Command::Extension { key, minutes } => {
            match engine.add_extension(key.as_str(), minutes, now) {
                Ok(mins) => Handled::Answered {
                    answer: Answer {
                        resp: ok_resp(ReplyData::Minutes { minutes: mins }),
                        changed: true,
                    },
                },
                Err(e) => Handled::Answered {
                    answer: Answer { resp: err_resp(e.message().as_str()), changed: false },
                },
            }
        },
    }
}

/// The answer to a reload. `error` says why it could not go through.
pub fn reload_answer(error: Option<String>) -> (r: Answer)
    ensures
        match error {
            None => r.changed && r.resp.grants(ReplyData::Empty),
            Some(e) => !r.changed && r.resp.refuses(e@),
        },
{
    match error {
        None => Answer { resp: ok_resp(ReplyData::Empty), changed: true },
        Some(e) => Answer { resp: err_resp(e.as_str()), changed: false },
    }
}

/// The answer to `apply`: how many apps the rules that became live are about, or
/// why they did not.
pub fn apply_answer(outcome: Result<usize, String>) -> (r: Answer)
    ensures
        match outcome {
            Ok(apps) => r.changed && r.resp.grants(ReplyData::Applied { apps }),
            Err(e) => !r.changed && r.resp.refuses(e@),
        },
{
    match outcome {
        Ok(apps) => Answer { resp: ok_resp(ReplyData::Applied { apps }), changed: true },
        Err(e) => Answer { resp: err_resp(e.as_str()), changed: false },
    }
}

// ---------------------------------------------------------------------------
// Laws
// ---------------------------------------------------------------------------

/// A refused request is answered as such and changes nothing: no tick follows
/// it, and the counters stay as they were.
pub proof fn a_refused_extension_changes_nothing(
    before: Engine,
    after: Engine,
    key: Seq<char>,
    minutes: u32,
    now: u64,
    answer: Answer,
)
    requires
        extends(before, after, key, minutes, now, answer),
        !answer.resp.ok,
    ensures
        !answer.changed,
        answer.resp.error is Some,
        after.counters@ == before.counters@,
        after.rules == before.rules,
        after.blocked == before.blocked,
{
}

/// A client of another protocol version is refused whatever it asks for, and a
/// client from before versioning is served.
pub proof fn only_known_versions_are_served(req: Request)
    ensures
        req.v != 0 && req.v != PROTOCOL_VERSION ==> req.asks() == (CommandView::Refused {
            why: wrong_version(req.v),
        }),
        req.v == 0 ==> req.asks() == (Request { v: PROTOCOL_VERSION, ..req }).asks(),
{
}

/// A served client gets what its command names: a reload, a status, an extension of
/// the key it gives by the minutes it gives (or five), or the rules file it gives made
/// live.
pub proof fn a_command_is_what_it_names(req: Request)
    requires
        req.v == 0 || req.v == 2,
    ensures
        req.cmd@ == "reload"@ ==> req.asks() is Reload,
        req.cmd@ == "status"@ ==> req.asks() is Status,
        req.cmd@ == "extension"@ ==> (req.asks() matches CommandView::Extension { key, minutes } && (
        req.key matches Some(k) ==> key == k@) && (req.key is None ==> key.len() == 0) && (
        req.minutes matches Some(m) ==> minutes == m) && (req.minutes is None ==> minutes == 5)),
        req.cmd@ == "apply"@ ==> (req.path matches Some(p) ==> p@.len() > 0 ==> req.asks()
            == (CommandView::Apply { path: p@ })),
        req.cmd@ == "apply"@ && (req.path is None || req.path.unwrap()@.len() == 0)
            ==> req.asks() is Refused,
{
    reveal_strlit("reload");
    reveal_strlit("status");
    reveal_strlit("extension");
    reveal_strlit("apply");
    assert("reload"@.len() == 6 && "status"@.len() == 6);
    assert("extension"@.len() == 9 && "apply"@.len() == 5);
    assert("reload"@[0] == 'r' && "status"@[0] == 's');
}

/// Any other command is refused, and the refusal names it.
pub proof fn an_unknown_command_is_refused(req: Request)
    requires
        req.v == 0 || req.v == 2,
        req.cmd@ != "reload"@,
        req.cmd@ != "status"@,
        req.cmd@ != "extension"@,
        req.cmd@ != "apply"@,
    ensures
        req.asks() == (CommandView::Refused { why: "unknown cmd: "@ + req.cmd@ }),
{
}

/// A client of any other version than none and the daemon's own is refused, whatever
/// it asks for, and told both versions.
pub proof fn another_version_is_told_so(req: Request)
    requires
        req.v != 0,
        req.v != 2,
    ensures
        req.asks() == (CommandView::Refused {
            why: "protocol v"@ + decimal(req.v as nat) + " is not supported by this daemon (v"@
                + decimal(2) + "); reinstall the module"@,
        }),
{
}

/// An answer says whether the request was carried out: one that was carries its data
/// and no error, one that was not its reason and no data.
pub proof fn an_answer_is_yes_or_no(resp: Response, data: ReplyData, msg: Seq<char>)
    ensures
        resp.grants(data) ==> resp.ok && resp.error is None && resp.data == data && resp.v == 2,
        resp.refuses(msg) ==> !resp.ok && resp.error is Some && resp.error.unwrap()@ == msg
            && resp.data is Empty && resp.v == 2,
        !(resp.grants(data) && resp.refuses(msg)),
{
}

/// A granted extension is answered with the minutes that were added, and makes a tick
/// due.
pub proof fn a_granted_extension_is_answered_with_its_minutes(
    before: Engine,
    after: Engine,
    key: Seq<char>,
    minutes: u32,
    now: u64,
    answer: Answer,
)
    requires
        extends(before, after, key, minutes, now, answer),
        answer.resp.ok,
    ensures
        answer.changed,
        exists|m: u32| #[trigger]
            extension_outcome(before, after, key, minutes, now, Ok(m)) && answer.resp.data
                == (ReplyData::Minutes { minutes: m }),
{
    let r = choose|r: Result<u32, ExtensionError>| #[trigger]
        extension_outcome(before, after, key, minutes, now, r) && match r {
            Ok(m) => answer.changed && answer.resp.grants(ReplyData::Minutes { minutes: m }),
            Err(e) => !answer.changed && answer.resp.refuses(e.text()),
        };
    assert(extension_outcome(before, after, key, minutes, now, Ok(r.unwrap())));
}

/// Opening the status page changes nothing: whatever is asked for other than an
/// extension leaves the engine as it is, and a status makes no tick due.
pub proof fn only_an_extension_changes_the_engine(
    before: Engine,
    after: Engine,
    what: CommandView,
    now: u64,
    gate: GateHealth,
    kills: Map<u32, u64>,
    r: Handled,
)
    requires
        is_handled(before, after, what, now, gate, kills, r),
    ensures
        !(what is Extension) ==> after == before,
        what is Status ==> (r matches Handled::Answered { answer } && !answer.changed
            && answer.resp.ok && answer.resp.data is Status),
        what is Refused ==> (r matches Handled::Answered { answer } && !answer.changed
            && !answer.resp.ok && answer.resp.error is Some),
        what is Reload ==> r is Reload,
        what matches CommandView::Apply { path } ==> (r matches Handled::Apply { path: p } && p@
            == path),
{
}

} // verus!
