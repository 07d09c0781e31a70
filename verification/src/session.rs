//! The per-connection session state machine: liveness, identity, the
//! current room, and the client command protocol. The transport hands
//! lines in; the session decides what to ask of the registry.

use vstd::prelude::*;

use crate::{default_room, default_room_name};
use crate::numfmt::{dec_rep, u64_to_string};

verus! {

/// One parsed client line.
pub enum Command {
    /// Request the known room names.
    List,
    /// Leave the current room and enter the named one.
    Join { room: String },
    /// Set the display name used to prefix broadcasts.
    SetName { value: String },
    /// Plain text for the current room.
    Text { body: String },
    /// A slash command that needs an argument and got none.
    MissingArg { cmd: String },
    /// A slash command nobody knows.
    Unknown { cmd: String },
}

/// The index of the first space, or the length when there is none.
pub open spec fn first_space(s: Seq<char>) -> int
    decreases s.len(),
{
    if s.len() == 0 {
        0
    } else if s[0] == ' ' {
        0
    } else {
        1 + first_space(s.drop_first())
    }
}

/// A line starting with a slash is a command.
pub open spec fn is_cmd(s: Seq<char>) -> bool {
    s.len() > 0 && s[0] == '/'
}

/// The command word: everything before the first space.
pub open spec fn head_of(s: Seq<char>) -> Seq<char> {
    s.subrange(0, first_space(s))
}

/// The argument: everything after the first space.
pub open spec fn arg_of(s: Seq<char>) -> Seq<char> {
    s.subrange(first_space(s) + 1, s.len() as int)
}

/// There is an argument exactly when a space occurs.
pub open spec fn has_arg(s: Seq<char>) -> bool {
    first_space(s) < s.len()
}

/// What parsing a line yields, case by case.
pub open spec fn parses_to(s: Seq<char>, c: Command) -> bool {
    if !is_cmd(s) {
        c matches Command::Text { body } && body@ == s
    } else if head_of(s) == "/list"@ {
        c is List
    } else if head_of(s) == "/join"@ {
        if has_arg(s) {
            c matches Command::Join { room } && room@ == arg_of(s)
        } else {
            c matches Command::MissingArg { cmd } && cmd@ == head_of(s)
        }
    } else if head_of(s) == "/name"@ {
        if has_arg(s) {
            c matches Command::SetName { value } && value@ == arg_of(s)
        } else {
            c matches Command::MissingArg { cmd } && cmd@ == head_of(s)
        }
    } else {
        c matches Command::Unknown { cmd } && cmd@ == head_of(s)
    }
}

/// At a position before which no space occurs, a space (or the end of
/// the line) pins the first-space index down.
proof fn lemma_first_space_at(s: Seq<char>, i: int)
    requires
        0 <= i <= s.len(),
        forall|j: int| 0 <= j < i ==> s[j] != ' ',
        i < s.len() ==> s[i] == ' ',
    ensures
        first_space(s) == i,
    decreases i,
{
    if i == 0 {
    } else {
        assert(s[0] != ' ');
        let t = s.drop_first();
        assert forall|j: int| 0 <= j < i - 1 implies t[j] != ' ' by {
            assert(t[j] == s[j + 1]);
        }
        if i - 1 < t.len() {
            assert(t[i - 1] == s[i]);
        }
        lemma_first_space_at(t, i - 1);
    }
}

/// Parses one client line. Everything that does not start with a
/// slash is plain text; a malformed command is reported back, never
/// an error.
pub fn parse_command(line: &String) -> (c: Command)
    ensures
        parses_to(line@, c),
{
    let s = line.as_str();
    let n = s.unicode_len();
    if n == 0 {
        return Command::Text { body: line.clone() };
    }
    if s.get_char(0) != '/' {
        proof {
            reveal_strlit("/");
        }
        return Command::Text { body: line.clone() };
    }
    let mut i: usize = 0;
    while i < n
        invariant
            n == line@.len(),
            0 <= i <= n,
            s@ == line@,
            forall|j: int| 0 <= j < i ==> line@[j] != ' ',
        ensures
            0 <= i <= n,
            forall|j: int| 0 <= j < i ==> line@[j] != ' ',
            i < n ==> line@[i as int] == ' ',
        decreases n - i,
    {
        if s.get_char(i) == ' ' {
            break ;
        }
        i += 1;
    }
    proof {
        lemma_first_space_at(line@, i as int);
    }
    let head = s.substring_char(0, i);
    let head_string = head.to_owned();
    if head_string == "/list".to_owned() {
        Command::List
    } else if head_string == "/join".to_owned() {
        if i < n {
            let arg = s.substring_char(i + 1, n);
            Command::Join { room: arg.to_owned() }
        } else {
            Command::MissingArg { cmd: head_string }
        }
    } else if head_string == "/name".to_owned() {
        if i < n {
            let arg = s.substring_char(i + 1, n);
            Command::SetName { value: arg.to_owned() }
        } else {
            Command::MissingArg { cmd: head_string }
        }
    } else {
        Command::Unknown { cmd: head_string }
    }
}

/// Connection lifecycle: a session is created, joins on registration,
/// and ends disconnected; the last state is terminal.
pub enum Phase {
    Connecting,
    Joined,
    Disconnected,
}

/// What the session asks of its surroundings after one inbound line.
pub enum SessionAction {
    /// Hand the framed body to the registry for the given room.
    Broadcast { room: String, body: String },
    /// Ask the registry for the room-name snapshot.
    RequestList,
    /// Ask the registry to move this session to the named room.
    RequestJoin { room: String },
    /// Answer the client directly: a malformed command is a notice,
    /// never an error, and the session stays joined.
    Reply { body: String },
    /// Nothing to send anywhere.
    Quiet,
}

/// Runtime state of one client connection.
pub struct Session {
    pub phase: Phase,
    pub id: u64,
    pub last_seen: u64,
    pub room: String,
    pub name: Option<String>,
    pub unregistered: bool,
}

/// The notice for a slash command that lacks its argument.
pub open spec fn missing_arg_notice(cmd: Seq<char>) -> Seq<char> {
    if cmd == "/join"@ {
        "!!! room name is required"@
    } else {
        "!!! name is required"@
    }
}

/// How one inbound line moves the session and what action it yields.
pub open spec fn frame_post(pre: Session, post: Session, line: Seq<char>, act: SessionAction) -> bool {
    &&& post.phase is Joined
    &&& post.id == pre.id
    &&& post.last_seen == pre.last_seen
    &&& post.unregistered == pre.unregistered
    &&& if !is_cmd(line) {
        &&& post.room == pre.room
        &&& post.name == pre.name
        &&& act matches SessionAction::Broadcast { room, body } && room == pre.room && body@
            == framed(pre.name, pre.id, line)
    } else if head_of(line) == "/list"@ {
        &&& post.room == pre.room
        &&& post.name == pre.name
        &&& act is RequestList
    } else if head_of(line) == "/join"@ {
        if has_arg(line) {
            &&& post.room@ == arg_of(line)
            &&& post.name == pre.name
            &&& act matches SessionAction::RequestJoin { room } && room@ == arg_of(line)
        } else {
            &&& post.room == pre.room
            &&& post.name == pre.name
            &&& act matches SessionAction::Reply { body } && body@ == missing_arg_notice(
                head_of(line),
            )
        }
    } else if head_of(line) == "/name"@ {
        if has_arg(line) {
            &&& post.room == pre.room
            &&& (post.name matches Some(v) && v@ == arg_of(line))
            &&& act is Quiet
        } else {
            &&& post.room == pre.room
            &&& post.name == pre.name
            &&& act matches SessionAction::Reply { body } && body@ == missing_arg_notice(
                head_of(line),
            )
        }
    } else {
        &&& post.room == pre.room
        &&& post.name == pre.name
        &&& act matches SessionAction::Reply { body } && body@ == "!!! unknown command"@
    }
}

impl Session {
    /// A fresh connection: identity unset, liveness now, default
    /// room, no display name.
    pub fn new(now: u64) -> (s: Session)
        ensures
            s.phase is Connecting,
            s.id == 0,
            s.last_seen == now,
            s.room@ == default_room(),
            s.name is None,
            !s.unregistered,
    {
        Session {
            phase: Phase::Connecting,
            id: 0,
            last_seen: now,
            room: default_room_name(),
            name: None,
            unregistered: false,
        }
    }

    /// The registry accepted the registration and assigned a concrete
    /// identity: the session becomes eligible for room traffic.
    pub fn on_registered(&mut self, id: u64)
        requires
            old(self).phase is Connecting,
        ensures
            final(self).phase is Joined,
            final(self).id == id,
            final(self).last_seen == old(self).last_seen,
            final(self).room == old(self).room,
            final(self).name == old(self).name,
            final(self).unregistered == old(self).unregistered,
    {
        self.phase = Phase::Joined;
        self.id = id;
    }

    /// An inbound liveness signal refreshes the timestamp.
    pub fn on_ping(&mut self, now: u64)
        ensures
            final(self).last_seen == now,
            final(self).phase == old(self).phase,
            final(self).id == old(self).id,
            final(self).room == old(self).room,
            final(self).name == old(self).name,
            final(self).unregistered == old(self).unregistered,
    {
        self.last_seen = now;
    }

    /// Handles one inbound text line while joined: plain text becomes
    /// a framed broadcast for the current room; commands steer the
    /// session; a malformed command draws a notice and nothing more.
    pub fn handle_frame(&mut self, line: &String) -> (act: SessionAction)
        requires
            old(self).phase is Joined,
        ensures
            frame_post(*old(self), *final(self), line@, act),
    {
        match parse_command(line) {
            Command::Text { body } => {
                let framed_body = frame_outgoing(&self.name, self.id, &body);
                SessionAction::Broadcast { room: self.room.clone(), body: framed_body }
            },
            Command::List => SessionAction::RequestList,
            Command::Join { room } => {
                self.room = room.clone();
                SessionAction::RequestJoin { room }
            },
            Command::SetName { value } => {
                self.name = Some(value);
                SessionAction::Quiet
            },
            Command::MissingArg { cmd } => {
                if cmd == "/join".to_owned() {
                    SessionAction::Reply { body: "!!! room name is required".to_owned() }
                } else {
                    SessionAction::Reply { body: "!!! name is required".to_owned() }
                }
            },
            Command::Unknown { cmd: _ } => {
                SessionAction::Reply { body: "!!! unknown command".to_owned() }
            },
        }
    }

    /// The transport closed or the sweep evicted the session: the
    /// session is terminal, and exactly the first close asks for the
    /// registry unregistration.
    pub fn on_close(&mut self) -> (unregister: bool)
        ensures
            final(self).phase is Disconnected,
            final(self).unregistered,
            unregister == !old(self).unregistered,
            final(self).id == old(self).id,
            final(self).last_seen == old(self).last_seen,
            final(self).room == old(self).room,
            final(self).name == old(self).name,
    {
        self.phase = Phase::Disconnected;
        let unregister = !self.unregistered;
        self.unregistered = true;
        unregister
    }
}

/// A broadcast body: the text prefixed by the display name when one
/// is set, by the session identity otherwise.
pub open spec fn framed(name: Option<String>, id: u64, text: Seq<char>) -> Seq<char> {
    match name {
        Some(n) => n@ + ": "@ + text,
        None => dec_rep(id as int) + ": "@ + text,
    }
}

/// Renders the broadcast body for a session.
pub fn frame_outgoing(name: &Option<String>, id: u64, text: &String) -> (r: String)
    ensures
        r@ == framed(*name, id, text@),
{
    let mut s: String = match name {
        Some(n) => n.clone(),
        None => u64_to_string(id),
    };
    s.append(": ");
    s.append(text.as_str());
    proof {
        assert(s@ =~= framed(*name, id, text@));
    }
    s
}

} // verus!
