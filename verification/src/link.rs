//! The lifecycle of a server connection, and what its answers mean.
//!
//! The link pauses when the application goes to the background and resumes by a fresh login.
//! Every change of state is told to the caller, who shows it. The socket is the caller's: the
//! link says whether it holds one, and decides on each packet, timeout and failure.
use vstd::prelude::*;
use crate::net::SocketAddr;
use crate::proto::Packet;
use crate::search;
use crate::search::{
    parse_search_result_page, SearchResultFile, SearchResultPage,
};
use crate::text;
use crate::text::{push_decimal, push_text, string_of};

verus! {

/// The packets that one poll reads at most.
pub const POLL_BUDGET: u32 = 64;

/// What a server search did. An empty answer and a failed question are different facts.
#[derive(Debug, Clone, PartialEq, Eq)]
pub enum ServerSearchOutcome {
    /// The server answered. The page may hold no file.
    Page(SearchResultPage),
    /// No result came in time.
    NoAnswer { waited_secs: u64 },
    /// The server's answer could not be parsed.
    Malformed { bytes: usize, why: String },
}

impl ServerSearchOutcome {
    /// The files, where the server answered: both failures give none.
    pub fn files(self) -> (files: Vec<SearchResultFile>)
        ensures
            match self {
                ServerSearchOutcome::Page(p) => files == p.files,
                _ => files@.len() == 0,
            },
    {
        match self {
            ServerSearchOutcome::Page(p) => p.files,
            _ => Vec::new(),
        }
    }

    /// What `failure_reason` says.
    pub open spec fn reason(&self) -> Option<Seq<char>> {
        match self {
            ServerSearchOutcome::Page(_) => None,
            ServerSearchOutcome::NoAnswer { waited_secs } => Some(
                "the server did not answer the search within "@ + text::decimal(
                    *waited_secs as nat,
                ) + "s"@,
            ),
            ServerSearchOutcome::Malformed { bytes, why } => Some(
                "the server sent "@ + text::decimal(*bytes as nat)
                    + " bytes we could not read ("@ + why@ + ")"@,
            ),
        }
    }

    /// A short reason to show, or `None` where the server answered.
    pub fn failure_reason(&self) -> (r: Option<String>)
        ensures
            r is Some == self.reason() is Some,
            r is Some ==> r->0@ == self.reason()->0,
    {
        let mut out: Vec<char> = Vec::new();
        match self {
            ServerSearchOutcome::Page(_) => {
                return None;
            },
            ServerSearchOutcome::NoAnswer { waited_secs } => {
                push_text(&mut out, "the server did not answer the search within ");
                push_decimal(&mut out, *waited_secs);
                push_text(&mut out, "s");
            },
            ServerSearchOutcome::Malformed { bytes, why } => {
                push_text(&mut out, "the server sent ");
                push_decimal(&mut out, *bytes as u64);
                push_text(&mut out, " bytes we could not read (");
                push_text(&mut out, why.as_str());
                push_text(&mut out, ")");
            },
        }
        assert(out@ =~= self.reason()->0);
        Some(string_of(&out))
    }
}

/// What the answer to a search, or its absence, means.
pub fn read_search_page(answer: Option<Packet>, waited_secs: u64) -> (out: ServerSearchOutcome)
    ensures
        match answer {
            None => out == (ServerSearchOutcome::NoAnswer { waited_secs }),
            Some(p) => match search::parse_results(p.payload@) {
                Ok((files, rest)) => {
                    &&& out is Page
                    &&& search::result_views(out->Page_0.files@) == files
                    &&& out->Page_0.more == (rest.len() > 0 && rest[0] != 0)
                },
                Err(e) => {
                    &&& out is Malformed
                    &&& out->bytes == p.payload@.len()
                    &&& out->why@ == e.said()
                },
            },
        },
{
    match answer {
        None => ServerSearchOutcome::NoAnswer { waited_secs },
        Some(p) => match parse_search_result_page(&p.payload) {
            Ok(page) => ServerSearchOutcome::Page(page),
            Err(e) => ServerSearchOutcome::Malformed {
                bytes: p.payload.len(),
                why: e.message(),
            },
        },
    }
}

/// How a server connection stands.
#[derive(Debug, Clone, Copy, PartialEq, Eq, Structural)]
pub enum ServerState {
    Disconnected,
    Connecting,
    Connected { id: u32, low_id: bool, related_search: bool },
    /// The server refused the login; the socket is still held.
    Rejected,
    PausedForBackground,
}

/// What the server answered to a login.
#[derive(Debug, Clone, Copy, PartialEq, Eq, Structural)]
pub enum LoginAnswer {
    Accepted { id: u32, low_id: bool, related_search: bool },
    Rejected,
}

/// The state that a login leads to.
pub open spec fn state_after(login: LoginAnswer) -> ServerState {
    match login {
        LoginAnswer::Accepted { id, low_id, related_search } => ServerState::Connected {
            id,
            low_id,
            related_search,
        },
        LoginAnswer::Rejected => ServerState::Rejected,
    }
}

/// What a read on the socket gave.
#[derive(Debug, Clone, PartialEq, Eq)]
pub enum Incoming {
    Packet(Packet),
    /// Nothing came in time.
    TimedOut,
    /// The connection is lost.
    Failed,
}

/// What to do with what a poll read.
#[derive(Debug, Clone, PartialEq, Eq)]
pub enum PollStep {
    /// Hand the packet on, and read again if `again`.
    Forward { packet: Packet, again: bool },
    /// Nothing to read now.
    Idle,
    /// The connection is lost: close the socket and tell that the link is disconnected.
    Lost,
}

/// What to do with what was read while an answer is awaited.
#[derive(Debug, Clone, PartialEq, Eq)]
pub enum RequestStep {
    /// This is the answer.
    Answer(Packet),
    /// This is something else the server says: hand it on and read again.
    Forward(Packet),
    /// The answer did not come in time.
    NoAnswer,
    /// The read failed: hand the failure to whoever asked.
    Fail,
}

/// A server link: where the server is, how the connection stands, and whether a socket is held.
#[derive(Debug, Clone, Copy, PartialEq, Eq, Structural)]
pub struct ServerLink {
    pub addr: SocketAddr,
    pub state: ServerState,
    pub open: bool,
}

impl ServerLink {
    /// A link that was answered holds a socket; one that is disconnected or paused holds none.
    pub open spec fn wf(&self) -> bool {
        match self.state {
            ServerState::Connected { .. } => self.open,
            ServerState::Rejected => self.open,
            ServerState::Connecting => true,
            ServerState::Disconnected => !self.open,
            ServerState::PausedForBackground => !self.open,
        }
    }

    pub fn new(addr: SocketAddr) -> (link: ServerLink)
        ensures
            link.wf(),
            link == (ServerLink { addr, state: ServerState::Disconnected, open: false }),
    {
        ServerLink { addr, state: ServerState::Disconnected, open: false }
    }

    pub fn state(&self) -> (s: &ServerState)
        ensures
            *s == self.state,
    {
        &self.state
    }

    pub fn addr(&self) -> (a: SocketAddr)
        ensures
            a == self.addr,
    {
        self.addr
    }

    pub fn is_connected(&self) -> (b: bool)
        ensures
            b == self.state is Connected,
    {
        matches!(self.state, ServerState::Connected { .. })
    }

    /// Whether the server answers searches for related files.
    pub fn related_search_supported(&self) -> (b: bool)
        ensures
            b == (self.state is Connected && self.state->related_search),
    {
        match self.state {
            ServerState::Connected { related_search, .. } => related_search,
            _ => false,
        }
    }

    /// Start to connect, or to connect anew. The state returned is to be told.
    pub fn connecting(&mut self) -> (told: ServerState)
        ensures
            *final(self) == (ServerLink { state: ServerState::Connecting, ..*old(self) }),
            final(self).wf(),
            told == ServerState::Connecting,
    {
        self.state = ServerState::Connecting;
        self.state
    }

    /// The login was answered: the link holds the socket, and stands as the answer says. The
    /// login has told the state.
    pub fn established(&mut self, login: LoginAnswer)
        ensures
            *final(self) == (ServerLink {
                addr: old(self).addr,
                state: state_after(login),
                open: true,
            }),
            final(self).wf(),
    {
        self.open = true;
        self.state = match login {
            LoginAnswer::Accepted { id, low_id, related_search } => ServerState::Connected {
                id,
                low_id,
                related_search,
            },
            LoginAnswer::Rejected => ServerState::Rejected,
        };
    }

    /// Connecting failed, the connection is lost, or it is given up: the socket goes. The state
    /// returned is to be told.
    pub fn disconnect(&mut self) -> (told: ServerState)
        ensures
            *final(self) == (ServerLink {
                addr: old(self).addr,
                state: ServerState::Disconnected,
                open: false,
            }),
            final(self).wf(),
            told == ServerState::Disconnected,
    {
        self.open = false;
        self.state = ServerState::Disconnected;
        self.state
    }

    /// The application goes to the background: the socket goes. The state returned is to be
    /// told.
    pub fn pause(&mut self) -> (told: ServerState)
        ensures
            *final(self) == (ServerLink {
                addr: old(self).addr,
                state: ServerState::PausedForBackground,
                open: false,
            }),
            final(self).wf(),
            told == ServerState::PausedForBackground,
    {
        self.open = false;
        self.state = ServerState::PausedForBackground;
        self.state
    }

    /// Decide on the `n`th read of a poll, counted from zero. A poll of a link without a socket
    /// reads nothing.
    pub fn poll_incoming(&mut self, n: u32, incoming: Incoming) -> (step: PollStep)
        requires
            old(self).wf(),
            n < POLL_BUDGET,
        ensures
            final(self).wf(),
            step == if !old(self).open {
                PollStep::Idle
            } else {
                match incoming {
                    Incoming::Packet(packet) => PollStep::Forward {
                        packet,
                        again: n + 1 < POLL_BUDGET,
                    },
                    Incoming::TimedOut => PollStep::Idle,
                    Incoming::Failed => PollStep::Lost,
                }
            },
            *final(self) == if step is Lost {
                ServerLink { addr: old(self).addr, state: ServerState::Disconnected, open: false }
            } else {
                *old(self)
            },
    {
        if !self.open {
            return PollStep::Idle;
        }
        match incoming {
            Incoming::Packet(packet) => PollStep::Forward { packet, again: n + 1 < POLL_BUDGET },
            Incoming::TimedOut => PollStep::Idle,
            Incoming::Failed => {
                self.disconnect();
                PollStep::Lost
            },
        }
    }
}

/// How long a request that runs out at `deadline` may still wait, or `None` where its time is
/// up.
pub fn remaining_wait(deadline: u64, now: u64) -> (left: Option<u64>)
    ensures
        left is Some == (now < deadline),
        left is Some ==> left->0 == deadline - now,
{
    if now < deadline {
        Some(deadline - now)
    } else {
        None
    }
}

/// Decide on what was read while an answer with the opcode `want` is awaited. What the server
/// says besides is handed on, never swallowed, and does not end the wait.
pub fn request_step(want: u8, incoming: Incoming) -> (step: RequestStep)
    ensures
        step == match incoming {
            Incoming::Packet(p) => if p.opcode == want {
                RequestStep::Answer(p)
            } else {
                RequestStep::Forward(p)
            },
            Incoming::TimedOut => RequestStep::NoAnswer,
            Incoming::Failed => RequestStep::Fail,
        },
{
    match incoming {
        Incoming::Packet(p) => if p.opcode == want {
            RequestStep::Answer(p)
        } else {
            RequestStep::Forward(p)
        },
        Incoming::TimedOut => RequestStep::NoAnswer,
        Incoming::Failed => RequestStep::Fail,
    }
}

/// The three ways to no results are told apart: a failure has a reason exactly where the server
/// did not answer with a page, and the two reasons differ.
pub proof fn law_failures_are_told_apart(
    page: SearchResultPage,
    waited_secs: u64,
    bytes: usize,
    why: String,
)
    ensures
        ServerSearchOutcome::Page(page).reason() is None,
        (ServerSearchOutcome::NoAnswer { waited_secs }).reason() is Some,
        (ServerSearchOutcome::Malformed { bytes, why }).reason() is Some,
        (ServerSearchOutcome::NoAnswer { waited_secs }).reason() != (
        ServerSearchOutcome::Malformed { bytes, why }).reason(),
{
    reveal_strlit("the server did not answer the search within ");
    reveal_strlit("the server sent ");
    let a = (ServerSearchOutcome::NoAnswer { waited_secs }).reason()->0;
    let b = (ServerSearchOutcome::Malformed { bytes, why }).reason()->0;
    assert(a[11] == 'd');
    assert(b[11] == 's');
}

/// A login that is accepted connects the link under the id and with the abilities that the server
/// gave; one that is refused does not connect it. No state but that of an accepted login does.
pub proof fn law_only_an_accepted_login_connects(login: LoginAnswer)
    ensures
        state_after(login) is Connected <==> login is Accepted,
        login matches LoginAnswer::Accepted { id, low_id, related_search } ==> state_after(login)
            == (ServerState::Connected { id, low_id, related_search }),
{
}

} // verus!
