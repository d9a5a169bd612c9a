//! The connection registry: the connections of a server by token, and the
//! decisions of its event loop.
//!
//! The loop itself, with the listening socket and the readiness multiplexer,
//! belongs to the caller. It reports each thing that happened as an
//! [`Event`] and carries out the [`Action`] that comes back.

use std::collections::HashMap;
use vstd::prelude::*;
use crate::client::{
    lemma_closed_keeps_wf, lemma_interest_never_empty, lemma_queued_keeps_wf,
    lemma_read_keeps_wf, lemma_write_keeps_wf, ClientView, CloseReason,
    ConnectionState, InterestSet, Limits, ReadInput, WebSocketClient, WriteResult,
};
use crate::frame::{frame_views, Frame, FrameView};

verus! {

broadcast use vstd::std_specs::hash::group_hash_axioms;

/// The token of the listening socket. No connection ever has it.
pub const SERVER_TOKEN: usize = 0;

/// Something that happened on a socket, or that the application wants.
#[derive(Debug)]
pub enum Event {
    /// The listening socket was readable and gave a connection.
    Accepted,
    /// The socket of this connection was readable, and reading it gave this.
    Read(usize, ReadInput),
    /// The application has a frame for this connection.
    Send(usize, Frame),
    /// The socket of this connection is writable.
    Writable(usize),
    /// The socket of this connection answered the bytes of the last
    /// [`Action::Write`].
    Written(usize, WriteResult),
    /// The multiplexer refused to register this connection's socket.
    RegistrationFailed(usize),
}

/// How a connection goes on after an event.
#[derive(Clone, Copy, Debug, PartialEq, Eq, Structural)]
pub enum Rearm {
    /// Register its socket again, one-shot, for these events.
    Reregister(InterestSet),
    /// It closed for this reason and is gone from the registry: release its
    /// socket.
    Remove(CloseReason),
}

/// What the event loop has to do after an event.
#[derive(Debug, PartialEq, Eq)]
pub enum Action {
    /// Nothing. After [`Event::Accepted`]: no token is left, drop the socket.
    Ignore,
    /// A connection was made under this token: register its socket,
    /// edge-triggered and one-shot, for these events.
    Register(usize, InterestSet),
    /// Go on with this connection as the [`Rearm`] says.
    Rearm(usize, Rearm),
    /// Offer these bytes to the socket of this connection and report the
    /// answer with [`Event::Written`].
    Write(usize, Vec<u8>),
    /// Hand these frames, which came in on this connection, to the
    /// application, and go on with the connection as the [`Rearm`] says.
    Deliver(usize, Vec<Frame>, Rearm),
}

/// The mathematical value of an [`Action`].
pub enum ActionView {
    Ignore,
    Register(usize, InterestSet),
    Rearm(usize, Rearm),
    Write(usize, Seq<u8>),
    Deliver(usize, Seq<FrameView>, Rearm),
}

impl View for Action {
    type V = ActionView;

    open spec fn view(&self) -> ActionView {
        match *self {
            Action::Ignore => ActionView::Ignore,
            Action::Register(token, interest) => ActionView::Register(token, interest),
            Action::Rearm(token, rearm) => ActionView::Rearm(token, rearm),
            Action::Write(token, bytes) => ActionView::Write(token, bytes@),
            Action::Deliver(token, frames, rearm) => ActionView::Deliver(
                token,
                frame_views(frames@),
                rearm,
            ),
        }
    }
}

/// The mathematical value of a [`WebSocketServer`].
pub struct ServerView {
    /// The connections that are alive, by token.
    pub clients: Map<usize, ClientView>,
    /// The token that the next connection gets.
    pub token_counter: nat,
    /// The limits that every connection gets.
    pub limits: Limits,
}

/// How a connection in state `client` goes on: a closed one is removed, any
/// other waits for the events of its interest set.
pub open spec fn rearm_for(client: ClientView) -> Rearm {
    match client.closed_by {
        Some(reason) => Rearm::Remove(reason),
        None => Rearm::Reregister(client.interest),
    }
}

impl ServerView {
    /// The invariant of the registry: tokens are handed out in rising order
    /// from 1, so that no connection has the listening socket's token or one
    /// still to be issued, and every connection in it is well formed and not
    /// closed.
    pub open spec fn wf(self) -> bool {
        &&& 1 <= self.token_counter <= usize::MAX
        &&& forall|token: usize| #[trigger]
            self.clients.contains_key(token) ==> {
                &&& 0 < token < self.token_counter
                &&& self.clients[token].wf()
                &&& self.clients[token].state != ConnectionState::Closed
            }
    }

    /// The registry after the connection under `token` became `client`: it
    /// stays, or leaves if it is closed.
    pub open spec fn settle(self, token: usize, client: ClientView) -> ServerView {
        if client.state == ConnectionState::Closed {
            ServerView { clients: self.clients.remove(token), ..self }
        } else {
            ServerView { clients: self.clients.insert(token, client), ..self }
        }
    }

    /// The connection that an event is about, as it is after the event, and
    /// what the event loop has to do for it. Meant for an event about a
    /// connection in the registry.
    pub open spec fn client_step(self, event: Event) -> (ClientView, ActionView) {
        match event {
            Event::Read(token, input) => {
                let before = self.clients[token];
                let after = before.after_read(input);
                let frames = match input {
                    ReadInput::Data(data) => before.delivered(data@),
                    _ => Seq::empty(),
                };
                if frames.len() > 0 {
                    (after, ActionView::Deliver(token, frames, rearm_for(after)))
                } else {
                    (after, ActionView::Rearm(token, rearm_for(after)))
                }
            },
            Event::Send(token, frame) => {
                let after = self.clients[token].queued(frame@);
                (after, ActionView::Rearm(token, rearm_for(after)))
            },
            Event::Writable(token) => {
                let before = self.clients[token];
                let after = before.writing();
                if before.to_write().len() > 0 {
                    (after, ActionView::Write(token, before.to_write()))
                } else {
                    (after, ActionView::Rearm(token, rearm_for(after)))
                }
            },
            Event::Written(token, result) => {
                let after = self.clients[token].written(result);
                (after, ActionView::Rearm(token, rearm_for(after)))
            },
            Event::RegistrationFailed(token) => {
                let after = self.clients[token].closed(CloseReason::Unregistered);
                (after, ActionView::Rearm(token, rearm_for(after)))
            },
            Event::Accepted => (
                ClientView::initial(self.limits),
                ActionView::Register(
                    self.token_counter as usize,
                    InterestSet { readable: true, writable: false },
                ),
            ),
        }
    }

    /// The token of the connection that an event is about. A connection that
    /// is accepted gets the next token.
    pub open spec fn subject(self, event: Event) -> usize {
        match event {
            Event::Accepted => self.token_counter as usize,
            Event::Read(token, _) => token,
            Event::Send(token, _) => token,
            Event::Writable(token) => token,
            Event::Written(token, _) => token,
            Event::RegistrationFailed(token) => token,
        }
    }

    /// The registry after an event. A connection that is accepted enters
    /// under the next token, unless none is left. An event about a token that
    /// names no connection changes nothing. Any other event changes the one
    /// connection it is about, which leaves the registry if it closed.
    pub open spec fn after(self, event: Event) -> ServerView {
        match event {
            Event::Accepted => if self.token_counter >= usize::MAX {
                self
            } else {
                ServerView {
                    clients: self.clients.insert(
                        self.token_counter as usize,
                        ClientView::initial(self.limits),
                    ),
                    token_counter: self.token_counter + 1,
                    ..self
                }
            },
            _ => if self.clients.contains_key(self.subject(event)) {
                self.settle(self.subject(event), self.client_step(event).0)
            } else {
                self
            },
        }
    }

    /// What the event loop has to do after an event.
    pub open spec fn action(self, event: Event) -> ActionView {
        match event {
            Event::Accepted => if self.token_counter >= usize::MAX {
                ActionView::Ignore
            } else {
                self.client_step(event).1
            },
            _ => if self.clients.contains_key(self.subject(event)) {
                self.client_step(event).1
            } else {
                ActionView::Ignore
            },
        }
    }
}

/// An event leaves a well-formed registry well formed.
pub proof fn lemma_step_keeps_wf(server: ServerView, event: Event)
    requires
        server.wf(),
    ensures
        server.after(event).wf(),
{
    let token = server.subject(event);
    match event {
        Event::Accepted => {},
        _ => {
            if server.clients.contains_key(token) {
                let before = server.clients[token];
                match event {
                    Event::Read(_, input) => {
                        lemma_read_keeps_wf(before, input);
                    },
                    Event::Send(_, frame) => {
                        lemma_queued_keeps_wf(before, frame@);
                    },
                    Event::Writable(_) => {
                        lemma_write_keeps_wf(before, WriteResult::WouldBlock);
                    },
                    Event::Written(_, result) => {
                        lemma_write_keeps_wf(before, result);
                    },
                    Event::RegistrationFailed(_) => {
                        lemma_closed_keeps_wf(before, CloseReason::Unregistered);
                    },
                    Event::Accepted => {},
                }
            }
        },
    }
}

/// An event touches one connection and no other: every connection under
/// another token than the event's is in the registry afterwards exactly if it
/// was before, and is as it was.
pub proof fn lemma_step_is_local(server: ServerView, event: Event, other: usize)
    requires
        other != server.subject(event),
    ensures
        server.after(event).clients.contains_key(other) == server.clients.contains_key(other),
        server.clients.contains_key(other) ==> server.after(event).clients[other]
            == server.clients[other],
        server.after(event).limits == server.limits,
{
}

/// The token of a new connection is fresh: it is not the listening socket's,
/// no connection in the registry has it, and it is below every token issued
/// after it.
pub proof fn lemma_tokens_are_fresh(server: ServerView, token: usize, interest: InterestSet)
    requires
        server.wf(),
        server.action(Event::Accepted) == ActionView::Register(token, interest),
    ensures
        token != SERVER_TOKEN,
        !server.clients.contains_key(token),
        token == server.token_counter,
        server.after(Event::Accepted).token_counter == token + 1,
        server.after(Event::Accepted).clients.contains_key(token),
        server.after(Event::Accepted).clients[token] == ClientView::initial(server.limits),
        interest == (InterestSet { readable: true, writable: false }),
{
}

/// Tokens are never taken back: no event lowers the counter.
pub proof fn lemma_counter_never_falls(server: ServerView, event: Event)
    ensures
        server.after(event).token_counter >= server.token_counter,
{
}

/// After any event the connection it was about is armed or gone: an interest
/// set to register is never empty and is the connection's own after the
/// event, a connection to remove has left the registry, and bytes to write
/// are never none.
pub proof fn lemma_action_arms(server: ServerView, event: Event)
    requires
        server.wf(),
    ensures
        ({
            let after = server.after(event);
            match server.action(event) {
                ActionView::Ignore => after == server,
                ActionView::Register(token, interest) => {
                    &&& !interest.is_empty()
                    &&& after.clients.contains_key(token)
                    &&& after.clients[token].interest == interest
                },
                ActionView::Rearm(token, Rearm::Reregister(interest)) => {
                    &&& !interest.is_empty()
                    &&& after.clients.contains_key(token)
                    &&& after.clients[token].interest == interest
                },
                ActionView::Deliver(token, frames, Rearm::Reregister(interest)) => {
                    &&& !interest.is_empty()
                    &&& after.clients.contains_key(token)
                    &&& after.clients[token].interest == interest
                    &&& frames.len() > 0
                },
                ActionView::Rearm(token, Rearm::Remove(_)) => !after.clients.contains_key(token),
                ActionView::Deliver(token, frames, Rearm::Remove(_)) => {
                    &&& !after.clients.contains_key(token)
                    &&& frames.len() > 0
                },
                ActionView::Write(token, bytes) => {
                    &&& after.clients.contains_key(token)
                    &&& after.clients[token].pending == bytes
                    &&& bytes.len() > 0
                },
            }
        }),
{
    lemma_step_keeps_wf(server, event);
    let token = server.subject(event);
    let after = server.after(event);
    if after.clients.contains_key(token) {
        lemma_interest_never_empty(after.clients[token]);
    }
}

/// Every connection in a well-formed registry waits for at least one
/// readiness event.
pub proof fn lemma_registry_is_armed(server: ServerView, token: usize)
    requires
        server.wf(),
        server.clients.contains_key(token),
    ensures
        !server.clients[token].interest.is_empty(),
{
    lemma_interest_never_empty(server.clients[token]);
}

/// The registry of a server's connections.
pub struct WebSocketServer {
    clients: HashMap<usize, WebSocketClient>,
    token_counter: usize,
    limits: Limits,
}

impl View for WebSocketServer {
    type V = ServerView;

    closed spec fn view(&self) -> ServerView {
        ServerView {
            clients: Map::new(
                |token: usize| self.clients@.contains_key(token),
                |token: usize| self.clients@[token]@,
            ),
            token_counter: self.token_counter as nat,
            limits: self.limits,
        }
    }
}

impl WebSocketServer {
    /// The invariant of the registry. Every function here keeps it.
    pub open spec fn wf(&self) -> bool {
        self@.wf()
    }

    /// An empty registry for a server whose connections keep to `limits`. The
    /// first connection gets the token 1.
    pub fn new(limits: Limits) -> (server: WebSocketServer)
        ensures
            server.wf(),
            server@ == (ServerView {
                clients: Map::empty(),
                token_counter: 1,
                limits,
            }),
    {
        let server = WebSocketServer { clients: HashMap::new(), token_counter: 1, limits };
        assert(server@.clients =~= Map::<usize, ClientView>::empty());
        server
    }

    /// How many connections are alive.
    pub fn len(&self) -> (len: usize)
        ensures
            len == self@.clients.dom().len(),
    {
        proof {
            assert(self@.clients.dom() =~= self.clients@.dom());
        }
        self.clients.len()
    }

    /// The connection under `token`, if there is one.
    pub fn client(&self, token: usize) -> (client: Option<&WebSocketClient>)
        ensures
            match client {
                Some(c) => self@.clients.contains_key(token) && self@.clients[token] == c@,
                None => !self@.clients.contains_key(token),
            },
    {
        self.clients.get(&token)
    }

    /// Puts a connection that was taken out for an event back under its
    /// token, unless it closed.
    fn settle(&mut self, token: usize, client: WebSocketClient) -> (rearm: Rearm)
        requires
            !old(self).clients@.contains_key(token),
            client.wf(),
        ensures
            rearm == rearm_for(client@),
            final(self).token_counter == old(self).token_counter,
            final(self).limits == old(self).limits,
            final(self).clients@ == if client@.state == ConnectionState::Closed {
                old(self).clients@
            } else {
                old(self).clients@.insert(token, client)
            },
    {
        match client.close_reason() {
            Some(reason) => Rearm::Remove(reason),
            None => {
                let interest = client.interest();
                self.clients.insert(token, client);
                Rearm::Reregister(interest)
            },
        }
    }

    /// Takes an event and says what the event loop has to do.
    pub fn ready(&mut self, event: Event) -> (action: Action)
        requires
            old(self).wf(),
        ensures
            final(self).wf(),
            final(self)@ == old(self)@.after(event),
            action@ == old(self)@.action(event),
    {
        proof {
            lemma_step_keeps_wf(self@, event);
        }
        let action = match event {
            Event::Accepted => {
                if self.token_counter == usize::MAX {
                    Action::Ignore
                } else {
                    let token = self.token_counter;
                    let client = WebSocketClient::new(self.limits);
                    self.clients.insert(token, client);
                    self.token_counter = token + 1;
                    Action::Register(token, InterestSet::readable())
                }
            },
            Event::Read(token, input) => match self.clients.remove(&token) {
                None => Action::Ignore,
                Some(mut client) => {
                    let frames = client.read(input);
                    let rearm = self.settle(token, client);
                    if frames.len() > 0 {
                        Action::Deliver(token, frames, rearm)
                    } else {
                        Action::Rearm(token, rearm)
                    }
                },
            },
            Event::Send(token, frame) => match self.clients.remove(&token) {
                None => Action::Ignore,
                Some(mut client) => {
                    client.enqueue(frame);
                    let rearm = self.settle(token, client);
                    Action::Rearm(token, rearm)
                },
            },
            Event::Writable(token) => match self.clients.remove(&token) {
                None => Action::Ignore,
                Some(mut client) => {
                    let bytes = client.write();
                    let rearm = self.settle(token, client);
                    if bytes.len() > 0 {
                        Action::Write(token, bytes)
                    } else {
                        Action::Rearm(token, rearm)
                    }
                },
            },
            Event::Written(token, result) => match self.clients.remove(&token) {
                None => Action::Ignore,
                Some(mut client) => {
                    client.written(result);
                    let rearm = self.settle(token, client);
                    Action::Rearm(token, rearm)
                },
            },
            Event::RegistrationFailed(token) => match self.clients.remove(&token) {
                None => Action::Ignore,
                Some(mut client) => {
                    client.close(CloseReason::Unregistered);
                    let rearm = self.settle(token, client);
                    Action::Rearm(token, rearm)
                },
            },
        };
        assert(self@.clients =~= old(self)@.after(event).clients);
        action
    }
}

} // verus!
