//! The table of live connections that a readiness-driven event loop keeps,
//! and the decisions it takes on each event. The event loop itself waits for
//! readiness, reads, writes and hands events to the sink; it asks this table
//! what to do.
use vstd::prelude::*;
use std::collections::HashMap;
use crate::connection::{actions_view, sentinel_imei, step, Action, Connection, ConnectionView};

verus! {

broadcast use vstd::std_specs::hash::group_hash_axioms;

/// The identifier reserved for the listening socket.
pub const SERVER: usize = 0;

/// The live connections, each under the identifier it was accepted with.
pub struct Reactor {
    current_conn_token: usize,
    connections: HashMap<usize, Connection>,
}

pub struct ReactorView {
    /// The last identifier handed out, or `SERVER + 1` before the first.
    pub current_conn_token: usize,
    pub connections: Map<usize, ConnectionView>,
}

impl View for Reactor {
    type V = ReactorView;

    closed spec fn view(&self) -> ReactorView {
        ReactorView {
            current_conn_token: self.current_conn_token,
            connections: self.connections@.map_values(|c: Connection| c@),
        }
    }
}

/// A connection just accepted.
pub open spec fn fresh_connection() -> ConnectionView {
    ConnectionView { imei: sentinel_imei(), buffer: Seq::empty() }
}

impl Reactor {
    /// Identifiers in use lie above the listener's and do not exceed the
    /// last one handed out.
    #[verifier::type_invariant]
    spec fn inv(self) -> bool {
        forall|k: usize| #[trigger]
            self.connections@.contains_key(k) ==> SERVER < k <= self.current_conn_token
    }

    /// A table with no connection.
    pub fn new() -> (r: Reactor)
        ensures
            r@.current_conn_token == SERVER + 1,
            r@.connections == Map::<usize, ConnectionView>::empty(),
    {
        let r = Reactor { current_conn_token: SERVER + 1, connections: HashMap::new() };
        assert(r@.connections =~= Map::<usize, ConnectionView>::empty());
        r
    }

    /// The next identifier: one above the last, never reused; `None` once
    /// they have run out.
    fn next_token(&mut self) -> (r: Option<usize>)
        ensures
            match r {
                Some(t) => t == old(self)@.current_conn_token + 1 && final(self)@
                    == (ReactorView { current_conn_token: t, ..old(self)@ }),
                None => old(self)@.current_conn_token == usize::MAX && final(self)@ == old(self)@,
            },
    {
        proof {
            use_type_invariant(&*self);
        }
        if self.current_conn_token == usize::MAX {
            return None;
        }
        self.current_conn_token = self.current_conn_token + 1;
        Some(self.current_conn_token)
    }

    /// Registers a connection just accepted, under a new identifier, which it
    /// returns; `None`, and no change, once identifiers have run out.
    pub fn accept(&mut self) -> (r: Option<usize>)
        ensures
            match r {
                Some(t) => t == old(self)@.current_conn_token + 1 && !old(
                    self,
                )@.connections.contains_key(t) && final(self)@ == (ReactorView {
                    current_conn_token: t,
                    connections: old(self)@.connections.insert(t, fresh_connection()),
                }),
                None => old(self)@.current_conn_token == usize::MAX && final(self)@ == old(self)@,
            },
    {
        proof {
            use_type_invariant(&*self);
        }
        let token = match self.next_token() {
            Some(t) => t,
            None => {
                return None;
            },
        };
        proof {
            use_type_invariant(&*self);
        }
        let mut conns: HashMap<usize, Connection> = HashMap::new();
        std::mem::swap(&mut conns, &mut self.connections);
        let c = Connection::new();
        conns.insert(token, c);
        self.connections = conns;
        assert(self@.connections =~= old(self)@.connections.insert(token, fresh_connection()));
        Some(token)
    }

    /// Handles a read of `incoming` on connection `token`, then drops the
    /// connection where the read found the end of the stream. Returns what
    /// the connection asks for; nothing, and no change, for an identifier
    /// not in the table.
    pub fn on_readable(&mut self, token: usize, incoming: &[u8], end_of_stream: bool) -> (r: Vec<
        Action,
    >)
        ensures
            final(self)@.current_conn_token == old(self)@.current_conn_token,
            old(self)@.connections.contains_key(token) ==> ({
                let (c, actions) = step(old(self)@.connections[token], incoming@);
                &&& actions_view(r@) == actions
                &&& final(self)@.connections == if end_of_stream {
                    old(self)@.connections.remove(token)
                } else {
                    old(self)@.connections.insert(token, c)
                }
            }),
            !old(self)@.connections.contains_key(token) ==> r@.len() == 0 && final(self)@ == old(
                self,
            )@,
    {
        proof {
            use_type_invariant(&*self);
        }
        let mut conns: HashMap<usize, Connection> = HashMap::new();
        std::mem::swap(&mut conns, &mut self.connections);
        let ghost before = conns@;
        match conns.remove(&token) {
            None => {
                self.connections = conns;
                assert(self@.connections =~= old(self)@.connections);
                Vec::new()
            },
            Some(c) => {
                let mut c = c;
                let actions = c.get_message(incoming);
                if !end_of_stream {
                    conns.insert(token, c);
                }
                self.connections = conns;
                proof {
                    if end_of_stream {
                        assert(self@.connections =~= old(self)@.connections.remove(token));
                    } else {
                        assert(self@.connections =~= old(self)@.connections.insert(token, c@));
                    }
                }
                actions
            },
        }
    }

    /// Drops connection `token`, after an I/O error on it. Returns whether it
    /// was in the table.
    pub fn close(&mut self, token: usize) -> (r: bool)
        ensures
            r == old(self)@.connections.contains_key(token),
            final(self)@ == (ReactorView {
                connections: old(self)@.connections.remove(token),
                ..old(self)@
            }),
    {
        proof {
            use_type_invariant(&*self);
        }
        let mut conns: HashMap<usize, Connection> = HashMap::new();
        std::mem::swap(&mut conns, &mut self.connections);
        let removed = conns.remove(&token);
        self.connections = conns;
        assert(self@.connections =~= old(self)@.connections.remove(token));
        removed.is_some()
    }

    /// Whether connection `token` is in the table.
    pub fn contains(&self, token: usize) -> (r: bool)
        ensures
            r == self@.connections.contains_key(token),
    {
        self.connections.contains_key(&token)
    }

    /// The number of live connections.
    pub fn len(&self) -> (r: usize)
        ensures
            r == self@.connections.len(),
    {
        assert(self@.connections.dom() =~= self.connections@.dom());
        self.connections.len()
    }
}

} // verus!
