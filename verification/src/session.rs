//! The session and pagination engine.
//!
//! A `Session` owns the append-only buffer of received records, the read
//! cursor, the correlation-id counter and the connection state. It performs
//! no I/O of its own: the embedding application reports transport events
//! through [`Session::poll`] and sends whatever wire text the pagination
//! operations hand back. Every operation is specified against a spec-level
//! model (`SessionView` and the `*_step` functions below), so the pagination
//! laws can be stated and proved once over the model.

use vstd::prelude::*;

use crate::codec::{
    decode, default_layers, default_log_get, spec_encode, wf_inbound, Layers, LogEvent, LogGet,
};

verus! {

/// Connection lifecycle as the session tracks it from transport signals and
/// user actions.
#[derive(Clone, Copy, PartialEq, Eq, Structural, Debug)]
pub enum ConnState {
    Disconnected,
    Connecting,
    Connected,
    Failed,
}

/// Request/response correlation state: at most one request is ever in
/// flight, and `AwaitingResponse` carries its correlation id.
#[derive(Clone, Copy, PartialEq, Eq, Structural, Debug)]
pub enum SessionState {
    Idle,
    AwaitingResponse(u64),
    Failed,
}

/// One transport signal, in receipt order: the connection came up, a text
/// payload arrived, something other than text arrived, the peer closed, or
/// the connection failed with a reason.
#[derive(Debug)]
pub enum WireEvent {
    Opened,
    Text(String),
    NonText,
    ConnClosed,
    ConnFailed(String),
}

/// Issues correlation ids and builds the requests that carry them. Ids are
/// handed out strictly increasingly, starting at 1, and never reused.
pub struct SocketManager {
    msg_id: u64,
}

impl SocketManager {
    /// The id the next request will carry.
    pub closed spec fn next_id(self) -> u64 {
        self.msg_id
    }

    /// A fresh issuer whose first request will carry id 1.
    pub fn new() -> (r: Self)
        ensures
            r.next_id() == 1,
    {
        SocketManager { msg_id: 1 }
    }

    /// The id the next request will carry.
    pub fn current_id(&self) -> (r: u64)
        ensures
            r == self.next_id(),
    {
        self.msg_id
    }

    /// Build and encode a request sized `minv..maxv` under `filter`, consuming
    /// the next correlation id. Nothing only when the id space is exhausted,
    /// so that no id is ever reused.
    pub fn build_request(&mut self, filter: &Layers, minv: u64, maxv: u64) -> (r: Option<String>)
        ensures
            match r {
                Some(msg) => {
                    &&& old(self).next_id() < u64::MAX
                    &&& final(self).next_id() == old(self).next_id() + 1
                    &&& msg@ == spec_encode(
                        LogGet {
                            timeout: 1,
                            min: minv,
                            max: maxv,
                            layers: *filter,
                            headers: false,
                            message_id: old(self).next_id(),
                        },
                    )
                },
                None => {
                    &&& old(self).next_id() == u64::MAX
                    &&& *final(self) == *old(self)
                },
            },
    {
        if self.msg_id == u64::MAX {
            return None;
        }
        let req = LogGet {
            timeout: 1,
            min: minv,
            max: maxv,
            layers: *filter,
            headers: false,
            message_id: self.msg_id,
        };
        self.msg_id = self.msg_id + 1;
        Some(crate::codec::encode(&req))
    }

    /// Build and encode the next default-sized request (64 to 2048 records,
    /// default filter), consuming the next correlation id.
    pub fn get_more_logs(&mut self) -> (r: Option<String>)
        ensures
            match r {
                Some(msg) => {
                    &&& old(self).next_id() < u64::MAX
                    &&& final(self).next_id() == old(self).next_id() + 1
                    &&& msg@ == spec_encode(default_log_get(old(self).next_id()))
                },
                None => {
                    &&& old(self).next_id() == u64::MAX
                    &&& *final(self) == *old(self)
                },
            },
    {
        let filter = Layers::new();
        self.build_request(&filter, 64, 2048)
    }
}

/// The mathematical state of a session: what every contract and law speaks
/// of. The buffer is the sequence of record payloads in arrival order.
pub ghost struct SessionView {
    pub conn: ConnState,
    pub state: SessionState,
    pub buffer: Seq<Seq<char>>,
    pub cursor: int,
    pub next_id: u64,
    pub filter: Layers,
    pub endpoint: Option<Seq<char>>,
    pub last_error: Option<Seq<char>>,
}

impl SessionView {
    /// The cursor never runs past the known tail.
    pub open spec fn wf(self) -> bool {
        0 <= self.cursor <= self.buffer.len()
    }
}

/// The state of a session that has never seen a connection.
pub open spec fn init_view() -> SessionView {
    SessionView {
        conn: ConnState::Disconnected,
        state: SessionState::Idle,
        buffer: Seq::empty(),
        cursor: 0,
        next_id: 1,
        filter: default_layers(),
        endpoint: Option::None,
        last_error: Option::None,
    }
}

/// A (re)connect to `url`: the buffer, cursor and correlation counter start
/// over; only the filter survives.
pub open spec fn connect_step(v: SessionView, url: Seq<char>) -> SessionView {
    SessionView {
        conn: ConnState::Connecting,
        state: SessionState::Idle,
        buffer: Seq::empty(),
        cursor: 0,
        next_id: 1,
        filter: v.filter,
        endpoint: Option::Some(url),
        last_error: Option::None,
    }
}

/// How one transport event changes the session. A text payload that decodes
/// is appended and resolves a pending request; a malformed one changes
/// nothing; losing the connection while a request is pending is the error
/// state, with the buffer retained.
pub open spec fn step(v: SessionView, ev: WireEvent) -> SessionView {
    match ev {
        WireEvent::Opened => SessionView {
            conn: ConnState::Connected,
            state: SessionState::Idle,
            last_error: Option::None,
            ..v
        },
        WireEvent::Text(t) => if wf_inbound(t@) {
            SessionView {
                buffer: v.buffer.push(t@),
                state: if v.state is AwaitingResponse {
                    SessionState::Idle
                } else {
                    v.state
                },
                ..v
            }
        } else {
            v
        },
        WireEvent::NonText => v,
        WireEvent::ConnClosed => SessionView {
            conn: ConnState::Disconnected,
            state: if v.state is AwaitingResponse {
                SessionState::Failed
            } else {
                v.state
            },
            ..v
        },
        WireEvent::ConnFailed(reason) => SessionView {
            conn: ConnState::Failed,
            state: if v.state is AwaitingResponse {
                SessionState::Failed
            } else {
                v.state
            },
            last_error: Option::Some(reason@),
            ..v
        },
    }
}

/// `step` folded over a whole batch of events, in receipt order.
pub open spec fn steps(v: SessionView, evs: Seq<WireEvent>) -> SessionView
    decreases evs.len(),
{
    if evs.len() == 0 {
        v
    } else {
        steps(step(v, evs.first()), evs.drop_first())
    }
}

/// The request `advance` issues when `n` steps from the cursor run past the
/// tail: sized to cover at least the missing range, never smaller than the
/// default window.
pub open spec fn fetch_request(v: SessionView, n: int) -> LogGet {
    let missing = v.cursor + n - v.buffer.len();
    let minv = if missing > 64 {
        missing as u64
    } else {
        64u64
    };
    LogGet {
        timeout: 1,
        min: minv,
        max: if minv > 2048 {
            minv
        } else {
            2048u64
        },
        layers: v.filter,
        headers: false,
        message_id: v.next_id,
    }
}

/// What `advance(n)` does: move the cursor when the buffer already covers
/// the move; otherwise, when connected, idle and ids remain, issue one
/// request and await it; otherwise nothing.
pub open spec fn advance_step(v: SessionView, n: int) -> (SessionView, Option<Seq<char>>) {
    if v.cursor + n <= v.buffer.len() {
        (SessionView { cursor: v.cursor + n, ..v }, Option::None)
    } else if v.conn is Connected && v.state is Idle && v.next_id < u64::MAX {
        (
            SessionView {
                state: SessionState::AwaitingResponse(v.next_id),
                next_id: (v.next_id + 1) as u64,
                ..v
            },
            Option::Some(spec_encode(fetch_request(v, n))),
        )
    } else {
        (v, Option::None)
    }
}

/// What `retreat(n)` does: move the cursor back by at most its own value,
/// and nothing else, ever.
pub open spec fn retreat_step(v: SessionView, n: int) -> SessionView {
    SessionView {
        cursor: if n <= v.cursor {
            v.cursor - n
        } else {
            0
        },
        ..v
    }
}

/// What `request_more()` does: a user-triggered default-sized fetch under
/// the session filter, with the same single-in-flight rule as `advance`.
pub open spec fn request_more_step(v: SessionView) -> (SessionView, Option<Seq<char>>) {
    if v.conn is Connected && v.state is Idle && v.next_id < u64::MAX {
        (
            SessionView {
                state: SessionState::AwaitingResponse(v.next_id),
                next_id: (v.next_id + 1) as u64,
                ..v
            },
            Option::Some(
                spec_encode(
                    LogGet {
                        timeout: 1,
                        min: 64,
                        max: 2048,
                        layers: v.filter,
                        headers: false,
                        message_id: v.next_id,
                    },
                ),
            ),
        )
    } else {
        (v, Option::None)
    }
}

/// The session: the stateful owner of buffer, cursor, correlation counter
/// and connection state.
pub struct Session {
    conn: ConnState,
    state: SessionState,
    buffer: Vec<LogEvent>,
    cursor: usize,
    requester: SocketManager,
    filter: Layers,
    endpoint: Option<String>,
    last_error: Option<String>,
}

impl View for Session {
    type V = SessionView;

    closed spec fn view(&self) -> SessionView {
        SessionView {
            conn: self.conn,
            state: self.state,
            buffer: self.buffer@.map_values(|e: LogEvent| e@),
            cursor: self.cursor as int,
            next_id: self.requester.next_id(),
            filter: self.filter,
            endpoint: match self.endpoint {
                Option::Some(u) => Option::Some(u@),
                Option::None => Option::None,
            },
            last_error: match self.last_error {
                Option::Some(e) => Option::Some(e@),
                Option::None => Option::None,
            },
        }
    }
}

impl Session {
    /// A session that has never seen a connection.
    pub fn new() -> (r: Self)
        ensures
            r@ == init_view(),
            r@.wf(),
    {
        let r = Session {
            conn: ConnState::Disconnected,
            state: SessionState::Idle,
            buffer: Vec::new(),
            cursor: 0,
            requester: SocketManager::new(),
            filter: Layers::new(),
            endpoint: None,
            last_error: None,
        };
        proof {
            assert(r@.buffer =~= Seq::<Seq<char>>::empty());
        }
        r
    }

    /// Start a connection to `url` (the I/O itself is the caller's): buffer,
    /// cursor and correlation counter start over.
    pub fn begin_connect(&mut self, url: &str)
        ensures
            final(self)@ == connect_step(old(self)@, url@),
            final(self)@.wf(),
    {
        self.conn = ConnState::Connecting;
        self.state = SessionState::Idle;
        self.buffer = Vec::new();
        self.cursor = 0;
        self.requester = SocketManager::new();
        self.endpoint = Some(url.to_owned());
        self.last_error = None;
        proof {
            assert(self@.buffer =~= Seq::<Seq<char>>::empty());
            assert(self@ == connect_step(old(self)@, url@));
        }
    }

    /// Release the connection on the session's side. Idempotent; the buffer
    /// is kept until the next connect.
    pub fn close(&mut self)
        ensures
            final(self)@ == (SessionView {
                conn: ConnState::Disconnected,
                state: SessionState::Idle,
                ..old(self)@
            }),
    {
        self.conn = ConnState::Disconnected;
        self.state = SessionState::Idle;
    }

    /// Replace the filter attached to future requests.
    pub fn set_filter(&mut self, f: Layers)
        ensures
            final(self)@ == (SessionView { filter: f, ..old(self)@ }),
    {
        self.filter = f;
    }

    /// Move the cursor forward by `n`, or issue one fetch when the buffer
    /// does not reach that far; `advance_step` is the exact account.
    pub fn advance(&mut self, n: usize) -> (act: Option<String>)
        requires
            old(self)@.wf(),
        ensures
            final(self)@.wf(),
            final(self)@ == advance_step(old(self)@, n as int).0,
            match act {
                Some(m) => advance_step(old(self)@, n as int).1 == Option::Some(m@),
                None => advance_step(old(self)@, n as int).1 is None,
            },
    {
        if n <= self.buffer.len() - self.cursor {
            self.cursor = self.cursor + n;
            None
        } else {
            let connected = matches!(self.conn, ConnState::Connected);
            let idle = matches!(self.state, SessionState::Idle);
            if connected && idle && self.requester.current_id() < u64::MAX {
                let id = self.requester.current_id();
                let missing: u64 = (n as u64) - ((self.buffer.len() - self.cursor) as u64);
                let minv: u64 = if missing > 64 {
                    missing
                } else {
                    64
                };
                let maxv: u64 = if minv > 2048 {
                    minv
                } else {
                    2048
                };
                match self.requester.build_request(&self.filter, minv, maxv) {
                    Some(msg) => {
                        self.state = SessionState::AwaitingResponse(id);
                        Some(msg)
                    },
                    None => {
                        proof {
                            assert(false);
                        }
                        None
                    },
                }
            } else {
                None
            }
        }
    }

    /// Move the cursor back by at most `n`; synchronous, never any I/O.
    pub fn retreat(&mut self, n: usize)
        requires
            old(self)@.wf(),
        ensures
            final(self)@.wf(),
            final(self)@ == retreat_step(old(self)@, n as int),
    {
        if n <= self.cursor {
            self.cursor = self.cursor - n;
        } else {
            self.cursor = 0;
        }
    }

    /// User-triggered fetch irrespective of the cursor; `request_more_step`
    /// is the exact account.
    pub fn request_more(&mut self) -> (act: Option<String>)
        requires
            old(self)@.wf(),
        ensures
            final(self)@.wf(),
            final(self)@ == request_more_step(old(self)@).0,
            match act {
                Some(m) => request_more_step(old(self)@).1 == Option::Some(m@),
                None => request_more_step(old(self)@).1 is None,
            },
    {
        let connected = matches!(self.conn, ConnState::Connected);
        let idle = matches!(self.state, SessionState::Idle);
        if connected && idle && self.requester.current_id() < u64::MAX {
            let id = self.requester.current_id();
            match self.requester.build_request(&self.filter, 64, 2048) {
                Some(msg) => {
                    self.state = SessionState::AwaitingResponse(id);
                    Some(msg)
                },
                None => {
                    proof {
                        assert(false);
                    }
                    None
                },
            }
        } else {
            None
        }
    }

    /// The connection came up: the initial correlation state is `Idle` and
    /// any stale error is cleared.
    fn on_opened(&mut self)
        ensures
            final(self)@ == (SessionView {
                conn: ConnState::Connected,
                state: SessionState::Idle,
                last_error: Option::None,
                ..old(self)@
            }),
    {
        self.conn = ConnState::Connected;
        self.state = SessionState::Idle;
        self.last_error = None;
    }

    /// A text payload arrived: append it when it decodes, resolving a
    /// pending request; drop it otherwise, changing nothing at all.
    fn on_text(&mut self, t: &String)
        ensures
            final(self)@ == (if wf_inbound(t@) {
                SessionView {
                    buffer: old(self)@.buffer.push(t@),
                    state: if old(self)@.state is AwaitingResponse {
                        SessionState::Idle
                    } else {
                        old(self)@.state
                    },
                    ..old(self)@
                }
            } else {
                old(self)@
            }),
    {
        match decode(t.as_str()) {
            Ok(e) => {
                let ghost b0 = self@.buffer;
                self.buffer.push(e);
                proof {
                    assert(self@.buffer =~= b0.push(t@));
                }
                if matches!(self.state, SessionState::AwaitingResponse(_)) {
                    self.state = SessionState::Idle;
                }
            },
            Err(_) => {},
        }
    }

    /// The connection went away (`failed` says whether with an error): a
    /// pending request is abandoned and surfaced as the error state; the
    /// buffer is retained.
    fn on_conn_lost(&mut self, failed: bool, reason: Option<&String>)
        ensures
            final(self)@ == (SessionView {
                conn: if failed {
                    ConnState::Failed
                } else {
                    ConnState::Disconnected
                },
                state: if old(self)@.state is AwaitingResponse {
                    SessionState::Failed
                } else {
                    old(self)@.state
                },
                last_error: match reason {
                    Some(r) => Option::Some(r@),
                    None => old(self)@.last_error,
                },
                ..old(self)@
            }),
    {
        self.conn = if failed {
            ConnState::Failed
        } else {
            ConnState::Disconnected
        };
        match reason {
            Some(r) => {
                self.last_error = Some(r.clone());
            },
            None => {},
        }
        if matches!(self.state, SessionState::AwaitingResponse(_)) {
            self.state = SessionState::Failed;
        }
    }

    /// Apply one transport event; `step` is the exact account.
    fn apply_event(&mut self, ev: &WireEvent)
        requires
            old(self)@.wf(),
        ensures
            final(self)@.wf(),
            final(self)@ == step(old(self)@, *ev),
    {
        match ev {
            WireEvent::Opened => {
                self.on_opened();
            },
            WireEvent::Text(t) => {
                self.on_text(t);
            },
            WireEvent::NonText => {},
            WireEvent::ConnClosed => {
                self.on_conn_lost(false, None);
            },
            WireEvent::ConnFailed(reason) => {
                self.on_conn_lost(true, Some(reason));
            },
        }
    }

    /// Drain one batch of transport events, in receipt order: decoded
    /// records are appended in arrival order, malformed ones are dropped,
    /// connection signals move the state machine; `steps` is the exact
    /// account.
    pub fn poll(&mut self, events: Vec<WireEvent>)
        requires
            old(self)@.wf(),
        ensures
            final(self)@.wf(),
            final(self)@ == steps(old(self)@, events@),
    {
        let ghost orig = self@;
        proof {
            assert(events@.subrange(0, events@.len() as int) =~= events@);
        }
        let mut idx: usize = 0;
        while idx < events.len()
            invariant
                idx <= events@.len(),
                self@.wf(),
                steps(orig, events@) == steps(self@, events@.subrange(idx as int, events@.len() as int)),
            decreases events@.len() - idx,
        {
            let ghost rest = events@.subrange(idx as int, events@.len() as int);
            self.apply_event(&events[idx]);
            proof {
                assert(rest.first() == events@[idx as int]);
                assert(rest.drop_first() =~= events@.subrange(
                    idx as int + 1,
                    events@.len() as int,
                ));
            }
            idx += 1;
        }
        proof {
            assert(events@.subrange(events@.len() as int, events@.len() as int)
                =~= Seq::<WireEvent>::empty());
        }
    }

    /// The connection state as the session knows it.
    pub fn connection_state(&self) -> (r: ConnState)
        ensures
            r == self@.conn,
    {
        self.conn
    }

    /// The correlation state.
    pub fn session_state(&self) -> (r: SessionState)
        ensures
            r == self@.state,
    {
        self.state
    }

    /// The read position.
    pub fn cursor(&self) -> (r: usize)
        ensures
            r as int == self@.cursor,
    {
        self.cursor
    }

    /// How many records the buffer holds.
    pub fn buffer_len(&self) -> (r: usize)
        ensures
            r as int == self@.buffer.len(),
    {
        self.buffer.len()
    }

    /// The id the next request will carry.
    pub fn next_request_id(&self) -> (r: u64)
        ensures
            r == self@.next_id,
    {
        self.requester.current_id()
    }

    /// The record at index `i` of the buffer, read-only.
    pub fn event_at(&self, i: usize) -> (r: Option<&LogEvent>)
        ensures
            match r {
                Some(e) => i < self@.buffer.len() && e@ == self@.buffer[i as int],
                None => i >= self@.buffer.len(),
            },
    {
        if i < self.buffer.len() {
            Some(&self.buffer[i])
        } else {
            None
        }
    }

    /// The endpoint of the current or last connection attempt.
    pub fn endpoint(&self) -> (r: Option<&String>)
        ensures
            match r {
                Some(u) => self@.endpoint == Option::Some(u@),
                None => self@.endpoint is None,
            },
    {
        self.endpoint.as_ref()
    }

    /// The reason the connection failed, if it did.
    pub fn last_error(&self) -> (r: Option<&String>)
        ensures
            match r {
                Some(e) => self@.last_error == Option::Some(e@),
                None => self@.last_error is None,
            },
    {
        self.last_error.as_ref()
    }

    /// The page of records just behind the cursor: the records at indices
    /// `cursor - page_size` (or 0, whichever is later) up to the cursor, as
    /// copies, oldest first.
    pub fn current_window(&self, page_size: usize) -> (r: Vec<LogEvent>)
        requires
            self@.wf(),
        ensures
            r@.map_values(|e: LogEvent| e@) == self@.buffer.subrange(
                if self@.cursor >= page_size as int {
                    self@.cursor - page_size as int
                } else {
                    0
                },
                self@.cursor,
            ),
    {
        let start = if self.cursor >= page_size {
            self.cursor - page_size
        } else {
            0
        };
        let mut out: Vec<LogEvent> = Vec::new();
        let mut i = start;
        proof {
            assert(out@.map_values(|e: LogEvent| e@) =~= Seq::<Seq<char>>::empty());
        }
        while i < self.cursor
            invariant
                start <= i <= self@.cursor,
                self@.wf(),
                self@.cursor <= self@.buffer.len(),
                out@.map_values(|e: LogEvent| e@) =~= self@.buffer.subrange(start as int, i as int),
            decreases self@.cursor - i,
        {
            let ghost o0 = out@;
            out.push(self.buffer[i].clone());
            proof {
                assert(out@.map_values(|e: LogEvent| e@) =~= o0.map_values(|e: LogEvent| e@).push(
                    self@.buffer[i as int],
                ));
                assert(out@.map_values(|e: LogEvent| e@) =~= self@.buffer.subrange(
                    start as int,
                    i as int + 1,
                ));
            }
            i += 1;
        }
        out
    }
}

} // verus!
