//! The pagination laws: what the session promises across operations, stated
//! and proved once over the spec-level model. Each law is a public proof
//! function; its `ensures` is the law.

use vstd::prelude::*;

use crate::codec::{spec_encode, wf_inbound};
use crate::session::{
    advance_step, fetch_request, retreat_step, step, steps, SessionState, SessionView, WireEvent,
};

verus! {

/// The payload a text event carries.
pub open spec fn text_of(ev: WireEvent) -> Seq<char> {
    ev->Text_0@
}

/// Advancing within the buffer and retreating by the same amount restores
/// the session exactly, and neither move issues a request.
pub proof fn lemma_advance_retreat(v: SessionView, n: int)
    requires
        v.wf(),
        0 <= n,
        v.cursor + n <= v.buffer.len(),
    ensures
        advance_step(v, n).1 is None,
        retreat_step(advance_step(v, n).0, n) == v,
{
}

/// An advance past the tail, made while connected and idle with ids to
/// spare, issues exactly one request, carrying the next correlation id, and
/// awaits it; any advance made before that request resolves issues nothing
/// further.
pub proof fn lemma_advance_issues_one_request(v: SessionView, n: int, m: int)
    requires
        v.wf(),
        0 <= n,
        0 <= m,
        v.cursor + n > v.buffer.len(),
        v.conn is Connected,
        v.state is Idle,
        v.next_id < u64::MAX,
    ensures
        advance_step(v, n).1 == Option::Some(spec_encode(fetch_request(v, n))),
        fetch_request(v, n).message_id == v.next_id,
        advance_step(v, n).0.state == SessionState::AwaitingResponse(v.next_id),
        advance_step(v, n).0.next_id == v.next_id + 1,
        advance_step(v, n).0.buffer == v.buffer,
        advance_step(v, n).0.cursor == v.cursor,
        advance_step(advance_step(v, n).0, m).1 is None,
{
}

/// A malformed inbound payload changes nothing at all: not the buffer, not
/// the cursor, not the connection or correlation state.
pub proof fn lemma_malformed_changes_nothing(v: SessionView, t: String)
    requires
        !wf_inbound(t@),
    ensures
        step(v, WireEvent::Text(t)) == v,
{
}

/// The buffer is append-only: whatever a batch of transport events holds,
/// every record already buffered keeps its index and its content, and the
/// buffer never shrinks.
pub proof fn lemma_buffer_append_only(v: SessionView, evs: Seq<WireEvent>)
    ensures
        steps(v, evs).buffer.len() >= v.buffer.len(),
        forall|i: int| 0 <= i < v.buffer.len() ==> steps(v, evs).buffer[i] == v.buffer[i],
    decreases evs.len(),
{
    if evs.len() == 0 {
    } else {
        let v1 = step(v, evs.first());
        lemma_buffer_append_only(v1, evs.drop_first());
        assert(steps(v, evs) == steps(v1, evs.drop_first()));
        assert forall|i: int|
            0 <= i < v.buffer.len() implies steps(v, evs).buffer[i] == v.buffer[i] by {
            assert(steps(v, evs).buffer[i] == v1.buffer[i]);
        }
    }
}

/// Draining a batch of well-formed text payloads grows the buffer by
/// exactly their number: the old records keep their places, the new ones
/// follow in arrival order, and the cursor, connection, correlation counter
/// and filter are untouched.
pub proof fn lemma_poll_appends_in_order(v: SessionView, evs: Seq<WireEvent>)
    requires
        forall|i: int| 0 <= i < evs.len() ==> evs[i] is Text && wf_inbound(text_of(evs[i])),
    ensures
        steps(v, evs).buffer.len() == v.buffer.len() + evs.len(),
        forall|i: int| 0 <= i < v.buffer.len() ==> steps(v, evs).buffer[i] == v.buffer[i],
        forall|i: int|
            0 <= i < evs.len() ==> steps(v, evs).buffer[v.buffer.len() + i] == text_of(evs[i]),
        steps(v, evs).cursor == v.cursor,
        steps(v, evs).conn == v.conn,
        steps(v, evs).next_id == v.next_id,
        steps(v, evs).filter == v.filter,
    decreases evs.len(),
{
    if evs.len() == 0 {
    } else {
        let first = evs.first();
        assert(evs[0] is Text && wf_inbound(text_of(evs[0])));
        let v1 = step(v, first);
        assert(v1.buffer == v.buffer.push(text_of(first)));
        let rest = evs.drop_first();
        assert forall|i: int|
            0 <= i < rest.len() implies rest[i] is Text && wf_inbound(text_of(rest[i])) by {
            assert(rest[i] == evs[i + 1]);
        }
        lemma_poll_appends_in_order(v1, rest);
        let out = steps(v, evs);
        assert(out == steps(v1, rest));
        assert forall|i: int| 0 <= i < v.buffer.len() implies out.buffer[i] == v.buffer[i] by {
            assert(out.buffer[i] == v1.buffer[i]);
        }
        assert forall|i: int|
            0 <= i < evs.len() implies out.buffer[v.buffer.len() + i] == text_of(evs[i]) by {
            if i == 0 {
                assert(out.buffer[v.buffer.len() as int] == v1.buffer[v.buffer.len() as int]);
            } else {
                assert(out.buffer[v1.buffer.len() + (i - 1)] == text_of(rest[i - 1]));
                assert(rest[i - 1] == evs[i]);
            }
        }
    }
}

} // verus!
