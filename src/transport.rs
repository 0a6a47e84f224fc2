//! The server-sent-event channel of actix-web-lab, as the registry sees it.
use vstd::prelude::*;

verus! {

/// Sending half of one viewer's event queue.
#[verifier::external_type_specification]
#[verifier::external_body]
pub struct ExSender(actix_web_lab::sse::Sender);

/// Response body that drains one viewer's event queue toward the viewer.
#[verifier::external_type_specification]
#[verifier::external_body]
#[verifier::reject_recursive_types(S)]
pub struct ExSse<S>(actix_web_lab::sse::Sse<S>);

/// Receiving half of one viewer's event queue.
#[verifier::external_type_specification]
#[verifier::external_body]
pub struct ExChannelStream(actix_web_lab::sse::ChannelStream);

/// The bound on pending events that a viewer's queue was opened with.
pub uninterp spec fn queue_bound(s: actix_web_lab::sse::Sender) -> nat;

/// Payloads of the data events that a viewer's queue has accepted, in the
/// order it accepted them; the viewer receives them in this order.
pub uninterp spec fn accepted_events(s: actix_web_lab::sse::Sender) -> Seq<Seq<char>>;

/// Relies on actix_web_lab::sse::channel: a fresh bounded queue holding at
/// most `capacity` events, returned as its sender and the response body that
/// drains it. The tokio queue underneath panics on a capacity of zero, and
/// its semaphore on a capacity above `usize::MAX >> 3`.
#[verifier::external_body]
pub(crate) fn open_channel(capacity: usize) -> (r: (
    actix_web_lab::sse::Sender,
    actix_web_lab::sse::Sse<actix_web_lab::sse::ChannelStream>,
))
    requires
        0 < capacity <= usize::MAX / 8,
    ensures
        queue_bound(r.0) == capacity as nat,
        accepted_events(r.0) == Seq::<Seq<char>>::empty(),
{
    actix_web_lab::sse::channel(capacity)
}

/// Relies on actix_web_lab::sse::Sender::try_send: enqueues one data event
/// carrying `payload` without waiting, or, when the queue is full or its
/// receiving side is gone, enqueues nothing and fails. Which of these holds
/// depends on the channel, so the result itself is not promised.
#[verifier::external_body]
pub(crate) fn try_deliver(sender: &mut actix_web_lab::sse::Sender, payload: &str) -> (accepted: bool)
    ensures
        queue_bound(*final(sender)) == queue_bound(*old(sender)),
        accepted ==> accepted_events(*final(sender)) == accepted_events(*old(sender)).push(payload@),
        !accepted ==> accepted_events(*final(sender)) == accepted_events(*old(sender)),
{
    sender.try_send(actix_web_lab::sse::Data::new(payload.to_string())).is_ok()
}

} // verus!
