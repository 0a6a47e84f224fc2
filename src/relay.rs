//! Decisions of the upstream relay: credential, upstream outcome, each
//! streamed chunk, and the reply to the caller that triggered the relay.
use vstd::prelude::*;

use crate::broadcast::{broadcasted, Broadcaster, Delivery};

verus! {

/// Endpoint of the upstream completions provider.
pub const UPSTREAM_URL: &'static str = "https://api.openai.com/v1/chat/completions";

/// Name of the environment variable that holds the upstream credential.
pub const CREDENTIAL_VAR: &'static str = "OPENAI_API_KEY";

/// Body of the acknowledgment sent once the upstream stream is consumed.
pub const ACK_BODY: &'static str = "ok";

/// Body of the reply when the upstream call could not be made.
pub const UNAVAILABLE_BODY: &'static str = "{\"error\":\"upstream_unavailable\"}";

/// Body of the reply when the upstream provider refused the call.
pub const REJECTED_BODY: &'static str = "{\"error\":\"upstream_rejected\"}";

/// The text that `b` decodes to as UTF-8, or `None` when it is not UTF-8.
pub uninterp spec fn utf8_text(b: Seq<u8>) -> Option<Seq<char>>;

/// Relies on std::str::from_utf8: the bytes decoded as UTF-8 text, or an
/// error when they are not valid UTF-8; empty input is valid and empty.
#[verifier::external_body]
fn decode_utf8(b: &[u8]) -> (r: Option<String>)
    ensures
        r is Some <==> utf8_text(b@) is Some,
        r is Some ==> r->Some_0@ == utf8_text(b@)->Some_0,
        b@.len() == 0 ==> r is Some && r->Some_0@.len() == 0,
{
    std::str::from_utf8(b).ok().map(|s| s.to_string())
}

/// Why a relay ended without streaming.
#[derive(Clone, Copy, Debug, PartialEq, Eq, Structural)]
pub enum RelayError {
    /// The outbound call to the provider could not be established.
    UpstreamUnavailable,
    /// The provider answered with a status other than success.
    UpstreamRejected,
}

/// What happened to one chunk of the upstream response.
pub enum ChunkOutcome {
    /// The chunk decoded to `text`, which was fanned out with `deliveries`.
    Published { text: String, deliveries: Vec<Delivery> },
    /// The chunk was not UTF-8 and was dropped.
    Discarded,
}

/// The bearer credential to attach, and whether none was configured.
pub struct Credential {
    pub token: String,
    pub missing: bool,
}

/// The reply to the caller that triggered a relay.
pub struct Reply {
    pub status: u16,
    pub body: &'static str,
}

/// Resolves the credential from the configured value, if any. An absent or
/// empty value is reported as missing and an empty token is still used, so
/// that the provider refuses the call rather than the relay being skipped.
pub fn resolve_credential(found: Option<String>) -> (r: Credential)
    ensures
        r.missing == (found is None || found->Some_0@.len() == 0),
        found is Some ==> r.token@ == found->Some_0@,
        found is None ==> r.token@ == Seq::<char>::empty(),
{
    match found {
        Some(v) => {
            let missing = v.as_str().is_empty();
            Credential { token: v, missing }
        },
        None => Credential { token: String::new(), missing: true },
    }
}

/// Judges the upstream call: whether it connected, and the status it got.
pub fn check_upstream(connected: bool, status: u16) -> (r: Result<(), RelayError>)
    ensures
        !connected ==> r == Err::<(), RelayError>(RelayError::UpstreamUnavailable),
        connected && 200 <= status <= 299 ==> r == Ok::<(), RelayError>(()),
        connected && !(200 <= status <= 299) ==> r == Err::<(), RelayError>(
            RelayError::UpstreamRejected,
        ),
{
    if !connected {
        Err(RelayError::UpstreamUnavailable)
    } else if 200 <= status && status <= 299 {
        Ok(())
    } else {
        Err(RelayError::UpstreamRejected)
    }
}

/// Fans decoded text out to every registered subscriber.
pub fn publish_text(b: &mut Broadcaster, text: String) -> (r: ChunkOutcome)
    ensures
        r matches ChunkOutcome::Published { text: t, deliveries }
            && t@ == text@ && broadcasted(*old(b), *final(b), deliveries@, text@),
{
    let deliveries = b.broadcast(text.as_str());
    ChunkOutcome::Published { text, deliveries }
}

/// Handles one chunk of the upstream response: decoded as UTF-8 it is fanned
/// out to every registered subscriber; otherwise it is dropped and nothing
/// is sent.
pub fn ingest_chunk(b: &mut Broadcaster, chunk: &[u8]) -> (r: ChunkOutcome)
    ensures
        utf8_text(chunk@) is None ==> r is Discarded && *final(b) == *old(b),
        utf8_text(chunk@) is Some ==> (r matches ChunkOutcome::Published { text, deliveries }
            && text@ == utf8_text(chunk@)->Some_0
            && broadcasted(*old(b), *final(b), deliveries@, utf8_text(chunk@)->Some_0)),
{
    match decode_utf8(chunk) {
        Some(text) => publish_text(b, text),
        None => ChunkOutcome::Discarded,
    }
}

/// The reply owed to the caller once the relay is over.
pub fn relay_reply(outcome: Result<(), RelayError>) -> (r: Reply)
    ensures
        outcome is Ok ==> r.status == 200 && r.body == ACK_BODY,
        outcome == Err::<(), RelayError>(RelayError::UpstreamUnavailable) ==> r.status == 502
            && r.body == UNAVAILABLE_BODY,
        outcome == Err::<(), RelayError>(RelayError::UpstreamRejected) ==> r.status == 502
            && r.body == REJECTED_BODY,
{
    match outcome {
        Ok(()) => Reply { status: 200, body: ACK_BODY },
        Err(RelayError::UpstreamUnavailable) => Reply { status: 502, body: UNAVAILABLE_BODY },
        Err(RelayError::UpstreamRejected) => Reply { status: 502, body: REJECTED_BODY },
    }
}

} // verus!
