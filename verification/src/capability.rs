//! What this session can actually do.
//!
//! Auth here is deliberately not one boolean. A session holding a token but
//! no (or a stale) session cookie still reads, edits and commits perfectly
//! well — it simply cannot push-sync. The cookie is tracked as its own fact
//! and consulted only where the push channel is concerned.
use vstd::prelude::*;
use crate::lang::Lang;

verus! {

/// The first fallback-poll delay, in seconds, while the push channel is
/// not proven.
pub const FAST_POLL_SECS: u64 = 3;
/// How fast it runs once a room is joined and caught up, in seconds.
pub const LIVE_POLL_SECS: u64 = 60;

/// Whether the project can be read with no credential at all. `Unknown` is
/// a real state: a 404 and a network error tell us nothing.
#[derive(Debug, Clone, Copy, PartialEq, Eq, Structural)]
pub enum Visibility {
    Public,
    Private,
    Unknown,
}

impl Visibility {
    /// Map an anonymous project lookup's HTTP status (`None` = no response
    /// at all): 200 is public, 401 and 403 private, anything else unknown.
    pub fn from_anonymous_status(status: Option<u16>) -> (v: Self)
        ensures
            v == (match status {
                Some(200) => Visibility::Public,
                Some(401) | Some(403) => Visibility::Private,
                _ => Visibility::Unknown,
            }),
    {
        match status {
            Some(200) => Visibility::Public,
            Some(401) | Some(403) => Visibility::Private,
            _ => Visibility::Unknown,
        }
    }
}

/// The live-update channel's state.
#[derive(Debug, Clone, Copy, PartialEq, Eq, Structural)]
pub enum SyncState {
    /// No session cookie, or a room not joined yet.
    Polling,
    /// Room joined AND the post-join catch-up fetch succeeded.
    Live,
    /// Connect / join / catch-up failed or the socket died.
    Reconnecting,
}

/// The `Duration` of this many whole seconds.
pub uninterp spec fn whole_seconds(secs: u64) -> std::time::Duration;

/// `std::time::Duration::from_secs`. `Duration` is opaque here, so its
/// result is named: the same count of seconds gives the same duration.
#[verifier::external_body]
fn seconds(secs: u64) -> (d: std::time::Duration)
    ensures
        d == whole_seconds(secs),
{
    std::time::Duration::from_secs(secs)
}

impl SyncState {
    /// The poller's starting interval in seconds: only a proven-live push
    /// channel starts at the slow interval.
    pub fn poll_interval_secs(self) -> (s: u64)
        ensures
            s == (if self == SyncState::Live { LIVE_POLL_SECS } else { FAST_POLL_SECS }),
    {
        match self {
            SyncState::Live => LIVE_POLL_SECS,
            SyncState::Polling | SyncState::Reconnecting => FAST_POLL_SECS,
        }
    }

    /// The poller's starting interval: the slow one only for a proven-live
    /// push channel.
    pub fn poll_interval(self) -> (d: std::time::Duration)
        ensures
            d == whole_seconds(if self == SyncState::Live { LIVE_POLL_SECS } else { FAST_POLL_SECS }),
    {
        seconds(self.poll_interval_secs())
    }

    /// The `sync:` tag in the status line, in the reader's language.
    pub fn label(self, lang: Lang) -> (s: &'static str)
        ensures
            self == SyncState::Polling ==> s@ == "poll"@,
            self == SyncState::Live ==> s@ == "ws"@,
            self == SyncState::Reconnecting && lang == Lang::Ja ==> s@ == "再接続中"@,
            self == SyncState::Reconnecting && lang == Lang::En ==> s@ == "reconnecting"@,
    {
        match self {
            SyncState::Polling => "poll",
            SyncState::Live => "ws",
            SyncState::Reconnecting => match lang {
                Lang::Ja => "再接続中",
                Lang::En => "reconnecting",
            },
        }
    }
}

} // verus!
