//! Timestamps as the log model carries them: the textual form a stamp had in
//! its source, together with the instant it denotes, used for ordering.
//! Stamps read from tabular input are opaque text and carry no instant; they
//! all compare equal under the ordering, so reordering never moves them
//! relative to one another.

use vstd::prelude::*;

verus! {

/// Mathematical value of a [`Stamp`].
pub struct StampView {
    pub text: Seq<char>,
    pub millis: int,
}

/// A timestamp: its textual form and, when it was parsed from an RFC 3339
/// instant, that instant as milliseconds since the Unix epoch. Opaque stamps
/// carry `0`.
#[derive(Debug)]
pub struct Stamp {
    pub text: String,
    pub millis: i64,
}

impl View for Stamp {
    type V = StampView;

    open spec fn view(&self) -> StampView {
        StampView { text: self.text@, millis: self.millis as int }
    }
}

impl DeepView for Stamp {
    type V = StampView;

    open spec fn deep_view(&self) -> StampView {
        self.view()
    }
}

impl Clone for Stamp {
    fn clone(&self) -> (r: Self)
        ensures
            r@ == self@,
    {
        Stamp { text: self.text.clone(), millis: self.millis }
    }
}

impl Stamp {
    /// A stamp holding the given text and no instant.
    pub fn opaque(text: String) -> (r: Stamp)
        ensures
            r@ == (StampView { text: text@, millis: 0 }),
    {
        Stamp { text, millis: 0 }
    }
}

/// The instant that an RFC 3339 timestamp text denotes, as milliseconds
/// since the Unix epoch, or nothing where the text is no such timestamp. The
/// result depends on the characters alone.
pub uninterp spec fn rfc3339_millis(s: Seq<char>) -> Option<i64>;

/// Relies on chrono's `DateTime::parse_from_rfc3339` and `timestamp_millis`:
/// together they accept exactly the RFC 3339 instants and read each to one
/// epoch instant, depending on the characters alone.
#[verifier::external_body]
pub(crate) fn parse_rfc3339_millis(s: &str) -> (r: Option<i64>)
    ensures
        r == rfc3339_millis(s@),
{
    match chrono::DateTime::parse_from_rfc3339(s) {
        Ok(dt) => Some(dt.timestamp_millis()),
        Err(_) => None,
    }
}

} // verus!
