//! Errors of the broker and the text of a cycle diagnostic.

use vstd::prelude::*;
use vstd::string::*;

verus! {

/// One step of a cycle: the subscriber that listens on `channel` and may emit
/// into the channel of the next step.
#[derive(Debug, Clone, PartialEq, Eq)]
pub struct Hop {
    pub subscriber: String,
    pub channel: String,
}

/// The mathematical value of a [`Hop`].
pub struct HopView {
    pub subscriber: Seq<char>,
    pub channel: Seq<char>,
}

impl DeepView for Hop {
    type V = HopView;

    open spec fn deep_view(&self) -> HopView {
        HopView { subscriber: self.subscriber@, channel: self.channel@ }
    }
}

/// The text of the first `n` hops, each followed by an arrow.
pub open spec fn render_hops(hops: Seq<HopView>, n: nat) -> Seq<char>
    decreases n,
{
    if n == 0 || n > hops.len() {
        Seq::empty()
    } else {
        let hop = hops[n - 1];
        render_hops(hops, (n - 1) as nat) + "["@ + hop.subscriber + "]"@ + hop.channel + " -> "@
    }
}

/// The text of a cycle: every hop as `[subscriber]channel`, joined by arrows,
/// closed by the channel of the first hop.
pub open spec fn render_cycle(hops: Seq<HopView>) -> Seq<char> {
    if hops.len() == 0 {
        Seq::empty()
    } else {
        render_hops(hops, hops.len()) + hops[0].channel
    }
}

/// Writes a cycle as text.
pub fn cycle_text(hops: &Vec<Hop>) -> (text: String)
    ensures
        text@ == render_cycle(hops.deep_view()),
{
    let mut text = String::new();
    if hops.len() == 0 {
        return text;
    }
    let mut i: usize = 0;
    while i < hops.len()
        invariant
            i <= hops.len(),
            text@ == render_hops(hops.deep_view(), i as nat),
        decreases hops.len() - i,
    {
        text.append("[");
        text.append(hops[i].subscriber.as_str());
        text.append("]");
        text.append(hops[i].channel.as_str());
        text.append(" -> ");
        i += 1;
    }
    text.append(hops[0].channel.as_str());
    text
}

/// What can go wrong in the broker. Each is an error of the program that
/// wired the subscriptions, not a condition to retry.
#[derive(Debug, Clone, PartialEq, Eq)]
pub enum Error {
    /// The subscription would let a dispatch come back to a channel it
    /// started from. Holds the cycle, the new subscriber first.
    CycleDetected(Vec<Hop>),
    /// The operation was attempted outside the scope of the manager that
    /// owns the channel or the subscriber.
    InactiveScope,
    /// The handle is not registered in the channel.
    UnknownSubscription,
    /// The subscriber that is being visited was not granted the channel.
    NotGranted,
}

/// The mathematical value of an [`Error`].
pub enum ErrorView {
    CycleDetected(Seq<HopView>),
    InactiveScope,
    UnknownSubscription,
    NotGranted,
}

impl DeepView for Error {
    type V = ErrorView;

    open spec fn deep_view(&self) -> ErrorView {
        match self {
            Error::CycleDetected(hops) => ErrorView::CycleDetected(hops.deep_view()),
            Error::InactiveScope => ErrorView::InactiveScope,
            Error::UnknownSubscription => ErrorView::UnknownSubscription,
            Error::NotGranted => ErrorView::NotGranted,
        }
    }
}

/// The text that describes an error.
pub open spec fn message_of(error: ErrorView) -> Seq<char> {
    match error {
        ErrorView::CycleDetected(hops) => "revent found a recursion during subscription: "@
            + render_cycle(hops),
        ErrorView::InactiveScope => "revent signal modification outside of its manager's scope"@,
        ErrorView::UnknownSubscription => "unable to unsubscribe non-subscribed item"@,
        ErrorView::NotGranted => "revent emit into a channel that was not granted"@,
    }
}

impl Error {
    /// Describes the error in words.
    pub fn message(&self) -> (text: String)
        ensures
            text@ == message_of(self.deep_view()),
    {
        match self {
            Error::CycleDetected(hops) => {
                let mut text = String::from_str("revent found a recursion during subscription: ");
                let path = cycle_text(hops);
                text.append(path.as_str());
                text
            },
            Error::InactiveScope => String::from_str(
                "revent signal modification outside of its manager's scope",
            ),
            Error::UnknownSubscription => String::from_str(
                "unable to unsubscribe non-subscribed item",
            ),
            Error::NotGranted => String::from_str(
                "revent emit into a channel that was not granted",
            ),
        }
    }
}

} // verus!
