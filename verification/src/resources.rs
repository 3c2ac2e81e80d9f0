//! A subscribed text resource: it holds the last known text and drains a
//! channel of republished versions on demand. The file watching that feeds
//! the channel lives outside the library.
use vstd::prelude::*;

use std::sync::mpsc::Receiver;
use std::sync::mpsc::TryRecvError;

verus! {

#[verifier::external_type_specification]
#[verifier::external_body]
#[verifier::reject_recursive_types(T)]
pub struct ExReceiver<T>(Receiver<T>);

/// One poll of the update channel.
enum Poll {
    Item(String),
    Empty,
    Closed,
}

/// Relies on `std::sync::mpsc::Receiver::try_recv`: hands out the next
/// pending message, or reports the channel empty or disconnected. What
/// arrives depends on the sending side, so nothing more is promised.
#[verifier::external_body]
fn try_next(rx: &Receiver<String>) -> Poll {
    match rx.try_recv() {
        Ok(t) => Poll::Item(t),
        Err(TryRecvError::Empty) => Poll::Empty,
        Err(TryRecvError::Disconnected) => Poll::Closed,
    }
}

/// A text resource: the text as last seen, and the channel its publisher
/// republishes newer versions on (none for a fixed resource, or once the
/// publisher is gone).
pub struct Resource {
    text: String,
    updates: Option<Receiver<String>>,
}

impl Resource {
    pub closed spec fn text_view(&self) -> Seq<char> {
        self.text@
    }

    pub closed spec fn has_updates(&self) -> bool {
        self.updates is Some
    }

    /// A resource that never changes.
    pub fn fixed(text: String) -> (r: Resource)
        ensures
            r.text_view() == text@,
            !r.has_updates(),
    {
        Resource { text, updates: None }
    }

    /// A resource fed by a publisher through the given channel.
    pub fn subscribed(text: String, updates: Receiver<String>) -> (r: Resource)
        ensures
            r.text_view() == text@,
            r.has_updates(),
    {
        Resource { text, updates: Some(updates) }
    }

    /// The current text: drains any republished versions, keeping the newest,
    /// and forgets a channel whose publisher is gone. A resource without a
    /// channel is returned unchanged.
    pub fn get(&mut self) -> (r: &String)
        ensures
            r@ == final(self).text_view(),
            !old(self).has_updates() ==> final(self).text_view() == old(self).text_view()
                && !final(self).has_updates(),
            final(self).has_updates() ==> old(self).has_updates(),
    {
        let upd = self.updates.take();
        match upd {
            None => {},
            Some(rx) => {
                let keep = drain_newest(&rx, &mut self.text);
                if keep {
                    self.updates = Some(rx);
                }
            },
        }
        &self.text
    }
}

/// Empties the channel into `text`, the newest message winning; reports
/// whether the channel still has a live publisher. A publisher outpacing the
/// drain stops it after more messages than a machine counter holds.
fn drain_newest(rx: &Receiver<String>, text: &mut String) -> (keep: bool) {
    let mut fuel: usize = usize::MAX;
    while fuel > 0
        decreases fuel,
    {
        match try_next(rx) {
            Poll::Item(t) => {
                *text = t;
            },
            Poll::Empty => {
                return true;
            },
            Poll::Closed => {
                return false;
            },
        }
        fuel = fuel - 1;
    }
    true
}

} // verus!
