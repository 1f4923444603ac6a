//! The work cycle's access to its commands.
use async_channel::Receiver;
use async_channel::TryRecvError;
use vstd::prelude::*;

use crate::session::SdrCommand;

verus! {

/// One look into a channel: the channel, and what came out of it.
pub struct Look {
    pub channel: Receiver<SdrCommand>,
    pub received: Result<SdrCommand, TryRecvError>,
}

/// What a cycle takes its commands through. It cannot be copied, and its record only grows, so that
/// whatever is taken out of a channel stays on the record.
pub struct Inbox {
    looks: Ghost<Seq<Look>>,
}

impl Inbox {
    /// All looks that were taken, in order.
    pub closed spec fn looks(&self) -> Seq<Look> {
        self.looks@
    }

    /// No look has been taken yet. A function that opens no invariants cannot make an inbox.
    pub(crate) fn new() -> (inbox: Self)
        ensures
            inbox.looks() == Seq::<Look>::empty(),
    {
        Inbox { looks: Ghost(Seq::empty()) }
    }
}

} // verus!
