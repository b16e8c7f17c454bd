//! Relay endpoint: a named broadcast publish/subscribe channel, and a
//! pair of two such channels for the two directions of a bridge.
//!
//! The channel is `tokio`'s broadcast channel.  Publishing never blocks
//! and never fails observably; each subscriber gets an independent handle
//! that observes only messages published after it subscribed, and a
//! subscriber that falls more than the capacity behind observes a lag
//! signal instead of the missed messages.

use vstd::prelude::*;
use tokio::sync::broadcast;

verus! {

#[verifier::external_type_specification]
#[verifier::external_body]
#[verifier::reject_recursive_types(T)]
pub struct ExSender<T>(broadcast::Sender<T>);

#[verifier::external_type_specification]
#[verifier::external_body]
#[verifier::reject_recursive_types(T)]
pub struct ExReceiver<T>(broadcast::Receiver<T>);

/// Relies on `broadcast::Sender::clone`: the clone publishes into the
/// same channel as the original.
pub assume_specification<T>[ <broadcast::Sender<T> as Clone>::clone ](
    s: &broadcast::Sender<T>,
) -> broadcast::Sender<T>;

/// One relay endpoint: the shared sending half of a bounded broadcast
/// channel.  Cloning it yields another publisher into the same channel.
#[derive(Clone)]
#[verifier::reject_recursive_types(T)]
pub struct Peer<T> {
    tx: broadcast::Sender<T>,
    cap: Ghost<nat>,
}

impl<T> Peer<T> {
    /// The bounded capacity this endpoint was created with.
    pub closed spec fn capacity(&self) -> nat {
        self.cap@
    }
}

/// Relies on tokio's `broadcast::channel`: a fresh channel that buffers
/// the given capacity of messages for a lagging subscriber (rounded up
/// to a power of two).  The channel panics on a zero capacity and on one
/// above half the address space, so those are ruled out here.
#[verifier::external_body]
fn new_sender<T: Clone>(capacity: usize) -> broadcast::Sender<T>
    requires
        1 <= capacity <= usize::MAX / 2,
{
    broadcast::channel(capacity).0
}

impl<T: Clone> Peer<T> {
    /// A fresh endpoint over its own bounded channel.
    pub fn new(capacity: usize) -> (p: Self)
        requires
            1 <= capacity <= usize::MAX / 2,
        ensures
            p.capacity() == capacity,
    {
        let tx = new_sender(capacity);
        Peer { tx, cap: Ghost(capacity as nat) }
    }

    /// Relies on `broadcast::Sender::send`: delivers the message to every
    /// current subscriber, never blocks, and reports no failure to the
    /// caller; with no subscribers the message is simply dropped.
    #[verifier::external_body]
    pub fn send(&self, msg: T) {
        let _ = self.tx.send(msg);
    }

    /// Relies on `broadcast::Sender::subscribe`: a fresh receiving handle
    /// that observes only messages published after this call.
    #[verifier::external_body]
    pub fn subscribe(&self) -> broadcast::Receiver<T> {
        self.tx.subscribe()
    }
}

/// Two independent endpoints, one per direction of a bridge between two
/// subsystems.  Which side is `a` and which is `b` is a wiring convention
/// fixed by whoever builds the pair, not enforced here.
#[derive(Clone)]
#[verifier::reject_recursive_types(T)]
pub struct PeerPair<T> {
    pub a: Peer<T>,
    pub b: Peer<T>,
}

impl<T: Clone> PeerPair<T> {
    /// Two fresh endpoints of the same capacity, not cross-wired.
    pub fn new(capacity: usize) -> (p: Self)
        requires
            1 <= capacity <= usize::MAX / 2,
        ensures
            p.a.capacity() == capacity,
            p.b.capacity() == capacity,
    {
        PeerPair { a: Peer::new(capacity), b: Peer::new(capacity) }
    }
}

} // verus!
