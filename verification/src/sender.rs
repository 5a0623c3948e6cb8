//! The sender abstraction: a pluggable transport seam.
//!
//! A [`MessageCenter`] holds the registered senders and, for each outbound
//! report, delegates to one of them picked uniformly at random; with no
//! sender registered the send is silently skipped. Only one transport
//! exists today, but the seam is what new ones plug into.

use vstd::prelude::*;
use crate::messages::ClientToServer;

verus! {

/// A transport that can deliver one report batch. Implementations live with
/// the I/O they perform; how delivery went comes back to the event loop as
/// an event, not as a return value.
pub trait MessageSender {
    /// Deliver this outbound message.
    fn send_message(&mut self, msg: ClientToServer);

    /// The sender's registration id.
    fn get_id(&self) -> u32;
}

/// The registered senders.
pub struct MessageCenter<T: MessageSender> {
    pub senders: Vec<T>,
}

/// Relies on rand::random_range: a value drawn from the given range.
#[verifier::external_body]
fn random_below(n: usize) -> (r: usize)
    requires
        n > 0,
    ensures
        r < n,
{
    rand::random_range(0..n)
}

impl<T: MessageSender> MessageCenter<T> {
    /// A center with no senders yet.
    pub fn new() -> (c: MessageCenter<T>)
        ensures
            c.senders@.len() == 0,
    {
        MessageCenter { senders: Vec::new() }
    }

    /// Register one more sender.
    pub fn add_sender(&mut self, sender: T)
        ensures
            final(self).senders@ == old(self).senders@.push(sender),
    {
        self.senders.push(sender);
    }

    /// Hand the message to one sender picked uniformly at random; with none
    /// registered the message is silently dropped. At most the one picked
    /// sender is invoked: every other element of the pool is untouched.
    pub fn send_message(&mut self, msg: ClientToServer)
        ensures
            final(self).senders@.len() == old(self).senders@.len(),
            old(self).senders@.len() == 0 ==> final(self).senders@ == old(self).senders@,
            forall|j1: int, j2: int|
                #![trigger final(self).senders@[j1], final(self).senders@[j2]]
                0 <= j1 < old(self).senders@.len() && 0 <= j2 < old(self).senders@.len()
                    && j1 != j2 && final(self).senders@[j1] != old(self).senders@[j1]
                    ==> final(self).senders@[j2] == old(self).senders@[j2],
    {
        let n = self.senders.len();
        if n == 0 {
            return;
        }
        let pick = random_below(n);
        self.senders[pick].send_message(msg);
        proof {
            let i = pick as int;
            assert(forall|j: int|
                0 <= j < old(self).senders@.len() && j != i ==> #[trigger] self.senders@[j]
                    == old(self).senders@[j]);
        }
    }
}

} // verus!
