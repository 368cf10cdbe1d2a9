//! Sending one packet over the chosen connections.
use vstd::prelude::*;

use crate::peer::routes::PeerConnId;
use crate::peer::{Error, Peer, PeerId};

verus! {

/// What came of sending a packet.
#[derive(Clone, Copy, Debug, PartialEq, Eq, Structural)]
pub enum Outcome {
    /// Other copies are still on their way.
    Pending,
    /// A copy was taken.
    Sent,
    /// The only copy was refused; the error of its connection stands.
    Refused,
    /// Every copy was refused.
    Failed(Error),
}

/// A packet on its way over one or more connections.
#[derive(Clone, Copy, Debug)]
pub struct Sending {
    pub peer_node_id: PeerId,
    /// There is only one copy.
    pub single: bool,
    /// The copies that nothing is known of yet.
    pub pending: usize,
}

/// What has come of sending copies, by the results so far.
pub open spec fn outcome_of(node: PeerId, copies: nat, results: Seq<bool>) -> Outcome {
    if results.contains(true) {
        Outcome::Sent
    } else if results.len() < copies {
        Outcome::Pending
    } else if copies == 1 {
        Outcome::Refused
    } else {
        Outcome::Failed(Error::PeerNoConnectionError(node))
    }
}

impl Sending {
    /// The packet after `results`, each of them a refusal, of `copies`.
    pub open spec fn stands(self, copies: nat, results: Seq<bool>) -> bool {
        &&& !results.contains(true)
        &&& results.len() <= copies
        &&& self.pending == copies - results.len()
        &&& self.single == (copies == 1)
    }

    /// Takes in the result for one copy.
    pub fn on_result(&mut self, taken: bool) -> (r: Outcome)
        requires
            old(self).pending > 0,
        ensures
            final(self).peer_node_id == old(self).peer_node_id,
            final(self).single == old(self).single,
            final(self).pending == old(self).pending - 1,
            r == if taken {
                Outcome::Sent
            } else if old(self).single {
                Outcome::Refused
            } else if old(self).pending == 1 {
                Outcome::Failed(Error::PeerNoConnectionError(old(self).peer_node_id))
            } else {
                Outcome::Pending
            },
            forall|copies: nat, results: Seq<bool>| #[trigger]
                old(self).stands(copies, results) ==> r == outcome_of(
                    old(self).peer_node_id,
                    copies,
                    results.push(taken),
                ) && (!taken ==> final(self).stands(copies, results.push(taken))),
    {
        self.pending = self.pending - 1;
        let r = if taken {
            Outcome::Sent
        } else if self.single {
            Outcome::Refused
        } else if self.pending == 0 {
            Outcome::Failed(Error::PeerNoConnectionError(self.peer_node_id))
        } else {
            Outcome::Pending
        };
        proof {
            assert forall|copies: nat, results: Seq<bool>| #[trigger]
                old(self).stands(copies, results) implies r == outcome_of(
                old(self).peer_node_id,
                copies,
                results.push(taken),
            ) && (!taken ==> self.stands(copies, results.push(taken))) by {
                let next = results.push(taken);
                assert(next[results.len() as int] == taken);
                if next.contains(true) && !taken {
                    let k = choose|k: int| 0 <= k < next.len() && next[k];
                    assert(results[k]);
                }
            }
        }
        r
    }
}

impl Peer {
    /// Starts to send a packet over the chosen connections. Without any it cannot be sent.
    pub fn send_msg(&self, conns: &Vec<PeerConnId>) -> (r: Result<Sending, Error>)
        ensures
            conns.len() == 0 ==> r == Err::<Sending, Error>(
                Error::PeerNoConnectionError(self@.node),
            ),
            conns.len() > 0 ==> (r matches Ok(s) && s.peer_node_id == self@.node && s.stands(
                conns.len() as nat,
                seq![],
            )),
    {
        if conns.len() == 0 {
            return Err(Error::PeerNoConnectionError(self.node_id()));
        }
        Ok(
            Sending {
                peer_node_id: self.node_id(),
                single: conns.len() == 1,
                pending: conns.len(),
            },
        )
    }
}

} // verus!
