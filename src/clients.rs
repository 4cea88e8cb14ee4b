//! The registry of connected clients.
use vstd::prelude::*;

verus! {

/// Why a client went away.
#[derive(Clone, Copy, Debug, PartialEq, Eq, Structural)]
pub enum DisconnectReason {
    ConnectionClosed,
    ProtocolError,
}

/// A recorded disconnection.
#[derive(Clone, Copy, Debug, PartialEq, Eq, Structural)]
pub struct Disconnect {
    pub client: u64,
    pub reason: DisconnectReason,
}

/// Live clients in order of connection, the next identity to hand out, and
/// the disconnections seen so far.
pub struct ClientRegistry {
    live: Vec<u64>,
    next_id: u64,
    disconnects: Vec<Disconnect>,
}

impl ClientRegistry {
    pub closed spec fn live(&self) -> Seq<u64> {
        self.live@
    }

    pub closed spec fn next_id(&self) -> u64 {
        self.next_id
    }

    pub closed spec fn disconnects(&self) -> Seq<Disconnect> {
        self.disconnects@
    }

    /// Live identities are distinct and all below the next one to be handed
    /// out, so none is ever given twice.
    pub open spec fn wf(&self) -> bool {
        &&& self.live().no_duplicates()
        &&& forall|i: int| 0 <= i < self.live().len() ==> #[trigger] self.live()[i] < self.next_id()
    }

    pub fn new() -> (r: ClientRegistry)
        ensures
            r.wf(),
            r.live() == Seq::<u64>::empty(),
            r.next_id() == 0,
            r.disconnects() == Seq::<Disconnect>::empty(),
    {
        ClientRegistry { live: Vec::new(), next_id: 0, disconnects: Vec::new() }
    }

    pub fn len(&self) -> (n: usize)
        ensures
            n == self.live().len(),
    {
        self.live.len()
    }

    pub fn disconnect_log(&self) -> (d: &Vec<Disconnect>)
        ensures
            d@ == self.disconnects(),
    {
        &self.disconnects
    }

    pub fn is_live(&self, client: u64) -> (r: bool)
        ensures
            r == self.live().contains(client),
    {
        let mut i: usize = 0;
        while i < self.live.len()
            invariant
                i <= self.live().len(),
                forall|j: int| 0 <= j < i ==> self.live()[j] != client,
            decreases self.live().len() - i,
        {
            if self.live[i] == client {
                return true;
            }
            i = i + 1;
        }
        proof {
            assert(!self.live().contains(client));
        }
        false
    }

    /// Registers an accepted connection under a fresh identity. Returns
    /// `None`, changing nothing, once every identity has been used.
    pub fn insert(&mut self) -> (r: Option<u64>)
        requires
            old(self).wf(),
        ensures
            final(self).wf(),
            final(self).disconnects() == old(self).disconnects(),
            r.is_some() <==> old(self).next_id() < u64::MAX,
            r.is_some() ==> r == Some(old(self).next_id()) && final(self).live() == old(
                self,
            ).live().push(old(self).next_id()) && final(self).next_id() == old(self).next_id() + 1,
            r.is_none() ==> final(self).live() == old(self).live() && final(self).next_id()
                == old(self).next_id(),
    {
        if self.next_id == u64::MAX {
            return None;
        }
        let id = self.next_id;
        self.live.push(id);
        self.next_id = id + 1;
        proof {
            assert forall|a: int, b: int| 0 <= a < b < self.live().len() implies self.live()[a]
                != self.live()[b] by {
                if b == self.live().len() - 1 {
                    assert(old(self).live()[a] < id);
                }
            }
            assert forall|i: int| 0 <= i < self.live().len() implies #[trigger] self.live()[i]
                < self.next_id() by {
                if i < old(self).live().len() {
                    assert(old(self).live()[i] < id);
                }
            }
        }
        Some(id)
    }

    /// Removes a client that went away and records why. Returns whether it
    /// was live; a client that is not live changes nothing.
    pub fn remove(&mut self, client: u64, reason: DisconnectReason) -> (r: bool)
        requires
            old(self).wf(),
        ensures
            final(self).wf(),
            r == old(self).live().contains(client),
            final(self).next_id() == old(self).next_id(),
            forall|x: u64| final(self).live().contains(x) <==> old(self).live().contains(x) && x != client,
            r ==> final(self).live().len() == old(self).live().len() - 1
                && final(self).disconnects() == old(self).disconnects().push(
                Disconnect { client, reason },
            ),
            !r ==> final(self).live() == old(self).live() && final(self).disconnects() == old(
                self,
            ).disconnects(),
    {
        let mut i: usize = 0;
        while i < self.live.len()
            invariant
                i <= self.live().len(),
                forall|j: int| 0 <= j < i ==> self.live()[j] != client,
                old(self).wf(),
                self.live() == old(self).live(),
                self.next_id() == old(self).next_id(),
                self.disconnects() == old(self).disconnects(),
            decreases self.live().len() - i,
        {
            if self.live[i] == client {
                let ghost before = self.live();
                self.live.remove(i);
                self.disconnects.push(Disconnect { client, reason });
                proof {
                    let after = self.live();
                    assert(after == before.remove(i as int));
                    assert forall|x: u64| after.contains(x) <==> before.contains(x) && x != client by {
                        if after.contains(x) {
                            let j = choose|j: int| 0 <= j < after.len() && after[j] == x;
                            let j2 = if j < i { j } else { j + 1 };
                            assert(before[j2] == x);
                            assert(before[i as int] == client);
                            assert(j2 != i);
                        }
                        if before.contains(x) && x != client {
                            let j = choose|j: int| 0 <= j < before.len() && before[j] == x;
                            if j < i {
                                assert(after[j] == x);
                            } else {
                                assert(j != i);
                                assert(after[j - 1] == x);
                            }
                        }
                    }
                    assert forall|a: int, b: int| 0 <= a < b < after.len() implies after[a]
                        != after[b] by {
                        let a2 = if a < i { a } else { a + 1 };
                        let b2 = if b < i { b } else { b + 1 };
                        assert(after[a] == before[a2]);
                        assert(after[b] == before[b2]);
                        assert(a2 < b2);
                    }
                    assert forall|k: int| 0 <= k < after.len() implies #[trigger] after[k]
                        < self.next_id() by {
                        let k2 = if k < i { k } else { k + 1 };
                        assert(after[k] == before[k2]);
                    }
                    assert(before.contains(client)) by {
                        assert(before[i as int] == client);
                    }
                }
                return true;
            }
            i = i + 1;
        }
        proof {
            assert(!self.live().contains(client));
        }
        false
    }
}

} // verus!
