//! The listeners a broadcaster has open, by port.

use vstd::prelude::*;
use std::collections::HashMap;
use vstd::std_specs::iter::IteratorSpec;

use crate::error::FabError;

verus! {

broadcast use vstd::std_specs::hash::group_hash_axioms;

/// The open listeners, each under the port it listens on. What a listener
/// is (its task, its deduplicating sender) is up to the caller.
#[derive(Debug)]
pub struct ListenerTable<L> {
    open: HashMap<u16, L>,
}

impl<L> View for ListenerTable<L> {
    type V = Map<u16, L>;

    closed spec fn view(&self) -> Map<u16, L> {
        self.open@
    }
}

impl<L> ListenerTable<L> {
    /// A table with no listener.
    pub fn new() -> (t: ListenerTable<L>)
        ensures
            t@ == Map::<u16, L>::empty(),
    {
        ListenerTable { open: HashMap::new() }
    }

    /// Refuses a port that already has a listener: `Err(AlreadyListeningError)`
    /// exactly when `port` is taken.
    pub fn ensure_vacant(&self, port: u16) -> (r: Result<(), FabError>)
        ensures
            self@.contains_key(port) ==> r == Err::<(), FabError>(FabError::AlreadyListeningError),
            !self@.contains_key(port) ==> r == Ok::<(), FabError>(()),
    {
        if self.open.contains_key(&port) {
            Err(FabError::AlreadyListeningError)
        } else {
            Ok(())
        }
    }

    /// Files `listener` under `port`, replacing any listener there.
    pub fn insert(&mut self, port: u16, listener: L)
        ensures
            final(self)@ == old(self)@.insert(port, listener),
    {
        let _ = self.open.insert(port, listener);
    }

    /// Closes the listener on `port` (dropping it stops it):
    /// `Err(NotListeningError)` exactly when there is none.
    pub fn close(&mut self, port: u16) -> (r: Result<(), FabError>)
        ensures
            final(self)@ == old(self)@.remove(port),
            old(self)@.contains_key(port) ==> r == Ok::<(), FabError>(()),
            !old(self)@.contains_key(port) ==> r == Err::<(), FabError>(
                FabError::NotListeningError,
            ),
    {
        match self.open.remove(&port) {
            Some(_) => Ok(()),
            None => Err(FabError::NotListeningError),
        }
    }

    /// Messages can only be received while some listener is open:
    /// `Err(NotListeningError)` exactly when there is none.
    pub fn ensure_listening(&self) -> (r: Result<(), FabError>)
        ensures
            self@.is_empty() ==> r == Err::<(), FabError>(FabError::NotListeningError),
            !self@.is_empty() ==> r == Ok::<(), FabError>(()),
    {
        if self.open.is_empty() {
            Err(FabError::NotListeningError)
        } else {
            Ok(())
        }
    }

    /// The listener on `port`, if any.
    pub fn get(&self, port: u16) -> (r: Option<&L>)
        ensures
            self@.contains_key(port) ==> r == Some(&self@[port]),
            !self@.contains_key(port) ==> r is None,
    {
        self.open.get(&port)
    }

    /// The ports that have a listener, each once, in no particular order.
    pub fn ports(&self) -> (v: Vec<u16>)
        ensures
            v@.to_set() == self@.dom(),
            v@.no_duplicates(),
    {
        let mut v: Vec<u16> = Vec::new();
        let ghost ks = vstd::std_specs::hash::spec_keys_iter(&self.open).remaining();
        for p in it: self.open.keys()
            invariant
                it.seq() == ks,
                v@ == it.seq().take(it.index()).unref(),
        {
            v.push(*p);
            assert(v@ =~= it.seq().take(it.index() + 1).unref());
        }
        assert(v@ =~= ks.unref());
        v
    }
}

/// Once a listener is filed under a port, a second one is refused there;
/// once it is closed, the port is free again and closing it a second time
/// fails; other ports are not affected.
pub proof fn lemma_listen_then_close<L>(m: Map<u16, L>, port: u16, listener: L)
    ensures
        m.insert(port, listener).contains_key(port),
        !m.insert(port, listener).remove(port).contains_key(port),
        !m.insert(port, listener).is_empty(),
        forall|other: u16|
            other != port ==> m.insert(port, listener).remove(port).contains_key(other)
                == m.contains_key(other),
{
    assert(m.insert(port, listener).dom().contains(port));
}

} // verus!
