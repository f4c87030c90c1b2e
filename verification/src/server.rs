use vstd::prelude::*;

use crate::codec::Request;
use crate::store::Store;

verus! {

/// The server's owned state: the shared table and the two operator
/// settings fixed at construction, the worker count and the listen port.
///
/// Accepting connections and running workers is the caller's loop; the
/// server itself only owns the table and commits decoded requests.
pub struct Server {
    pub store: Store,
    pub workers: usize,
    pub port: i32,
}

impl Server {
    /// A server with an empty table.
    pub fn new(workers: usize, port: i32) -> (s: Server)
        ensures
            s.store.wf(),
            s.store@ == Map::<Seq<char>, Seq<char>>::empty(),
            s.workers == workers,
            s.port == port,
    {
        Server { store: Store::new(), workers, port }
    }

    /// Commits one decoded request into the table: insert or overwrite,
    /// unconditionally.
    pub fn commit_request(&mut self, request: &Request)
        requires
            old(self).store.wf(),
        ensures
            final(self).store.wf(),
            final(self).store@ == old(self).store@.insert(request.key@, request.value@),
            final(self).workers == old(self).workers,
            final(self).port == old(self).port,
    {
        self.store.put(request.key.clone(), request.value.clone());
    }
}

} // verus!
