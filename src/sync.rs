//! The decisions of peer synchronisation and the settings of the request
//! protocol. Asking peers and waiting for them is left to the caller, which
//! hands the answers in.

use vstd::prelude::*;

verus! {

/// A peer and the height it reported, if it answered.
pub struct PeerHeight {
    pub peer: String,
    pub height: Option<u64>,
}

/// The peer to fetch blocks from: among the peers that answered, the first
/// with the greatest height, if that height exceeds the local one.
pub fn get_best_peer(local_height: u64, peers: &[PeerHeight]) -> (r: Option<usize>)
    ensures
        match r {
            Some(i) => {
                &&& i < peers@.len()
                &&& peers@[i as int].height matches Some(h) && h > local_height
                &&& forall|j: int| 0 <= j < peers@.len() ==> ((#[trigger] peers@[j]).height matches Some(h2) ==> h2 <= peers@[i as int].height->0)
                &&& forall|j: int| 0 <= j < i ==> ((#[trigger] peers@[j]).height matches Some(h2) ==> h2 < peers@[i as int].height->0)
            },
            None => forall|j: int| 0 <= j < peers@.len() ==> ((#[trigger] peers@[j]).height matches Some(h2) ==> h2 <= local_height),
        },
{
    let mut best: Option<usize> = None;
    let mut best_height: u64 = local_height;
    let mut i: usize = 0;
    while i < peers.len()
        invariant
            i <= peers@.len(),
            best_height >= local_height,
            match best {
                Some(b) => b < i && peers@[b as int].height == Some(best_height) && best_height > local_height
                    && forall|j: int| 0 <= j < b ==> ((#[trigger] peers@[j]).height matches Some(h2) ==> h2 < best_height),
                None => best_height == local_height,
            },
            forall|j: int| 0 <= j < i ==> ((#[trigger] peers@[j]).height matches Some(h2) ==> h2 <= best_height),
        decreases peers@.len() - i,
    {
        match peers[i].height {
            Some(h) => {
                if best_height < h {
                    best_height = h;
                    best = Some(i);
                }
            },
            None => {},
        }
        i = i + 1;
    }
    best
}

/// Settings of the request-response protocol: how long an idle connection
/// stays open and a request may take, in seconds, and the largest request and
/// response in bytes.
pub struct BehaviourBuilder {
    pub connection_keep_alive: u64,
    pub request_timeout: u64,
    pub max_request_size: usize,
    pub max_response_size: usize,
}

impl BehaviourBuilder {
    /// Ten seconds each, and no size limit.
    pub fn new() -> (r: Self)
        ensures
            r.connection_keep_alive == 10,
            r.request_timeout == 10,
            r.max_request_size == usize::MAX,
            r.max_response_size == usize::MAX,
    {
        BehaviourBuilder {
            connection_keep_alive: 10,
            request_timeout: 10,
            max_request_size: usize::MAX,
            max_response_size: usize::MAX,
        }
    }

    pub fn with_connection_keep_alive(self, connection_keep_alive: Option<u64>) -> (r: Self)
        ensures
            r == (BehaviourBuilder {
                connection_keep_alive: match connection_keep_alive {
                    Some(s) => s,
                    None => self.connection_keep_alive,
                },
                ..self
            }),
    {
        let mut r = self;
        if let Some(secs) = connection_keep_alive {
            r.connection_keep_alive = secs;
        }
        r
    }

    pub fn with_request_timeout(self, request_timeout: Option<u64>) -> (r: Self)
        ensures
            r == (BehaviourBuilder {
                request_timeout: match request_timeout {
                    Some(s) => s,
                    None => self.request_timeout,
                },
                ..self
            }),
    {
        let mut r = self;
        if let Some(secs) = request_timeout {
            r.request_timeout = secs;
        }
        r
    }

    pub fn with_max_request_size(self, max_request_size: Option<usize>) -> (r: Self)
        ensures
            r == (BehaviourBuilder {
                max_request_size: match max_request_size {
                    Some(s) => s,
                    None => self.max_request_size,
                },
                ..self
            }),
    {
        let mut r = self;
        if let Some(size) = max_request_size {
            r.max_request_size = size;
        }
        r
    }

    pub fn with_max_response_size(self, max_response_size: Option<usize>) -> (r: Self)
        ensures
            r == (BehaviourBuilder {
                max_response_size: match max_response_size {
                    Some(s) => s,
                    None => self.max_response_size,
                },
                ..self
            }),
    {
        let mut r = self;
        if let Some(size) = max_response_size {
            r.max_response_size = size;
        }
        r
    }
}

} // verus!
