//! The requests and responses that peers exchange, and the commands and
//! broadcasts that a node handles. Transport is left to the caller.

use vstd::prelude::*;
use crate::block::{blocks_view, Block};
use crate::chain::{after_add, after_add_all, BlockChain};

verus! {

/// The request methods a peer answers.
#[derive(Debug, Clone, Copy, PartialEq, Eq, Structural)]
pub enum Method {
    Height,
    Blocks,
}

impl Method {
    /// The method's name on the wire.
    pub fn as_str_name(&self) -> (r: &'static str)
        ensures
            *self == Method::Height ==> r@ == "HEIGHT"@,
            *self == Method::Blocks ==> r@ == "BLOCKS"@,
    {
        match self {
            Method::Height => "HEIGHT",
            Method::Blocks => "BLOCKS",
        }
    }

    /// The method with a given name on the wire.
    pub fn from_str_name(value: &str) -> (r: Option<Self>)
        ensures
            value@ == "HEIGHT"@ <==> r == Some(Method::Height),
            value@ == "BLOCKS"@ <==> r == Some(Method::Blocks),
    {
        proof {
            reveal_strlit("HEIGHT");
            reveal_strlit("BLOCKS");
            assert("HEIGHT"@[0] != "BLOCKS"@[0]);
        }
        let v = value.to_owned();
        if v == "HEIGHT".to_owned() {
            Some(Method::Height)
        } else if v == "BLOCKS".to_owned() {
            Some(Method::Blocks)
        } else {
            assert(value@ != "HEIGHT"@);
            None
        }
    }
}

/// Asks a peer for its height.
pub struct BlockHeightReq {}

/// Asks a peer for its blocks above a height.
pub struct BlocksReq {
    pub from_number: u64,
}

pub struct BlockHeightResp {
    pub block_height: u64,
}

pub struct BlocksResp {
    pub blocks: Vec<Block>,
}

pub enum RequestBody {
    BlockHeightReq(BlockHeightReq),
    BlocksReq(BlocksReq),
}

pub enum ResponseBody {
    BlockHeightResp(BlockHeightResp),
    BlocksResp(BlocksResp),
}

pub struct Request {
    pub method: Method,
    pub body: RequestBody,
}

pub struct Response {
    pub method: Method,
    pub body: ResponseBody,
}

impl Request {
    pub fn new_block_height_req() -> (r: Self)
        ensures
            r.method == Method::Height,
            r.body is BlockHeightReq,
    {
        Request { method: Method::Height, body: RequestBody::BlockHeightReq(BlockHeightReq {  }) }
    }

    pub fn new_blocks_req(from_number: u64) -> (r: Self)
        ensures
            r.method == Method::Blocks,
            r.body matches RequestBody::BlocksReq(b) && b.from_number == from_number,
    {
        Request { method: Method::Blocks, body: RequestBody::BlocksReq(BlocksReq { from_number }) }
    }
}

impl Response {
    pub fn new_block_height_resp(block_height: u64) -> (r: Self)
        ensures
            r.method == Method::Height,
            r.body matches ResponseBody::BlockHeightResp(b) && b.block_height == block_height,
    {
        Response {
            method: Method::Height,
            body: ResponseBody::BlockHeightResp(BlockHeightResp { block_height }),
        }
    }

    pub fn new_blocks_resp(blocks: Vec<Block>) -> (r: Self)
        ensures
            r.method == Method::Blocks,
            r.body matches ResponseBody::BlocksResp(b) && b.blocks@ == blocks@,
    {
        Response { method: Method::Blocks, body: ResponseBody::BlocksResp(BlocksResp { blocks }) }
    }
}

/// What a user asks a node to do.
pub enum Commands {
    Genesis(String),
    Blocks(String),
    Sync(String),
    CreateWallet(String),
    GetAddress(String),
    Transaction { from: String, to: String, amount: String },
}

/// What nodes broadcast to each other.
pub enum Messages {
    BroadcastSync { best_height: u64, from_addr: String },
    BroadcastChain { blocks: Vec<Block>, height: u64, to_addr: String },
    BroadcastBlock { block: Block },
}

/// How a node answers a broadcast from a peer. A sync request from a shorter
/// peer is answered with the whole chain, addressed to it; a chain addressed
/// to this node from a taller peer is added block by block; a single block is
/// added. Blocks that fail are passed over.
pub fn handle_message(chain: &mut BlockChain, peer_id: &str, msg: Messages) -> (r: Option<Messages>)
    requires
        old(chain).wf(),
    ensures
        final(chain).wf(),
        final(chain).difficulty() == old(chain).difficulty(),
        match msg {
            Messages::BroadcastSync { best_height, from_addr } => {
                &&& final(chain)@ == old(chain)@
                &&& if old(chain)@.len() > best_height {
                    r matches Some(Messages::BroadcastChain { blocks, height, to_addr })
                        && blocks_view(blocks@) == old(chain)@ && height == old(chain)@.len()
                        && to_addr@ == from_addr@
                } else {
                    r.is_none()
                }
            },
            Messages::BroadcastChain { blocks, height, to_addr } => {
                &&& r.is_none()
                &&& final(chain)@ == if to_addr@ == peer_id@ && old(chain)@.len() < height {
                    after_add_all(old(chain)@, blocks_view(blocks@))
                } else {
                    old(chain)@
                }
            },
            Messages::BroadcastBlock { block } => {
                &&& r.is_none()
                &&& final(chain)@ == after_add(old(chain)@, block@)
            },
        },
{
    match msg {
        Messages::BroadcastSync { best_height, from_addr } => {
            if chain.get_height() > best_height {
                Some(Messages::BroadcastChain {
                    blocks: chain.get_blocks(),
                    height: chain.get_height(),
                    to_addr: from_addr,
                })
            } else {
                None
            }
        },
        Messages::BroadcastChain { blocks, height, to_addr } => {
            let me = peer_id.to_owned();
            if to_addr == me && chain.get_height() < height {
                let _ = chain.sync_blocks(blocks.as_slice());
            }
            None
        },
        Messages::BroadcastBlock { block } => {
            let _ = chain.add_block(block);
            None
        },
    }
}

} // verus!
