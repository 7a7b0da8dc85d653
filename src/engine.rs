//! What the library decides about the engine connection: its address, and what a
//! version probe means.

use vstd::prelude::*;
use crate::text::{nat_text, push_nat};

verus! {

/// Address of the engine's RPC endpoint on the local machine.
pub open spec fn rpc_url_text(port: nat) -> Seq<char> {
    "ws://127.0.0.1:"@ + nat_text(port) + "/jsonrpc"@
}

/// Address of the engine's RPC endpoint for a port.
pub fn rpc_url(port: u16) -> (r: String)
    ensures
        r@ == rpc_url_text(port as nat),
{
    let mut r = String::from_str("ws://127.0.0.1:");
    push_nat(&mut r, port as u128);
    r.append("/jsonrpc");
    proof {
        reveal_strlit("ws://127.0.0.1:");
        reveal_strlit("/jsonrpc");
    }
    r
}

/// What a version probe reports: the engine's version, or "did not respond"
/// where the engine could not be reached.
pub open spec fn version_answer_text(reply: Option<Seq<char>>) -> Seq<char> {
    match reply {
        Some(v) => v,
        None => "did not respond"@,
    }
}

/// What a version probe reports (see `version_answer_text`).
pub fn version_answer(reply: Option<String>) -> (r: String)
    ensures
        r@ == version_answer_text(match reply { Some(v) => Some(v@), None => None }),
{
    match reply {
        Some(v) => v,
        None => {
            proof {
                reveal_strlit("did not respond");
            }
            String::from_str("did not respond")
        },
    }
}

} // verus!
