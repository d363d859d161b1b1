//! The guard against running inside a session.
//!
//! Every session's editor has [`MARKER`] in its environment, and so has everything that editor
//! starts. Finding it set means being inside a session, where the outer program swallows every
//! prefix before an inner one could see it.

use vstd::prelude::*;

use crate::text::{lossy, lossy_text};

verus! {

/// Set in the environment of every session's editor. The value is the session's socket path.
pub const MARKER: &'static str = "NVMUX";

/// What a refused user reads.
pub open spec fn refusal_text(sock: Seq<char>) -> Seq<char> {
    "already inside an nvmux session ("@ + sock
        + ")\nhint: `<prefix> t` opens the picker from inside a session; unset $NVMUX to run nvmux anyway"@
}

/// What a refused user reads.
pub fn refusal(sock: &str) -> (r: String)
    ensures
        r@ == refusal_text(sock@),
{
    let mut s: String = String::from_str("already inside an nvmux session (");
    s.append(sock);
    s.append(
        ")\nhint: `<prefix> t` opens the picker from inside a session; unset $NVMUX to run nvmux anyway",
    );
    s
}

/// Refuse to run inside a session, given the marker's value as the environment has it. One that
/// is not valid text is still a marker. An empty one is how a nested run is forced.
pub fn guard(marker: Option<&[u8]>) -> (r: Result<(), String>)
    ensures
        match marker {
            Some(sock) => if sock@.len() > 0 {
                r matches Err(why) && why@ == refusal_text(lossy_text(sock@))
            } else {
                r is Ok
            },
            None => r is Ok,
        },
{
    match marker {
        Some(sock) => if sock.len() > 0 {
            Err(refusal(lossy(sock).as_str()))
        } else {
            Ok(())
        },
        None => Ok(()),
    }
}

} // verus!
