//! The addresses on this machine that sessions elsewhere are served at.

use vstd::prelude::*;

use crate::config::Platform;
use crate::paths::{forward, forward_name, join, joined};

verus! {

/// The address of one session: a socket in a directory, or a named pipe.
pub open spec fn address_text(
    platform: Platform,
    dir: Seq<char>,
    tag: Seq<char>,
    host_token: Seq<char>,
    id: Seq<char>,
) -> Seq<char> {
    match platform {
        Platform::Unix => joined(dir, forward_name(host_token, id)),
        Platform::Windows => "\\\\.\\pipe\\nvmux-"@ + tag + "-"@ + host_token + "-"@ + id,
    }
}

/// The address a listener for one session is served at: under `dir` on Unix, or in the pipe
/// namespace on Windows, where `dir` names nothing and `tag` keeps two runs on one machine
/// apart.
pub fn address(platform: Platform, dir: &str, tag: &str, host_token: &str, id: &str) -> (r: String)
    ensures
        r@ == address_text(platform, dir@, tag@, host_token@, id@),
{
    match platform {
        Platform::Unix => join(dir, forward(host_token, id).as_str()),
        Platform::Windows => {
            let mut name: String = String::from_str("\\\\.\\pipe\\nvmux-");
            name.append(tag);
            name.append("-");
            name.append(host_token);
            name.append("-");
            name.append(id);
            name
        },
    }
}

/// Two sessions of one host never share an address.
pub proof fn law_addresses_tell_sessions_apart(
    platform: Platform,
    dir: Seq<char>,
    tag: Seq<char>,
    host_token: Seq<char>,
    a: Seq<char>,
    b: Seq<char>,
)
    requires
        a.len() == b.len(),
        address_text(platform, dir, tag, host_token, a) == address_text(
            platform,
            dir,
            tag,
            host_token,
            b,
        ),
    ensures
        a == b,
{
    reveal_strlit("-");
    reveal_strlit("/");
    let one = address_text(platform, dir, tag, host_token, a);
    let two = address_text(platform, dir, tag, host_token, b);
    let tail = match platform {
        Platform::Unix => ".sock"@.len() as int,
        Platform::Windows => 0,
    };
    let end = one.len() - tail;
    let start = end - a.len();
    assert forall|i: int| 0 <= i < a.len() implies a[i] == b[i] by {
        assert(one[start + i] == a[i]);
        assert(two[start + i] == b[i]);
    }
    assert(a =~= b);
}

} // verus!
