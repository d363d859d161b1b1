//! The runtime directory and the paths of sockets.
//!
//! A path is text, its length what it takes in UTF-8: that is what a kernel measures. Every
//! session path is short because `sun_path` is: 104 bytes on macOS and 108 on Linux, past
//! which Neovim silently truncates, leaving a healthy server bound to a path nothing can
//! reach. Hence [`MAX_SOCK_PATH`], checked before anything is started.

use vstd::prelude::*;

use crate::error::PathError;
use crate::ids::{is_valid_id, valid_id};
use crate::text::{decimal, number_text, utf8};

verus! {

/// The runtime directory is always this with the user's id behind it, on every platform.
pub const RUNTIME_DIR_PREFIX: &'static str = "/tmp/nvmux-";

/// Reject socket paths longer than this, in bytes.
pub const MAX_SOCK_PATH: usize = 100;

/// A path of more bytes than this is close to the limit.
pub const WARN_SOCK_PATH: usize = 90;

/// The runtime directory of the user with this id.
pub fn runtime_dir(euid: u32) -> (r: String)
    ensures
        r@ == RUNTIME_DIR_PREFIX@ + decimal(euid as nat),
{
    let mut dir: String = String::from_str(RUNTIME_DIR_PREFIX);
    dir.append(number_text(euid as u64).as_str());
    dir
}

/// A name inside a directory. An absolute name stands on its own.
pub open spec fn joined(dir: Seq<char>, name: Seq<char>) -> Seq<char> {
    if name.len() > 0 && name[0] == '/' {
        name
    } else if dir.len() == 0 || dir.last() == '/' {
        dir + name
    } else {
        dir + "/"@ + name
    }
}

/// A name inside a directory.
pub(crate) fn join(dir: &str, name: &str) -> (r: String)
    ensures
        r@ == joined(dir@, name@),
{
    let n: usize = name.unicode_len();
    if n > 0 && name.get_char(0) == '/' {
        return String::from_str(name);
    }
    let mut path: String = String::from_str(dir);
    let d: usize = dir.unicode_len();
    if d > 0 && dir.get_char(d - 1) != '/' {
        path.append("/");
    }
    path.append(name);
    path
}

/// What `lstat` says of a directory's final component, as far as it matters.
#[derive(Debug, Clone, Copy, PartialEq, Eq, Structural)]
pub struct Stat {
    pub is_dir: bool,
    pub uid: u32,
    pub mode: u32,
}

/// What was found at a path that should be the runtime directory, or what came of making it.
#[derive(Debug)]
pub enum Found {
    /// Something is there.
    Entry(Stat),
    /// Nothing is there.
    Missing,
    /// The directory was made and its mode set.
    Made,
    /// Someone else made it first.
    AlreadyExists,
    /// What the system said.
    Failed(String),
}

/// What to do next about the runtime directory.
#[derive(Debug)]
pub enum Secure {
    /// Look at it, without following a link.
    Look,
    /// Make it, for its owner alone, and set its mode whatever the mask says.
    Make,
    /// It is there, it is a directory, it is ours and nobody else can use it.
    Ready,
    /// It must not be used.
    Refuse(PathError),
}

/// How often losing a race to make or remove the directory is put up with.
pub const ATTEMPTS: u32 = 8;

/// The check of the runtime directory: what has to be done next, told what came of the last
/// thing done. It follows no link, trusts no directory that someone else owns or can use,
/// and never changes the mode of one it did not make.
#[derive(Debug)]
pub struct Securing {
    dir: String,
    euid: u32,
    /// How many more times to look.
    looks: u32,
}

/// A directory that is ours and nobody else can use.
pub open spec fn private_to(stat: Stat, euid: u32) -> bool {
    stat.is_dir && stat.uid == euid && others_shut_out(stat.mode)
}

/// No permission bit for the group or for others is set: the two lowest octal digits are
/// zero.
pub open spec fn others_shut_out(mode: u32) -> bool {
    mode % 0o100 == 0
}

impl Securing {
    /// The directory being checked.
    pub closed spec fn path(self) -> Seq<char> {
        self.dir@
    }

    /// Whose it has to be.
    pub closed spec fn owner(self) -> u32 {
        self.euid
    }

    /// How many more times to look.
    pub closed spec fn left(self) -> u32 {
        self.looks
    }

    /// The check of this directory for this user, and the first thing to do.
    pub fn start(dir: &str, euid: u32) -> (r: (Self, Secure))
        ensures
            r.0.path() == dir@,
            r.0.owner() == euid,
            r.0.left() == ATTEMPTS - 1,
            r.1 is Look,
    {
        (
            Securing { dir: String::from_str(dir), euid, looks: ATTEMPTS - 1 },
            Secure::Look,
        )
    }

    /// What to do next, given what was found.
    pub fn next(&mut self, found: Found) -> (r: Secure)
        ensures
            final(self).path() == old(self).path(),
            final(self).owner() == old(self).owner(),
            match found {
                Found::Entry(stat) => {
                    &&& final(self).left() == old(self).left()
                    &&& match r {
                        Secure::Ready => private_to(stat, old(self).owner()),
                        Secure::Refuse(PathError::NotADirectory(path)) => !stat.is_dir && path@
                            == old(self).path(),
                        Secure::Refuse(PathError::BadOwner { path, owner, expected }) => {
                            &&& stat.is_dir
                            &&& stat.uid != old(self).owner()
                            &&& path@ == old(self).path()
                            &&& owner == stat.uid
                            &&& expected == old(self).owner()
                        },
                        Secure::Refuse(PathError::BadMode { path, mode }) => {
                            &&& stat.is_dir
                            &&& stat.uid == old(self).owner()
                            &&& !others_shut_out(stat.mode)
                            &&& path@ == old(self).path()
                            &&& mode == stat.mode % 0o1000
                        },
                        _ => false,
                    }
                },
                Found::Missing => final(self).left() == old(self).left() && r is Make,
                Found::Made | Found::AlreadyExists => if old(self).left() > 0 {
                    final(self).left() == old(self).left() - 1 && r is Look
                } else {
                    &&& final(self).left() == 0
                    &&& r matches Secure::Refuse(PathError::Io { path, source })
                    &&& path@ == old(self).path()
                    &&& source@ == "runtime directory kept changing underneath us"@
                },
                Found::Failed(why) => {
                    &&& final(self).left() == old(self).left()
                    &&& r matches Secure::Refuse(PathError::Io { path, source })
                    &&& path@ == old(self).path()
                    &&& source@ == why@
                },
            },
    {
        match found {
            Found::Entry(stat) => {
                if !stat.is_dir {
                    return Secure::Refuse(PathError::NotADirectory(self.dir.clone()));
                }
                if stat.uid != self.euid {
                    return Secure::Refuse(
                        PathError::BadOwner {
                            path: self.dir.clone(),
                            owner: stat.uid,
                            expected: self.euid,
                        },
                    );
                }
                if stat.mode % 0o100 != 0 {
                    return Secure::Refuse(
                        PathError::BadMode { path: self.dir.clone(), mode: stat.mode % 0o1000 },
                    );
                }
                Secure::Ready
            },
            Found::Missing => Secure::Make,
            Found::Made | Found::AlreadyExists => {
                if self.looks > 0 {
                    self.looks = self.looks - 1;
                    Secure::Look
                } else {
                    Secure::Refuse(
                        PathError::Io {
                            path: self.dir.clone(),
                            source: String::from_str(
                                "runtime directory kept changing underneath us",
                            ),
                        },
                    )
                }
            },
            Found::Failed(why) => Secure::Refuse(
                PathError::Io { path: self.dir.clone(), source: why },
            ),
        }
    }
}

/// Validate a composed socket path against the budget.
pub fn check_sock_path(path: &str) -> (r: Result<(), PathError>)
    ensures
        match r {
            Ok(()) => utf8(path@).len() <= MAX_SOCK_PATH,
            Err(PathError::TooLong { path: named, len, max }) => {
                &&& utf8(path@).len() > MAX_SOCK_PATH
                &&& named@ == path@
                &&& len == utf8(path@).len()
                &&& max == MAX_SOCK_PATH
            },
            Err(_) => false,
        },
{
    let len: usize = path.as_bytes().len();
    if len > MAX_SOCK_PATH {
        return Err(
            PathError::TooLong { path: String::from_str(path), len, max: MAX_SOCK_PATH },
        );
    }
    Ok(())
}

/// Whether a path is so close to the limit that someone should know.
pub fn near_the_limit(path: &str) -> (r: bool)
    ensures
        r == (WARN_SOCK_PATH < utf8(path@).len() <= MAX_SOCK_PATH),
{
    let len: usize = path.as_bytes().len();
    WARN_SOCK_PATH < len && len <= MAX_SOCK_PATH
}

/// Paths belonging to one session, in one directory.
#[derive(Debug, Clone)]
pub struct SessionPaths {
    pub sock: String,
    pub json: String,
    pub log: String,
}

fn named(dir: &str, stem: &str, ext: &str) -> (r: String)
    ensures
        r@ == joined(dir@, stem@ + ext@),
{
    let mut name: String = String::from_str(stem);
    name.append(ext);
    join(dir, name.as_str())
}

impl SessionPaths {
    /// Build the three paths for `id` under `dir`, rejecting a malformed id: these paths are
    /// unlinked, connected to and handed to a kill script. Only the socket is measured.
    pub fn new(dir: &str, id: &str) -> (r: Result<Self, PathError>)
        ensures
            match r {
                Ok(paths) => {
                    &&& valid_id(id@)
                    &&& utf8(joined(dir@, id@ + ".sock"@)).len() <= MAX_SOCK_PATH
                    &&& paths.sock@ == joined(dir@, id@ + ".sock"@)
                    &&& paths.json@ == joined(dir@, id@ + ".json"@)
                    &&& paths.log@ == joined(dir@, id@ + ".log"@)
                },
                Err(PathError::MalformedId(bad)) => !valid_id(id@) && bad@ == id@,
                Err(PathError::TooLong { path, len, max }) => {
                    &&& valid_id(id@)
                    &&& path@ == joined(dir@, id@ + ".sock"@)
                    &&& len == utf8(path@).len()
                    &&& max == MAX_SOCK_PATH
                    &&& len > max
                },
                Err(_) => false,
            },
    {
        if !is_valid_id(id) {
            return Err(PathError::MalformedId(String::from_str(id)));
        }
        let sock: String = named(dir, id, ".sock");
        match check_sock_path(sock.as_str()) {
            Ok(()) => Ok(
                SessionPaths { json: named(dir, id, ".json"), log: named(dir, id, ".log"), sock },
            ),
            Err(e) => Err(e),
        }
    }
}

/// The name of a host's forward for a session.
pub open spec fn forward_name(host_token: Seq<char>, id: Seq<char>) -> Seq<char> {
    host_token + "-"@ + id + ".sock"@
}

pub(crate) fn forward(host_token: &str, id: &str) -> (r: String)
    ensures
        r@ == forward_name(host_token@, id@),
{
    let mut name: String = String::from_str(host_token);
    name.append("-");
    name.append(id);
    name.append(".sock");
    name
}

/// The local end of an SSH-forwarded session socket, namespaced by host token so that two
/// hosts each holding a session with the same id cannot collide.
pub fn forwarded_sock(dir: &str, host_token: &str, id: &str) -> (r: Result<String, PathError>)
    ensures
        match r {
            Ok(path) => {
                &&& path@ == joined(dir@, forward_name(host_token@, id@))
                &&& utf8(path@).len() <= MAX_SOCK_PATH
            },
            Err(PathError::TooLong { path, len, max }) => {
                &&& path@ == joined(dir@, forward_name(host_token@, id@))
                &&& len == utf8(path@).len()
                &&& max == MAX_SOCK_PATH
                &&& len > max
            },
            Err(_) => false,
        },
{
    let path: String = join(dir, forward(host_token, id).as_str());
    match check_sock_path(path.as_str()) {
        Ok(()) => Ok(path),
        Err(e) => Err(e),
    }
}

/// The socket one master connection binds, named for that master alone: the `ControlPath`,
/// a dot and what is that master's own.
pub fn master_socket(control_path: &str, nonce: &str) -> (r: String)
    ensures
        r@ == control_path@ + "."@ + nonce@,
{
    let mut name: String = String::from_str(control_path);
    name.append(".");
    name.append(nonce);
    name
}

/// The longest name a master for this `ControlPath` binds, as it is measured.
pub open spec fn longest_master(control_path: Seq<char>) -> Seq<char> {
    control_path + "."@ + "xxxxxxxx"@
}

/// The SSH `ControlPath` for a host. A master binds a longer name than this one, so that is
/// the one checked.
pub fn control_path(dir: &str, host_token: &str) -> (r: Result<String, PathError>)
    ensures
        match r {
            Ok(path) => {
                &&& path@ == joined(dir@, "cm-"@ + host_token@)
                &&& utf8(longest_master(path@)).len() <= MAX_SOCK_PATH
            },
            Err(PathError::TooLong { path, len, max }) => {
                &&& path@ == longest_master(joined(dir@, "cm-"@ + host_token@))
                &&& len == utf8(path@).len()
                &&& max == MAX_SOCK_PATH
                &&& len > max
            },
            Err(_) => false,
        },
{
    let path: String = named(dir, "cm-", host_token);
    match check_sock_path(master_socket(path.as_str(), "xxxxxxxx").as_str()) {
        Ok(()) => Ok(path),
        Err(e) => Err(e),
    }
}

/// The log file of the program itself.
pub fn client_log(dir: &str) -> (r: String)
    ensures
        r@ == joined(dir@, "nvmux.log"@),
{
    join(dir, "nvmux.log")
}

/// Hosts with different tokens never share the local path of a forward, and neither do two
/// sessions of one host: for tokens and ids of the usual shape the path tells both.
pub proof fn law_forwards_of_two_hosts_do_not_collide(
    dir: Seq<char>,
    a: Seq<char>,
    b: Seq<char>,
    id: Seq<char>,
    other: Seq<char>,
)
    requires
        valid_id(a),
        valid_id(b),
        valid_id(id),
        valid_id(other),
        joined(dir, forward_name(a, id)) == joined(dir, forward_name(b, other)),
    ensures
        a == b,
        id == other,
{
    let x = forward_name(a, id);
    let y = forward_name(b, other);
    reveal_strlit("-");
    reveal_strlit(".sock");
    reveal_strlit("/");
    assert(x[0] == a[0] && y[0] == b[0]);
    assert(crate::ids::in_alphabet(a[0]) && crate::ids::in_alphabet(b[0]));
    let px = joined(dir, x);
    let py = joined(dir, y);
    assert(px.skip(px.len() - x.len()) =~= x);
    assert(py.skip(py.len() - y.len()) =~= y);
    assert(x == y);
    assert(x.take(8) =~= a);
    assert(y.take(8) =~= b);
    assert(x.subrange(9, 17) =~= id);
    assert(y.subrange(9, 17) =~= other);
}

/// A session's paths stay in its directory: a well-formed id holds no slash and no dot.
pub proof fn law_session_paths_stay_in_their_directory(dir: Seq<char>, id: Seq<char>)
    requires
        valid_id(id),
    ensures
        joined(dir, id + ".sock"@) == if dir.len() == 0 || dir.last() == '/' {
            dir + (id + ".sock"@)
        } else {
            dir + "/"@ + (id + ".sock"@)
        },
        forall|i: int| 0 <= i < id.len() ==> #[trigger] id[i] != '/' && id[i] != '.',
{
    assert(crate::ids::in_alphabet(id[0]));
    assert((id + ".sock"@)[0] == id[0]);
    assert forall|i: int| 0 <= i < id.len() implies #[trigger] id[i] != '/' && id[i] != '.' by {
        assert(crate::ids::in_alphabet(id[i]));
    }
}

/// A relative name goes behind its directory with one slash between them, and an absolute one
/// stands on its own.
pub proof fn law_a_name_goes_behind_its_directory(dir: Seq<char>, name: Seq<char>)
    requires
        name.len() > 0,
    ensures
        name[0] == '/' ==> joined(dir, name) == name,
        name[0] != '/' && dir.len() > 0 && dir.last() != '/' ==> joined(dir, name) == dir.push('/')
            + name && joined(dir.push('/'), name) == dir.push('/') + name,
{
    reveal_strlit("/");
    if name[0] != '/' && dir.len() > 0 && dir.last() != '/' {
        assert(joined(dir, name) =~= dir.push('/') + name);
        assert(joined(dir.push('/'), name) =~= dir.push('/') + name);
    }
}

/// A directory is private exactly when it is one, it is its owner's, and none of the six
/// permission bits of the group and of others is set.
pub proof fn law_a_private_directory_shuts_others_out(stat: Stat, euid: u32)
    ensures
        private_to(stat, euid) <==> stat.is_dir && stat.uid == euid && stat.mode & 0o077 == 0,
{
    let m = stat.mode;
    assert((m % 0o100 == 0) == (m & 0o077 == 0)) by (bit_vector);
}

/// What a master binds is as long as what was measured for it, whatever eight characters are
/// its own.
pub proof fn law_a_master_is_as_long_as_was_measured(control_path: Seq<char>, nonce: Seq<char>)
    requires
        nonce.len() == 8,
        vstd::utf8::is_ascii_chars(nonce),
        vstd::utf8::is_ascii_chars(control_path),
    ensures
        utf8(control_path + "."@ + nonce).len() == utf8(longest_master(control_path)).len(),
{
    reveal_strlit(".");
    reveal_strlit("xxxxxxxx");
    assert(vstd::utf8::is_ascii_chars(control_path + "."@ + nonce));
    assert(vstd::utf8::is_ascii_chars(longest_master(control_path)));
    vstd::utf8::is_ascii_chars_encode_utf8(control_path + "."@ + nonce);
    vstd::utf8::is_ascii_chars_encode_utf8(longest_master(control_path));
}

/// The local name of a forward begins with its host's token, ends as a socket does, and has its
/// session's id between them.
pub proof fn law_a_forward_names_its_host_and_session(host_token: Seq<char>, id: Seq<char>)
    ensures
        ({
            let name = forward_name(host_token, id);
            let n = host_token.len() as int;
            let k = id.len() as int;
            &&& name.len() == n + k + 6
            &&& name.take(n) == host_token
            &&& name[n] == '-'
            &&& name.subrange(n + 1, n + 1 + k) == id
            &&& name.skip(n + 1 + k) == seq!['.', 's', 'o', 'c', 'k']
        }),
{
    reveal_strlit("-");
    reveal_strlit(".sock");
    let name = forward_name(host_token, id);
    let n = host_token.len() as int;
    let k = id.len() as int;
    assert(name.take(n) =~= host_token);
    assert(name.subrange(n + 1, n + 1 + k) =~= id);
    assert(name.skip(n + 1 + k) =~= seq!['.', 's', 'o', 'c', 'k']);
}

/// The longest path that is accepted fits every kernel, with the byte that ends it: 104 bytes is
/// the least any of them has room for. A path is noticed before it is refused.
pub proof fn law_an_accepted_path_fits_every_kernel()
    ensures
        MAX_SOCK_PATH + 1 <= 104,
        MAX_SOCK_PATH == 100,
        WARN_SOCK_PATH < MAX_SOCK_PATH,
        ATTEMPTS > 1,
{
}

} // verus!
