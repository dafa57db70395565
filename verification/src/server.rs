//! Decisions of the server program: what it reads from its environment, where
//! it listens, and which leftover socket it may remove.

use vstd::prelude::*;
use vstd::string::StringExecFns;

use crate::text::{same_text, strip_prefix, to_chars};

verus! {

/// The path of the unix socket that an address names: `unix:///path`,
/// `unix:/path`, or an absolute path. Any other address names none.
pub open spec fn socket_path(addr: Seq<char>) -> Option<Seq<char>> {
    if "unix://"@.is_prefix_of(addr) {
        Some(addr.skip(7))
    } else if "unix:"@.is_prefix_of(addr) {
        Some(addr.skip(5))
    } else if addr.len() > 0 && addr[0] == '/' {
        Some(addr)
    } else {
        None
    }
}

/// `unix:///path`, `unix:/path`, or an absolute filesystem path.
pub fn unix_socket_path(addr: &str) -> (path: Option<String>)
    ensures
        match socket_path(addr@) {
            Some(text) => path matches Some(path) && path@ == text,
            None => path is None,
        },
{
    proof {
        reveal_strlit("unix://");
        reveal_strlit("unix:");
    }
    if let Some(path) = strip_prefix(addr, "unix://") {
        return Some(path.to_owned());
    }
    if let Some(path) = strip_prefix(addr, "unix:") {
        return Some(path.to_owned());
    }
    let chars: Vec<char> = to_chars(addr);
    if chars.len() > 0 && chars[0] == '/' {
        Some(addr.to_owned())
    } else {
        None
    }
}

/// What stands at the path that the server is to listen on.
pub enum SocketEntry {
    /// A unix socket.
    Socket,
    /// Anything else, a symbolic link included.
    Other,
    /// Nothing.
    Missing,
    /// It could not be looked up.
    Unknown,
}

/// What to do about the entry at a socket path.
pub enum Cleanup {
    /// Remove the entry.
    Remove,
    /// Leave everything as it is and go on.
    Keep,
    /// Stop: something else stands there. This says what.
    Refuse(String),
    /// Stop with the error of the lookup.
    PassOn,
}

/// The message of a refused cleanup.
pub open spec fn occupied_text(path: Seq<char>) -> Seq<char> {
    path + " already exists and is not a unix socket"@
}

/// Whether this is what to do about the entry at a socket path.
pub open spec fn is_cleanup(path: Seq<char>, entry: SocketEntry, cleanup: Cleanup) -> bool {
    match entry {
        SocketEntry::Socket => cleanup is Remove,
        SocketEntry::Other => cleanup matches Cleanup::Refuse(text) && text@ == occupied_text(
            path,
        ),
        SocketEntry::Missing => cleanup is Keep,
        SocketEntry::Unknown => cleanup is PassOn,
    }
}

/// Decides on a leftover socket file, so that the listener can bind again:
/// nothing is removed that is not a unix socket.
pub fn remove_stale_socket(path: &str, entry: SocketEntry) -> (cleanup: Cleanup)
    ensures
        is_cleanup(path@, entry, cleanup),
{
    match entry {
        SocketEntry::Socket => Cleanup::Remove,
        SocketEntry::Other => {
            let mut text: String = path.to_owned();
            text.append(" already exists and is not a unix socket");
            Cleanup::Refuse(text)
        },
        SocketEntry::Missing => Cleanup::Keep,
        SocketEntry::Unknown => Cleanup::PassOn,
    }
}

/// Whether a value of the switch for local files turns them on.
pub open spec fn turns_on(value: Seq<char>) -> bool {
    value == "1"@ || value == "true"@ || value == "TRUE"@
}

/// Whether local files are allowed, by the value of their switch.
pub fn allows_local_files(value: Option<&str>) -> (allowed: bool)
    ensures
        allowed == (value matches Some(text) && turns_on(text@)),
        allowed <==> value is Some && (value->0@ == "1"@ || value->0@ == "true"@ || value->0@
            == "TRUE"@),
{
    match value {
        Some(text) => same_text(text, "1") || same_text(text, "true") || same_text(text, "TRUE"),
        None => false,
    }
}

/// The message for a server that allows local files but is not told where.
pub open spec fn missing_root_text() -> Seq<char> {
    "FASTWARC_GRPC_ALLOW_LOCAL_FILES is set but FASTWARC_GRPC_LOCAL_FILE_ROOT is not; set it to the directory that archive_path requests are confined to"@
}

/// Whether this is the directory to serve files from, or the error.
pub open spec fn is_served_root(
    allowed: bool,
    root: Option<String>,
    served: Result<Option<String>, String>,
) -> bool {
    &&& !allowed ==> served == Ok::<Option<String>, String>(None)
    &&& allowed && root is Some ==> served == Ok::<Option<String>, String>(root)
    &&& allowed && root is None ==> (served matches Err(text) && text@ == missing_root_text())
}

/// The directory to serve files from, if any. Without the switch the directory
/// is ignored; with the switch it has to be named.
pub fn local_file_root(allowed: bool, root: Option<String>) -> (served: Result<
    Option<String>,
    String,
>)
    ensures
        is_served_root(allowed, root, served),
{
    if !allowed {
        return Ok(None);
    }
    match root {
        Some(root) => Ok(Some(root)),
        None => Err(
            "FASTWARC_GRPC_ALLOW_LOCAL_FILES is set but FASTWARC_GRPC_LOCAL_FILE_ROOT is not; set it to the directory that archive_path requests are confined to".to_owned(),
        ),
    }
}

/// The message for a directory that cannot be served from.
pub fn invalid_root_message(root: &str, error: &str) -> (text: String)
    ensures
        text@ == "invalid FASTWARC_GRPC_LOCAL_FILE_ROOT "@ + root@ + ": "@ + error@,
{
    let mut text: String = "invalid FASTWARC_GRPC_LOCAL_FILE_ROOT ".to_owned();
    text.append(root);
    text.append(": ");
    text.append(error);
    text
}

/// How the server announces its handling of local files.
pub fn local_files_label(root: Option<&str>) -> (label: String)
    ensures
        label@ == match root {
            Some(root) => "confined to "@ + root@,
            None => "disabled"@,
        },
{
    match root {
        Some(root) => {
            let mut label: String = "confined to ".to_owned();
            label.append(root);
            label
        },
        None => "disabled".to_owned(),
    }
}

/// The spellings of an absolute path name the same socket. A path that starts
/// with two slashes has only two of them, since the third would read as another
/// path.
pub proof fn law_socket_spellings(path: Seq<char>)
    requires
        path.len() > 0,
        path[0] == '/',
    ensures
        socket_path("unix://"@ + path) == Some(path),
        path.len() > 1 && path[1] == '/' || socket_path("unix:"@ + path) == Some(path),
        socket_path(path) == Some(path),
{
    reveal_strlit("unix://");
    reveal_strlit("unix:");
    let long = "unix://"@ + path;
    let short = "unix:"@ + path;
    assert("unix://"@ =~= long.subrange(0, 7));
    assert(long.skip(7) =~= path);
    assert("unix:"@ =~= short.subrange(0, 5));
    assert(short.skip(5) =~= path);
    if "unix://"@.is_prefix_of(short) {
        assert(short.subrange(0, 7)[6] == short[6]);
        assert(short[6] == path[1]);
    }
    if "unix://"@.is_prefix_of(path) {
        assert(path.subrange(0, 7)[0] == path[0]);
    }
    if "unix:"@.is_prefix_of(path) {
        assert(path.subrange(0, 5)[0] == path[0]);
    }
}

/// An address names a socket exactly where it is the path behind `unix://`, the
/// path behind `unix:`, or a path that starts with a slash, and it names that path
/// and no other. Two slashes behind `unix:` always count as part of the prefix.
pub proof fn law_socket_is_what_the_address_spells(addr: Seq<char>, path: Seq<char>)
    ensures
        socket_path(addr) == Some(path) <==> {
            ||| addr == "unix://"@ + path
            ||| addr == "unix:"@ + path && !(path.len() >= 2 && path[0] == '/' && path[1] == '/')
            ||| addr == path && path.len() > 0 && path[0] == '/'
        },
{
    reveal_strlit("unix://");
    reveal_strlit("unix:");
    let long = "unix://"@;
    let short = "unix:"@;
    assert(long.take(5) =~= short);
    if addr == long + path {
        assert(long =~= addr.subrange(0, 7));
        assert(addr.skip(7) =~= path);
    } else if addr == short + path && !(path.len() >= 2 && path[0] == '/' && path[1] == '/') {
        assert(short =~= addr.subrange(0, 5));
        assert(addr.skip(5) =~= path);
        if long.is_prefix_of(addr) {
            assert(addr.subrange(0, 7)[5] == addr[5] && addr.subrange(0, 7)[6] == addr[6]);
            assert(addr[5] == path[0] && addr[6] == path[1]);
        }
    } else if addr == path && path.len() > 0 && path[0] == '/' {
        if short.is_prefix_of(addr) {
            assert(addr.subrange(0, 5)[0] == addr[0]);
        }
        if long.is_prefix_of(addr) {
            assert(addr.subrange(0, 7)[0] == addr[0]);
        }
    }
    if socket_path(addr) == Some(path) {
        if long.is_prefix_of(addr) {
            assert(long + path =~= addr);
        } else if short.is_prefix_of(addr) {
            assert(short + path =~= addr);
            if path.len() >= 2 && path[0] == '/' && path[1] == '/' {
                assert(addr[5] == path[0] && addr[6] == path[1]);
                assert forall|i: int| 0 <= i < 5 implies addr[i] == long[i] by {
                    assert(addr.subrange(0, 5)[i] == addr[i]);
                    assert(long.take(5)[i] == long[i]);
                }
                assert(long =~= addr.subrange(0, 7));
            }
        }
    }
}

/// Nothing is removed but a unix socket, a socket always is, and the server goes on
/// beside what it must not remove only where nothing stands in its way.
pub proof fn law_only_sockets_are_removed(path: Seq<char>, entry: SocketEntry, cleanup: Cleanup)
    requires
        is_cleanup(path, entry, cleanup),
    ensures
        cleanup is Remove <==> entry is Socket,
        cleanup is Keep <==> entry is Missing,
        cleanup is PassOn <==> entry is Unknown,
        cleanup matches Cleanup::Refuse(text) ==> text@.len() == path.len()
            + " already exists and is not a unix socket"@.len() && path.is_prefix_of(text@)
            && text@.skip(path.len() as int) == " already exists and is not a unix socket"@,
{
    if let Cleanup::Refuse(text) = cleanup {
        assert(path =~= text@.subrange(0, path.len() as int));
        assert(text@.skip(path.len() as int) =~= " already exists and is not a unix socket"@);
    }
}

/// Local files are served only where they are allowed, from the directory that is
/// named and no other; where they are allowed and none is named, the server does not
/// start.
pub proof fn law_local_files_need_both_settings(
    allowed: bool,
    root: Option<String>,
    served: Result<Option<String>, String>,
)
    requires
        is_served_root(allowed, root, served),
    ensures
        served is Err <==> allowed && root is None,
        served matches Ok(directory) ==> (directory is Some <==> allowed) && (directory is Some
            ==> directory == root),
{
}

} // verus!
