//! Where a database directory lies, and where its server listens.
use vstd::prelude::*;
use vstd::string::*;
use vstd::utf8::*;

use crate::error::Error;
use crate::path;
use crate::path::PosixPath;
use crate::text;

verus! {

/// Where the server of a directory listens, seen from the directory.
pub const SOCK_SUFFIX: &'static str = "/run/sql.sock";

/// The systems that differ in the length of a unix socket path.
#[derive(Debug, Clone, Copy)]
pub enum Platform {
    /// Linux.
    Linux,
    /// Every other POSIX system.
    OtherPosix,
}

impl Platform {
    /// The number of bytes that the system has for a socket path and its terminating NUL byte.
    pub open spec fn socket_path_limit(self) -> nat {
        match self {
            Platform::Linux => 108,
            Platform::OtherPosix => 104,
        }
    }

    /// The number of bytes that the system has for a socket path and its terminating NUL byte.
    pub fn sun_path_max(self) -> (r: usize)
        ensures
            r == self.socket_path_limit(),
    {
        match self {
            Platform::Linux => 108,
            Platform::OtherPosix => 104,
        }
    }
}

/// A directory as an absolute path: itself where it is one, else taken from the current
/// directory; without a current directory, the text that says so.
pub open spec fn resolved(
    db_dir: Seq<u8>,
    current_dir: Result<Seq<u8>, Seq<char>>,
) -> Result<Seq<u8>, Seq<char>> {
    if path::is_rooted(db_dir) {
        Ok(db_dir)
    } else {
        match current_dir {
            Ok(current) => Ok(path::path_join(current, db_dir)),
            Err(reason) => Err("cannot resolve current dir: "@ + reason),
        }
    }
}

/// The number of bytes of the socket path of a directory.
pub open spec fn socket_path_len(db_dir: Seq<u8>) -> nat {
    db_dir.len() + encode_utf8(SOCK_SUFFIX@).len()
}

/// The text for a directory whose socket path is too long.
pub open spec fn too_long_message(db_dir: Seq<char>, len: nat, limit: nat) -> Seq<char> {
    "db_dir "@ + db_dir + " is too long: "@ + db_dir + SOCK_SUFFIX@ + " would be "@ + text::digits(
        len,
    ) + " bytes, over this platform's unix socket path limit ("@ + text::digits(limit)
        + "); use a shorter db_dir"@
}

/// Where a directory lies, or the text with which it is rejected: it has to be UTF-8, and its
/// socket path has to fit.
pub open spec fn located(
    db_dir: Seq<u8>,
    current_dir: Result<Seq<u8>, Seq<char>>,
    platform: Platform,
) -> Result<Seq<u8>, Seq<char>> {
    match resolved(db_dir, current_dir) {
        Err(message) => Err(message),
        Ok(abs) => if !valid_utf8(abs) {
            Err(
                "db_dir must be valid UTF-8: the SQL socket path is passed to mysql_async as a String"@,
            )
        } else if socket_path_len(abs) >= platform.socket_path_limit() {
            Err(
                too_long_message(
                    decode_utf8(abs),
                    socket_path_len(abs),
                    platform.socket_path_limit(),
                ),
            )
        } else {
            Ok(abs)
        },
    }
}

/// The current directory, or the text that says why there is none.
pub open spec fn current_dir_model(current_dir: Result<PosixPath, String>) -> Result<
    Seq<u8>,
    Seq<char>,
> {
    match current_dir {
        Ok(current) => Ok(current@),
        Err(reason) => Err(reason@),
    }
}

/// Writes the text for a directory whose socket path is too long.
fn write_too_long_message(db_dir: &str, len: u128, limit: usize) -> (r: String)
    ensures
        r@ == too_long_message(db_dir@, len as nat, limit as nat),
{
    let mut r: String = "db_dir ".to_owned();
    r.append(db_dir);
    r.append(" is too long: ");
    r.append(db_dir);
    r.append(SOCK_SUFFIX);
    r.append(" would be ");
    r.append(text::write_digits(len).as_str());
    r.append(" bytes, over this platform's unix socket path limit (");
    r.append(text::write_digits(limit as u128).as_str());
    r.append("); use a shorter db_dir");
    r
}

/// Where a directory lies, as an absolute path that is UTF-8 and leaves room for the socket path.
/// The current directory is looked at only where the directory is relative.
pub fn absolutize(
    db_dir: &PosixPath,
    current_dir: &Result<PosixPath, String>,
    platform: Platform,
) -> (r: Result<PosixPath, Error>)
    ensures
        match (r, located(db_dir@, current_dir_model(*current_dir), platform)) {
            (Ok(abs), Ok(bytes)) => abs@ == bytes,
            (Err(e), Err(message)) => e.is_invalid_input(message),
            _ => false,
        },
{
    let abs: PosixPath = if db_dir.is_absolute() {
        db_dir.clone()
    } else {
        match current_dir {
            Ok(current) => current.join(db_dir),
            Err(reason) => {
                return Err(
                    Error::InvalidInput(
                        "cannot resolve current dir: ".to_owned().concat(reason.as_str()),
                    ),
                );
            },
        }
    };
    let limit: usize = platform.sun_path_max();
    let suffix_len: usize = SOCK_SUFFIX.as_bytes().len();
    let sock_len: u128 = abs.as_bytes().len() as u128 + suffix_len as u128;
    match abs.to_str() {
        None => {
            return Err(
                Error::InvalidInput(
                    "db_dir must be valid UTF-8: the SQL socket path is passed to mysql_async as a String".to_owned(),
                ),
            );
        },
        Some(spelling) => {
            if sock_len >= limit as u128 {
                return Err(
                    Error::InvalidInput(write_too_long_message(spelling, sock_len, limit)),
                );
            }
        },
    }
    Ok(abs)
}

/// The path of the socket on which the server of a directory listens.
pub open spec fn socket_path_of(db_dir: Seq<u8>) -> Seq<char> {
    decode_utf8(db_dir) + SOCK_SUFFIX@
}

/// The path of the socket on which the server of a directory listens.
pub fn socket_path(db_dir: &PosixPath) -> (r: String)
    requires
        valid_utf8(db_dir@),
    ensures
        r@ == socket_path_of(db_dir@),
{
    match db_dir.to_str() {
        Some(spelling) => spelling.to_owned().concat(SOCK_SUFFIX),
        None => String::new(),
    }
}

/// Encoding goes through a text from left to right.
proof fn lemma_encode_concat(a: Seq<char>, b: Seq<char>)
    ensures
        encode_utf8(a + b) == encode_utf8(a) + encode_utf8(b),
    decreases a.len(),
{
    if a.len() == 0 {
        assert(a + b =~= b);
        assert(encode_utf8(a) + encode_utf8(b) =~= encode_utf8(b));
    } else {
        lemma_encode_concat(a.drop_first(), b);
        assert((a + b).drop_first() =~= a.drop_first() + b);
        assert((a + b)[0] == a[0]);
        assert(encode_utf8(a + b) =~= encode_utf8(a) + encode_utf8(b));
    }
}

/// A directory that was located has a socket path that is the directory with the suffix, and
/// that fits what the system has for it, with its terminating NUL byte.
pub proof fn law_socket_path_fits(
    db_dir: Seq<u8>,
    current_dir: Result<Seq<u8>, Seq<char>>,
    platform: Platform,
)
    requires
        located(db_dir, current_dir, platform) is Ok,
    ensures
        ({
            let abs = located(db_dir, current_dir, platform)->Ok_0;
            let socket = encode_utf8(socket_path_of(abs));
            &&& socket == abs + encode_utf8(SOCK_SUFFIX@)
            &&& socket.len() + 1 <= platform.socket_path_limit()
        }),
{
    let abs = located(db_dir, current_dir, platform)->Ok_0;
    lemma_encode_concat(decode_utf8(abs), SOCK_SUFFIX@);
    decode_utf8_encode_utf8(abs);
}

/// A directory that was located is absolute, and it is found again at the same place from every
/// current directory.
pub proof fn law_located_is_absolute(
    db_dir: Seq<u8>,
    current_dir: Result<Seq<u8>, Seq<char>>,
    other_dir: Result<Seq<u8>, Seq<char>>,
    platform: Platform,
)
    requires
        located(db_dir, current_dir, platform) is Ok,
        current_dir matches Ok(current) ==> path::is_rooted(current),
    ensures
        path::is_rooted(located(db_dir, current_dir, platform)->Ok_0),
        located(located(db_dir, current_dir, platform)->Ok_0, other_dir, platform) == located(
            db_dir,
            current_dir,
            platform,
        ),
{
}

/// A relative directory lies under the current one: its place starts with the bytes of the current
/// directory and ends with those of the given one, with at most one slash between them, and it is
/// known by the names of the one followed by those of the other.
pub proof fn law_relative_dir_is_under_the_current_one(
    db_dir: Seq<u8>,
    current: Seq<u8>,
    platform: Platform,
)
    requires
        !(db_dir.len() > 0 && db_dir[0] == 0x2fu8),
        current.len() > 0,
        current[0] == 0x2fu8,
        located(db_dir, Ok(current), platform) is Ok,
    ensures
        ({
            let abs = located(db_dir, Ok(current), platform)->Ok_0;
            let between = abs.len() - current.len() - db_dir.len();
            &&& current.is_prefix_of(abs)
            &&& db_dir.is_suffix_of(abs)
            &&& 0 <= between <= 1
            &&& between == 1 ==> abs[current.len() as int] == 0x2fu8
            &&& between == 0 <==> current.last() == 0x2fu8
            &&& path::path_components(abs) == path::path_components(current) + path::names(
                text::split(db_dir, 0x2fu8),
            )
        }),
{
    path::law_join_keeps_both(current, db_dir);
    path::lemma_joined_components(current, db_dir);
}

/// A relative directory that is spelled by pieces is known by the names of the current directory
/// and then by exactly these pieces.
pub proof fn law_relative_dir_adds_its_pieces(
    pieces: Seq<Seq<u8>>,
    current: Seq<u8>,
    platform: Platform,
)
    requires
        current.len() > 0,
        current[0] == 0x2fu8,
        pieces.len() > 0,
        forall|i: int|
            0 <= i < pieces.len() ==> {
                &&& (#[trigger] pieces[i]).len() > 0
                &&& !pieces[i].contains(0x2fu8)
                &&& pieces[i] != seq![0x2eu8]
            },
        located(path::spelled(pieces).skip(1), Ok(current), platform) is Ok,
    ensures
        path::path_components(located(path::spelled(pieces).skip(1), Ok(current), platform)->Ok_0)
            == path::path_components(current) + pieces,
{
    path::lemma_relative_pieces(pieces);
    path::law_join_adds_the_pieces(current, pieces);
}

/// Which directories are located, and where: an absolute one as it is, a relative one behind the
/// current directory with one slash between them. It has to be UTF-8, and thirteen bytes more and
/// a NUL byte have to fit what the system has for a socket path.
pub proof fn law_directory_is_located_or_rejected(
    db_dir: Seq<u8>,
    current_dir: Result<Seq<u8>, Seq<char>>,
    platform: Platform,
    abs: Seq<u8>,
)
    requires
        if db_dir.len() > 0 && db_dir[0] == 0x2fu8 {
            abs == db_dir
        } else {
            &&& current_dir matches Ok(current)
            &&& current.len() == 0 || current.last() == 0x2fu8 ==> abs == current + db_dir
            &&& current.len() > 0 && current.last() != 0x2fu8 ==> abs == current + seq![0x2fu8]
                + db_dir
        },
    ensures
        ({
            let limit: nat = match platform {
                Platform::Linux => 108,
                Platform::OtherPosix => 104,
            };
            let fits = abs.len() + 13 + 1 <= limit;
            let place = located(db_dir, current_dir, platform);
            let spelling = decode_utf8(abs);
            &&& valid_utf8(abs) && fits ==> place == Ok::<Seq<u8>, Seq<char>>(abs)
            &&& !valid_utf8(abs) ==> place == Err::<Seq<u8>, Seq<char>>(
                "db_dir must be valid UTF-8: the SQL socket path is passed to mysql_async as a String"@,
            )
            &&& valid_utf8(abs) && !fits ==> place == Err::<Seq<u8>, Seq<char>>(
                "db_dir "@ + spelling + " is too long: "@ + spelling + "/run/sql.sock"@
                    + " would be "@ + text::digits(abs.len() + 13)
                    + " bytes, over this platform's unix socket path limit ("@ + text::digits(limit)
                    + "); use a shorter db_dir"@,
            )
        }),
{
    lemma_suffix_len();
}

/// The socket path adds thirteen bytes to its directory.
proof fn lemma_suffix_len()
    ensures
        encode_utf8("/run/sql.sock"@).len() == 13,
{
    reveal_strlit("/run/sql.sock");
    is_ascii_chars_encode_utf8("/run/sql.sock"@);
}

/// The current directory matters for a relative directory only, which is rejected where there is
/// none.
pub proof fn law_current_dir_is_for_relative_dirs(
    db_dir: Seq<u8>,
    current_dir: Result<Seq<u8>, Seq<char>>,
    reason: Seq<char>,
    platform: Platform,
)
    ensures
        db_dir.len() > 0 && db_dir[0] == 0x2fu8 ==> located(db_dir, current_dir, platform)
            == located(db_dir, Err(reason), platform),
        !(db_dir.len() > 0 && db_dir[0] == 0x2fu8) ==> located(db_dir, Err(reason), platform)
            == Err::<Seq<u8>, Seq<char>>("cannot resolve current dir: "@ + reason),
{
}

/// The socket of a directory lies in it, at a fixed place: its path is the directory followed by
/// `/run/sql.sock`, so that two directories share a socket path only if they are the same bytes.
pub proof fn law_socket_path_is_in_the_directory(a: Seq<u8>, b: Seq<u8>)
    requires
        valid_utf8(a),
        valid_utf8(b),
    ensures
        encode_utf8(socket_path_of(a)) == a + encode_utf8("/run/sql.sock"@),
        socket_path_of(a).skip(socket_path_of(a).len() - 13) == "/run/sql.sock"@,
        socket_path_of(a) == socket_path_of(b) ==> a == b,
{
    let suffix = "/run/sql.sock"@;
    reveal_strlit("/run/sql.sock");
    lemma_encode_concat(decode_utf8(a), suffix);
    lemma_encode_concat(decode_utf8(b), suffix);
    decode_utf8_encode_utf8(a);
    decode_utf8_encode_utf8(b);
    assert(socket_path_of(a).skip(socket_path_of(a).len() - 13) =~= suffix);
    if socket_path_of(a) == socket_path_of(b) {
        let tail = encode_utf8(suffix);
        assert((a + tail).take((a + tail).len() - tail.len()) =~= a);
        assert((b + tail).take((b + tail).len() - tail.len()) =~= b);
    }
}

/// The current directory is taken with all its bytes, and the reason why there is none with its
/// whole text.
pub proof fn law_current_dir_is_taken_whole(current_dir: Result<PosixPath, String>)
    ensures
        current_dir matches Ok(current) ==> current_dir_model(current_dir) == Ok::<
            Seq<u8>,
            Seq<char>,
        >(current@),
        current_dir matches Err(reason) ==> current_dir_model(current_dir) == Err::<
            Seq<u8>,
            Seq<char>,
        >(reason@),
{
}

} // verus!
