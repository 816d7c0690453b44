//! What can go wrong between the options and a session.
use vstd::prelude::*;
use vstd::string::*;
use vstd::utf8::*;

use crate::outside;
use crate::path;
use crate::path::PosixPath;
use crate::text;

verus! {

/// What can go wrong between the options and a session.
#[derive(Debug)]
pub enum Error {
    /// The driver could not open the directory.
    Open { code: i32, db_dir: PosixPath },
    /// The options cannot be used.
    InvalidInput(String),
    /// The session failed.
    Mysql(mysql_async::Error),
}

/// The file in which the server of a directory writes its diagnostics.
pub open spec fn log_file(db_dir: Seq<u8>) -> Seq<u8> {
    path::path_join(
        path::path_join(db_dir, encode_utf8("log"@)),
        encode_utf8("seekdb.log"@),
    )
}

/// The log file of a directory that is UTF-8 is so too.
proof fn lemma_log_file_is_utf8(db_dir: Seq<u8>)
    requires
        valid_utf8(db_dir),
    ensures
        valid_utf8(log_file(db_dir)),
{
    encode_utf8_valid_utf8("log"@);
    encode_utf8_valid_utf8("seekdb.log"@);
    path::lemma_join_is_utf8(db_dir, encode_utf8("log"@));
    path::lemma_join_is_utf8(
        path::path_join(db_dir, encode_utf8("log"@)),
        encode_utf8("seekdb.log"@),
    );
}

/// The text for a failed open, given the directory and its log file as text.
pub open spec fn open_message(code: int, db_dir: Seq<char>, log: Seq<char>) -> Seq<char> {
    "seekdb_open failed with code "@ + text::decimal(code) + " for "@ + db_dir
        + "; server diagnostics (if any) are in "@ + log
}

impl Error {
    /// Whether this is the error for options that cannot be used, with this text.
    pub open spec fn is_invalid_input(self, message: Seq<char>) -> bool {
        match self {
            Error::InvalidInput(m) => m@ == message,
            _ => false,
        }
    }

    /// Whether this is the error for a directory that the driver could not open.
    pub open spec fn is_open_failure(self, code: i32, db_dir: Seq<u8>) -> bool {
        match self {
            Error::Open { code: c, db_dir: d } => c == code && d@ == db_dir,
            _ => false,
        }
    }

    /// The text of the error, given the text of the session's own error where it is one.
    pub fn render(&self, session_error: &str) -> (r: String)
        ensures
            match *self {
                Error::Open { code, db_dir } => {
                    &&& r@ == open_message(
                        code as int,
                        outside::lossy_text(db_dir@),
                        outside::lossy_text(log_file(db_dir@)),
                    )
                    &&& valid_utf8(db_dir@) ==> r@ == open_message(
                        code as int,
                        decode_utf8(db_dir@),
                        decode_utf8(log_file(db_dir@)),
                    )
                },
                Error::InvalidInput(message) => r@ == message@,
                Error::Mysql(_) => r@ == session_error@,
            },
    {
        match self {
            Error::Open { code, db_dir } => {
                let log: PosixPath = db_dir.join(&PosixPath::new("log")).join(
                    &PosixPath::new("seekdb.log"),
                );
                proof {
                    if valid_utf8(db_dir@) {
                        lemma_log_file_is_utf8(db_dir@);
                    }
                }
                write_open_message(*code, db_dir.display().as_str(), log.display().as_str())
            },
            Error::InvalidInput(message) => message.clone(),
            Error::Mysql(_) => session_error.to_owned(),
        }
    }

    /// The text of the error.
    pub fn to_string(&self) -> (r: String)
        ensures
            match *self {
                Error::Open { code, db_dir } => {
                    &&& r@ == open_message(
                        code as int,
                        outside::lossy_text(db_dir@),
                        outside::lossy_text(log_file(db_dir@)),
                    )
                    &&& valid_utf8(db_dir@) ==> r@ == open_message(
                        code as int,
                        decode_utf8(db_dir@),
                        decode_utf8(log_file(db_dir@)),
                    )
                },
                Error::InvalidInput(message) => r@ == message@,
                Error::Mysql(e) => exists|shown: String| #[trigger]
                    to_string_from_display_ensures::<mysql_async::Error>(&e, shown) && r@ == shown@,
            },
    {
        let session_error: String = match self {
            Error::Mysql(e) => e.to_string(),
            _ => String::new(),
        };
        self.render(session_error.as_str())
    }

    /// The session's own error where it is one.
    pub fn source(&self) -> (r: Option<&mysql_async::Error>)
        ensures
            match *self {
                Error::Mysql(e) => r == Some(&e),
                _ => r is None,
            },
    {
        match self {
            Error::Mysql(e) => Some(e),
            _ => None,
        }
    }
}

/// Writes the text for a failed open.
pub fn write_open_message(code: i32, db_dir: &str, log: &str) -> (r: String)
    ensures
        r@ == open_message(code as int, db_dir@, log@),
{
    let mut r: String = "seekdb_open failed with code ".to_owned();
    r.append(text::write_decimal(code).as_str());
    r.append(" for ");
    r.append(db_dir);
    r.append("; server diagnostics (if any) are in ");
    r.append(log);
    r
}

impl From<mysql_async::Error> for Error {
    fn from(e: mysql_async::Error) -> (r: Error) {
        Error::Mysql(e)
    }
}

impl vstd::std_specs::convert::FromSpecImpl<mysql_async::Error> for Error {
    open spec fn obeys_from_spec() -> bool {
        true
    }

    open spec fn from_spec(e: mysql_async::Error) -> Error {
        Error::Mysql(e)
    }
}

/// The log file lies two levels under its directory, with one slash before each name.
pub proof fn law_log_file_is_in_the_directory(db_dir: Seq<u8>)
    ensures
        db_dir.len() > 0 && db_dir.last() != 0x2fu8 ==> log_file(db_dir) == db_dir + encode_utf8(
            "/log/seekdb.log"@,
        ),
        db_dir.len() == 0 || db_dir.last() == 0x2fu8 ==> log_file(db_dir) == db_dir + encode_utf8(
            "log/seekdb.log"@,
        ),
{
    reveal_strlit("log");
    reveal_strlit("seekdb.log");
    reveal_strlit("/log/seekdb.log");
    reveal_strlit("log/seekdb.log");
    is_ascii_chars_encode_utf8("log"@);
    is_ascii_chars_encode_utf8("seekdb.log"@);
    is_ascii_chars_encode_utf8("/log/seekdb.log"@);
    is_ascii_chars_encode_utf8("log/seekdb.log"@);
    let log = encode_utf8("log"@);
    let file = encode_utf8("seekdb.log"@);
    assert(log.last() == 0x67u8);
    assert(log[0] == 0x6cu8);
    assert(file[0] == 0x73u8);
    let dir = path::path_join(db_dir, log);
    assert(dir.last() == 0x67u8);
    if db_dir.len() > 0 && db_dir.last() != 0x2fu8 {
        assert(log_file(db_dir) =~= db_dir + encode_utf8("/log/seekdb.log"@));
    } else {
        assert(log_file(db_dir) =~= db_dir + encode_utf8("log/seekdb.log"@));
    }
}

/// The text for a failed open shows the code in decimal, the whole directory and the whole path of
/// the log file, in this order.
pub proof fn law_open_message_shows_everything(code: int, db_dir: Seq<char>, log: Seq<char>)
    ensures
        open_message(code, db_dir, log) == "seekdb_open failed with code "@ + (text::decimal(code)
            + (" for "@ + (db_dir + ("; server diagnostics (if any) are in "@ + log)))),
{
    assert(open_message(code, db_dir, log) =~= "seekdb_open failed with code "@ + (text::decimal(
        code,
    ) + (" for "@ + (db_dir + ("; server diagnostics (if any) are in "@ + log)))));
}

/// An error for unusable options has exactly one text, and one for a directory that could not be
/// opened exactly one code and directory; no error is both.
pub proof fn law_errors_are_told_apart(e: Error, message: Seq<char>, code: i32, db_dir: Seq<u8>)
    ensures
        e.is_invalid_input(message) <==> (e matches Error::InvalidInput(m) && m@ == message),
        e.is_open_failure(code, db_dir) <==> (e matches Error::Open { code: c, db_dir: d } && c
            == code && d@ == db_dir),
        !(e.is_invalid_input(message) && e.is_open_failure(code, db_dir)),
{
}

} // verus!
