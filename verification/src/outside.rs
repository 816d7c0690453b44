//! What the library takes from the standard library and from `mysql_async` without a proof.
use mysql_async::Error as MysqlError;
use mysql_async::Opts as MysqlOpts;
use mysql_async::OptsBuilder as MysqlOptsBuilder;
use vstd::prelude::*;
use vstd::utf8::*;

use crate::text;

verus! {

/// The text that `String::from_utf8_lossy` makes of bytes that may not be UTF-8.
pub uninterp spec fn lossy_text(bytes: Seq<u8>) -> Seq<char>;

/// `str::from_utf8`: gives a text for exactly the byte strings that are UTF-8, and it is the
/// text that they encode.
#[verifier::external_body]
pub(crate) fn utf8_text(bytes: &[u8]) -> (r: Option<&str>)
    ensures
        r is Some <==> valid_utf8(bytes@),
        r matches Some(t) ==> t@ == decode_utf8(bytes@),
{
    std::str::from_utf8(bytes).ok()
}

/// `String::from_utf8_lossy`: a text for every byte string, which is the encoded text where the
/// bytes are UTF-8. What replaces bytes that are not UTF-8 is named, not spelled out.
#[verifier::external_body]
pub(crate) fn lossy(bytes: &[u8]) -> (r: String)
    ensures
        r@ == lossy_text(bytes@),
        valid_utf8(bytes@) ==> r@ == decode_utf8(bytes@),
{
    String::from_utf8_lossy(bytes).into_owned()
}

/// The text that `Debug` of `str` makes: in quotes, with escapes.
pub uninterp spec fn quoted_text(s: Seq<char>) -> Seq<char>;

/// `Debug` of `str`, through `format!`: the text depends on the argument alone. Which characters
/// are escaped is named, not spelled out.
#[verifier::external_body]
pub(crate) fn quoted(s: &str) -> (r: String)
    ensures
        r@ == quoted_text(s@),
{
    format!("{:?}", s)
}

/// The text that `str::escape_debug` makes: the characters, with escapes.
pub uninterp spec fn escaped_text(s: Seq<char>) -> Seq<char>;

/// `str::escape_debug`: the text depends on the argument alone. Which characters are escaped is
/// named, not spelled out.
#[verifier::external_body]
pub(crate) fn escaped(s: &str) -> (r: String)
    ensures
        r@ == escaped_text(s@),
{
    s.escape_debug().to_string()
}

/// Where formatted text goes.
#[verifier::external_type_specification]
#[verifier::external_body]
pub struct ExFormatter<'a>(std::fmt::Formatter<'a>);

/// That formatted text could not be written.
#[verifier::external_type_specification]
#[verifier::external_body]
pub struct ExFmtError(std::fmt::Error);

/// `std::fmt::Formatter::write_str`. Nothing is claimed: what a formatter has taken cannot be seen,
/// and whether it takes more is up to what stands behind it.
#[verifier::external_body]
pub(crate) fn write_text(f: &mut std::fmt::Formatter<'_>, s: &str) -> (r: Result<
    (),
    std::fmt::Error,
>) {
    f.write_str(s)
}

/// The errors of `mysql_async`, carried as they are.
#[verifier::external_type_specification]
#[verifier::external_body]
pub struct ExMysqlError(MysqlError);

/// The session options of `mysql_async`, carried as they are.
#[verifier::external_type_specification]
#[verifier::external_body]
pub struct ExMysqlOpts(MysqlOpts);

/// What `mysql_async::Opts::socket` returns.
pub uninterp spec fn opts_socket(o: MysqlOpts) -> Option<Seq<char>>;

/// What `mysql_async::Opts::user` returns.
pub uninterp spec fn opts_user(o: MysqlOpts) -> Option<Seq<char>>;

/// What `mysql_async::Opts::db_name` returns.
pub uninterp spec fn opts_db_name(o: MysqlOpts) -> Option<Seq<char>>;

/// What `mysql_async::Opts::pass` returns.
pub uninterp spec fn opts_pass(o: MysqlOpts) -> Option<Seq<char>>;

/// The texts of what `mysql_async::Opts::init` returns: the commands for a new connection.
pub uninterp spec fn opts_init(o: MysqlOpts) -> Seq<Seq<char>>;

/// The texts of what `mysql_async::Opts::setup` returns: the commands for a new connection and
/// after each reset of one.
pub uninterp spec fn opts_setup(o: MysqlOpts) -> Seq<Seq<char>>;

/// The default of `mysql_async::OptsBuilder` with socket, user and default database set, made into
/// `mysql_async::Opts`. All other options have the builder's default values for POSIX systems.
pub uninterp spec fn built_opts(
    socket: Seq<char>,
    user: Seq<char>,
    db_name: Option<Seq<char>>,
) -> MysqlOpts;

/// `mysql_async::OptsBuilder`: its `default` with `socket`, `user` and `db_name` set, made into
/// `mysql_async::Opts` by `From`. The options depend on these three alone. The accessors `socket`,
/// `user` and `db_name` give back what was set, and `pass`, `init` and `setup` the defaults: no
/// password, and no commands.
#[verifier::external_body]
pub(crate) fn build_opts(socket: String, user: String, db_name: Option<String>) -> (r: MysqlOpts)
    ensures
        r == built_opts(socket@, user@, text::optional_text(db_name)),
        opts_socket(r) == Some(socket@),
        opts_user(r) == Some(user@),
        opts_db_name(r) == text::optional_text(db_name),
        opts_pass(r) is None,
        opts_init(r) == Seq::<Seq<char>>::empty(),
        opts_setup(r) == Seq::<Seq<char>>::empty(),
{
    MysqlOpts::from(
        MysqlOptsBuilder::default().socket(Some(socket)).user(Some(user)).db_name(db_name),
    )
}

} // verus!
