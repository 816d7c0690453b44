//! From options to a session: what to do, and what to make of the outcome.
use vstd::prelude::*;
use vstd::string::*;
use vstd::utf8::*;

use crate::driver;
use crate::driver::DriverArgs;
use crate::driver::NulError;
use crate::error::Error;
use crate::location;
use crate::location::Platform;
use crate::opts::Opts;
use crate::outside;
use crate::path;
use crate::path::PosixPath;
use crate::registry;
use crate::registry::Lease;
use crate::registry::Registry;
use crate::text;
use crate::url;

verus! {

/// What has to be done next on the way to a session.
#[derive(Debug)]
pub enum Next {
    /// Nothing: the instance is open, and this is a hold on it.
    Attach(Lease),
    /// The driver has to open the directory.
    Open {
        /// The directory, as an absolute path.
        db_dir: PosixPath,
        /// What the driver has to be called with.
        args: DriverArgs,
    },
}

/// What has to be done next on the way to a session.
pub enum NextModel {
    /// Take a hold on the open instance of this directory.
    Attach(Seq<u8>),
    /// Open this directory.
    Open(Seq<u8>),
}

/// What has to be done next for some options, or the text with which they are rejected. The
/// parameters are looked at first, then the directory; whether the driver can be called is looked
/// at only where it has to be.
pub open spec fn next_for(
    m: registry::Instances,
    opts: url::OptsModel,
    current_dir: Result<Seq<u8>, Seq<char>>,
    platform: Platform,
) -> Result<NextModel, Seq<char>> {
    let rejected = driver::first_rejected(opts.params);
    let nul = driver::first_nul(opts.params);
    if rejected < opts.params.len() {
        Err(driver::key_rejection(opts.params[rejected as int].0))
    } else {
        match location::located(opts.db_dir, current_dir, platform) {
            Err(message) => Err(message),
            Ok(db_dir) => if m.contains_key(path::path_components(db_dir)) {
                Ok(NextModel::Attach(db_dir))
            } else if !driver::is_c_string(db_dir) {
                Err(driver::nul_message(true, seq![]))
            } else if nul < opts.params.len() {
                Err(driver::nul_message(false, outside::quoted_text(opts.params[nul as int].0)))
            } else {
                Ok(NextModel::Open(db_dir))
            },
        }
    }
}

/// The first half of the way to a session: rejects options that cannot be used, takes a hold on
/// the instance where it is open, and says what the driver has to be called with where it is not.
pub fn begin(
    instances: &mut Registry,
    opts: &Opts,
    current_dir: &Result<PosixPath, String>,
    platform: Platform,
) -> (r: Result<Next, Error>)
    requires
        old(instances).wf(),
        location::located(opts@.db_dir, location::current_dir_model(*current_dir), platform)
            matches Ok(db_dir) ==> registry::has_room_for(
            old(instances)@,
            path::path_components(db_dir),
        ),
    ensures
        final(instances).wf(),
        ({
            let m = old(instances)@;
            match next_for(m, opts@, location::current_dir_model(*current_dir), platform) {
                Err(message) => {
                    &&& r is Err
                    &&& r->Err_0.is_invalid_input(message)
                    &&& final(instances)@ == m
                },
                Ok(NextModel::Attach(db_dir)) => {
                    &&& r is Ok
                    &&& r->Ok_0 matches Next::Attach(lease)
                    &&& lease.is_on(m[path::path_components(db_dir)])
                    &&& final(instances)@ == registry::step(m, registry::Event::Acquire(db_dir))
                },
                Ok(NextModel::Open(db_dir)) => {
                    &&& r is Ok
                    &&& r->Ok_0 matches Next::Open { db_dir: d, args }
                    &&& d@ == db_dir
                    &&& valid_utf8(db_dir)
                    &&& driver::args_are(args, db_dir, opts@.params)
                    &&& final(instances)@ == m
                },
            }
        }),
{
    match driver::validate_params(opts.parameters()) {
        Err(e) => {
            return Err(e);
        },
        Ok(_) => {},
    }
    let db_dir: PosixPath = match location::absolutize(opts.db_dir(), current_dir, platform) {
        Err(e) => {
            return Err(e);
        },
        Ok(db_dir) => db_dir,
    };
    match instances.acquire(&db_dir) {
        Some(lease) => Ok(Next::Attach(lease)),
        None => match driver::driver_args(&db_dir, opts.parameters()) {
            Ok(args) => Ok(Next::Open { db_dir, args }),
            Err(e) => {
                let quoted: String = match &e {
                    NulError::DbDir => String::new(),
                    NulError::Parameter(key) => outside::quoted(key.as_str()),
                };
                Err(Error::InvalidInput(e.message(quoted.as_str())))
            },
        },
    }
}

/// The second half of the way to a session: what to make of the driver's return code and handle.
/// The second result is the handle that has to be closed because it is not needed.
pub fn complete(
    instances: &mut Registry,
    db_dir: PosixPath,
    code: i32,
    handle: usize,
) -> (r: Result<(Lease, Option<usize>), Error>)
    requires
        old(instances).wf(),
        code == 0 ==> valid_utf8(db_dir@),
        code == 0 ==> registry::has_room_for(old(instances)@, path::path_components(db_dir@)),
    ensures
        final(instances).wf(),
        ({
            let m = old(instances)@;
            let event = registry::Event::Register(db_dir@, handle);
            match r {
                Ok((lease, surplus)) => {
                    &&& code == 0
                    &&& final(instances)@ == registry::step(m, event)
                    &&& lease.is_on(final(instances)@[event.name()])
                    &&& registry::leased(m, event) == Some(lease.handle)
                    &&& surplus == registry::closed(m, event)
                },
                Err(e) => {
                    &&& code != 0
                    &&& e.is_open_failure(code, db_dir@)
                    &&& final(instances)@ == m
                },
            }
        }),
{
    match driver::open_outcome(code, handle, &db_dir) {
        Err(e) => Err(e),
        Ok(handle) => Ok(instances.register(db_dir, handle)),
    }
}

/// The options of a session on an instance: its socket, as `root` without a password, with the
/// default database, and with no commands of its own, so that the server's defaults hold in it.
pub fn mysql_opts_for(lease: &Lease, db_name: Option<&str>) -> (r: mysql_async::Opts)
    ensures
        ({
            let name = match db_name {
                Some(name) => Some(name@),
                None => None,
            };
            &&& r == outside::built_opts(lease.sock_path@, "root"@, name)
            &&& outside::opts_socket(r) == Some(lease.sock_path@)
            &&& outside::opts_user(r) == Some("root"@)
            &&& outside::opts_db_name(r) == name
            &&& outside::opts_pass(r) is None
            &&& outside::opts_init(r) == Seq::<Seq<char>>::empty()
            &&& outside::opts_setup(r) == Seq::<Seq<char>>::empty()
        }),
{
    let name: Option<String> = match db_name {
        Some(name) => Some(name.to_owned()),
        None => None,
    };
    outside::build_opts(lease.sock_path.clone(), "root".to_owned(), name)
}

/// A parameter with an empty key or with the reserved key `port` keeps every session from being
/// opened, whatever else the options say and whatever is open.
pub proof fn law_reserved_key_is_rejected(
    m: registry::Instances,
    opts: url::OptsModel,
    current_dir: Result<Seq<u8>, Seq<char>>,
    platform: Platform,
    i: int,
)
    requires
        0 <= i < opts.params.len(),
        opts.params[i].0.len() == 0 || opts.params[i].0 == "port"@,
    ensures
        ({
            let next = next_for(m, opts, current_dir, platform);
            ||| next == Err::<NextModel, Seq<char>>(driver::key_rejection(seq![]))
            ||| next == Err::<NextModel, Seq<char>>(driver::key_rejection("port"@))
        }),
{
    reveal_strlit("port");
    driver::law_params_accepted(opts.params);
    text::lemma_first_failing(opts.params, driver::accepted());
    let key = opts.params[driver::first_rejected(opts.params) as int].0;
    if key.len() == 0 {
        assert(key =~= seq![]);
    }
}

/// Nothing is attached to and nothing is opened before the directory is known to be usable: it is
/// UTF-8, and its socket path fits, with its terminating NUL byte.
pub proof fn law_directory_is_checked_up_front(
    m: registry::Instances,
    opts: url::OptsModel,
    current_dir: Result<Seq<u8>, Seq<char>>,
    platform: Platform,
)
    requires
        next_for(m, opts, current_dir, platform) is Ok,
    ensures
        ({
            let db_dir = match next_for(m, opts, current_dir, platform)->Ok_0 {
                NextModel::Attach(db_dir) => db_dir,
                NextModel::Open(db_dir) => db_dir,
            };
            &&& valid_utf8(db_dir)
            &&& encode_utf8(location::socket_path_of(db_dir)).len() + 1
                <= platform.socket_path_limit()
        }),
{
    location::law_socket_path_fits(opts.db_dir, current_dir, platform);
}

/// A session for a directory that is open shares its instance: whatever has happened since the
/// directory was opened, as long as its instance stayed open, and however the directory is spelled
/// and whatever parameters are given, there is nothing to open. The hold is on the handle and the
/// directory that were kept when it was opened, and no other instance is touched.
pub proof fn law_open_dir_is_shared(
    m: registry::Instances,
    opened: Seq<u8>,
    handle: usize,
    events: Seq<registry::Event>,
    opts: url::OptsModel,
    current_dir: Result<Seq<u8>, Seq<char>>,
    platform: Platform,
)
    requires
        driver::first_rejected(opts.params) == opts.params.len(),
        location::located(opts.db_dir, current_dir, platform) is Ok,
        path::path_components(location::located(opts.db_dir, current_dir, platform)->Ok_0)
            == path::path_components(opened),
        registry::stays_open(
            registry::step(m, registry::Event::Register(opened, handle)),
            events,
            path::path_components(opened),
        ),
    ensures
        ({
            let db_dir = location::located(opts.db_dir, current_dir, platform)->Ok_0;
            let name = path::path_components(opened);
            let register = registry::Event::Register(opened, handle);
            let kept = registry::step(m, register);
            let now = registry::run(kept, events);
            let acquire = registry::Event::Acquire(db_dir);
            let after = registry::step(now, acquire);
            &&& next_for(now, opts, current_dir, platform) == Ok::<NextModel, Seq<char>>(
                NextModel::Attach(db_dir),
            )
            &&& registry::leased(now, acquire) == registry::leased(m, register)
            &&& now[name].db_dir == kept[name].db_dir
            &&& after == now.insert(name, now[name].with_holds(now[name].holds + 1))
        }),
{
    let db_dir = location::located(opts.db_dir, current_dir, platform)->Ok_0;
    let kept = registry::step(m, registry::Event::Register(opened, handle));
    registry::law_one_handle_per_dir(kept, events, registry::Event::Acquire(db_dir));
}

/// Usable options are never rejected: where every key is non-empty and none is `port`, nothing
/// holds a NUL byte, the directory is UTF-8 at the place to which it leads, its socket path fits
/// and it is not open, the next step is to open exactly that place, whatever the number of
/// parameters, none included.
pub proof fn law_usable_options_are_opened(
    m: registry::Instances,
    opts: url::OptsModel,
    current_dir: Result<Seq<u8>, Seq<char>>,
    platform: Platform,
    abs: Seq<u8>,
)
    requires
        forall|i: int|
            0 <= i < opts.params.len() ==> {
                &&& (#[trigger] opts.params[i]).0.len() > 0
                &&& opts.params[i].0 != "port"@
                &&& !encode_utf8(opts.params[i].0).contains(0u8)
                &&& !encode_utf8(opts.params[i].1).contains(0u8)
            },
        if opts.db_dir.len() > 0 && opts.db_dir[0] == 0x2fu8 {
            abs == opts.db_dir
        } else {
            &&& current_dir matches Ok(current)
            &&& current.len() == 0 || current.last() == 0x2fu8 ==> abs == current + opts.db_dir
            &&& current.len() > 0 && current.last() != 0x2fu8 ==> abs == current + seq![0x2fu8]
                + opts.db_dir
        },
        valid_utf8(abs),
        !abs.contains(0u8),
        abs.len() + 13 + 1 <= match platform {
            Platform::Linux => 108nat,
            Platform::OtherPosix => 104nat,
        },
        !m.contains_key(path::path_components(abs)),
    ensures
        next_for(m, opts, current_dir, platform) == Ok::<NextModel, Seq<char>>(
            NextModel::Open(abs),
        ),
{
    driver::law_first_bad_key_is_found(opts.params, opts.params.len() as int);
    driver::law_first_nul_is_found(opts.params, opts.params.len() as int);
    location::law_directory_is_located_or_rejected(opts.db_dir, current_dir, platform, abs);
}

/// Where the place to which the directory leads is open, the next step is to take a hold there,
/// for every list of accepted keys and whatever the values hold.
pub proof fn law_open_directory_is_attached_to(
    m: registry::Instances,
    opts: url::OptsModel,
    current_dir: Result<Seq<u8>, Seq<char>>,
    platform: Platform,
    abs: Seq<u8>,
)
    requires
        forall|i: int|
            0 <= i < opts.params.len() ==> (#[trigger] opts.params[i]).0.len() > 0
                && opts.params[i].0 != "port"@,
        if opts.db_dir.len() > 0 && opts.db_dir[0] == 0x2fu8 {
            abs == opts.db_dir
        } else {
            &&& current_dir matches Ok(current)
            &&& current.len() == 0 || current.last() == 0x2fu8 ==> abs == current + opts.db_dir
            &&& current.len() > 0 && current.last() != 0x2fu8 ==> abs == current + seq![0x2fu8]
                + opts.db_dir
        },
        valid_utf8(abs),
        abs.len() + 13 + 1 <= match platform {
            Platform::Linux => 108nat,
            Platform::OtherPosix => 104nat,
        },
        m.contains_key(path::path_components(abs)),
    ensures
        next_for(m, opts, current_dir, platform) == Ok::<NextModel, Seq<char>>(
            NextModel::Attach(abs),
        ),
{
    driver::law_first_bad_key_is_found(opts.params, opts.params.len() as int);
    location::law_directory_is_located_or_rejected(opts.db_dir, current_dir, platform, abs);
}

/// Options are rejected by their first bad key before anything else is looked at, and the text
/// depends on that key alone.
pub proof fn law_first_bad_key_decides(
    m: registry::Instances,
    opts: url::OptsModel,
    current_dir: Result<Seq<u8>, Seq<char>>,
    platform: Platform,
    n: int,
)
    requires
        0 <= n < opts.params.len(),
        forall|i: int|
            0 <= i < n ==> (#[trigger] opts.params[i]).0.len() > 0 && opts.params[i].0 != "port"@,
        opts.params[n].0.len() == 0 || opts.params[n].0 == "port"@,
    ensures
        opts.params[n].0.len() == 0 ==> next_for(m, opts, current_dir, platform) == Err::<
            NextModel,
            Seq<char>,
        >("server parameter keys must be non-empty"@),
        opts.params[n].0.len() > 0 ==> next_for(m, opts, current_dir, platform) == Err::<
            NextModel,
            Seq<char>,
        >(
            "parameter \"port\" is not supported: an embedded seekdb server has no TCP listener, and this client always connects via <db_dir>/run/sql.sock"@,
        ),
{
    driver::law_first_bad_key_is_found(opts.params, n);
}

/// With accepted keys, a directory that cannot be located rejects the options with its own text;
/// one that can and is not open rejects them where it, or the first parameter to do so, holds a
/// NUL byte.
pub proof fn law_unusable_options_are_rejected(
    m: registry::Instances,
    opts: url::OptsModel,
    current_dir: Result<Seq<u8>, Seq<char>>,
    platform: Platform,
    n: int,
)
    requires
        forall|i: int|
            0 <= i < opts.params.len() ==> (#[trigger] opts.params[i]).0.len() > 0
                && opts.params[i].0 != "port"@,
        0 <= n <= opts.params.len(),
        forall|i: int|
            0 <= i < n ==> !encode_utf8((#[trigger] opts.params[i]).0).contains(0u8)
                && !encode_utf8(opts.params[i].1).contains(0u8),
        n < opts.params.len() ==> encode_utf8(opts.params[n].0).contains(0u8) || encode_utf8(
            opts.params[n].1,
        ).contains(0u8),
    ensures
        ({
            let next = next_for(m, opts, current_dir, platform);
            match location::located(opts.db_dir, current_dir, platform) {
                Err(message) => next == Err::<NextModel, Seq<char>>(message),
                Ok(abs) => !m.contains_key(path::path_components(abs)) ==> {
                    &&& abs.contains(0u8) ==> next == Err::<NextModel, Seq<char>>(
                        "db_dir contains an interior NUL byte"@,
                    )
                    &&& !abs.contains(0u8) && n < opts.params.len() ==> next == Err::<
                        NextModel,
                        Seq<char>,
                    >(
                        "parameter "@ + outside::quoted_text(opts.params[n].0)
                            + " contains an interior NUL byte"@,
                    )
                },
            }
        }),
{
    driver::law_first_bad_key_is_found(opts.params, opts.params.len() as int);
    driver::law_first_nul_is_found(opts.params, n);
}

} // verus!
