use seekdb_async::driver::{driver_args, open_outcome, NulError};
use seekdb_async::location::Platform;
use seekdb_async::registry::Registry;
use seekdb_async::session::{begin, complete, mysql_opts_for, Next};
use seekdb_async::{Error, Opts, OptsBuilder, PosixPath};

fn opts(dir: &str, params: &[(&str, &str)]) -> Opts {
    let mut builder = OptsBuilder::default().db_dir(PosixPath::new(dir));
    for (k, v) in params {
        builder = builder.parameter(k.to_string(), v.to_string());
    }
    Opts::from(builder)
}

fn start(registry: &mut Registry, opts: &Opts) -> Result<Next, Error> {
    begin(registry, opts, &Ok(PosixPath::new("/cwd")), Platform::Linux)
}

#[test]
fn port_parameter_is_rejected() {
    let err = start(&mut Registry::new(), &opts("/tmp/x", &[("port", "3306")])).unwrap_err();
    assert!(err.to_string().contains("port"));
}

#[test]
fn empty_key_is_rejected() {
    assert!(start(&mut Registry::new(), &opts("/tmp/x", &[("", "v")])).is_err());
}

#[test]
fn a_new_directory_is_opened() {
    let mut registry = Registry::new();
    match start(&mut registry, &opts("my.db", &[("memory_limit", "2G"), ("k", "")])).unwrap() {
        Next::Open { db_dir, args } => {
            assert_eq!(db_dir.as_bytes(), b"/cwd/my.db");
            assert_eq!(args.db_dir, b"/cwd/my.db");
            assert_eq!(
                args.params,
                Some(vec![
                    b"memory_limit".to_vec(),
                    b"2G".to_vec(),
                    b"k".to_vec(),
                    b"".to_vec()
                ])
            );
        }
        Next::Attach(_) => panic!("nothing is open"),
    }
}

#[test]
fn one_handle_per_directory_until_the_last_hold_is_gone() {
    let mut registry = Registry::new();
    let dir = PosixPath::new("/cwd/my.db");
    let (first, surplus) = complete(&mut registry, dir.clone(), 0, 7).unwrap();
    assert_eq!((first.handle, surplus), (7, None));

    // Another spelling, and parameters that the driver could not take, still share.
    match start(&mut registry, &opts("./my.db/", &[("a\0", "b")])).unwrap() {
        Next::Attach(lease) => {
            assert_eq!(lease.handle, 7);
            assert_eq!(lease.sock_path, "/cwd/my.db/run/sql.sock");
        }
        Next::Open { .. } => panic!("the directory is open"),
    }

    assert_eq!(registry.release(&dir), None);
    assert_eq!(registry.release(&PosixPath::new("/cwd/other")), None);
    assert_eq!(registry.release(&dir), Some(7));
    assert_eq!(registry.release(&dir), None);
    assert!(registry.acquire(&dir).is_none());

    let (again, surplus) = complete(&mut registry, dir, 0, 9).unwrap();
    assert_eq!((again.handle, surplus), (9, None));
    assert!(registry.has_room());
}

#[test]
fn the_later_of_two_opens_is_given_back() {
    let mut registry = Registry::new();
    complete(&mut registry, PosixPath::new("/d"), 0, 1).unwrap();
    let (lease, surplus) = complete(&mut registry, PosixPath::new("//d/."), 0, 2).unwrap();
    assert_eq!(lease.handle, 1);
    assert_eq!(lease.db_dir.as_bytes(), b"/d");
    assert_eq!(surplus, Some(2));
    assert_eq!(registry.release(&PosixPath::new("/d/")), None);
    assert_eq!(registry.release(&PosixPath::new("/d")), Some(1));
}

#[test]
fn directories_do_not_touch_each_other() {
    let mut registry = Registry::new();
    complete(&mut registry, PosixPath::new("/a"), 0, 1).unwrap();
    complete(&mut registry, PosixPath::new("/b"), 0, 2).unwrap();
    complete(&mut registry, PosixPath::new("/c"), 0, 3).unwrap();
    assert_eq!(registry.release(&PosixPath::new("/b")), Some(2));
    assert_eq!(registry.acquire(&PosixPath::new("/a")).unwrap().handle, 1);
    assert_eq!(registry.acquire(&PosixPath::new("/c")).unwrap().handle, 3);
}

#[test]
fn a_failed_open_says_where_to_look() {
    let mut registry = Registry::new();
    let err = complete(&mut registry, PosixPath::new("/d"), -4012, 5).unwrap_err();
    assert!(matches!(err, Error::Open { code: -4012, .. }));
    assert!(err.source().is_none());
    assert_eq!(
        err.to_string(),
        "seekdb_open failed with code -4012 for /d; server diagnostics (if any) are in /d/log/seekdb.log"
    );
    assert!(registry.acquire(&PosixPath::new("/d")).is_none());
    assert_eq!(open_outcome(0, 5, &PosixPath::new("/d")).unwrap(), 5);
    let odd = open_outcome(i32::MIN, 0, &PosixPath::from_bytes(b"/\xff/".to_vec())).unwrap_err();
    assert_eq!(
        odd.to_string(),
        "seekdb_open failed with code -2147483648 for /\u{fffd}/; server diagnostics (if any) are in /\u{fffd}/log/seekdb.log"
    );
}

#[test]
fn nul_bytes_are_rejected_in_order() {
    let rejected = |dir: &str, params: &[(&str, &str)]| {
        start(&mut Registry::new(), &opts(dir, params))
            .unwrap_err()
            .to_string()
    };
    assert_eq!(
        rejected("/d\0", &[("k\0", "v")]),
        "db_dir contains an interior NUL byte"
    );
    assert_eq!(
        rejected("/d", &[("a", "b"), ("k", "v\0"), ("l\0", "")]),
        "parameter \"k\" contains an interior NUL byte"
    );
    assert_eq!(
        rejected("/d", &[("l\0", "")]),
        "parameter \"l\\0\" contains an interior NUL byte"
    );
    let none: Vec<(String, String)> = Vec::new();
    assert!(driver_args(&PosixPath::new("/d"), &none).unwrap().params.is_none());
    assert!(matches!(
        driver_args(&PosixPath::new("\0"), &none),
        Err(NulError::DbDir)
    ));
}

#[test]
fn sessions_use_the_socket_as_root() {
    let mut registry = Registry::new();
    let (lease, _) = complete(&mut registry, PosixPath::new("/d"), 0, 1).unwrap();
    let with = mysql_opts_for(&lease, Some("test"));
    assert_eq!(with.socket(), Some("/d/run/sql.sock"));
    assert_eq!(with.user(), Some("root"));
    assert_eq!(with.db_name(), Some("test"));
    assert_eq!(with.pass(), None);
    assert!(with.init().is_empty());
    assert!(with.setup().is_empty());
    let without = mysql_opts_for(&lease, None);
    assert_eq!(without.socket(), Some("/d/run/sql.sock"));
    assert_eq!(without.db_name(), None);
}

#[test]
fn session_errors_keep_their_own_text() {
    let err = Error::from(mysql_async::Error::Other("boom".into()));
    assert_eq!(err.to_string(), "Other error: boom");
    assert!(matches!(err.source(), Some(mysql_async::Error::Other(_))));
    assert_eq!(err.render("text"), "text");
    let input = Error::InvalidInput("bad".to_string());
    assert_eq!(input.to_string(), "bad");
    assert!(input.source().is_none());
}

#[test]
fn unusable_directories_are_rejected_before_anything_is_shared() {
    let mut registry = Registry::new();
    complete(&mut registry, PosixPath::new("/d"), 0, 1).unwrap();
    let mut spelled_long = "/".repeat(100);
    spelled_long.push('d');
    let long = start(&mut registry, &opts(&spelled_long, &[])).unwrap_err();
    assert!(long.to_string().contains("too long"));
    let bytes = OptsBuilder::default().db_dir(PosixPath::from_bytes(b"\xff".to_vec()));
    let odd = start(&mut registry, &Opts::from(bytes)).unwrap_err();
    assert!(odd.to_string().contains("UTF-8"));
    let port = start(&mut registry, &opts("/d", &[("port", "1")])).unwrap_err();
    assert!(port.to_string().contains("port"));
    assert_eq!(registry.release(&PosixPath::new("/d")), Some(1));
}

#[test]
fn every_handle_is_closed_once() {
    let mut registry = Registry::new();
    let dir = PosixPath::new("/d");
    let mut closed = Vec::new();
    for handle in [1, 2, 3] {
        let (_, surplus) = complete(&mut registry, dir.clone(), 0, handle).unwrap();
        closed.extend(surplus);
    }
    for _ in 0..5 {
        closed.extend(registry.release(&dir));
    }
    complete(&mut registry, dir.clone(), 0, 4).unwrap();
    closed.extend(registry.release(&dir));
    assert_eq!(closed, vec![2, 3, 1, 4]);
}
