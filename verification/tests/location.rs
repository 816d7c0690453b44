use seekdb_async::location::{absolutize, socket_path, Platform};
use seekdb_async::PosixPath;

fn nowhere() -> Result<PosixPath, String> {
    Err("gone".to_string())
}

fn here() -> Result<PosixPath, String> {
    Ok(PosixPath::new("/home/me"))
}

#[test]
fn overlong_db_dir_is_rejected() {
    let long = PosixPath::new(&format!("/{}", "d".repeat(120)));
    assert!(absolutize(&long, &nowhere(), Platform::Linux)
        .unwrap_err()
        .to_string()
        .contains("too long"));
}

#[test]
fn non_utf8_db_dir_is_rejected() {
    let bad = PosixPath::from_bytes(b"/tmp/\xff".to_vec());
    assert!(absolutize(&bad, &nowhere(), Platform::Linux)
        .unwrap_err()
        .to_string()
        .contains("UTF-8"));
}

#[test]
fn short_db_dir_passes() {
    assert!(absolutize(&PosixPath::new("/tmp/x"), &nowhere(), Platform::Linux).is_ok());
}

#[test]
fn length_limits_are_exact() {
    for (platform, most) in [(Platform::Linux, 94), (Platform::OtherPosix, 90)] {
        let fits = PosixPath::new(&format!("/{}", "d".repeat(most - 1)));
        let abs = absolutize(&fits, &nowhere(), platform).unwrap();
        assert_eq!(abs.as_bytes(), fits.as_bytes());
        assert_eq!(socket_path(&abs).len() + 1, platform.sun_path_max());
        let over = PosixPath::new(&format!("/{}", "d".repeat(most)));
        assert!(absolutize(&over, &nowhere(), platform).is_err());
    }
}

#[test]
fn overlong_message_is_exact() {
    let dir = format!("/{}", "d".repeat(120));
    let message = absolutize(&PosixPath::new(&dir), &nowhere(), Platform::Linux)
        .unwrap_err()
        .to_string();
    assert_eq!(
        message,
        format!(
            "db_dir {dir} is too long: {dir}/run/sql.sock would be 134 bytes, over this platform's unix socket path limit (108); use a shorter db_dir"
        )
    );
}

#[test]
fn relative_directories_need_the_current_one() {
    let abs = absolutize(&PosixPath::new("./my.db"), &here(), Platform::Linux).unwrap();
    assert_eq!(abs.as_bytes(), b"/home/me/./my.db");
    assert_eq!(
        absolutize(&PosixPath::new("my.db"), &nowhere(), Platform::Linux)
            .unwrap_err()
            .to_string(),
        "cannot resolve current dir: gone"
    );
}

#[test]
fn located_directories_stay_where_they_are() {
    let abs = absolutize(&PosixPath::new("my.db"), &here(), Platform::Linux).unwrap();
    let elsewhere = Ok(PosixPath::new("/"));
    let again = absolutize(&abs, &elsewhere, Platform::Linux).unwrap();
    assert_eq!(abs.as_bytes(), again.as_bytes());
    assert_eq!(socket_path(&abs), "/home/me/my.db/run/sql.sock");
}

#[test]
fn utf8_is_looked_at_before_the_length() {
    let mut bytes = vec![b'/'; 200];
    bytes.push(0xc3);
    let message = absolutize(&PosixPath::from_bytes(bytes), &nowhere(), Platform::Linux)
        .unwrap_err()
        .to_string();
    assert_eq!(
        message,
        "db_dir must be valid UTF-8: the SQL socket path is passed to mysql_async as a String"
    );
}

#[test]
fn joining_paths() {
    let join = |a: &str, b: &str| PosixPath::new(a).join(&PosixPath::new(b)).as_bytes().to_vec();
    assert_eq!(join("/a", "b"), b"/a/b");
    assert_eq!(join("/a/", "b"), b"/a/b");
    assert_eq!(join("/a", "/b"), b"/b");
    assert_eq!(join("", "b"), b"b");
    assert_eq!(join("/a", ""), b"/a/");
}

#[test]
fn paths_are_equal_by_their_components() {
    let same = |a: &str, b: &str| PosixPath::new(a) == PosixPath::new(b);
    assert!(same("/a/b", "/a/b"));
    assert!(same("/a/b", "/a/b/"));
    assert!(same("/a/b", "//a//./b/."));
    assert!(same("./a", "./a/"));
    assert!(same("a/./b", "a/b"));
    assert!(!same("./a", "a"));
    assert!(!same("/a", "a"));
    assert!(!same("/a/../b", "/b"));
    assert!(!same("/a/b", "/a"));
    assert!(!same("/a/.b", "/a/b"));
    assert!(same("/", "//."));
    assert!(!same("", "."));
}

#[test]
fn components_agree_with_the_standard_library() {
    let spellings = ["/a/b", "/a//b/", "./a/.", ".", "", "/", "a/../b", ".a/./..", "../.", "//./x"];
    for s in spellings {
        let expected: Vec<Vec<u8>> = std::path::Path::new(s)
            .components()
            .map(|c| c.as_os_str().to_str().unwrap().as_bytes().to_vec())
            .collect();
        assert_eq!(PosixPath::new(s).components(), expected, "{}", s);
        for t in spellings {
            let std_joined = std::path::Path::new(s).join(t);
            let joined = PosixPath::new(s).join(&PosixPath::new(t));
            assert_eq!(joined.to_str(), std_joined.to_str());
            assert_eq!(
                PosixPath::new(s) == PosixPath::new(t),
                std::path::Path::new(s) == std::path::Path::new(t)
            );
        }
        assert_eq!(
            PosixPath::new(s).is_absolute(),
            std::path::Path::new(s).is_absolute()
        );
    }
}

#[test]
fn debug_text_of_paths() {
    let spellings = [
        "./my.db", "", "/it's", "a\"b\\c", "tab\there\n\0", "d\u{e4}ta\u{1f600}", "e\u{301}", "\u{301}e",
        "\u{200b}\u{feff}\u{7f}\u{80}",
    ];
    for s in spellings {
        let path = PosixPath::new(s);
        assert_eq!(format!("{:?}", path), format!("{:?}", std::path::Path::new(s)));
        assert_eq!(path.debug_text(), format!("{:?}", path));
    }
    let debug = |bytes: &[u8]| format!("{:?}", PosixPath::from_bytes(bytes.to_vec()));
    assert_eq!(debug(b"/tmp/\xff"), "\"/tmp/\\xFF\"");
    assert_eq!(debug(b"a\xf0\x9f\x98b\xc3\xa4\x0a\xc3"), "\"a\\xF0\\x9F\\x98b\u{e4}\\n\\xC3\"");
    assert_eq!(debug(b"\xed\xa0\x80\xc0\x80"), "\"\\xED\\xA0\\x80\\xC0\\x80\"");
}

#[test]
fn a_leading_dot_names_the_current_directory() {
    let dotted = absolutize(&PosixPath::new("./x"), &here(), Platform::Linux).unwrap();
    let plain = absolutize(&PosixPath::new("x"), &here(), Platform::Linux).unwrap();
    assert_eq!(dotted, plain);
    assert_eq!(plain, PosixPath::new("/home/me/x"));
}
