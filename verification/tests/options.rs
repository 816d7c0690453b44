use seekdb_async::opts::UrlError;
use seekdb_async::{validate_params, Error, Opts, OptsBuilder, PosixPath};

fn pairs(list: &[(&str, &str)]) -> Vec<(String, String)> {
    list.iter()
        .map(|(k, v)| (k.to_string(), v.to_string()))
        .collect()
}

fn message(r: Result<Opts, Error>) -> String {
    r.unwrap_err().to_string()
}

#[test]
fn url_parses_path_db_name_and_params() {
    let opts = Opts::from_url("seekdb://./my.db?db_name=test&memory_limit=2G").unwrap();
    assert_eq!(opts.db_dir(), &PosixPath::new("./my.db"));
    assert_eq!(opts.db_name(), Some("test"));
    assert_eq!(
        opts.parameters(),
        &[("memory_limit".to_string(), "2G".to_string())]
    );
}

#[test]
fn url_without_query() {
    let opts = Opts::from_url("seekdb:///data/db").unwrap();
    assert_eq!(opts.db_dir(), &PosixPath::new("/data/db"));
    assert_eq!(opts.db_name(), None);
    assert!(opts.parameters().is_empty());
}

#[test]
fn url_rejects_wrong_scheme_and_empty_path() {
    assert!(Opts::from_url("mysql://x").is_err());
    assert!(Opts::from_url("seekdb://").is_err());
    assert!(Opts::from_url("seekdb://x?bad").is_err());
}

#[test]
fn default_db_dir_matches_other_bindings() {
    assert_eq!(Opts::default().db_dir(), &PosixPath::new("./seekdb.db"));
}

#[test]
fn default_chooses_nothing_else() {
    let opts = Opts::default();
    assert_eq!(opts.db_dir().as_bytes(), b"./seekdb.db");
    assert_eq!(opts.db_name(), None);
    assert!(opts.parameters().is_empty());
}

#[test]
fn url_faults_are_told_apart() {
    assert!(matches!(
        Opts::parse_url("seekdb:/x"),
        Err(UrlError::Scheme)
    ));
    assert!(matches!(
        Opts::parse_url("seekdb"),
        Err(UrlError::Scheme)
    ));
    assert!(matches!(
        Opts::parse_url("seekdb://?db_name=x"),
        Err(UrlError::MissingPath)
    ));
    match Opts::parse_url("seekdb://x?a=1&one&two") {
        Err(UrlError::Pair(pair)) => assert_eq!(pair, "one"),
        _ => panic!("a pair without = was accepted"),
    }
}

#[test]
fn url_rejections_say_why() {
    assert_eq!(
        message(Opts::from_url("mysql://x\n")),
        "seekdb URL must start with seekdb://, got \"mysql://x\\n\""
    );
    assert_eq!(
        message(Opts::from_url("seekdb://")),
        "seekdb URL is missing the db_dir path"
    );
    assert_eq!(
        message(Opts::from_url("seekdb://x?\"bad\"")),
        "invalid query pair \"\\\"bad\\\"\" in seekdb URL"
    );
}

#[test]
fn url_query_details() {
    let opts = Opts::from_url("seekdb://x?&a=1&&b=&db_name=p&=v&a=2=3&db_name=q?r&").unwrap();
    assert_eq!(opts.db_name(), Some("q?r"));
    assert_eq!(
        opts.parameters(),
        pairs(&[("a", "1"), ("b", ""), ("", "v"), ("a", "2=3")])
    );
}

#[test]
fn url_keeps_text_beyond_ascii() {
    let opts = Opts::from_url("seekdb://./d\u{e4}ta\u{1f600}?db_name=\u{3b2}&k\u{e9}=\u{4e2d}").unwrap();
    assert_eq!(opts.db_dir().to_str(), Some("./d\u{e4}ta\u{1f600}"));
    assert_eq!(opts.db_name(), Some("\u{3b2}"));
    assert_eq!(opts.parameters(), pairs(&[("k\u{e9}", "\u{4e2d}")]));
}

#[test]
fn url_with_question_mark_and_no_pairs() {
    let opts = Opts::from_url("seekdb://x?").unwrap();
    assert_eq!(opts.db_dir().as_bytes(), b"x");
    assert_eq!(opts.db_name(), None);
    assert!(opts.parameters().is_empty());
}

#[test]
fn url_and_builder_give_the_same_options() {
    let url = Opts::from_url("seekdb://./my.db?db_name=test&memory_limit=2G").unwrap();
    let built = Opts::from(
        OptsBuilder::default()
            .db_dir(PosixPath::new("./my.db"))
            .db_name(Some("test".to_string()))
            .parameter("memory_limit".to_string(), "2G".to_string()),
    );
    assert_eq!(url.db_dir().as_bytes(), built.db_dir().as_bytes());
    assert_eq!(url.db_name(), built.db_name());
    assert_eq!(url.parameters(), built.parameters());
}

#[test]
fn builder_keeps_what_it_was_not_asked_to_change() {
    let builder = OptsBuilder::default()
        .parameter("a".to_string(), "1".to_string())
        .parameter("a".to_string(), "2".to_string())
        .db_name(Some("x".to_string()));
    let opts = Opts::from(builder.clone().db_name(None).db_dir(PosixPath::new("/d")));
    assert_eq!(opts.db_dir().as_bytes(), b"/d");
    assert_eq!(opts.db_name(), None);
    assert_eq!(opts.parameters(), pairs(&[("a", "1"), ("a", "2")]));
    let first = Opts::from(builder);
    assert_eq!(first.db_dir().as_bytes(), b"./seekdb.db");
    assert_eq!(first.clone().db_name(), Some("x"));
    assert_eq!(first.clone().parameters(), first.parameters());
}

#[test]
fn reserved_and_empty_keys_are_rejected_by_the_first() {
    assert!(validate_params(&pairs(&[("memory_limit", "1G"), ("ports", "")])).is_ok());
    assert!(validate_params(&[]).is_ok());
    let empty = validate_params(&pairs(&[("a", "1"), ("", "x"), ("port", "1")])).unwrap_err();
    assert_eq!(empty.to_string(), "server parameter keys must be non-empty");
    let port = validate_params(&pairs(&[("a", "1"), ("port", "1"), ("", "x")])).unwrap_err();
    assert_eq!(
        port.to_string(),
        "parameter \"port\" is not supported: an embedded seekdb server has no TCP listener, and this client always connects via <db_dir>/run/sql.sock"
    );
}

#[test]
fn debug_text_of_options_and_errors() {
    let builder = OptsBuilder::default()
        .db_dir(PosixPath::new("./my.db"))
        .parameter("k".to_string(), "v".to_string());
    assert_eq!(
        format!("{:?}", builder),
        "OptsBuilder { opts: Opts { db_dir: \"./my.db\", db_name: None, params: [(\"k\", \"v\")] } }"
    );
    let error = Error::Open {
        code: -1,
        db_dir: PosixPath::new("/d"),
    };
    assert_eq!(format!("{:?}", error), "Open { code: -1, db_dir: \"/d\" }");
}
