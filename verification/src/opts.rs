//! Connection options, their builder and their URL form.
use vstd::prelude::*;
use vstd::string::*;

use crate::error::Error;
use crate::outside;
use crate::path::PosixPath;
use crate::text;
use crate::url;

verus! {

/// The texts of key and value pairs.
pub open spec fn pair_texts(pairs: Seq<(String, String)>) -> Seq<(Seq<char>, Seq<char>)> {
    pairs.map_values(|pair: (String, String)| (pair.0@, pair.1@))
}

/// Connection options: the database directory, the default database of the session, and the
/// server parameters for the first start of the directory.
#[derive(Debug)]
pub struct Opts {
    db_dir: PosixPath,
    db_name: Option<String>,
    params: Vec<(String, String)>,
}

impl View for Opts {
    type V = url::OptsModel;

    closed spec fn view(&self) -> url::OptsModel {
        url::OptsModel {
            db_dir: self.db_dir@,
            db_name: text::optional_text(self.db_name),
            params: pair_texts(self.params@),
        }
    }
}

/// What is wrong with a URL.
#[derive(Debug)]
pub enum UrlError {
    /// It does not start with the scheme.
    Scheme,
    /// No directory stands behind the scheme.
    MissingPath,
    /// A query pair has no `=`.
    Pair(String),
}

impl View for UrlError {
    type V = url::UrlFault;

    open spec fn view(&self) -> url::UrlFault {
        match *self {
            UrlError::Scheme => url::UrlFault::Scheme,
            UrlError::MissingPath => url::UrlFault::MissingPath,
            UrlError::Pair(pair) => url::UrlFault::Pair(pair@),
        }
    }
}

/// Whether `s` starts with `prefix`.
fn starts_with(s: &Vec<char>, prefix: &Vec<char>) -> (r: bool)
    ensures
        r == prefix@.is_prefix_of(s@),
{
    if s.len() < prefix.len() {
        return false;
    }
    let mut i: usize = 0;
    while i < prefix.len()
        invariant
            i <= prefix@.len() <= s@.len(),
            forall|j: int| 0 <= j < i ==> prefix@[j] == s@[j],
        decreases prefix@.len() - i,
    {
        if s[i] != prefix[i] {
            assert(prefix@[i as int] != s@.subrange(0, prefix@.len() as int)[i as int]);
            return false;
        }
        i = i + 1;
    }
    assert(prefix@ =~= s@.subrange(0, prefix@.len() as int));
    true
}

impl Opts {
    /// Reads a URL `seekdb://<db_dir>?db_name=<db>&<param>=<value>`.
    pub fn parse_url(url: &str) -> (r: Result<Opts, UrlError>)
        ensures
            match r {
                Ok(opts) => url::url_opts(url@) == Ok::<url::OptsModel, url::UrlFault>(opts@),
                Err(e) => url::url_opts(url@) == Err::<url::OptsModel, url::UrlFault>(e@),
            },
    {
        let chars: Vec<char> = text::chars_of(url);
        let scheme: Vec<char> = text::chars_of("seekdb://");
        if !starts_with(&chars, &scheme) {
            return Err(UrlError::Scheme);
        }
        let start: usize = scheme.len();
        let mark: usize = text::find_char(&chars, start, '?');
        let ghost behind = url::behind_scheme(url@);
        proof {
            text::lemma_first_index(behind, '?');
            assert(url::url_path(url@) =~= url@.subrange(start as int, mark as int));
        }
        if mark == start {
            return Err(UrlError::MissingPath);
        }
        let db_dir: PosixPath = PosixPath::new(url.substring_char(start, mark));
        let mut db_name: Option<String> = None;
        let mut params: Vec<(String, String)> = Vec::new();
        let mut from: usize = if mark < chars.len() {
            mark + 1
        } else {
            mark
        };
        let ghost query = url::url_query(url@);
        let ghost pieces = text::split(query, '&');
        let ghost mut i: int = 0;
        let mut done: bool = false;
        proof {
            assert(query =~= url@.skip(from as int));
            assert(pieces.skip(0) =~= pieces);
            assert(pieces.take(0) =~= seq![]);
            assert(url::filled(pieces.take(0)) =~= seq![]);
            assert(pair_texts(params@) =~= url::server_params(seq![]));
        }
        while !done
            invariant
                chars@ == url@,
                from <= url@.len(),
                url::has_scheme(url@),
                url::url_path(url@).len() > 0,
                query == url::url_query(url@),
                pieces == text::split(query, '&'),
                0 <= i <= pieces.len(),
                text::optional_text(db_name) == url::selected_db(url::filled(pieces.take(i))),
                pair_texts(params@) == url::server_params(url::filled(pieces.take(i))),
                forall|j: int|
                    0 <= j < url::filled(pieces.take(i)).len() ==> (#[trigger] url::filled(
                        pieces.take(i),
                    )[j]).contains('='),
                !done ==> text::split(url@.skip(from as int), '&') == pieces.skip(i),
                done ==> i == pieces.len(),
            decreases url@.len() - from + (if done { 0int } else { 1int }),
        {
            let ghost rest = url@.skip(from as int);
            let end: usize = text::find_char(&chars, from, '&');
            let ghost pair = rest.take(end - from);
            let ghost pairs = url::filled(pieces.take(i));
            proof {
                text::lemma_first_index(rest, '&');
                assert(text::split(rest, '&').len() > 0);
                assert(pieces.skip(i)[0] =~= pair);
                assert(pieces[i] == pair);
                url::lemma_filled_step(pieces, i);
                url::lemma_pairs_step(pairs, pair);
                text::lemma_first_index(pair, '=');
            }
            if end > from {
                let mid: usize = text::find_char(&chars, from, '=');
                proof {
                    text::lemma_first_index(rest, '=');
                    if mid < end {
                        text::lemma_first_index_is(pair, '=', mid - from);
                    }
                }
                if mid >= end {
                    proof {
                        assert forall|j: int| 0 <= j < pair.len() implies pair[j] != '=' by {
                            assert(pair[j] == rest[j]);
                        }
                        assert(!pair.contains('='));
                        url::lemma_broken_pair(pieces, i);
                    }
                    let broken: &str = url.substring_char(from, end);
                    assert(broken@ =~= pair);
                    return Err(UrlError::Pair(broken.to_owned()));
                }
                let key: &str = url.substring_char(from, mid);
                let value: &str = url.substring_char(mid + 1, end);
                proof {
                    assert(key@ =~= url::pair_key(pair));
                    assert(value@ =~= url::pair_value(pair));
                }
                let ghost texts = pair_texts(params@);
                if text::same_text(key, "db_name") {
                    db_name = Some(value.to_owned());
                } else {
                    params.push((key.to_owned(), value.to_owned()));
                    assert(pair_texts(params@) =~= texts.push((key@, value@)));
                }
            }
            if end < chars.len() {
                proof {
                    assert(text::after(rest, '&') =~= url@.skip(end as int + 1));
                    assert(pieces.skip(i).skip(1) =~= pieces.skip(i + 1));
                    assert(text::split(rest, '&').skip(1) =~= text::split(
                        text::after(rest, '&'),
                        '&',
                    ));
                }
                from = end + 1;
            } else {
                assert(pieces.skip(i).len() == 1);
                done = true;
            }
            proof {
                i = i + 1;
            }
        }
        proof {
            assert(pieces.take(i) =~= pieces);
            let pairs = url::query_pairs(query);
            text::lemma_first_failing_is(pairs, url::has_value(), pairs.len() as int);
        }
        Ok(Opts { db_dir, db_name, params })
    }

    /// Reads a URL `seekdb://<db_dir>?db_name=<db>&<param>=<value>`.
    pub fn from_url(url: &str) -> (r: Result<Opts, Error>)
        ensures
            match r {
                Ok(opts) => url::url_opts(url@) == Ok::<url::OptsModel, url::UrlFault>(opts@),
                Err(e) => {
                    &&& url::url_opts(url@) is Err
                    &&& e.is_invalid_input(rejection(url@, url::url_opts(url@)->Err_0))
                },
            },
    {
        match Opts::parse_url(url) {
            Ok(opts) => Ok(opts),
            Err(e) => {
                let quoted: String = match &e {
                    UrlError::Scheme => outside::quoted(url),
                    UrlError::MissingPath => String::new(),
                    UrlError::Pair(pair) => outside::quoted(pair.as_str()),
                };
                Err(Error::InvalidInput(e.message(quoted.as_str())))
            },
        }
    }

    /// The database directory.
    pub fn db_dir(&self) -> (r: &PosixPath)
        ensures
            r@ == self@.db_dir,
    {
        &self.db_dir
    }

    /// The default database of the session.
    pub fn db_name(&self) -> (r: Option<&str>)
        ensures
            match self@.db_name {
                Some(name) => r is Some && r->0@ == name,
                None => r is None,
            },
    {
        match &self.db_name {
            Some(name) => Some(name.as_str()),
            None => None,
        }
    }

    /// The server parameters, key and value, in the order in which they were given.
    pub fn parameters(&self) -> (r: &[(String, String)])
        ensures
            pair_texts(r@) == self@.params,
    {
        self.params.as_slice()
    }
}

/// The text for a URL fault, given the faulty part in quotes.
pub open spec fn fault_message(fault: url::UrlFault, quoted: Seq<char>) -> Seq<char> {
    match fault {
        url::UrlFault::Scheme => "seekdb URL must start with seekdb://, got "@ + quoted,
        url::UrlFault::MissingPath => "seekdb URL is missing the db_dir path"@,
        url::UrlFault::Pair(_) => "invalid query pair "@ + quoted + " in seekdb URL"@,
    }
}

/// The text with which a URL is rejected.
pub open spec fn rejection(url: Seq<char>, fault: url::UrlFault) -> Seq<char> {
    match fault {
        url::UrlFault::Pair(pair) => fault_message(fault, outside::quoted_text(pair)),
        _ => fault_message(fault, outside::quoted_text(url)),
    }
}

impl UrlError {
    /// The text for the fault, given the faulty part in quotes.
    pub fn message(&self, quoted: &str) -> (r: String)
        ensures
            r@ == fault_message(self@, quoted@),
    {
        match self {
            UrlError::Scheme => {
                "seekdb URL must start with seekdb://, got ".to_owned().concat(quoted)
            },
            UrlError::MissingPath => "seekdb URL is missing the db_dir path".to_owned(),
            UrlError::Pair(_) => {
                "invalid query pair ".to_owned().concat(quoted).concat(" in seekdb URL")
            },
        }
    }
}

impl Default for Opts {
    fn default() -> (r: Opts)
        ensures
            r@ == url::OptsModel::initial(),
    {
        let params: Vec<(String, String)> = Vec::new();
        assert(pair_texts(params@) =~= seq![]);
        Opts { db_dir: PosixPath::new("./seekdb.db"), db_name: None, params }
    }
}

/// A copy of key and value pairs.
fn copy_pairs(pairs: &[(String, String)]) -> (r: Vec<(String, String)>)
    ensures
        pair_texts(r@) == pair_texts(pairs@),
{
    let mut r: Vec<(String, String)> = Vec::new();
    let mut i: usize = 0;
    while i < pairs.len()
        invariant
            i <= pairs@.len(),
            pair_texts(r@) == pair_texts(pairs@).take(i as int),
        decreases pairs@.len() - i,
    {
        let ghost texts = pair_texts(r@);
        r.push((pairs[i].0.clone(), pairs[i].1.clone()));
        assert(pair_texts(r@) =~= texts.push(pair_texts(pairs@)[i as int]));
        i = i + 1;
    }
    assert(pair_texts(pairs@).take(i as int) =~= pair_texts(pairs@));
    r
}

impl Clone for Opts {
    fn clone(&self) -> (r: Opts)
        ensures
            r@ == self@,
    {
        let db_name: Option<String> = match &self.db_name {
            Some(name) => Some(name.clone()),
            None => None,
        };
        Opts {
            db_dir: self.db_dir.clone(),
            db_name,
            params: copy_pairs(self.params.as_slice()),
        }
    }
}

/// A builder for [`Opts`].
#[derive(Debug)]
pub struct OptsBuilder {
    opts: Opts,
}

impl View for OptsBuilder {
    type V = url::OptsModel;

    closed spec fn view(&self) -> url::OptsModel {
        self.opts@
    }
}

impl Default for OptsBuilder {
    fn default() -> (r: OptsBuilder)
        ensures
            r@ == url::OptsModel::initial(),
    {
        OptsBuilder { opts: Opts::default() }
    }
}

impl Clone for OptsBuilder {
    fn clone(&self) -> (r: OptsBuilder)
        ensures
            r@ == self@,
    {
        OptsBuilder { opts: self.opts.clone() }
    }
}

impl OptsBuilder {
    /// The database directory (`./seekdb.db` where it is not chosen).
    pub fn db_dir(self, db_dir: PosixPath) -> (r: OptsBuilder)
        ensures
            r@ == self@.with_db_dir(db_dir@),
    {
        OptsBuilder {
            opts: Opts { db_dir, db_name: self.opts.db_name, params: self.opts.params },
        }
    }

    /// The default database of the session; `None` means no default.
    pub fn db_name(self, db_name: Option<String>) -> (r: OptsBuilder)
        ensures
            r@ == self@.with_db_name(text::optional_text(db_name)),
    {
        OptsBuilder {
            opts: Opts { db_dir: self.opts.db_dir, db_name, params: self.opts.params },
        }
    }

    /// One more server parameter, for the first start of the directory. The reserved key `port`
    /// is rejected when the options are used.
    pub fn parameter(self, key: String, value: String) -> (r: OptsBuilder)
        ensures
            r@ == self@.with_parameter(key@, value@),
    {
        let mut params: Vec<(String, String)> = self.opts.params;
        let ghost texts = pair_texts(params@);
        params.push((key, value));
        assert(pair_texts(params@) =~= texts.push((key@, value@)));
        OptsBuilder {
            opts: Opts { db_dir: self.opts.db_dir, db_name: self.opts.db_name, params },
        }
    }
}

impl From<OptsBuilder> for Opts {
    fn from(builder: OptsBuilder) -> (r: Opts)
        ensures
            r@ == builder@,
    {
        builder.opts
    }
}

impl vstd::std_specs::convert::FromSpecImpl<OptsBuilder> for Opts {
    open spec fn obeys_from_spec() -> bool {
        true
    }

    closed spec fn from_spec(builder: OptsBuilder) -> Opts {
        builder.opts
    }
}

/// The texts of key and value pairs are those of the pairs, one by one and in full.
pub proof fn law_pair_texts_are_whole(pairs: Seq<(String, String)>)
    ensures
        pair_texts(pairs).len() == pairs.len(),
        forall|i: int|
            0 <= i < pairs.len() ==> (#[trigger] pair_texts(pairs)[i]) == (
                pairs[i].0@,
                pairs[i].1@,
            ),
{
}

/// A rejected URL is shown where its scheme is wrong, and the pair alone where that is.
pub proof fn law_rejection_shows_the_fault(url: Seq<char>, pair: Seq<char>)
    ensures
        rejection(url, url::UrlFault::Scheme) == "seekdb URL must start with seekdb://, got "@
            + outside::quoted_text(url),
        rejection(url, url::UrlFault::MissingPath) == "seekdb URL is missing the db_dir path"@,
        rejection(url, url::UrlFault::Pair(pair)) == "invalid query pair "@ + outside::quoted_text(
            pair,
        ) + " in seekdb URL"@,
{
}

/// The text for a fault shows all of the faulty part that it is given, but nothing where no
/// directory stands in the URL.
pub proof fn law_fault_message_shows_its_part(pair: Seq<char>, quoted: Seq<char>)
    ensures
        fault_message(url::UrlFault::Scheme, quoted)
            == "seekdb URL must start with seekdb://, got "@ + quoted,
        fault_message(url::UrlFault::MissingPath, quoted)
            == "seekdb URL is missing the db_dir path"@,
        fault_message(url::UrlFault::Pair(pair), quoted) == "invalid query pair "@ + quoted
            + " in seekdb URL"@,
{
}

/// What is wrong with a URL keeps its kind and the whole text of the pair.
pub proof fn law_url_error_keeps_the_fault(e: UrlError)
    ensures
        e is Scheme <==> e@ == url::UrlFault::Scheme,
        e is MissingPath <==> e@ == url::UrlFault::MissingPath,
        e matches UrlError::Pair(pair) ==> e@ == url::UrlFault::Pair(pair@),
{
}

} // verus!
