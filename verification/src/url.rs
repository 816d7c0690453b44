//! The `seekdb://` URL form of the connection options.
use vstd::prelude::*;
use vstd::utf8::*;

use crate::text;

verus! {

/// What connection options hold.
#[verifier::ext_equal]
pub struct OptsModel {
    /// The bytes of the database directory.
    pub db_dir: Seq<u8>,
    /// The default database of the session.
    pub db_name: Option<Seq<char>>,
    /// The server parameters, key and value, in the order in which they were given.
    pub params: Seq<(Seq<char>, Seq<char>)>,
}

impl OptsModel {
    /// The options before anything is chosen.
    pub open spec fn initial() -> OptsModel {
        OptsModel { db_dir: encode_utf8("./seekdb.db"@), db_name: None, params: seq![] }
    }

    /// The options with another directory.
    pub open spec fn with_db_dir(self, db_dir: Seq<u8>) -> OptsModel {
        OptsModel { db_dir, db_name: self.db_name, params: self.params }
    }

    /// The options with another default database.
    pub open spec fn with_db_name(self, db_name: Option<Seq<char>>) -> OptsModel {
        OptsModel { db_dir: self.db_dir, db_name, params: self.params }
    }

    /// The options with one more server parameter, behind the others.
    pub open spec fn with_parameter(self, key: Seq<char>, value: Seq<char>) -> OptsModel {
        OptsModel {
            db_dir: self.db_dir,
            db_name: self.db_name,
            params: self.params.push((key, value)),
        }
    }

    /// The options with more server parameters, one after the other.
    pub open spec fn with_parameters(self, params: Seq<(Seq<char>, Seq<char>)>) -> OptsModel
        decreases params.len(),
    {
        if params.len() == 0 {
            self
        } else {
            self.with_parameters(params.drop_last()).with_parameter(
                params.last().0,
                params.last().1,
            )
        }
    }
}

/// What is wrong with a URL.
pub enum UrlFault {
    /// It does not start with the scheme.
    Scheme,
    /// No directory stands behind the scheme.
    MissingPath,
    /// A query pair has no `=`.
    Pair(Seq<char>),
}

/// Whether a text starts with the scheme.
pub open spec fn has_scheme(url: Seq<char>) -> bool {
    "seekdb://"@.is_prefix_of(url)
}

/// What stands behind the scheme.
pub open spec fn behind_scheme(url: Seq<char>) -> Seq<char> {
    url.skip("seekdb://"@.len() as int)
}

/// The directory that a URL names: all up to the first `?`.
pub open spec fn url_path(url: Seq<char>) -> Seq<char> {
    text::before(behind_scheme(url), '?')
}

/// The query of a URL: all behind the first `?`.
pub open spec fn url_query(url: Seq<char>) -> Seq<char> {
    text::after(behind_scheme(url), '?')
}

/// The pieces that hold anything.
pub open spec fn filled(pieces: Seq<Seq<char>>) -> Seq<Seq<char>> {
    pieces.filter(|piece: Seq<char>| piece.len() > 0)
}

/// The pairs of a query: its pieces between `&`, without the empty ones.
pub open spec fn query_pairs(query: Seq<char>) -> Seq<Seq<char>> {
    filled(text::split(query, '&'))
}

/// The key of a pair: all up to the first `=`.
pub open spec fn pair_key(pair: Seq<char>) -> Seq<char> {
    text::before(pair, '=')
}

/// The value of a pair: all behind the first `=`.
pub open spec fn pair_value(pair: Seq<char>) -> Seq<char> {
    text::after(pair, '=')
}

/// Whether a pair selects the default database.
pub open spec fn selects_db(pair: Seq<char>) -> bool {
    pair_key(pair) == "db_name"@
}

/// The default database that some pairs select: the value of the last that does.
pub open spec fn selected_db(pairs: Seq<Seq<char>>) -> Option<Seq<char>>
    decreases pairs.len(),
{
    if pairs.len() == 0 {
        None
    } else if selects_db(pairs.last()) {
        Some(pair_value(pairs.last()))
    } else {
        selected_db(pairs.drop_last())
    }
}

/// The server parameters among some pairs: all that do not select the default database.
pub open spec fn server_params(pairs: Seq<Seq<char>>) -> Seq<(Seq<char>, Seq<char>)> {
    pairs.filter(|pair: Seq<char>| !selects_db(pair)).map_values(
        |pair: Seq<char>| (pair_key(pair), pair_value(pair)),
    )
}

/// What makes a pair: a key and a value with `=` between them.
pub open spec fn has_value() -> spec_fn(Seq<char>) -> bool {
    |pair: Seq<char>| pair.contains('=')
}

/// The position of the first pair without `=`, or their number.
pub open spec fn first_broken(pairs: Seq<Seq<char>>) -> nat {
    text::first_failing(pairs, has_value())
}

/// The options that a URL gives, or the first thing that is wrong with it.
pub open spec fn url_opts(url: Seq<char>) -> Result<OptsModel, UrlFault> {
    let pairs = query_pairs(url_query(url));
    if !has_scheme(url) {
        Err(UrlFault::Scheme)
    } else if url_path(url).len() == 0 {
        Err(UrlFault::MissingPath)
    } else if first_broken(pairs) < pairs.len() {
        Err(UrlFault::Pair(pairs[first_broken(pairs) as int]))
    } else {
        Ok(
            OptsModel {
                db_dir: encode_utf8(url_path(url)),
                db_name: selected_db(pairs),
                params: server_params(pairs),
            },
        )
    }
}

/// One more piece adds one more pair where it holds anything.
pub proof fn lemma_filled_step(pieces: Seq<Seq<char>>, i: int)
    requires
        0 <= i < pieces.len(),
    ensures
        pieces[i].len() > 0 ==> filled(pieces.take(i + 1)) == filled(pieces.take(i)).push(
            pieces[i],
        ),
        pieces[i].len() == 0 ==> filled(pieces.take(i + 1)) == filled(pieces.take(i)),
{
    reveal(Seq::filter);
    assert(pieces.take(i + 1).drop_last() =~= pieces.take(i));
}

/// One more pair either selects the default database or adds a server parameter.
pub proof fn lemma_pairs_step(pairs: Seq<Seq<char>>, pair: Seq<char>)
    ensures
        selects_db(pair) ==> {
            &&& selected_db(pairs.push(pair)) == Some(pair_value(pair))
            &&& server_params(pairs.push(pair)) == server_params(pairs)
        },
        !selects_db(pair) ==> {
            &&& selected_db(pairs.push(pair)) == selected_db(pairs)
            &&& server_params(pairs.push(pair)) == server_params(pairs).push(
                (pair_key(pair), pair_value(pair)),
            )
        },
{
    reveal(Seq::filter);
    assert(pairs.push(pair).drop_last() =~= pairs);
    assert(pairs.push(pair).last() == pair);
    if !selects_db(pair) {
        assert(server_params(pairs.push(pair)) =~= server_params(pairs).push(
            (pair_key(pair), pair_value(pair)),
        ));
    }
}

/// A piece without `=` is the first broken pair where all pairs in front of it have one.
pub proof fn lemma_broken_pair(pieces: Seq<Seq<char>>, i: int)
    requires
        0 <= i < pieces.len(),
        pieces[i].len() > 0,
        !pieces[i].contains('='),
        forall|j: int|
            0 <= j < filled(pieces.take(i)).len() ==> (#[trigger] filled(
                pieces.take(i),
            )[j]).contains('='),
    ensures
        first_broken(filled(pieces)) < filled(pieces).len(),
        filled(pieces)[first_broken(filled(pieces)) as int] == pieces[i],
{
    let head = filled(pieces.take(i));
    let tail = filled(pieces.skip(i + 1));
    lemma_filled_step(pieces, i);
    Seq::filter_distributes_over_add(
        pieces.take(i + 1),
        pieces.skip(i + 1),
        |piece: Seq<char>| piece.len() > 0,
    );
    assert(pieces.take(i + 1) + pieces.skip(i + 1) =~= pieces);
    let all = filled(pieces);
    assert(all == head.push(pieces[i]) + tail);
    assert forall|j: int| 0 <= j < head.len() implies (#[trigger] all[j]).contains('=') by {
        assert(all[j] == head[j]);
    }
    assert(all[head.len() as int] == pieces[i]);
    text::lemma_first_failing_is(all, has_value(), head.len() as int);
}

/// A query pair as it is written.
pub open spec fn pair_text(pair: (Seq<char>, Seq<char>)) -> Seq<char> {
    pair.0 + "="@ + pair.1
}

/// The URL of a directory and of query pairs, as it is written.
pub open spec fn url_text(db_dir: Seq<char>, pairs: Seq<(Seq<char>, Seq<char>)>) -> Seq<char> {
    "seekdb://"@ + db_dir + "?"@ + text::join(
        pairs.map_values(|pair: (Seq<char>, Seq<char>)| pair_text(pair)),
        '&',
    )
}

/// Whether key and value can be told apart again in a query.
pub open spec fn writable(pair: (Seq<char>, Seq<char>)) -> bool {
    &&& !pair.0.contains('=')
    &&& !pair.0.contains('&')
    &&& !pair.1.contains('&')
}

/// The value of the last pair with a key.
pub open spec fn last_value(pairs: Seq<(Seq<char>, Seq<char>)>, key: Seq<char>) -> Option<Seq<char>>
    decreases pairs.len(),
{
    if pairs.len() == 0 {
        None
    } else if pairs.last().0 == key {
        Some(pairs.last().1)
    } else {
        last_value(pairs.drop_last(), key)
    }
}

/// The pairs with another key.
pub open spec fn without_key(
    pairs: Seq<(Seq<char>, Seq<char>)>,
    key: Seq<char>,
) -> Seq<(Seq<char>, Seq<char>)> {
    pairs.filter(|pair: (Seq<char>, Seq<char>)| pair.0 != key)
}

/// An empty query has no pairs.
proof fn lemma_no_pairs()
    ensures
        query_pairs(Seq::empty()) == Seq::<Seq<char>>::empty(),
{
    let pieces = text::split(Seq::<char>::empty(), '&');
    assert(pieces =~= seq![Seq::<char>::empty()]);
    lemma_filled_step(pieces, 0);
    assert(pieces.take(1) =~= pieces);
    assert(pieces.take(0) =~= Seq::empty());
    assert(filled(Seq::empty()) =~= Seq::empty()) by {
        reveal(Seq::filter);
    }
}

/// The key and the value of a written pair are read back.
proof fn lemma_pair_text(pair: (Seq<char>, Seq<char>))
    requires
        writable(pair),
    ensures
        pair_text(pair).len() > 0,
        pair_text(pair).contains('='),
        !pair_text(pair).contains('&'),
        pair_key(pair_text(pair)) == pair.0,
        pair_value(pair_text(pair)) == pair.1,
{
    reveal_strlit("=");
    let t = pair_text(pair);
    let n = pair.0.len() as int;
    assert(t[n] == '=');
    assert forall|i: int| 0 <= i < n implies t[i] != '=' by {
        assert(t[i] == pair.0[i]);
        assert(pair.0.contains(pair.0[i]));
    }
    text::lemma_first_index_is(t, '=', n);
    assert(pair_key(t) =~= pair.0);
    assert(pair_value(t) =~= pair.1);
    assert forall|i: int| 0 <= i < t.len() implies t[i] != '&' by {
        if i < n {
            assert(pair.0.contains(pair.0[i]));
        } else if i > n {
            assert(t[i] == pair.1[i - n - 1]);
            assert(pair.1.contains(pair.1[i - n - 1]));
        }
    }
}

/// The pairs of a written query are read back.
proof fn lemma_written_pairs(pairs: Seq<(Seq<char>, Seq<char>)>)
    requires
        forall|i: int| 0 <= i < pairs.len() ==> writable(#[trigger] pairs[i]),
    ensures
        ({
            let texts = pairs.map_values(|pair: (Seq<char>, Seq<char>)| pair_text(pair));
            &&& filled(texts) == texts
            &&& first_broken(texts) == texts.len()
            &&& selected_db(texts) == last_value(pairs, "db_name"@)
            &&& server_params(texts) == without_key(pairs, "db_name"@)
        }),
    decreases pairs.len(),
{
    let texts = pairs.map_values(|pair: (Seq<char>, Seq<char>)| pair_text(pair));
    reveal(Seq::filter);
    assert forall|i: int| 0 <= i < texts.len() implies (#[trigger] texts[i]).contains('=') by {
        lemma_pair_text(pairs[i]);
    }
    text::lemma_first_failing_is(texts, has_value(), texts.len() as int);
    if pairs.len() > 0 {
        let init = pairs.drop_last();
        assert forall|i: int| 0 <= i < init.len() implies writable(#[trigger] init[i]) by {
            assert(init[i] == pairs[i]);
        }
        lemma_written_pairs(init);
        let init_texts = init.map_values(|pair: (Seq<char>, Seq<char>)| pair_text(pair));
        assert(texts.drop_last() =~= init_texts);
        assert(writable(pairs.last()));
        lemma_pair_text(pairs.last());
        assert(texts.last() == pair_text(pairs.last()));
        assert(texts =~= init_texts.push(texts.last()));
        lemma_pairs_step(init_texts, texts.last());
        assert(filled(texts) =~= texts);
    } else {
        assert(texts =~= seq![]);
        assert(server_params(texts) =~= seq![]);
    }
}

/// The URL form: the path is the directory, the last `db_name` pair selects the default
/// database, and every other pair is a server parameter, in the order of the query.
pub proof fn law_url_form(db_dir: Seq<char>, pairs: Seq<(Seq<char>, Seq<char>)>)
    requires
        db_dir.len() > 0,
        !db_dir.contains('?'),
        forall|i: int| 0 <= i < pairs.len() ==> writable(#[trigger] pairs[i]),
    ensures
        url_opts(url_text(db_dir, pairs)) == Ok::<OptsModel, UrlFault>(
            OptsModel {
                db_dir: encode_utf8(db_dir),
                db_name: last_value(pairs, "db_name"@),
                params: without_key(pairs, "db_name"@),
            },
        ),
{
    reveal_strlit("?");
    let texts = pairs.map_values(|pair: (Seq<char>, Seq<char>)| pair_text(pair));
    let query = text::join(texts, '&');
    let url = url_text(db_dir, pairs);
    let scheme = "seekdb://"@;
    let behind = behind_scheme(url);
    assert(scheme =~= url.subrange(0, scheme.len() as int));
    assert(behind =~= db_dir + seq!['?'] + query);
    assert forall|i: int| 0 <= i < db_dir.len() implies behind[i] != '?' by {
        assert(behind[i] == db_dir[i]);
        assert(db_dir.contains(db_dir[i]));
    }
    text::lemma_first_index_is(behind, '?', db_dir.len() as int);
    assert(url_path(url) =~= db_dir);
    assert(url_query(url) =~= query);
    lemma_written_pairs(pairs);
    if pairs.len() > 0 {
        assert forall|i: int| 0 <= i < texts.len() implies !(#[trigger] texts[i]).contains('&') by {
            assert(writable(pairs[i]));
            lemma_pair_text(pairs[i]);
        }
        text::lemma_split_join(texts, '&');
    } else {
        assert(texts =~= seq![]);
        assert(query =~= seq![]);
        lemma_no_pairs();
    }
}

/// A URL without a query chooses the directory and nothing else.
pub proof fn law_url_without_query(db_dir: Seq<char>)
    requires
        db_dir.len() > 0,
        !db_dir.contains('?'),
    ensures
        url_opts("seekdb://"@ + db_dir) == Ok::<OptsModel, UrlFault>(
            OptsModel::initial().with_db_dir(encode_utf8(db_dir)),
        ),
{
    let scheme = "seekdb://"@;
    let url = scheme + db_dir;
    assert(scheme =~= url.subrange(0, scheme.len() as int));
    assert(behind_scheme(url) =~= db_dir);
    text::lemma_first_index(db_dir, '?');
    assert(url_path(url) =~= db_dir);
    assert(url_query(url) =~= Seq::empty());
    lemma_no_pairs();
    reveal(Seq::filter);
    assert(server_params(Seq::empty()) =~= seq![]);
}

/// Giving parameters one after the other puts them behind the others in that order.
proof fn lemma_with_parameters(opts: OptsModel, params: Seq<(Seq<char>, Seq<char>)>)
    ensures
        opts.with_parameters(params).db_dir == opts.db_dir,
        opts.with_parameters(params).db_name == opts.db_name,
        opts.with_parameters(params).params == opts.params + params,
    decreases params.len(),
{
    if params.len() > 0 {
        lemma_with_parameters(opts, params.drop_last());
        assert(opts.params + params =~= (opts.params + params.drop_last()).push(params.last()));
    } else {
        assert(opts.params + params =~= opts.params);
    }
}

/// The query pairs for a default database, where one is chosen, and for server parameters.
pub open spec fn chosen_pairs(
    db_name: Option<Seq<char>>,
    params: Seq<(Seq<char>, Seq<char>)>,
) -> Seq<(Seq<char>, Seq<char>)> {
    match db_name {
        Some(name) => seq![("db_name"@, name)] + params,
        None => params,
    }
}

/// The URL and the builder are two ways to the same options: a URL with the directory, the
/// default database and the parameters gives what the builder makes of the same choices.
pub proof fn law_url_and_builder_agree(
    db_dir: Seq<char>,
    db_name: Option<Seq<char>>,
    params: Seq<(Seq<char>, Seq<char>)>,
)
    requires
        db_dir.len() > 0,
        !db_dir.contains('?'),
        db_name matches Some(name) ==> !name.contains('&'),
        forall|i: int|
            0 <= i < params.len() ==> writable(#[trigger] params[i]) && params[i].0 != "db_name"@,
    ensures
        url_opts(url_text(db_dir, chosen_pairs(db_name, params))) == Ok::<OptsModel, UrlFault>(
            OptsModel::initial().with_db_dir(encode_utf8(db_dir)).with_db_name(
                db_name,
            ).with_parameters(params),
        ),
{
    let pairs = chosen_pairs(db_name, params);
    reveal_strlit("db_name");
    assert forall|i: int| 0 <= i < pairs.len() implies writable(#[trigger] pairs[i]) by {
        if db_name is Some && i > 0 {
            assert(pairs[i] == params[i - 1]);
        }
    }
    law_url_form(db_dir, pairs);
    match db_name {
        Some(name) => lemma_db_name_first(name, params),
        None => {
            let none: Seq<(Seq<char>, Seq<char>)> = Seq::empty();
            lemma_other_keys(none, params, "db_name"@);
            assert(without_key(none, "db_name"@) =~= none) by {
                reveal(Seq::filter);
            }
            assert(none + params =~= params);
        },
    }
    let base = OptsModel::initial().with_db_dir(encode_utf8(db_dir)).with_db_name(db_name);
    lemma_with_parameters(base, params);
    assert(base.params + params =~= params);
}

/// Pairs with another key behind `head` select nothing and all stay.
proof fn lemma_other_keys(
    head: Seq<(Seq<char>, Seq<char>)>,
    params: Seq<(Seq<char>, Seq<char>)>,
    key: Seq<char>,
)
    requires
        forall|i: int| 0 <= i < params.len() ==> (#[trigger] params[i]).0 != key,
    ensures
        last_value(head + params, key) == last_value(head, key),
        without_key(head + params, key) == without_key(head, key) + params,
    decreases params.len(),
{
    let pairs = head + params;
    if params.len() > 0 {
        let init = params.drop_last();
        let last = params.last();
        assert(params[params.len() - 1].0 != key);
        lemma_other_keys(head, init, key);
        lemma_without_key_step(head + init, last, key);
        assert(pairs =~= (head + init).push(last));
        assert(pairs.drop_last() =~= head + init);
        assert(without_key(head, key) + params =~= (without_key(head, key) + init).push(last));
    } else {
        assert(pairs =~= head);
        assert(without_key(head, key) + params =~= without_key(head, key));
    }
}

/// A leading `db_name` pair is the selected one where no other pair has that key.
proof fn lemma_db_name_first(db_name: Seq<char>, params: Seq<(Seq<char>, Seq<char>)>)
    requires
        forall|i: int| 0 <= i < params.len() ==> (#[trigger] params[i]).0 != "db_name"@,
    ensures
        last_value(seq![("db_name"@, db_name)] + params, "db_name"@) == Some(db_name),
        without_key(seq![("db_name"@, db_name)] + params, "db_name"@) == params,
{
    let none: Seq<(Seq<char>, Seq<char>)> = Seq::empty();
    let head: Seq<(Seq<char>, Seq<char>)> = seq![("db_name"@, db_name)];
    lemma_other_keys(head, params, "db_name"@);
    lemma_without_key_step(none, head[0], "db_name"@);
    assert(head =~= none.push(head[0]));
    assert(head.last() == head[0]);
    assert(without_key(none, "db_name"@) =~= none) by {
        reveal(Seq::filter);
    }
    assert(none + params =~= params);
}

/// One more pair stays where its key is another.
proof fn lemma_without_key_step(
    pairs: Seq<(Seq<char>, Seq<char>)>,
    pair: (Seq<char>, Seq<char>),
    key: Seq<char>,
)
    ensures
        pair.0 == key ==> without_key(pairs.push(pair), key) == without_key(pairs, key),
        pair.0 != key ==> without_key(pairs.push(pair), key) == without_key(pairs, key).push(pair),
{
    reveal(Seq::filter);
    assert(pairs.push(pair).drop_last() =~= pairs);
}

/// Each choice of the builder changes what it is about and nothing else, from any options: the
/// directory and the default database are replaced, and a parameter goes behind those that were
/// given before, which all stay.
pub proof fn law_builder_choices_change_one_thing(
    opts: OptsModel,
    db_dir: Seq<u8>,
    db_name: Option<Seq<char>>,
    key: Seq<char>,
    value: Seq<char>,
)
    ensures
        opts.with_db_dir(db_dir).db_dir == db_dir,
        opts.with_db_dir(db_dir).db_name == opts.db_name,
        opts.with_db_dir(db_dir).params == opts.params,
        opts.with_db_name(db_name).db_dir == opts.db_dir,
        opts.with_db_name(db_name).db_name == db_name,
        opts.with_db_name(db_name).params == opts.params,
        opts.with_parameter(key, value).db_dir == opts.db_dir,
        opts.with_parameter(key, value).db_name == opts.db_name,
        opts.with_parameter(key, value).params.drop_last() == opts.params,
        opts.with_parameter(key, value).params.last() == (key, value),
        opts.with_parameter(key, value).params.len() == opts.params.len() + 1,
{
    assert(opts.params.push((key, value)).drop_last() =~= opts.params);
}

/// Choices about different things can be made in any order, and of two choices about the directory
/// or about the default database the second counts.
pub proof fn law_builder_choices_commute(
    opts: OptsModel,
    db_dir: Seq<u8>,
    other_dir: Seq<u8>,
    db_name: Option<Seq<char>>,
    other_name: Option<Seq<char>>,
    key: Seq<char>,
    value: Seq<char>,
)
    ensures
        opts.with_db_dir(db_dir).with_db_name(db_name) == opts.with_db_name(db_name).with_db_dir(
            db_dir,
        ),
        opts.with_db_dir(db_dir).with_parameter(key, value) == opts.with_parameter(
            key,
            value,
        ).with_db_dir(db_dir),
        opts.with_db_name(db_name).with_parameter(key, value) == opts.with_parameter(
            key,
            value,
        ).with_db_name(db_name),
        opts.with_db_dir(other_dir).with_db_dir(db_dir) == opts.with_db_dir(db_dir),
        opts.with_db_name(other_name).with_db_name(db_name) == opts.with_db_name(db_name),
{
}

/// Before anything is chosen there is no default database and no parameter, and the directory is
/// `./seekdb.db`.
pub proof fn law_nothing_is_chosen_at_first()
    ensures
        OptsModel::initial().db_name is None,
        OptsModel::initial().params.len() == 0,
        decode_utf8(OptsModel::initial().db_dir) == "./seekdb.db"@,
{
    encode_utf8_decode_utf8("./seekdb.db"@);
}

/// A directory and a query are found again in a URL.
proof fn lemma_url_parts(db_dir: Seq<char>, query: Seq<char>)
    requires
        !db_dir.contains('?'),
    ensures
        ({
            let url = "seekdb://"@ + db_dir + "?"@ + query;
            &&& has_scheme(url)
            &&& url_path(url) == db_dir
            &&& url_query(url) == query
        }),
{
    reveal_strlit("?");
    let url = "seekdb://"@ + db_dir + "?"@ + query;
    let scheme = "seekdb://"@;
    let behind = behind_scheme(url);
    assert(scheme =~= url.subrange(0, scheme.len() as int));
    assert(behind =~= db_dir + seq!['?'] + query);
    assert forall|i: int| 0 <= i < db_dir.len() implies behind[i] != '?' by {
        assert(behind[i] == db_dir[i]);
        assert(db_dir.contains(db_dir[i]));
    }
    text::lemma_first_index_is(behind, '?', db_dir.len() as int);
    assert(url_path(url) =~= db_dir);
    assert(url_query(url) =~= query);
}

/// Pairs one after the other: the later ones select before the earlier, parameters follow each
/// other.
proof fn lemma_pairs_concat(a: Seq<Seq<char>>, b: Seq<Seq<char>>)
    ensures
        selected_db(a + b) == if selected_db(b) is Some {
            selected_db(b)
        } else {
            selected_db(a)
        },
        server_params(a + b) == server_params(a) + server_params(b),
    decreases b.len(),
{
    if b.len() == 0 {
        assert(a + b =~= a);
        assert(server_params(b) =~= Seq::empty()) by {
            reveal(Seq::filter);
        }
        assert(server_params(a) + server_params(b) =~= server_params(a));
    } else {
        let init = b.drop_last();
        let last = b.last();
        lemma_pairs_concat(a, init);
        lemma_pairs_step(a + init, last);
        lemma_pairs_step(init, last);
        assert(b =~= init.push(last));
        assert(a + b =~= (a + init).push(last));
        if !selects_db(last) {
            let param = (pair_key(last), pair_value(last));
            assert(server_params(a) + server_params(init).push(param) =~= (server_params(a)
                + server_params(init)).push(param));
        }
    }
}

/// The first broken pair of two stretches is that of the first one where it has one.
proof fn lemma_broken_concat(a: Seq<Seq<char>>, b: Seq<Seq<char>>)
    ensures
        first_broken(a) <= a.len(),
        first_broken(b) <= b.len(),
        first_broken(a + b) == if first_broken(a) < a.len() {
            first_broken(a)
        } else {
            a.len() + first_broken(b)
        },
{
    let whole = a + b;
    text::lemma_first_failing(a, has_value());
    text::lemma_first_failing(b, has_value());
    let n: int = if first_broken(a) < a.len() {
        first_broken(a) as int
    } else {
        (a.len() + first_broken(b)) as int
    };
    assert forall|i: int| 0 <= i < n implies has_value()(#[trigger] whole[i]) by {
        if i < a.len() {
            assert(whole[i] == a[i]);
        } else {
            assert(whole[i] == b[i - a.len()]);
        }
    }
    text::lemma_first_failing_is(whole, has_value(), n);
}

/// A query is read from left to right: of two queries with `&` between them the parameters follow
/// each other, the later choice of a default database counts, and what is wrong with the first is
/// reported before what is wrong with the second.
pub proof fn law_queries_are_read_in_turn(db_dir: Seq<char>, a: Seq<char>, b: Seq<char>)
    requires
        db_dir.len() > 0,
        !db_dir.contains('?'),
    ensures
        ({
            let both = url_opts("seekdb://"@ + db_dir + "?"@ + (a + "&"@ + b));
            match (
                url_opts("seekdb://"@ + db_dir + "?"@ + a),
                url_opts("seekdb://"@ + db_dir + "?"@ + b),
            ) {
                (Ok(x), Ok(y)) => {
                    &&& both is Ok
                    &&& both->Ok_0.db_dir == x.db_dir
                    &&& both->Ok_0.db_name == if y.db_name is Some {
                        y.db_name
                    } else {
                        x.db_name
                    }
                    &&& both->Ok_0.params == x.params + y.params
                },
                (Err(fault), _) => both == Err::<OptsModel, UrlFault>(fault),
                (Ok(_), Err(fault)) => both == Err::<OptsModel, UrlFault>(fault),
            }
        }),
{
    reveal_strlit("&");
    lemma_url_parts(db_dir, a);
    lemma_url_parts(db_dir, b);
    lemma_url_parts(db_dir, a + "&"@ + b);
    assert(a + "&"@ + b =~= a + seq!['&'] + b);
    text::law_split_at_every_separator(a, b, '&');
    Seq::filter_distributes_over_add(
        text::split(a, '&'),
        text::split(b, '&'),
        |piece: Seq<char>| piece.len() > 0,
    );
    let front = query_pairs(a);
    let back = query_pairs(b);
    assert(query_pairs(a + "&"@ + b) == front + back);
    lemma_pairs_concat(front, back);
    lemma_broken_concat(front, back);
}

/// The options of one pair: `db_name` selects the default database, every other key makes one
/// parameter, both with all that stands behind the first `=`.
pub proof fn law_one_pair_makes_one_choice(db_dir: Seq<char>, key: Seq<char>, value: Seq<char>)
    requires
        db_dir.len() > 0,
        !db_dir.contains('?'),
        !key.contains('='),
        !key.contains('&'),
        !value.contains('&'),
    ensures
        ({
            let made = url_opts("seekdb://"@ + db_dir + "?"@ + (key + "="@ + value));
            &&& made is Ok
            &&& made->Ok_0.db_dir == encode_utf8(db_dir)
            &&& key == "db_name"@ ==> {
                &&& made->Ok_0.db_name == Some(value)
                &&& made->Ok_0.params == Seq::<(Seq<char>, Seq<char>)>::empty()
            }
            &&& key != "db_name"@ ==> {
                &&& made->Ok_0.db_name is None
                &&& made->Ok_0.params == seq![(key, value)]
            }
        }),
{
    let none = Seq::<Seq<char>>::empty();
    let pair = key + "="@ + value;
    lemma_url_parts(db_dir, pair);
    assert(writable((key, value)));
    lemma_pair_text((key, value));
    assert(pair == pair_text((key, value)));
    lemma_single_piece(pair);
    lemma_pairs_step(none, pair);
    assert(none.push(pair) =~= seq![pair]);
    assert(server_params(none) =~= Seq::empty()) by {
        reveal(Seq::filter);
    }
    text::lemma_first_failing_is(seq![pair], has_value(), 1);
}

/// A query of one piece that is not empty has one pair.
proof fn lemma_single_piece(piece: Seq<char>)
    requires
        !piece.contains('&'),
        piece.len() > 0,
    ensures
        query_pairs(piece) == seq![piece],
{
    text::law_split_at_every_separator(piece, piece, '&');
    let pieces = seq![piece];
    lemma_filled_step(pieces, 0);
    assert(pieces.take(1) =~= pieces);
    assert(pieces.take(0) =~= Seq::empty());
    assert(filled(Seq::empty()) =~= Seq::empty()) by {
        reveal(Seq::filter);
    }
    assert(Seq::<Seq<char>>::empty().push(piece) =~= pieces);
}

/// A piece without `=` is a fault where it holds anything, and an empty one is passed over.
pub proof fn law_piece_without_value_is_a_fault(db_dir: Seq<char>, piece: Seq<char>)
    requires
        db_dir.len() > 0,
        !db_dir.contains('?'),
        !piece.contains('='),
        !piece.contains('&'),
    ensures
        ({
            let made = url_opts("seekdb://"@ + db_dir + "?"@ + piece);
            &&& piece.len() > 0 ==> made == Err::<OptsModel, UrlFault>(UrlFault::Pair(piece))
            &&& piece.len() == 0 ==> {
                &&& made is Ok
                &&& made->Ok_0.db_dir == encode_utf8(db_dir)
                &&& made->Ok_0.db_name is None
                &&& made->Ok_0.params == Seq::<(Seq<char>, Seq<char>)>::empty()
            }
        }),
{
    lemma_url_parts(db_dir, piece);
    if piece.len() > 0 {
        lemma_single_piece(piece);
        text::lemma_first_failing_is(seq![piece], has_value(), 0);
    } else {
        assert(piece =~= Seq::empty());
        lemma_no_pairs();
        assert(server_params(Seq::empty()) =~= Seq::empty()) by {
            reveal(Seq::filter);
        }
    }
}

/// A URL needs the scheme, letter for letter, and a directory behind it; without one it is a fault
/// whatever its query says.
pub proof fn law_url_needs_scheme_and_directory(url: Seq<char>, query: Seq<char>)
    ensures
        url_opts(url) == Err::<OptsModel, UrlFault>(UrlFault::Scheme) <==> !(url.len() >= 9
            && url.take(9) == "seekdb://"@),
        url_opts("seekdb://"@) == Err::<OptsModel, UrlFault>(UrlFault::MissingPath),
        url_opts("seekdb://"@ + "?"@ + query) == Err::<OptsModel, UrlFault>(UrlFault::MissingPath),
{
    reveal_strlit("seekdb://");
    let scheme = "seekdb://"@;
    let none = Seq::<char>::empty();
    if url.len() >= 9 {
        assert(url.take(9) =~= url.subrange(0, 9));
    }
    assert(scheme =~= scheme.subrange(0, 9));
    assert(behind_scheme(scheme) =~= none);
    assert(url_path(scheme) =~= none);
    lemma_url_parts(none, query);
    assert(scheme + none + "?"@ + query =~= scheme + "?"@ + query);
}

} // verus!
