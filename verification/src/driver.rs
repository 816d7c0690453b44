//! What the C driver is given, and what it may not be given.
use vstd::prelude::*;
use vstd::string::*;
use vstd::utf8::*;

use crate::error::Error;
use crate::opts;
use crate::path;
use crate::path::PosixPath;
use crate::text;

verus! {

/// Whether the driver takes a parameter with this key.
pub open spec fn key_accepted(key: Seq<char>) -> bool {
    key.len() > 0 && key != "port"@
}

/// The text with which a key is rejected.
pub open spec fn key_rejection(key: Seq<char>) -> Seq<char> {
    if key.len() == 0 {
        "server parameter keys must be non-empty"@
    } else {
        "parameter \"port\" is not supported: an embedded seekdb server has no TCP listener, and this client always connects via <db_dir>/run/sql.sock"@
    }
}

/// What makes a parameter acceptable: its key.
pub open spec fn accepted() -> spec_fn((Seq<char>, Seq<char>)) -> bool {
    |param: (Seq<char>, Seq<char>)| key_accepted(param.0)
}

/// The position of the first parameter with a key that is not accepted, or their number.
pub open spec fn first_rejected(params: Seq<(Seq<char>, Seq<char>)>) -> nat {
    text::first_failing(params, accepted())
}

/// Server parameters are accepted if and only if every key is: an empty key and the reserved key
/// `port` are not, wherever they stand.
pub proof fn law_params_accepted(params: Seq<(Seq<char>, Seq<char>)>)
    ensures
        first_rejected(params) == params.len() <==> (forall|i: int|
            0 <= i < params.len() ==> (#[trigger] params[i]).0.len() > 0 && params[i].0 != "port"@),
{
    text::lemma_first_failing(params, accepted());
    if first_rejected(params) == params.len() {
        assert forall|i: int| 0 <= i < params.len() implies (#[trigger] params[i]).0.len() > 0
            && params[i].0 != "port"@ by {
            assert(accepted()(params[i]));
        }
    }
}

/// Rejects server parameters that the driver does not take, by the first of them.
pub fn validate_params(params: &[(String, String)]) -> (r: Result<(), Error>)
    ensures
        ({
            let texts = opts::pair_texts(params@);
            let n = first_rejected(texts);
            match r {
                Ok(_) => n == texts.len(),
                Err(e) => n < texts.len() && e.is_invalid_input(
                    key_rejection(texts[n as int].0),
                ),
            }
        }),
{
    let ghost texts = opts::pair_texts(params@);
    let mut i: usize = 0;
    while i < params.len()
        invariant
            i <= params@.len(),
            texts == opts::pair_texts(params@),
            forall|j: int| 0 <= j < i ==> key_accepted((#[trigger] texts[j]).0),
        decreases params@.len() - i,
    {
        let key: &str = params[i].0.as_str();
        assert(texts[i as int].0 == key@);
        if key.is_empty() {
            proof {
                text::lemma_first_failing_is(texts, accepted(), i as int);
            }
            return Err(
                Error::InvalidInput("server parameter keys must be non-empty".to_owned()),
            );
        }
        if text::same_text(key, "port") {
            proof {
                text::lemma_first_failing_is(texts, accepted(), i as int);
            }
            return Err(
                Error::InvalidInput(
                    "parameter \"port\" is not supported: an embedded seekdb server has no TCP listener, and this client always connects via <db_dir>/run/sql.sock".to_owned(),
                ),
            );
        }
        i = i + 1;
    }
    proof {
        text::lemma_first_failing_is(texts, accepted(), texts.len() as int);
    }
    Ok(())
}

/// Whether bytes can be a C string.
pub open spec fn is_c_string(bytes: Seq<u8>) -> bool {
    !bytes.contains(0u8)
}

/// Whether key and value of a parameter can be C strings.
pub open spec fn is_c_param(param: (Seq<char>, Seq<char>)) -> bool {
    is_c_string(encode_utf8(param.0)) && is_c_string(encode_utf8(param.1))
}

/// What makes a parameter one for the driver: key and value can be C strings.
pub open spec fn is_clean() -> spec_fn((Seq<char>, Seq<char>)) -> bool {
    |param: (Seq<char>, Seq<char>)| is_c_param(param)
}

/// The position of the first parameter that cannot be C strings, or their number.
pub open spec fn first_nul(params: Seq<(Seq<char>, Seq<char>)>) -> nat {
    text::first_failing(params, is_clean())
}

/// The parameters as the driver reads them: key and value of each in turn.
pub open spec fn flat_params(params: Seq<(Seq<char>, Seq<char>)>) -> Seq<Seq<u8>> {
    Seq::new(
        2 * params.len(),
        |i: int|
            if i % 2 == 0 {
                encode_utf8(params[i / 2].0)
            } else {
                encode_utf8(params[i / 2].1)
            },
    )
}

/// What the driver is called with. None of the byte strings holds a NUL byte.
#[derive(Debug)]
pub struct DriverArgs {
    /// The directory.
    pub db_dir: Vec<u8>,
    /// Key and value of each parameter in turn; `None` where there are no parameters, for which
    /// the driver takes a null pointer.
    pub params: Option<Vec<Vec<u8>>>,
}

/// Whether the driver is called with this directory and these parameters.
pub open spec fn args_are(
    args: DriverArgs,
    db_dir: Seq<u8>,
    params: Seq<(Seq<char>, Seq<char>)>,
) -> bool {
    &&& args.db_dir@ == db_dir
    &&& match args.params {
        Some(list) => params.len() > 0 && path::byte_strings(list@) == flat_params(params),
        None => params.len() == 0,
    }
}

/// Which argument cannot be a C string.
#[derive(Debug)]
pub enum NulError {
    /// The directory.
    DbDir,
    /// The parameter with this key.
    Parameter(String),
}

/// The text for an argument that cannot be a C string, given the key in quotes.
pub open spec fn nul_message(in_dir: bool, quoted_key: Seq<char>) -> Seq<char> {
    if in_dir {
        "db_dir contains an interior NUL byte"@
    } else {
        "parameter "@ + quoted_key + " contains an interior NUL byte"@
    }
}

impl NulError {
    /// The text for the error, given the key in quotes.
    pub fn message(&self, quoted_key: &str) -> (r: String)
        ensures
            r@ == nul_message(*self is DbDir, quoted_key@),
    {
        match self {
            NulError::DbDir => "db_dir contains an interior NUL byte".to_owned(),
            NulError::Parameter(_) => {
                "parameter ".to_owned().concat(quoted_key).concat(" contains an interior NUL byte")
            },
        }
    }
}

/// Whether bytes can be a C string.
fn check_c_string(bytes: &[u8]) -> (r: bool)
    ensures
        r == is_c_string(bytes@),
{
    let n: usize = text::find_byte(bytes, 0, 0u8);
    proof {
        assert(bytes@.skip(0) =~= bytes@);
        text::lemma_first_index(bytes@, 0u8);
    }
    n == bytes.len()
}

/// What the driver is called with, or the first argument that cannot be a C string: the directory
/// is looked at first, then the parameters in their order.
pub fn driver_args(db_dir: &PosixPath, params: &[(String, String)]) -> (r: Result<
    DriverArgs,
    NulError,
>)
    ensures
        ({
            let texts = opts::pair_texts(params@);
            let n = first_nul(texts);
            match r {
                Ok(args) => {
                    &&& is_c_string(db_dir@)
                    &&& n == texts.len()
                    &&& args_are(args, db_dir@, texts)
                },
                Err(NulError::DbDir) => !is_c_string(db_dir@),
                Err(NulError::Parameter(key)) => {
                    &&& is_c_string(db_dir@)
                    &&& n < texts.len()
                    &&& key@ == texts[n as int].0
                },
            }
        }),
{
    if !check_c_string(db_dir.as_bytes()) {
        return Err(NulError::DbDir);
    }
    let ghost texts = opts::pair_texts(params@);
    let mut list: Vec<Vec<u8>> = Vec::new();
    let mut i: usize = 0;
    while i < params.len()
        invariant
            i <= params@.len(),
            is_c_string(db_dir@),
            texts == opts::pair_texts(params@),
            path::byte_strings(list@) == flat_params(texts.take(i as int)),
            forall|j: int| 0 <= j < i ==> is_c_param(#[trigger] texts[j]),
        decreases params@.len() - i,
    {
        let key: &[u8] = params[i].0.as_str().as_bytes();
        let value: &[u8] = params[i].1.as_str().as_bytes();
        let ghost strings = path::byte_strings(list@);
        assert(texts[i as int] == (params@[i as int].0@, params@[i as int].1@));
        if !check_c_string(key) || !check_c_string(value) {
            proof {
                text::lemma_first_failing_is(texts, is_clean(), i as int);
            }
            return Err(NulError::Parameter(params[i].0.clone()));
        }
        list.push(text::copy_bytes(key));
        list.push(text::copy_bytes(value));
        assert(path::byte_strings(list@) =~= strings.push(key@).push(value@));
        assert(path::byte_strings(list@) =~= flat_params(texts.take(i + 1)));
        i = i + 1;
    }
    proof {
        text::lemma_first_failing_is(texts, is_clean(), texts.len() as int);
        assert(texts.take(i as int) =~= texts);
    }
    let dir: Vec<u8> = text::copy_bytes(db_dir.as_bytes());
    if params.len() == 0 {
        Ok(DriverArgs { db_dir: dir, params: None })
    } else {
        Ok(DriverArgs { db_dir: dir, params: Some(list) })
    }
}

/// Where no argument is rejected, everything that the driver reads is a whole C string.
pub proof fn law_driver_reads_whole_strings(params: Seq<(Seq<char>, Seq<char>)>, i: int)
    requires
        first_nul(params) == params.len(),
        0 <= i < flat_params(params).len(),
    ensures
        is_c_string(flat_params(params)[i]),
{
    text::lemma_first_failing(params, is_clean());
    assert(is_clean()(params[i / 2]));
}

/// What the return code of the driver means: zero is success.
pub fn open_outcome(code: i32, handle: usize, db_dir: &PosixPath) -> (r: Result<usize, Error>)
    ensures
        match r {
            Ok(h) => code == 0 && h == handle,
            Err(e) => code != 0 && e.is_open_failure(code, db_dir@),
        },
{
    if code != 0 {
        Err(Error::Open { code, db_dir: db_dir.clone() })
    } else {
        Ok(handle)
    }
}

/// The parameters are read back from the list for the driver: it has two entries for each, the
/// first of which is the whole key and the second the whole value.
pub proof fn law_params_are_read_back(params: Seq<(Seq<char>, Seq<char>)>, k: int)
    requires
        0 <= k < params.len(),
    ensures
        flat_params(params).len() == 2 * params.len(),
        valid_utf8(flat_params(params)[2 * k]),
        decode_utf8(flat_params(params)[2 * k]) == params[k].0,
        valid_utf8(flat_params(params)[2 * k + 1]),
        decode_utf8(flat_params(params)[2 * k + 1]) == params[k].1,
{
    encode_utf8_valid_utf8(params[k].0);
    encode_utf8_valid_utf8(params[k].1);
    encode_utf8_decode_utf8(params[k].0);
    encode_utf8_decode_utf8(params[k].1);
}

/// The driver can tell any two lists of parameters apart.
pub proof fn law_different_params_differ_for_the_driver(
    a: Seq<(Seq<char>, Seq<char>)>,
    b: Seq<(Seq<char>, Seq<char>)>,
)
    requires
        flat_params(a) == flat_params(b),
    ensures
        a == b,
{
    assert(flat_params(a).len() == 2 * a.len());
    assert(flat_params(b).len() == 2 * b.len());
    assert forall|k: int| 0 <= k < a.len() implies a[k] == b[k] by {
        law_params_are_read_back(a, k);
        law_params_are_read_back(b, k);
    }
    assert(a =~= b);
}

/// The driver is called with the whole directory, and with every parameter in full and in order;
/// only where there are none it is given no list.
pub proof fn law_driver_is_given_everything(
    args: DriverArgs,
    db_dir: Seq<u8>,
    params: Seq<(Seq<char>, Seq<char>)>,
    k: int,
)
    requires
        args_are(args, db_dir, params),
    ensures
        args.db_dir@ == db_dir,
        args.params is None <==> params.len() == 0,
        args.params matches Some(list) ==> list@.len() == 2 * params.len(),
        args.params matches Some(list) ==> 0 <= k < params.len() ==> {
            &&& valid_utf8(list@[2 * k]@)
            &&& decode_utf8(list@[2 * k]@) == params[k].0
            &&& valid_utf8(list@[2 * k + 1]@)
            &&& decode_utf8(list@[2 * k + 1]@) == params[k].1
        },
{
    if let Some(list) = args.params {
        path::law_byte_strings_are_whole(list@);
        assert(flat_params(params).len() == 2 * params.len());
        if 0 <= k < params.len() {
            law_params_are_read_back(params, k);
            assert(path::byte_strings(list@)[2 * k] == list@[2 * k]@);
            assert(path::byte_strings(list@)[2 * k + 1] == list@[2 * k + 1]@);
        }
    }
}

/// What is found wrong with keys is the first empty or reserved one; nothing stands in front of it
/// that would have been rejected, and no other key is.
pub proof fn law_first_bad_key_is_found(params: Seq<(Seq<char>, Seq<char>)>, n: int)
    requires
        0 <= n <= params.len(),
        forall|i: int|
            0 <= i < n ==> (#[trigger] params[i]).0.len() > 0 && params[i].0 != "port"@,
        n < params.len() ==> params[n].0.len() == 0 || params[n].0 == "port"@,
    ensures
        first_rejected(params) == n,
{
    text::lemma_first_failing_is(params, accepted(), n);
}

/// An empty key and the reserved one are rejected with a text of their own.
pub proof fn law_bad_keys_are_told_apart()
    ensures
        key_rejection(seq![]) == "server parameter keys must be non-empty"@,
        key_rejection("port"@)
            == "parameter \"port\" is not supported: an embedded seekdb server has no TCP listener, and this client always connects via <db_dir>/run/sql.sock"@,
{
    reveal_strlit("port");
}

/// What is found wrong with C strings is the first parameter with a NUL byte in its key or its
/// value, and no other is.
pub proof fn law_first_nul_is_found(params: Seq<(Seq<char>, Seq<char>)>, n: int)
    requires
        0 <= n <= params.len(),
        forall|i: int|
            0 <= i < n ==> !encode_utf8((#[trigger] params[i]).0).contains(0u8) && !encode_utf8(
                params[i].1,
            ).contains(0u8),
        n < params.len() ==> encode_utf8(params[n].0).contains(0u8) || encode_utf8(
            params[n].1,
        ).contains(0u8),
    ensures
        first_nul(params) == n,
{
    text::lemma_first_failing_is(params, is_clean(), n);
}

/// Bytes can be a C string if and only if none of them is zero.
pub proof fn law_c_string_has_no_zero(bytes: Seq<u8>)
    ensures
        is_c_string(bytes) <==> forall|i: int| 0 <= i < bytes.len() ==> #[trigger] bytes[i] != 0,
{
    if is_c_string(bytes) {
        assert forall|i: int| 0 <= i < bytes.len() implies #[trigger] bytes[i] != 0 by {
            assert(bytes.contains(bytes[i]));
        }
    }
}

/// The text for a NUL byte names the directory, or shows the key of the parameter.
pub proof fn law_nul_message_names_the_place(quoted_key: Seq<char>)
    ensures
        nul_message(true, quoted_key) == "db_dir contains an interior NUL byte"@,
        nul_message(false, quoted_key) == "parameter "@ + quoted_key
            + " contains an interior NUL byte"@,
{
}

} // verus!
