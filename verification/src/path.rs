//! POSIX paths: byte strings, compared by their components.
use vstd::prelude::*;
use vstd::string::*;
use vstd::utf8::*;

use crate::outside;
use crate::text;

verus! {

/// The byte between two components of a path.
pub const SLASH: u8 = 0x2f;

/// The byte that alone stands for the directory itself.
pub const DOT: u8 = 0x2e;

/// Whether a path starts at the root.
pub open spec fn is_rooted(p: Seq<u8>) -> bool {
    p.len() > 0 && p[0] == SLASH
}

/// Whether a piece between two slashes names something: neither empty nor a single dot.
pub open spec fn is_name(piece: Seq<u8>) -> bool {
    piece.len() > 0 && piece != seq![DOT]
}

/// The pieces of a path that name something.
pub open spec fn names(pieces: Seq<Seq<u8>>) -> Seq<Seq<u8>> {
    pieces.filter(|piece: Seq<u8>| is_name(piece))
}

/// The components of a path: `/` where it is absolute, or `.` where it starts with a lone dot,
/// and then its names. Doubled and trailing slashes and inner dots leave no trace.
pub open spec fn path_components(p: Seq<u8>) -> Seq<Seq<u8>> {
    let pieces = text::split(p, SLASH);
    let start: Seq<Seq<u8>> = if is_rooted(p) {
        seq![seq![SLASH]]
    } else if pieces[0] == seq![DOT] {
        seq![seq![DOT]]
    } else {
        seq![]
    };
    start + names(pieces)
}

/// `tail` taken from `base`: `tail` itself where it is absolute, else the two with one slash
/// between them.
pub open spec fn path_join(base: Seq<u8>, tail: Seq<u8>) -> Seq<u8> {
    if is_rooted(tail) {
        tail
    } else if base.len() > 0 && base.last() != SLASH {
        base + seq![SLASH] + tail
    } else {
        base + tail
    }
}

/// The number of bytes of the character with which bytes start, or zero where they do not start
/// with one.
pub open spec fn character_len(bytes: Seq<u8>) -> nat {
    if bytes.len() >= 1 && valid_utf8(bytes.take(1)) {
        1
    } else if bytes.len() >= 2 && valid_utf8(bytes.take(2)) {
        2
    } else if bytes.len() >= 3 && valid_utf8(bytes.take(3)) {
        3
    } else if bytes.len() >= 4 && valid_utf8(bytes.take(4)) {
        4
    } else {
        0
    }
}

/// Bytes as text for a developer: every character with its escape, and every byte that belongs to
/// none in hexadecimal.
pub open spec fn developer_text(bytes: Seq<u8>) -> Seq<char>
    decreases bytes.len(),
{
    let n = character_len(bytes);
    if bytes.len() == 0 {
        Seq::empty()
    } else if n == 0 {
        "\\x"@ + text::hex_digits(bytes[0]) + developer_text(bytes.skip(1))
    } else {
        developer_character(decode_utf8(bytes.take(n as int))) + developer_text(
            bytes.skip(n as int),
        )
    }
}

/// A character as text for a developer: with its escape, but a single quote has none.
pub open spec fn developer_character(character: Seq<char>) -> Seq<char> {
    if character == "'"@ {
        character
    } else {
        outside::escaped_text(character)
    }
}

/// The byte strings of a list.
pub open spec fn byte_strings(v: Seq<Vec<u8>>) -> Seq<Seq<u8>> {
    v.map_values(|b: Vec<u8>| b@)
}

/// A POSIX path: any bytes, which need not be UTF-8.
pub struct PosixPath {
    bytes: Vec<u8>,
}

impl View for PosixPath {
    type V = Seq<u8>;

    closed spec fn view(&self) -> Seq<u8> {
        self.bytes@
    }
}

impl Clone for PosixPath {
    fn clone(&self) -> (r: PosixPath)
        ensures
            r@ == self@,
    {
        PosixPath { bytes: text::copy_bytes(self.bytes.as_slice()) }
    }
}

impl PosixPath {
    /// The path that a text spells.
    pub fn new(spelling: &str) -> (r: PosixPath)
        ensures
            r@ == encode_utf8(spelling@),
    {
        PosixPath { bytes: text::copy_bytes(spelling.as_bytes()) }
    }

    /// The path with these bytes.
    pub fn from_bytes(bytes: Vec<u8>) -> (r: PosixPath)
        ensures
            r@ == bytes@,
    {
        PosixPath { bytes }
    }

    /// The bytes of the path.
    pub fn as_bytes(&self) -> (r: &[u8])
        ensures
            r@ == self@,
    {
        self.bytes.as_slice()
    }

    /// Whether the path starts at the root.
    pub fn is_absolute(&self) -> (r: bool)
        ensures
            r == is_rooted(self@),
    {
        self.bytes.len() > 0 && self.bytes[0] == SLASH
    }

    /// `tail` taken from this path.
    pub fn join(&self, tail: &PosixPath) -> (r: PosixPath)
        ensures
            r@ == path_join(self@, tail@),
    {
        if tail.is_absolute() {
            return tail.clone();
        }
        let mut bytes: Vec<u8> = text::copy_bytes(self.as_bytes());
        let n: usize = bytes.len();
        if n > 0 && bytes[n - 1] != SLASH {
            bytes.push(SLASH);
        }
        text::append_bytes(&mut bytes, tail.as_bytes());
        assert(bytes@ =~= path_join(self@, tail@));
        PosixPath { bytes }
    }

    /// The path as text, where its bytes are UTF-8.
    pub fn to_str(&self) -> (r: Option<&str>)
        ensures
            r is Some <==> valid_utf8(self@),
            r matches Some(t) ==> t@ == decode_utf8(self@),
    {
        outside::utf8_text(self.as_bytes())
    }

    /// The path as text for a reader, with a stand-in for bytes that are not UTF-8.
    pub fn display(&self) -> (r: String)
        ensures
            r@ == outside::lossy_text(self@),
            valid_utf8(self@) ==> r@ == decode_utf8(self@),
    {
        outside::lossy(self.as_bytes())
    }

    /// The path in quotes, for a developer: with escapes, and with bytes that are not UTF-8 in
    /// hexadecimal.
    pub fn debug_text(&self) -> (r: String)
        ensures
            r@ == "\""@ + developer_text(self@) + "\""@,
    {
        let bytes: &[u8] = self.as_bytes();
        let mut r: String = "\"".to_owned();
        let mut i: usize = 0;
        assert(self@.skip(0) =~= self@);
        while i < bytes.len()
            invariant
                bytes@ == self@,
                i <= bytes@.len(),
                r@ + developer_text(self@.skip(i as int)) == "\""@ + developer_text(self@),
            decreases bytes@.len() - i,
        {
            let ghost rest = self@.skip(i as int);
            let ghost written = r@;
            let mut n: usize = 1;
            let mut found: Option<String> = None;
            while found.is_none() && n <= 4 && n <= bytes.len() - i
                invariant
                    bytes@ == self@,
                    i < bytes@.len(),
                    rest == self@.skip(i as int),
                    1 <= n <= 5,
                    n <= rest.len() + 1,
                    forall|k: int| 1 <= k < n ==> !#[trigger] valid_utf8(rest.take(k)),
                    found matches Some(t) ==> {
                        &&& n <= 4 && n <= rest.len()
                        &&& valid_utf8(rest.take(n as int))
                        &&& t@ == decode_utf8(rest.take(n as int))
                    },
                decreases 5 - n, (if found is None { 1int } else { 0int }),
            {
                let stretch: Vec<u8> = text::sub_bytes(bytes, i, i + n);
                assert(stretch@ =~= rest.take(n as int));
                match outside::utf8_text(stretch.as_slice()) {
                    Some(t) => {
                        found = Some(t.to_owned());
                    },
                    None => {
                        n = n + 1;
                    },
                }
            }
            match found {
                Some(t) => {
                    assert(character_len(rest) == n);
                    if text::same_text(t.as_str(), "'") {
                        r.append(t.as_str());
                    } else {
                        r.append(outside::escaped(t.as_str()).as_str());
                    }
                    assert(rest.skip(n as int) =~= self@.skip(i + n));
                    i = i + n;
                },
                None => {
                    assert(character_len(rest) == 0);
                    r.append("\\x");
                    text::append_hex(&mut r, bytes[i]);
                    assert(rest.skip(1) =~= self@.skip(i + 1));
                    i = i + 1;
                },
            }
            assert(r@ + developer_text(self@.skip(i as int)) =~= written + developer_text(rest));
        }
        assert(r@ + developer_text(self@.skip(i as int)) =~= r@);
        r.append("\"");
        r
    }

    /// The components of the path.
    pub fn components(&self) -> (r: Vec<Vec<u8>>)
        ensures
            byte_strings(r@) == path_components(self@),
    {
        let ghost p = self@;
        let ghost pieces = text::split(p, SLASH);
        let bytes: &[u8] = self.as_bytes();
        let mut r: Vec<Vec<u8>> = Vec::new();
        let first: usize = text::find_byte(bytes, 0, SLASH);
        proof {
            assert(p.skip(0) =~= p);
            text::lemma_first_index(p, SLASH);
            assert(pieces[0] =~= p.take(first as int));
        }
        if self.is_absolute() {
            r.push(vec![SLASH]);
        } else if first == 1 && bytes[0] == DOT {
            assert(pieces[0] =~= seq![DOT]);
            r.push(vec![DOT]);
        }
        let ghost start = byte_strings(r@);
        proof {
            if pieces[0] == seq![DOT] {
                assert(pieces[0].len() == 1 && pieces[0][0] == DOT);
            }
            if is_rooted(p) {
                assert(start[0] =~= seq![SLASH]);
                assert(start =~= seq![seq![SLASH]]);
            } else if pieces[0] == seq![DOT] {
                assert(start[0] =~= seq![DOT]);
                assert(start =~= seq![seq![DOT]]);
            } else {
                assert(start =~= seq![]);
            }
        }
        let mut from: usize = 0;
        let mut done: bool = false;
        let ghost mut i: int = 0;
        assert(pieces.take(0) =~= seq![]);
        assert(start + names(seq![]) =~= start);
        while !done
            invariant
                bytes@ == p,
                pieces == text::split(p, SLASH),
                from <= p.len(),
                0 <= i <= pieces.len(),
                byte_strings(r@) == start + names(pieces.take(i)),
                !done ==> text::split(p.skip(from as int), SLASH) == pieces.skip(i),
                done ==> i == pieces.len(),
            decreases p.len() - from + (if done { 0int } else { 1int }),
        {
            let ghost rest = p.skip(from as int);
            let end: usize = text::find_byte(bytes, from, SLASH);
            let ghost piece = rest.take(end - from);
            proof {
                text::lemma_first_index(rest, SLASH);
                assert(text::split(rest, SLASH).len() > 0);
                assert(pieces.skip(i)[0] =~= piece);
                assert(pieces[i] == piece);
                assert(pieces.take(i + 1).drop_last() =~= pieces.take(i));
                assert(pieces.take(i + 1).last() == piece);
                reveal(Seq::filter);
            }
            let ghost r0 = byte_strings(r@);
            if end > from && !(end == from + 1 && bytes[from] == DOT) {
                let name: Vec<u8> = text::sub_bytes(bytes, from, end);
                assert(name@ =~= piece);
                assert(is_name(piece)) by {
                    if piece == seq![DOT] {
                        assert(piece.len() == 1);
                        assert(piece[0] == DOT);
                    }
                }
                r.push(name);
                assert(byte_strings(r@) =~= r0.push(piece));
                assert(r0.push(piece) =~= start + names(pieces.take(i + 1)));
            } else {
                assert(!is_name(piece)) by {
                    if piece.len() == 1 {
                        assert(piece =~= seq![DOT]);
                    }
                }
            }
            if end < bytes.len() {
                proof {
                    assert(text::after(rest, SLASH) =~= p.skip(end as int + 1));
                    assert(pieces.skip(i).skip(1) =~= pieces.skip(i + 1));
                    assert(text::split(rest, SLASH).skip(1) =~= text::split(
                        text::after(rest, SLASH),
                        SLASH,
                    ));
                }
                from = end + 1;
            } else {
                assert(pieces.skip(i).len() == 1);
                done = true;
            }
            proof {
                i = i + 1;
            }
        }
        assert(pieces.take(i) =~= pieces);
        assert(byte_strings(r@) == start + names(pieces));
        r
    }
}

/// Whether two lists hold the same byte strings in the same order.
fn same_lists(a: &Vec<Vec<u8>>, b: &Vec<Vec<u8>>) -> (r: bool)
    ensures
        r == (byte_strings(a@) == byte_strings(b@)),
{
    let ghost left = byte_strings(a@);
    let ghost right = byte_strings(b@);
    if a.len() != b.len() {
        assert(left.len() != right.len());
        return false;
    }
    let mut i: usize = 0;
    while i < a.len()
        invariant
            i <= a@.len(),
            a@.len() == b@.len(),
            left == byte_strings(a@),
            right == byte_strings(b@),
            forall|j: int| 0 <= j < i ==> left[j] == right[j],
        decreases a@.len() - i,
    {
        if !text::same_bytes(a[i].as_slice(), b[i].as_slice()) {
            assert(left[i as int] != right[i as int]);
            return false;
        }
        i = i + 1;
    }
    assert(left =~= right);
    true
}

impl std::fmt::Debug for PosixPath {
    fn fmt(&self, f: &mut std::fmt::Formatter<'_>) -> (r: Result<(), std::fmt::Error>) {
        outside::write_text(f, self.debug_text().as_str())
    }
}

impl PartialEq for PosixPath {
    fn eq(&self, other: &PosixPath) -> (r: bool) {
        same_lists(&self.components(), &other.components())
    }
}

impl vstd::std_specs::cmp::PartialEqSpecImpl for PosixPath {
    open spec fn obeys_eq_spec() -> bool {
        true
    }

    open spec fn eq_spec(&self, other: &PosixPath) -> bool {
        path_components(self@) == path_components(other@)
    }
}

/// A slash at the end of a path names nothing: with and without it the path is the same.
pub proof fn law_trailing_slash_names_nothing(p: Seq<u8>)
    requires
        p.len() > 0,
    ensures
        path_components(p.push(SLASH)) == path_components(p),
{
    let none = Seq::<u8>::empty();
    let pieces = text::split(p, SLASH);
    let longer = pieces.push(none);
    text::lemma_split_concat(p, none, SLASH);
    assert(p.push(SLASH) + none =~= p.push(SLASH));
    assert(text::split(none, SLASH) =~= seq![none]);
    assert(pieces + seq![none] =~= longer);
    reveal(Seq::filter);
    assert(longer.drop_last() =~= pieces);
    assert(names(longer) =~= names(pieces));
    assert(longer[0] == pieces[0]);
}

/// Two paths that are UTF-8 give one that is.
pub proof fn lemma_join_is_utf8(base: Seq<u8>, tail: Seq<u8>)
    requires
        valid_utf8(base),
        valid_utf8(tail),
    ensures
        valid_utf8(path_join(base, tail)),
{
    let slash = seq!['/'];
    is_ascii_chars_encode_utf8(slash);
    encode_utf8_valid_utf8(slash);
    assert(encode_utf8(slash) =~= seq![SLASH]);
    valid_utf8_concat(base, seq![SLASH]);
    valid_utf8_concat(base + seq![SLASH], tail);
    valid_utf8_concat(base, tail);
}

/// The names of a path taken from an absolute one are those of both, one after the other.
pub proof fn lemma_joined_components(base: Seq<u8>, tail: Seq<u8>)
    requires
        is_rooted(base),
        !is_rooted(tail),
    ensures
        path_components(path_join(base, tail)) == path_components(base) + names(
            text::split(tail, SLASH),
        ),
{
    let whole = path_join(base, tail);
    let front = if base.last() == SLASH { base.drop_last() } else { base };
    assert(whole =~= front.push(SLASH) + tail);
    text::lemma_split_concat(front, tail, SLASH);
    Seq::filter_distributes_over_add(
        text::split(front, SLASH),
        text::split(tail, SLASH),
        |piece: Seq<u8>| is_name(piece),
    );
    assert(names(text::split(base, SLASH)) == names(text::split(front, SLASH))) by {
        if base.last() == SLASH {
            let none = Seq::<u8>::empty();
            let pieces = text::split(front, SLASH);
            text::lemma_split_concat(front, none, SLASH);
            assert(front.push(SLASH) + none =~= base);
            assert(text::split(none, SLASH) =~= seq![none]);
            assert(pieces + seq![none] =~= pieces.push(none));
            reveal(Seq::filter);
            assert(pieces.push(none).drop_last() =~= pieces);
        }
    }
    assert(is_rooted(whole));
    assert(path_components(whole) =~= path_components(base) + names(text::split(tail, SLASH)));
}

/// A leading dot is the directory from which a path is taken: with and without it, a relative path
/// leads from an absolute one to the same path.
pub proof fn law_leading_dot_names_nothing(base: Seq<u8>, tail: Seq<u8>)
    requires
        is_rooted(base),
        !is_rooted(tail),
    ensures
        path_components(path_join(base, seq![DOT, SLASH] + tail)) == path_components(
            path_join(base, tail),
        ),
{
    let dot: Seq<u8> = seq![DOT];
    let dotted = seq![DOT, SLASH] + tail;
    let pieces = text::split(tail, SLASH);
    lemma_joined_components(base, tail);
    lemma_joined_components(base, dotted);
    text::lemma_split_concat(dot, tail, SLASH);
    assert(dot.push(SLASH) + tail =~= dotted);
    text::lemma_first_index_is(dot, SLASH, 1);
    assert(text::split(dot, SLASH) =~= seq![dot]);
    Seq::filter_distributes_over_add(seq![dot], pieces, |piece: Seq<u8>| is_name(piece));
    assert(names(seq![dot]) =~= Seq::empty()) by {
        reveal_with_fuel(Seq::filter, 2);
        assert(seq![dot].drop_last() =~= Seq::empty());
        assert(!is_name(dot));
    }
    assert(names(seq![dot]) + names(pieces) =~= names(pieces));
}

/// A path is absolute if and only if its first byte is a slash; what stands behind it does not
/// matter.
pub proof fn law_absolute_paths_start_with_a_slash(p: Seq<u8>, first: u8)
    ensures
        is_rooted(seq![first] + p) <==> first == 0x2fu8,
        !is_rooted(Seq::empty()),
{
}

/// The absolute path that is spelled by pieces with a slash in front of each.
pub open spec fn spelled(pieces: Seq<Seq<u8>>) -> Seq<u8>
    decreases pieces.len(),
{
    if pieces.len() == 0 {
        Seq::empty()
    } else {
        spelled(pieces.drop_last()) + seq![0x2fu8] + pieces.last()
    }
}

/// The pieces of a spelled path are those by which it was spelled, behind an empty one.
proof fn lemma_spelled_pieces(pieces: Seq<Seq<u8>>)
    requires
        forall|i: int| 0 <= i < pieces.len() ==> !(#[trigger] pieces[i]).contains(0x2fu8),
    ensures
        text::split(spelled(pieces), SLASH) == seq![Seq::<u8>::empty()] + pieces,
        pieces.len() > 0 ==> spelled(pieces).len() > 0 && spelled(pieces)[0] == 0x2fu8,
    decreases pieces.len(),
{
    let none = Seq::<u8>::empty();
    if pieces.len() == 0 {
        assert(text::split(none, SLASH) =~= seq![none]);
        assert(seq![none] + pieces =~= seq![none]);
    } else {
        let init = pieces.drop_last();
        let last = pieces.last();
        assert forall|i: int| 0 <= i < init.len() implies !(#[trigger] init[i]).contains(
            0x2fu8,
        ) by {
            assert(init[i] == pieces[i]);
        }
        lemma_spelled_pieces(init);
        assert(!pieces[pieces.len() - 1].contains(0x2fu8));
        text::law_split_at_every_separator(spelled(init), last, SLASH);
        text::law_split_at_every_separator(last, none, SLASH);
        assert(seq![none] + init + seq![last] =~= seq![none] + pieces);
    }
}

/// Pieces that all name something stay, in their order.
proof fn lemma_all_are_names(pieces: Seq<Seq<u8>>)
    requires
        forall|i: int|
            0 <= i < pieces.len() ==> (#[trigger] pieces[i]).len() > 0 && pieces[i] != seq![0x2eu8],
    ensures
        names(pieces) == pieces,
    decreases pieces.len(),
{
    reveal(Seq::filter);
    if pieces.len() > 0 {
        let init = pieces.drop_last();
        assert forall|i: int| 0 <= i < init.len() implies (#[trigger] init[i]).len() > 0 && init[i]
            != seq![0x2eu8] by {
            assert(init[i] == pieces[i]);
        }
        lemma_all_are_names(init);
        assert(is_name(pieces[pieces.len() - 1]));
        assert(names(pieces) =~= pieces);
    } else {
        assert(names(pieces) =~= pieces);
    }
}

/// Pieces one after the other keep their names one after the other.
proof fn lemma_names_concat(a: Seq<Seq<u8>>, b: Seq<Seq<u8>>)
    ensures
        names(a + b) == names(a) + names(b),
{
    Seq::filter_distributes_over_add(a, b, |piece: Seq<u8>| is_name(piece));
}

/// An empty piece and a lone dot name nothing.
proof fn lemma_not_names()
    ensures
        names(seq![Seq::<u8>::empty()]) == Seq::<Seq<u8>>::empty(),
        names(seq![seq![0x2eu8]]) == Seq::<Seq<u8>>::empty(),
{
    reveal_with_fuel(Seq::filter, 2);
    let none = seq![Seq::<u8>::empty()];
    let dot = seq![seq![0x2eu8]];
    assert(none.drop_last() =~= Seq::empty());
    assert(dot.drop_last() =~= Seq::empty());
    assert(names(none) =~= Seq::empty());
    assert(names(dot) =~= Seq::empty());
}

/// A path that is spelled by pieces is known by exactly these pieces: behind the root, in their
/// order, each whole, however many and however long they are.
pub proof fn law_components_are_the_pieces(pieces: Seq<Seq<u8>>)
    requires
        pieces.len() > 0,
        forall|i: int|
            0 <= i < pieces.len() ==> {
                &&& (#[trigger] pieces[i]).len() > 0
                &&& !pieces[i].contains(0x2fu8)
                &&& pieces[i] != seq![0x2eu8]
            },
    ensures
        path_components(spelled(pieces)) == seq![seq![0x2fu8]] + pieces,
{
    let none = Seq::<u8>::empty();
    lemma_spelled_pieces(pieces);
    lemma_names_concat(seq![none], pieces);
    lemma_not_names();
    lemma_all_are_names(pieces);
    assert(Seq::<Seq<u8>>::empty() + pieces =~= pieces);
}

/// Different directories are told apart: two spelled paths have the same components only if they
/// are spelled by the same pieces.
pub proof fn law_different_dirs_have_different_names(a: Seq<Seq<u8>>, b: Seq<Seq<u8>>)
    requires
        a.len() > 0,
        b.len() > 0,
        forall|i: int|
            0 <= i < a.len() ==> {
                &&& (#[trigger] a[i]).len() > 0
                &&& !a[i].contains(0x2fu8)
                &&& a[i] != seq![0x2eu8]
            },
        forall|i: int|
            0 <= i < b.len() ==> {
                &&& (#[trigger] b[i]).len() > 0
                &&& !b[i].contains(0x2fu8)
                &&& b[i] != seq![0x2eu8]
            },
    ensures
        path_components(spelled(a)) == path_components(spelled(b)) <==> a == b,
{
    law_components_are_the_pieces(a);
    law_components_are_the_pieces(b);
    if path_components(spelled(a)) == path_components(spelled(b)) {
        assert((seq![seq![0x2fu8]] + a).skip(1) =~= a);
        assert((seq![seq![0x2fu8]] + b).skip(1) =~= b);
    }
}

/// A slash at the end changes nothing, and the root, which no piece spells, is known by a slash
/// alone.
pub proof fn law_components_before_a_last_slash(pieces: Seq<Seq<u8>>)
    requires
        forall|i: int|
            0 <= i < pieces.len() ==> {
                &&& (#[trigger] pieces[i]).len() > 0
                &&& !pieces[i].contains(0x2fu8)
                &&& pieces[i] != seq![0x2eu8]
            },
    ensures
        path_components(spelled(pieces) + seq![0x2fu8]) == seq![seq![0x2fu8]] + pieces,
{
    let none = Seq::<u8>::empty();
    let front = seq![none];
    let p = spelled(pieces) + seq![SLASH];
    assert(text::split(p, SLASH) == front + pieces + front) by {
        lemma_spelled_pieces(pieces);
        text::law_split_at_every_separator(spelled(pieces), none, SLASH);
        text::law_split_at_every_separator(none, none, SLASH);
        assert(p + none =~= p);
    }
    assert(names(front + pieces + front) == pieces) by {
        lemma_names_concat(front, pieces);
        lemma_names_concat(front + pieces, front);
        lemma_not_names();
        lemma_all_are_names(pieces);
        assert(Seq::<Seq<u8>>::empty() + pieces + Seq::<Seq<u8>>::empty() =~= pieces);
    }
    assert(is_rooted(p)) by {
        lemma_spelled_pieces(pieces);
        if pieces.len() == 0 {
            assert(p =~= seq![SLASH]);
        }
    }
}

/// A piece between two slashes that names nothing leaves no trace.
proof fn lemma_piece_names_nothing(a: Seq<u8>, piece: Seq<u8>, b: Seq<u8>)
    requires
        !piece.contains(SLASH),
        names(seq![piece]) == Seq::<Seq<u8>>::empty(),
    ensures
        path_components(a + seq![SLASH] + (piece + seq![SLASH] + b)) == path_components(
            a + seq![SLASH] + b,
        ),
{
    let longer = a + seq![SLASH] + (piece + seq![SLASH] + b);
    let shorter = a + seq![SLASH] + b;
    let front = text::split(a, SLASH);
    let back = text::split(b, SLASH);
    assert(text::split(shorter, SLASH) == front + back) by {
        text::law_split_at_every_separator(a, b, SLASH);
    }
    assert(text::split(longer, SLASH) == front + (seq![piece] + back)) by {
        text::law_split_at_every_separator(piece, b, SLASH);
        text::law_split_at_every_separator(a, piece + seq![SLASH] + b, SLASH);
    }
    assert(names(front + (seq![piece] + back)) == names(front + back)) by {
        lemma_names_concat(front, back);
        lemma_names_concat(front, seq![piece] + back);
        lemma_names_concat(seq![piece], back);
        assert(Seq::<Seq<u8>>::empty() + names(back) =~= names(back));
    }
    assert(front.len() > 0);
    assert((front + back)[0] == front[0]);
    assert((front + (seq![piece] + back))[0] == front[0]);
    assert(longer[0] == shorter[0]);
}

/// A doubled slash and a dot between slashes leave no trace, wherever they stand.
pub proof fn law_doubled_slash_and_inner_dot_name_nothing(a: Seq<u8>, b: Seq<u8>)
    ensures
        path_components(a + seq![0x2fu8, 0x2fu8] + b) == path_components(a + seq![0x2fu8] + b),
        path_components(a + seq![0x2fu8, 0x2eu8, 0x2fu8] + b) == path_components(
            a + seq![0x2fu8] + b,
        ),
{
    let none = Seq::<u8>::empty();
    let dot = seq![0x2eu8];
    lemma_not_names();
    lemma_piece_names_nothing(a, none, b);
    lemma_piece_names_nothing(a, dot, b);
    assert(a + seq![SLASH] + (none + seq![SLASH] + b) =~= a + seq![0x2fu8, 0x2fu8] + b);
    assert(a + seq![SLASH] + (dot + seq![SLASH] + b) =~= a + seq![0x2fu8, 0x2eu8, 0x2fu8] + b);
}

/// The pieces of a spelled path without its first slash are those by which it was spelled.
pub proof fn lemma_relative_pieces(pieces: Seq<Seq<u8>>)
    requires
        pieces.len() > 0,
        forall|i: int|
            0 <= i < pieces.len() ==> (#[trigger] pieces[i]).len() > 0 && !pieces[i].contains(
                0x2fu8,
            ),
    ensures
        text::split(spelled(pieces).skip(1), SLASH) == pieces,
        !is_rooted(spelled(pieces).skip(1)),
{
    let none = Seq::<u8>::empty();
    let p = spelled(pieces);
    let rest = p.skip(1);
    lemma_spelled_pieces(pieces);
    assert(none + seq![SLASH] + rest =~= p);
    text::law_split_at_every_separator(none, rest, SLASH);
    assert(text::split(rest, SLASH) =~= pieces) by {
        assert((seq![none] + text::split(rest, SLASH)).skip(1) =~= text::split(rest, SLASH));
        assert((seq![none] + pieces).skip(1) =~= pieces);
    }
    assert(pieces[0].len() > 0);
    if is_rooted(rest) {
        text::lemma_first_index_is(rest, SLASH, 0);
        assert(pieces[0] =~= none);
    }
}

/// A relative path is known by its pieces alone.
pub proof fn law_relative_components_are_the_pieces(pieces: Seq<Seq<u8>>)
    requires
        pieces.len() > 0,
        forall|i: int|
            0 <= i < pieces.len() ==> {
                &&& (#[trigger] pieces[i]).len() > 0
                &&& !pieces[i].contains(0x2fu8)
                &&& pieces[i] != seq![0x2eu8]
            },
    ensures
        path_components(spelled(pieces).skip(1)) == pieces,
{
    lemma_relative_pieces(pieces);
    lemma_all_are_names(pieces);
    assert(pieces[0] != seq![DOT]);
    assert(Seq::<Seq<u8>>::empty() + pieces =~= pieces);
}

/// A relative path that starts with a lone dot is known by that dot and then by its pieces.
pub proof fn law_leading_dot_is_a_component(pieces: Seq<Seq<u8>>)
    requires
        pieces.len() > 0,
        forall|i: int|
            0 <= i < pieces.len() ==> {
                &&& (#[trigger] pieces[i]).len() > 0
                &&& !pieces[i].contains(0x2fu8)
                &&& pieces[i] != seq![0x2eu8]
            },
    ensures
        path_components(seq![0x2eu8] + spelled(pieces)) == seq![seq![0x2eu8]] + pieces,
{
    let dot = seq![DOT];
    let front = seq![dot];
    let p = dot + spelled(pieces);
    lemma_spelled_pieces(pieces);
    assert(text::split(p, SLASH) == front + pieces) by {
        let rest = spelled(pieces).skip(1);
        lemma_relative_pieces(pieces);
        assert(!dot.contains(SLASH));
        text::law_split_at_every_separator(dot, rest, SLASH);
        assert(dot + seq![SLASH] + rest =~= p);
    }
    assert(names(front + pieces) == pieces) by {
        lemma_names_concat(front, pieces);
        lemma_not_names();
        lemma_all_are_names(pieces);
        assert(Seq::<Seq<u8>>::empty() + pieces =~= pieces);
    }
    assert((front + pieces)[0] == dot);
    assert(p[0] == DOT);
}

/// Joining loses nothing and adds at most one slash: the joined path starts with the bytes of the
/// base and ends with those of the tail, and only where the base does not end with a slash there
/// is one between them. An absolute tail stands alone.
pub proof fn law_join_keeps_both(base: Seq<u8>, tail: Seq<u8>)
    ensures
        ({
            let whole = path_join(base, tail);
            if tail.len() > 0 && tail[0] == 0x2fu8 {
                whole == tail
            } else {
                let between = whole.len() - base.len() - tail.len();
                &&& base.is_prefix_of(whole)
                &&& tail.is_suffix_of(whole)
                &&& between == if base.len() == 0 || base.last() == 0x2fu8 {
                    0int
                } else {
                    1int
                }
                &&& between == 1 ==> whole[base.len() as int] == 0x2fu8
            }
        }),
{
    let whole = path_join(base, tail);
    if !(tail.len() > 0 && tail[0] == 0x2fu8) {
        assert(base =~= whole.subrange(0, base.len() as int));
        assert(tail =~= whole.subrange(whole.len() - tail.len(), whole.len() as int));
    }
}

/// From an absolute path, a relative one that is spelled by pieces leads on by exactly these
/// pieces.
pub proof fn law_join_adds_the_pieces(base: Seq<u8>, pieces: Seq<Seq<u8>>)
    requires
        base.len() > 0,
        base[0] == 0x2fu8,
        pieces.len() > 0,
        forall|i: int|
            0 <= i < pieces.len() ==> {
                &&& (#[trigger] pieces[i]).len() > 0
                &&& !pieces[i].contains(0x2fu8)
                &&& pieces[i] != seq![0x2eu8]
            },
    ensures
        path_components(path_join(base, spelled(pieces).skip(1))) == path_components(base) + pieces,
{
    lemma_relative_pieces(pieces);
    lemma_all_are_names(pieces);
    lemma_joined_components(base, spelled(pieces).skip(1));
}

/// A path as text for a developer is read from left to right: a character of the path gives its
/// escape, a single quote itself, and what follows is not changed by it.
pub proof fn law_developer_text_shows_characters(c: char, rest: Seq<u8>)
    ensures
        developer_text(encode_utf8(seq![c]) + rest) == (if c == '\'' {
            seq!['\'']
        } else {
            outside::escaped_text(seq![c])
        }) + developer_text(rest),
        developer_text(Seq::empty()) == Seq::<char>::empty(),
{
    let one = seq![c];
    let e = encode_utf8(one);
    let bytes = e + rest;
    reveal_strlit("'");
    reveal_with_fuel(encode_utf8, 2);
    encode_utf8_first_scalar(one);
    encode_utf8_valid_utf8(one);
    encode_utf8_decode_utf8(one);
    assert(one.drop_first() =~= Seq::empty());
    assert(e =~= encode_scalar(c as u32));
    assert(bytes[0] == e[0]);
    assert forall|k: int| 1 <= k < e.len() implies !valid_utf8(#[trigger] bytes.take(k)) by {
        assert(bytes.take(k)[0] == e[0]);
    }
    assert(bytes.take(e.len() as int) =~= e);
    assert(bytes.skip(e.len() as int) =~= rest);
    assert(character_len(bytes) == e.len());
    if c == '\'' {
        assert(one =~= "'"@);
    } else {
        assert(one[0] != "'"@[0]);
    }
}

/// A byte of a path with which no character starts is shown by its two hexadecimal digits.
pub proof fn law_developer_text_shows_stray_bytes(b: u8, rest: Seq<u8>)
    requires
        forall|k: int|
            1 <= k <= 4 && k <= rest.len() + 1 ==> !valid_utf8(
                #[trigger] (seq![b] + rest).take(k),
            ),
    ensures
        developer_text(seq![b] + rest) == seq!['\\', 'x'] + text::hex_digits(b) + developer_text(
            rest,
        ),
{
    let bytes = seq![b] + rest;
    reveal_strlit("\\x");
    assert(bytes.skip(1) =~= rest);
    assert("\\x"@ =~= seq!['\\', 'x']);
    assert(character_len(bytes) == 0);
}

/// Two paths are equal where their components are, whatever their bytes.
pub proof fn law_paths_are_compared_by_components(a: PosixPath, b: PosixPath)
    ensures
        vstd::std_specs::cmp::PartialEqSpec::eq_spec(&a, &b) <==> path_components(a@)
            == path_components(b@),
{
}

/// The byte strings of a list are those of its items, one by one.
pub proof fn law_byte_strings_are_whole(v: Seq<Vec<u8>>)
    ensures
        byte_strings(v).len() == v.len(),
        forall|i: int| 0 <= i < v.len() ==> #[trigger] byte_strings(v)[i] == v[i]@,
{
}

} // verus!
