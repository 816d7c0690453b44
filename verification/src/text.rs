//! Sequences cut at a separator, and numbers written out in decimal.
use vstd::prelude::*;
use vstd::string::*;
use vstd::utf8::*;

verus! {

/// The position of the first `x` in `s`, or `s.len()` where there is none.
pub open spec fn first_index<T>(s: Seq<T>, x: T) -> nat
    decreases s.len(),
{
    if s.len() == 0 || s[0] == x {
        0
    } else {
        1 + first_index(s.skip(1), x)
    }
}

/// What stands in front of the first `x`: all of `s` where there is none.
pub open spec fn before<T>(s: Seq<T>, x: T) -> Seq<T> {
    s.take(first_index(s, x) as int)
}

/// What stands behind the first `x`: nothing where there is none.
pub open spec fn after<T>(s: Seq<T>, x: T) -> Seq<T> {
    if first_index(s, x) < s.len() {
        s.skip(first_index(s, x) as int + 1)
    } else {
        Seq::empty()
    }
}

/// `s` cut at every `x`; `n` separators give `n + 1` pieces.
pub open spec fn split<T>(s: Seq<T>, x: T) -> Seq<Seq<T>>
    decreases s.len(),
{
    if first_index(s, x) < s.len() {
        seq![before(s, x)] + split(after(s, x), x)
    } else {
        seq![s]
    }
}

/// The pieces of `parts` with one `x` between neighbours.
pub open spec fn join<T>(parts: Seq<Seq<T>>, x: T) -> Seq<T>
    decreases parts.len(),
{
    if parts.len() == 0 {
        Seq::empty()
    } else if parts.len() == 1 {
        parts[0]
    } else {
        parts[0] + seq![x] + join(parts.skip(1), x)
    }
}

/// `first_index` is the first position that holds `x`.
pub proof fn lemma_first_index<T>(s: Seq<T>, x: T)
    ensures
        first_index(s, x) <= s.len(),
        first_index(s, x) < s.len() ==> s[first_index(s, x) as int] == x,
        forall|i: int| 0 <= i < first_index(s, x) ==> s[i] != x,
        first_index(s, x) < s.len() <==> s.contains(x),
    decreases s.len(),
{
    if s.len() != 0 && s[0] != x {
        lemma_first_index(s.skip(1), x);
        assert forall|i: int| 0 <= i < first_index(s, x) implies s[i] != x by {
            if i > 0 {
                assert(s[i] == s.skip(1)[i - 1]);
            }
        }
    }
    if s.contains(x) {
        let i = s.index_of(x);
        assert(s[i] == x);
    }
}

/// A position with `x` behind a stretch without `x` is the first index.
pub proof fn lemma_first_index_is<T>(s: Seq<T>, x: T, n: int)
    requires
        0 <= n <= s.len(),
        forall|i: int| 0 <= i < n ==> s[i] != x,
        n < s.len() ==> s[n] == x,
    ensures
        first_index(s, x) == n,
{
    lemma_first_index(s, x);
    if first_index(s, x) < n {
        assert(s[first_index(s, x) as int] == x);
    }
}

/// Cutting at `x` undoes joining with `x`, where no part holds `x`.
pub proof fn lemma_split_join<T>(parts: Seq<Seq<T>>, x: T)
    requires
        parts.len() > 0,
        forall|i: int| 0 <= i < parts.len() ==> !(#[trigger] parts[i]).contains(x),
    ensures
        split(join(parts, x), x) == parts,
    decreases parts.len(),
{
    let first = parts[0];
    let whole = join(parts, x);
    if parts.len() == 1 {
        lemma_first_index(whole, x);
        assert(split(whole, x) =~= parts);
    } else {
        let rest = parts.skip(1);
        assert forall|i: int| 0 <= i < rest.len() implies !(#[trigger] rest[i]).contains(x) by {
            assert(rest[i] == parts[i + 1]);
        }
        lemma_split_join(rest, x);
        assert forall|i: int| 0 <= i < first.len() implies whole[i] != x by {
            assert(whole[i] == first[i]);
            assert(first.contains(first[i]));
        }
        lemma_first_index_is(whole, x, first.len() as int);
        assert(before(whole, x) =~= first);
        assert(after(whole, x) =~= join(rest, x));
        assert(split(whole, x) =~= parts);
    }
}

/// A separator between two sequences is a place to cut, and every other one stays.
pub proof fn lemma_split_concat<T>(a: Seq<T>, b: Seq<T>, x: T)
    ensures
        split(a.push(x) + b, x) == split(a, x) + split(b, x),
    decreases a.len(),
{
    let whole = a.push(x) + b;
    let n = first_index(a, x) as int;
    lemma_first_index(a, x);
    assert forall|i: int| 0 <= i < n implies whole[i] != x by {
        assert(whole[i] == a[i]);
    }
    lemma_first_index_is(whole, x, n);
    assert(before(whole, x) =~= before(a, x));
    if n < a.len() {
        assert(after(whole, x) =~= after(a, x).push(x) + b);
        lemma_split_concat(after(a, x), b, x);
        assert(split(whole, x) =~= split(a, x) + split(b, x));
    } else {
        assert(after(whole, x) =~= b);
        assert(before(a, x) =~= a);
        assert(split(whole, x) =~= split(a, x) + split(b, x));
    }
}

/// The position of the first item of `s` that is not `fine`, or `s.len()` where all are.
pub open spec fn first_failing<T>(s: Seq<T>, fine: spec_fn(T) -> bool) -> nat
    decreases s.len(),
{
    if s.len() == 0 || !fine(s[0]) {
        0
    } else {
        1 + first_failing(s.skip(1), fine)
    }
}

/// `first_failing` is the first position of an item that is not `fine`.
pub proof fn lemma_first_failing<T>(s: Seq<T>, fine: spec_fn(T) -> bool)
    ensures
        first_failing(s, fine) <= s.len(),
        first_failing(s, fine) < s.len() ==> !fine(s[first_failing(s, fine) as int]),
        forall|i: int| 0 <= i < first_failing(s, fine) ==> fine(#[trigger] s[i]),
    decreases s.len(),
{
    if s.len() > 0 && fine(s[0]) {
        lemma_first_failing(s.skip(1), fine);
        assert forall|i: int| 0 <= i < first_failing(s, fine) implies fine(#[trigger] s[i]) by {
            if i > 0 {
                assert(s[i] == s.skip(1)[i - 1]);
            }
        }
    }
}

/// A position behind a stretch of `fine` items that holds no `fine` item is the first failing one.
pub proof fn lemma_first_failing_is<T>(s: Seq<T>, fine: spec_fn(T) -> bool, n: int)
    requires
        0 <= n <= s.len(),
        forall|i: int| 0 <= i < n ==> fine(#[trigger] s[i]),
        n < s.len() ==> !fine(s[n]),
    ensures
        first_failing(s, fine) == n,
{
    lemma_first_failing(s, fine);
    if first_failing(s, fine) < n {
        assert(fine(s[first_failing(s, fine) as int]));
    }
    if n < first_failing(s, fine) {
        assert(fine(s[n]));
    }
}

/// The characters of `s`, one by one.
pub(crate) fn chars_of(s: &str) -> (r: Vec<char>)
    ensures
        r@ == s@,
{
    let mut r: Vec<char> = Vec::new();
    for c in it: s.chars()
        invariant
            r@ == it.seq().take(it.index() as int),
            it.seq() == s@,
    {
        r.push(c);
    }
    r
}

/// The position of the first `x` in `s[from..]`, or `s.len()`.
pub(crate) fn find_char(s: &Vec<char>, from: usize, x: char) -> (r: usize)
    requires
        from <= s@.len(),
    ensures
        r == from + first_index(s@.skip(from as int), x),
        from <= r <= s@.len(),
{
    let mut i: usize = from;
    while i < s.len() && s[i] != x
        invariant
            from <= i <= s@.len(),
            forall|j: int| from <= j < i ==> s@[j] != x,
        decreases s@.len() - i,
    {
        i = i + 1;
    }
    proof {
        lemma_first_index_is(s@.skip(from as int), x, i - from);
    }
    i
}

/// The position of the first `x` in `s[from..]`, or `s.len()`.
pub(crate) fn find_byte(s: &[u8], from: usize, x: u8) -> (r: usize)
    requires
        from <= s@.len(),
    ensures
        r == from + first_index(s@.skip(from as int), x),
        from <= r <= s@.len(),
{
    let mut i: usize = from;
    while i < s.len() && s[i] != x
        invariant
            from <= i <= s@.len(),
            forall|j: int| from <= j < i ==> s@[j] != x,
        decreases s@.len() - i,
    {
        i = i + 1;
    }
    proof {
        lemma_first_index_is(s@.skip(from as int), x, i - from);
    }
    i
}

/// Whether two byte strings are the same.
pub(crate) fn same_bytes(a: &[u8], b: &[u8]) -> (r: bool)
    ensures
        r == (a@ == b@),
{
    if a.len() != b.len() {
        return false;
    }
    let mut i: usize = 0;
    while i < a.len()
        invariant
            i <= a@.len(),
            a@.len() == b@.len(),
            forall|j: int| 0 <= j < i ==> a@[j] == b@[j],
        decreases a@.len() - i,
    {
        if a[i] != b[i] {
            return false;
        }
        i = i + 1;
    }
    assert(a@ =~= b@);
    true
}

/// Whether two texts are the same.
pub(crate) fn same_text(a: &str, b: &str) -> (r: bool)
    ensures
        r == (a@ == b@),
{
    proof {
        encode_utf8_decode_utf8(a@);
        encode_utf8_decode_utf8(b@);
    }
    same_bytes(a.as_bytes(), b.as_bytes())
}

/// A copy of a byte string.
pub(crate) fn copy_bytes(s: &[u8]) -> (r: Vec<u8>)
    ensures
        r@ == s@,
{
    let mut r: Vec<u8> = Vec::new();
    append_bytes(&mut r, s);
    assert(r@ =~= s@);
    r
}

/// A copy of the bytes from `from` up to `to`.
pub(crate) fn sub_bytes(s: &[u8], from: usize, to: usize) -> (r: Vec<u8>)
    requires
        from <= to <= s@.len(),
    ensures
        r@ == s@.subrange(from as int, to as int),
{
    let mut r: Vec<u8> = Vec::new();
    let mut i: usize = from;
    while i < to
        invariant
            from <= i <= to <= s@.len(),
            r@ == s@.subrange(from as int, i as int),
        decreases to - i,
    {
        r.push(s[i]);
        i = i + 1;
    }
    r
}

/// Puts `tail` behind what `s` holds.
pub(crate) fn append_bytes(s: &mut Vec<u8>, tail: &[u8])
    ensures
        final(s)@ == old(s)@ + tail@,
{
    let ghost start = s@;
    let mut i: usize = 0;
    while i < tail.len()
        invariant
            i <= tail@.len(),
            s@ == start + tail@.take(i as int),
        decreases tail@.len() - i,
    {
        s.push(tail[i]);
        i = i + 1;
    }
    assert(tail@.take(tail@.len() as int) =~= tail@);
}

/// The text of an optional string.
pub open spec fn optional_text(s: Option<String>) -> Option<Seq<char>> {
    match s {
        Some(t) => Some(t@),
        None => None,
    }
}

/// `n` in decimal, without leading zeros.
pub open spec fn digits(n: nat) -> Seq<char>
    decreases n,
{
    if n < 10 {
        seq!["0123456789"@[n as int]]
    } else {
        digits(n / 10).push("0123456789"@[(n % 10) as int])
    }
}

/// `n` in decimal, with a minus sign where it is negative.
pub open spec fn decimal(n: int) -> Seq<char> {
    if n < 0 {
        "-"@ + digits((-n) as nat)
    } else {
        digits(n as nat)
    }
}

/// Writes `n` in decimal.
pub(crate) fn write_digits(n: u128) -> (r: String)
    ensures
        r@ == digits(n as nat),
    decreases n,
{
    let mut r: String = if n < 10 {
        String::new()
    } else {
        write_digits(n / 10)
    };
    let d: usize = (n % 10) as usize;
    proof {
        reveal_strlit("0123456789");
    }
    let digit: &str = "0123456789".substring_char(d, d + 1);
    assert(digit@ =~= seq!["0123456789"@[d as int]]);
    r.append(digit);
    assert(r@ =~= digits(n as nat));
    r
}

/// A byte as two hexadecimal digits.
pub open spec fn hex_digits(b: u8) -> Seq<char> {
    seq!["0123456789ABCDEF"@[(b / 16) as int], "0123456789ABCDEF"@[(b % 16) as int]]
}

/// Puts a byte as two hexadecimal digits behind what `s` holds.
pub(crate) fn append_hex(s: &mut String, b: u8)
    ensures
        final(s)@ == old(s)@ + hex_digits(b),
{
    proof {
        reveal_strlit("0123456789ABCDEF");
    }
    let high: usize = (b / 16) as usize;
    let low: usize = (b % 16) as usize;
    s.append("0123456789ABCDEF".substring_char(high, high + 1));
    s.append("0123456789ABCDEF".substring_char(low, low + 1));
    assert(s@ =~= old(s)@ + hex_digits(b));
}

/// Writes `n` in decimal, with a minus sign where it is negative.
pub(crate) fn write_decimal(n: i32) -> (r: String)
    ensures
        r@ == decimal(n as int),
{
    if n < 0 {
        let mut r: String = "-".to_owned();
        let m: i64 = -(n as i64);
        let rest: String = write_digits(m as u128);
        r.append(rest.as_str());
        r
    } else {
        write_digits(n as u128)
    }
}

/// The first `x` parts a sequence in two: what stands in front of it holds no `x`, and nothing is
/// lost. Without an `x` everything stands in front.
pub proof fn law_first_separator_parts<T>(s: Seq<T>, x: T)
    ensures
        !before(s, x).contains(x),
        s.contains(x) ==> before(s, x) + seq![x] + after(s, x) == s,
        !s.contains(x) ==> before(s, x) == s && after(s, x) == Seq::<T>::empty(),
{
    lemma_first_index(s, x);
    let head = before(s, x);
    if head.contains(x) {
        let i = head.index_of(x);
        assert(head[i] == s[i]);
    }
    if s.contains(x) {
        assert(before(s, x) + seq![x] + after(s, x) =~= s);
    } else {
        assert(before(s, x) =~= s);
    }
}

/// A sequence without a separator is one piece; where a separator stands, the pieces in front of
/// it and those behind it follow each other.
pub proof fn law_split_at_every_separator<T>(a: Seq<T>, b: Seq<T>, x: T)
    ensures
        !a.contains(x) ==> split(a, x) == seq![a],
        split(a + seq![x] + b, x) == split(a, x) + split(b, x),
{
    lemma_first_index(a, x);
    lemma_split_concat(a, b, x);
    assert(a + seq![x] + b =~= a.push(x) + b);
}

/// The number that decimal digits spell.
pub open spec fn digits_value(s: Seq<char>) -> int
    decreases s.len(),
{
    if s.len() == 0 {
        0
    } else {
        10 * digits_value(s.drop_last()) + (s.last() as int - '0' as int)
    }
}

/// A number in decimal is read back: its digits spell it, and it has no leading zero.
pub proof fn law_digits_are_read_back(n: nat)
    ensures
        digits_value(digits(n)) == n,
        digits(n).len() > 0,
        digits(n).len() > 1 ==> digits(n)[0] != '0',
        forall|i: int| 0 <= i < digits(n).len() ==> '0' <= #[trigger] digits(n)[i] <= '9',
    decreases n,
{
    reveal_strlit("0123456789");
    reveal_with_fuel(digits_value, 2);
    let s = digits(n);
    let unit = n % 10;
    assert(s.last() as int == '0' as int + unit);
    if n >= 10 {
        let front = digits(n / 10);
        law_digits_are_read_back(n / 10);
        assert(s.drop_last() =~= front);
        if front.len() == 1 {
            assert(front.drop_last() =~= Seq::empty());
            assert(front.last() == front[0]);
        }
        assert forall|i: int| 0 <= i < s.len() implies '0' <= #[trigger] s[i] <= '9' by {
            if i < front.len() {
                assert(s[i] == front[i]);
            }
        }
        assert(s[0] == front[0]);
    } else {
        assert(s.drop_last() =~= Seq::empty());
    }
}

/// A negative number is a minus sign and then the digits of its size.
pub proof fn law_decimal_has_a_sign(n: int)
    ensures
        n >= 0 ==> digits_value(decimal(n)) == n && '0' <= decimal(n)[0] <= '9',
        n < 0 ==> decimal(n)[0] == '-' && digits_value(decimal(n).skip(1)) == -n,
        n < 0 ==> decimal(n).skip(1) == decimal(-n),
        n >= 0 ==> decimal(n) == digits(n as nat),
{
    reveal_strlit("-");
    if n < 0 {
        law_digits_are_read_back((-n) as nat);
        assert(decimal(n).skip(1) =~= digits((-n) as nat));
    } else {
        law_digits_are_read_back(n as nat);
    }
}

/// What an upper case hexadecimal digit stands for.
pub open spec fn hex_value(c: char) -> int {
    if '0' <= c <= '9' {
        c as int - '0' as int
    } else {
        c as int - 'A' as int + 10
    }
}

/// A byte in hexadecimal is read back from its two digits.
pub proof fn law_hex_is_read_back(b: u8)
    ensures
        hex_digits(b).len() == 2,
        16 * hex_value(hex_digits(b)[0]) + hex_value(hex_digits(b)[1]) == b,
        forall|i: int|
            0 <= i < 2 ==> ('0' <= #[trigger] hex_digits(b)[i] <= '9' || 'A' <= hex_digits(b)[i]
                <= 'F'),
{
    reveal_strlit("0123456789ABCDEF");
    assert forall|d: int| 0 <= d < 16 implies hex_value(#[trigger] "0123456789ABCDEF"@[d]) == d && (
    '0' <= "0123456789ABCDEF"@[d] <= '9' || 'A' <= "0123456789ABCDEF"@[d] <= 'F') by {}
}

/// An optional string has the text of the string, and none where it is none.
pub proof fn law_optional_text_is_whole(s: Option<String>)
    ensures
        optional_text(s) is Some <==> s is Some,
        s matches Some(t) ==> optional_text(s)->0 == t@,
{
}

} // verus!
