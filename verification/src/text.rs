//! Text primitives: splitting on a separator, and the few `std` string
//! operations that the rest of the library needs.

use vstd::prelude::*;

verus! {

/// The index of the first `d` in `s`, or `s.len()` when `s` holds none.
pub open spec fn first_index(s: Seq<char>, d: char) -> int
    decreases s.len(),
{
    if s.len() == 0 {
        0
    } else if s[0] == d {
        0
    } else {
        1 + first_index(s.drop_first(), d)
    }
}

/// `first_index` is the position of the first `d`, or the length when there is none.
pub proof fn lemma_first_index(s: Seq<char>, d: char)
    ensures
        0 <= first_index(s, d) <= s.len(),
        first_index(s, d) < s.len() ==> s[first_index(s, d)] == d,
        forall|j: int| 0 <= j < first_index(s, d) ==> s[j] != d,
    decreases s.len(),
{
    if s.len() > 0 && s[0] != d {
        lemma_first_index(s.drop_first(), d);
        assert forall|j: int| 0 <= j < first_index(s, d) implies s[j] != d by {
            if j > 0 {
                assert(s[j] == s.drop_first()[j - 1]);
            }
        }
    }
}

/// A position before which no `d` occurs, and which holds `d` or is the end,
/// is `first_index`.
pub proof fn lemma_first_index_unique(s: Seq<char>, d: char, k: int)
    requires
        0 <= k <= s.len(),
        k < s.len() ==> s[k] == d,
        forall|j: int| 0 <= j < k ==> s[j] != d,
    ensures
        first_index(s, d) == k,
    decreases s.len(),
{
    if s.len() > 0 && k > 0 {
        assert(s[0] != d);
        assert forall|j: int| 0 <= j < k - 1 implies s.drop_first()[j] != d by {
            assert(s.drop_first()[j] == s[j + 1]);
        }
        if k - 1 < s.len() - 1 {
            assert(s.drop_first()[k - 1] == s[k]);
        }
        lemma_first_index_unique(s.drop_first(), d, k - 1);
    }
}

/// The pieces of `s` between the occurrences of `d`, as `str::split` yields
/// them for a `char` pattern: one more piece than there are `d`s.
pub open spec fn split_on(s: Seq<char>, d: char) -> Seq<Seq<char>>
    decreases s.len(),
{
    let i = first_index(s, d);
    if i < s.len() {
        proof {
            lemma_first_index(s, d);
        }
        seq![s.take(i)] + split_on(s.skip(i + 1), d)
    } else {
        seq![s]
    }
}

/// The first piece of a split ends at the first separator; there is a second
/// piece exactly when `s` holds the separator, and it ends at the next one.
pub proof fn lemma_split_on_front(s: Seq<char>, d: char)
    ensures
        split_on(s, d).len() >= 1,
        split_on(s, d)[0] == s.take(first_index(s, d)),
        split_on(s, d).len() >= 2 <==> first_index(s, d) < s.len(),
        first_index(s, d) < s.len() ==> split_on(s, d)[1] == split_on(
            s.skip(first_index(s, d) + 1),
            d,
        )[0],
    decreases s.len(),
{
    lemma_first_index(s, d);
    let i = first_index(s, d);
    if i < s.len() {
        lemma_split_on_front(s.skip(i + 1), d);
    } else {
        assert(s.take(i) =~= s);
    }
}

/// The first `d` at or after `from` and before `to` in `chars`, or `to`.
pub fn find_char(chars: &Vec<char>, from: usize, to: usize, d: char) -> (k: usize)
    requires
        from <= to <= chars@.len(),
    ensures
        from <= k <= to,
        k == from + first_index(chars@.subrange(from as int, to as int), d),
{
    let mut k = from;
    while k < to && chars[k] != d
        invariant
            from <= k <= to <= chars@.len(),
            forall|j: int| from <= j < k ==> chars@[j] != d,
        decreases to - k,
    {
        k = k + 1;
    }
    proof {
        let s = chars@.subrange(from as int, to as int);
        assert forall|j: int| 0 <= j < k - from implies s[j] != d by {
            assert(s[j] == chars@[from + j]);
        }
        if k < to {
            assert(s[k - from] == chars@[k as int]);
        }
        lemma_first_index_unique(s, d, k - from);
    }
    k
}

/// The characters of `s`.
pub fn chars_of(s: &str) -> (r: Vec<char>)
    ensures
        r@ == s@,
{
    let n = s.unicode_len();
    let mut v: Vec<char> = Vec::new();
    let mut i: usize = 0;
    while i < n
        invariant
            n == s@.len(),
            i <= n,
            v@ == s@.take(i as int),
        decreases n - i,
    {
        v.push(s.get_char(i));
        i = i + 1;
        assert(v@ =~= s@.take(i as int));
    }
    assert(s@.take(n as int) =~= s@);
    v
}

/// `<str as PartialEq>::eq`: two string slices are equal when they hold the
/// same characters.
#[verifier::external_body]
pub(crate) fn str_eq(a: &str, b: &str) -> (r: bool)
    ensures
        r == (a@ == b@),
{
    a == b
}

/// `String::push`: appends one character.
#[verifier::external_body]
pub(crate) fn push_char(s: &mut String, c: char)
    ensures
        final(s)@ == old(s)@.push(c),
{
    s.push(c)
}

/// What `str::to_lowercase` returns for a string: its Unicode lowercase form.
pub uninterp spec fn lowercased(s: Seq<char>) -> Seq<char>;

/// `str::to_lowercase`. The mapping is Unicode's full lowercase mapping, a
/// function of the text alone; it is named, not written out.
#[verifier::external_body]
pub(crate) fn to_lowercase(s: &str) -> (r: String)
    ensures
        r@ == lowercased(s@),
{
    s.to_lowercase()
}

/// `String::from_utf8`: succeeds exactly on valid UTF-8, with the characters
/// that the bytes encode.
#[verifier::external_body]
pub(crate) fn string_from_utf8(bytes: Vec<u8>) -> (r: Option<String>)
    ensures
        r is Some <==> vstd::utf8::valid_utf8(bytes@),
        r matches Some(s) ==> s@ == vstd::utf8::decode_utf8(bytes@),
{
    match String::from_utf8(bytes) {
        Ok(s) => Some(s),
        Err(_) => None,
    }
}

} // verus!
