//! Character-level helpers on strings.
use vstd::prelude::*;
use crate::index::key::{chars_order, int_order};
use crate::assoc::str_views;
use vstd::std_specs::iter::IteratorSpec;

verus! {

broadcast use {vstd::string::axiom_spec_iter, vstd::string::next_postcondition};

/// Lexicographic comparison of two strings by code point: -1, 0 or 1.
pub fn compare_strs(a: &str, b: &str) -> (r: i8)
    ensures
        r as int == chars_order(a@, b@),
{
    let mut ai = a.chars();
    let mut bi = b.chars();
    let ghost a0 = a@;
    let ghost b0 = b@;
    let ghost mut k: int = 0;
    assert(a0.skip(0) =~= a0);
    assert(b0.skip(0) =~= b0);
    loop
        invariant
            a0 == a@,
            b0 == b@,
            0 <= k <= a0.len(),
            k <= b0.len(),
            ai.remaining() == a0.skip(k),
            bi.remaining() == b0.skip(k),
            ai.obeys_prophetic_iter_laws(),
            bi.obeys_prophetic_iter_laws(),
            chars_order(a0, b0) == chars_order(a0.skip(k), b0.skip(k)),
        decreases a0.len() - k,
    {
        let ghost ar = ai.remaining();
        let ghost br = bi.remaining();
        let x = ai.next();
        let y = bi.next();
        assert(ar.len() > 0 ==> x == Some(ar[0]) && ai.remaining() == ar.drop_first());
        assert(ar.len() == 0 ==> x is None);
        assert(br.len() > 0 ==> y == Some(br[0]) && bi.remaining() == br.drop_first());
        assert(br.len() == 0 ==> y is None);
        match (x, y) {
            (None, None) => {
                assert(ar.len() == 0 && br.len() == 0);
                assert(chars_order(ar, br) == 0);
                return 0;
            },
            (None, Some(_)) => {
                return -1;
            },
            (Some(_), None) => {
                return 1;
            },
            (Some(cx), Some(cy)) => {
                if cx != cy {
                    return if cx < cy {
                        -1
                    } else {
                        1
                    };
                }
                proof {
                    assert(a0.skip(k).drop_first() =~= a0.skip(k + 1));
                    assert(b0.skip(k).drop_first() =~= b0.skip(k + 1));
                    k = k + 1;
                }
            },
        }
    }
}

} // verus!

verus! {

/// Whether two strings are equal.
pub fn str_eq(a: &str, b: &str) -> (r: bool)
    ensures
        r == (a@ == b@),
{
    proof {
        crate::index::key::lemma_chars_order_basic(a@, b@);
    }
    compare_strs(a, b) == 0
}

/// Position of `name` among `names`, if it is there (the first one).
pub fn find_name(names: &Vec<String>, name: &str) -> (r: Option<usize>)
    ensures
        match r {
            Some(i) => i < names@.len() && str_views(names@)[i as int] == name@ && forall|j: int|
                0 <= j < i ==> str_views(names@)[j] != name@,
            None => !str_views(names@).contains(name@),
        },
{
    let mut i: usize = 0;
    while i < names.len()
        invariant
            i <= names@.len(),
            forall|j: int| 0 <= j < i ==> str_views(names@)[j] != name@,
        decreases names@.len() - i,
    {
        if str_eq(names[i].as_str(), name) {
            return Some(i);
        }
        i = i + 1;
    }
    proof {
        if str_views(names@).contains(name@) {
            let j = choose|j: int| 0 <= j < str_views(names@).len() && str_views(names@)[j] == name@;
            assert(str_views(names@)[j] != name@);
        }
    }
    None
}

/// Concatenation of three strings.
pub fn concat3(a: &str, b: &str, c: &str) -> (s: String)
    ensures
        s@ == a@ + b@ + c@,
{
    let mut s = a.to_string();
    s.append(b);
    s.append(c);
    s
}

/// Decimal digits of a natural number.
pub open spec fn digits(n: nat) -> Seq<char>
    decreases n,
{
    if n < 10 {
        seq![('0' as u8 + n) as char]
    } else {
        digits(n / 10).push(('0' as u8 + (n % 10)) as char)
    }
}

/// Decimal text of an integer, with a leading `-` when negative.
pub open spec fn decimal(i: int) -> Seq<char> {
    if i < 0 {
        seq!['-'] + digits((-i) as nat)
    } else {
        digits(i as nat)
    }
}

/// `ToString` of std on `i64`: its decimal text.
#[verifier::external_body]
pub(crate) fn i64_text(i: i64) -> (s: String)
    ensures
        s@ == decimal(i as int),
{
    i.to_string()
}

} // verus!

verus! {

/// Concatenation of two strings.
pub fn concat2(a: &str, b: &str) -> (s: String)
    ensures
        s@ == a@ + b@,
{
    let mut s = a.to_string();
    s.append(b);
    s
}

} // verus!

verus! {

/// Characters of `s` are all ASCII.
pub open spec fn all_ascii(s: Seq<char>) -> bool {
    forall|i: int| 0 <= i < s.len() ==> (s[i] as u32) < 128
}

/// ASCII upper case of a character; other characters unchanged.
pub open spec fn ascii_upper_char(c: char) -> char {
    if 'a' <= c && c <= 'z' {
        ((c as u32) - 32) as char
    } else {
        c
    }
}

/// ASCII lower case of a character; other characters unchanged.
pub open spec fn ascii_lower_char(c: char) -> char {
    if 'A' <= c && c <= 'Z' {
        ((c as u32) + 32) as char
    } else {
        c
    }
}

/// Unicode upper case of a string, as `str::to_uppercase` of std computes it.
pub uninterp spec fn uppercase(s: Seq<char>) -> Seq<char>;

/// Unicode lower case of a string, as `str::to_lowercase` of std computes it.
pub uninterp spec fn lowercase(s: Seq<char>) -> Seq<char>;

/// `str::to_uppercase` of std; on ASCII text it upper-cases the letters.
#[verifier::external_body]
pub(crate) fn to_upper(s: &str) -> (r: String)
    ensures
        r@ == uppercase(s@),
        all_ascii(s@) ==> r@ == s@.map_values(|c: char| ascii_upper_char(c)),
{
    s.to_uppercase()
}

/// `str::to_lowercase` of std; on ASCII text it lower-cases the letters.
#[verifier::external_body]
pub(crate) fn to_lower(s: &str) -> (r: String)
    ensures
        r@ == lowercase(s@),
        all_ascii(s@) ==> r@ == s@.map_values(|c: char| ascii_lower_char(c)),
{
    s.to_lowercase()
}

} // verus!

verus! {

/// `ToString` of std on `u64`: its decimal text.
#[verifier::external_body]
pub(crate) fn u64_text(u: u64) -> (s: String)
    ensures
        s@ == decimal(u as int),
{
    u.to_string()
}

} // verus!

verus! {

/// A Unicode scalar value: a code point outside the surrogate gap.
pub open spec fn is_scalar(cp: int) -> bool {
    (0 <= cp < 0xD800) || (0xE000 <= cp <= 0x10FFFF)
}

/// `char::from_u32` of std: the character with code point `cp`, when `cp`
/// is a Unicode scalar value.
#[verifier::external_body]
pub(crate) fn char_from_code(cp: u32) -> (r: Option<char>)
    ensures
        r is Some <==> is_scalar(cp as int),
        r matches Some(c) ==> c as u32 == cp,
{
    char::from_u32(cp)
}

/// `ToString` of std on `char`: the one-character string.
#[verifier::external_body]
pub(crate) fn char_text(c: char) -> (s: String)
    ensures
        s@ == seq![c],
{
    c.to_string()
}

} // verus!

verus! {

/// What `Debug` of std prints for a string: the text in double quotes, with
/// quotes, backslashes and unprintable characters escaped.
pub uninterp spec fn debug_text(s: Seq<char>) -> Seq<char>;

/// `Debug` of std on `str` (what `{:?}` prints).
#[verifier::external_body]
pub(crate) fn str_debug(s: &str) -> (r: String)
    ensures
        r@ == debug_text(s@),
{
    format!("{:?}", s)
}

} // verus!
