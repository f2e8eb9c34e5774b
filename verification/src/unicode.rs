//! Unicode properties of characters, as the standard library gives them.

use vstd::prelude::*;

use crate::text::{chars_of, split_at_char};

verus! {

/// Whether `c` has the Unicode Uppercase property.
pub uninterp spec fn is_uppercase_of(c: char) -> bool;

/// The first character of the Unicode lowercase mapping of `c`.
pub uninterp spec fn lowercase_of(c: char) -> char;

/// Calls `char::is_uppercase`. Claims that its result is named
/// `is_uppercase_of`, and, for ASCII characters, that exactly the letters
/// `A` to `Z` are uppercase.
#[verifier::external_body]
pub(crate) fn char_is_uppercase(c: char) -> (r: bool)
    ensures
        r == is_uppercase_of(c),
        (c as u32) < 128 ==> (r <==> 65 <= (c as u32) <= 90),
{
    c.is_uppercase()
}

/// Calls `char::to_lowercase` and takes the first character of the mapping
/// (the character itself should there be none). Claims that the result is
/// named `lowercase_of`, and, for ASCII characters, that `A` to `Z` map to
/// `a` to `z` and every other character to itself.
#[verifier::external_body]
pub(crate) fn char_lowercase(c: char) -> (r: char)
    ensures
        r == lowercase_of(c),
        65 <= (c as u32) <= 90 ==> (r as u32) == (c as u32) + 32,
        (c as u32) < 128 && !(65 <= (c as u32) <= 90) ==> r == c,
{
    c.to_lowercase().next().unwrap_or(c)
}

/// Whether `c` has the Unicode Alphabetic property.
pub uninterp spec fn is_alphabetic_of(c: char) -> bool;

/// Calls `char::is_alphabetic`. Claims that its result is named
/// `is_alphabetic_of`, and, for ASCII characters, that exactly the letters
/// are alphabetic.
#[verifier::external_body]
pub(crate) fn char_is_alphabetic(c: char) -> (r: bool)
    ensures
        r == is_alphabetic_of(c),
        (c as u32) < 128 ==> (r <==> (65 <= (c as u32) <= 90 || 97 <= (c as u32) <= 122)),
{
    c.is_alphabetic()
}

/// Whether `c` has the Unicode White_Space property.
pub uninterp spec fn is_whitespace_of(c: char) -> bool;

/// Calls `char::is_whitespace`. Claims that its result is named
/// `is_whitespace_of`, and, for ASCII characters, that exactly the space
/// and the characters from tab to carriage return are whitespace.
#[verifier::external_body]
pub(crate) fn char_is_whitespace(c: char) -> (r: bool)
    ensures
        r == is_whitespace_of(c),
        (c as u32) < 128 ==> (r <==> ((c as u32) == 32 || 9 <= (c as u32) <= 13)),
{
    c.is_whitespace()
}

/// Characters with the White_Space property.
pub open spec fn unicode_ws_pred() -> spec_fn(char) -> bool {
    |c: char| is_whitespace_of(c)
}

/// Length of the longest suffix of `s` whose characters all satisfy `p`.
pub open spec fn suffix_len(s: Seq<char>, p: spec_fn(char) -> bool) -> int
    decreases s.len(),
{
    if s.len() == 0 || !p(s.last()) {
        0
    } else {
        1 + suffix_len(s.drop_last(), p)
    }
}

/// `s` without its leading and trailing whitespace.
pub open spec fn trimmed(s: Seq<char>) -> Seq<char> {
    let t = s.skip(crate::config_parser::token::prefix_len(s, unicode_ws_pred()));
    t.take(t.len() - suffix_len(t, unicode_ws_pred()))
}

/// `suffix_len` is the length after the last character that fails `p`.
pub proof fn lemma_suffix_len(s: Seq<char>, p: spec_fn(char) -> bool, k: int)
    requires
        0 <= k <= s.len(),
        forall|j: int| k <= j < s.len() ==> #[trigger] p(s[j]),
        k > 0 ==> !p(s[k - 1]),
    ensures
        suffix_len(s, p) == s.len() - k,
    decreases s.len() - k,
{
    if k < s.len() {
        assert(p(s[s.len() - 1]));
        let t = s.drop_last();
        assert forall|j: int| k <= j < t.len() implies #[trigger] p(t[j]) by {
            assert(t[j] == s[j]);
        }
        if k > 0 {
            assert(t[k - 1] == s[k - 1]);
        }
        lemma_suffix_len(t, p, k);
    }
}

/// `s` without its leading and trailing whitespace (see `trimmed`).
pub fn trim(s: &str) -> (r: &str)
    ensures
        r@ == trimmed(s@),
{
    let chars = chars_of(s);
    let mut a: usize = 0;
    while a < chars.len() && char_is_whitespace(chars[a])
        invariant
            chars@ == s@,
            a <= chars.len(),
            forall|j: int| 0 <= j < a ==> #[trigger] unicode_ws_pred()(s@[j]),
        decreases chars.len() - a,
    {
        a += 1;
    }
    proof {
        crate::config_parser::token::lemma_prefix_len(s@, unicode_ws_pred(), a as int);
    }
    let mut b: usize = chars.len();
    while b > a && char_is_whitespace(chars[b - 1])
        invariant
            chars@ == s@,
            a <= b <= chars.len(),
            forall|j: int| b <= j < chars.len() ==> #[trigger] unicode_ws_pred()(s@[j]),
        decreases b,
    {
        b -= 1;
    }
    let (_, t) = split_at_char(s, a);
    let (r, _) = split_at_char(t, b - a);
    proof {
        let t0 = s@.skip(a as int);
        assert(t@ == t0);
        assert forall|j: int| b - a <= j < t0.len() implies #[trigger] unicode_ws_pred()(t0[j]) by {
            assert(t0[j] == s@[a + j]);
        }
        if b > a {
            assert(t0[b - a - 1] == s@[b - 1]);
        }
        lemma_suffix_len(t0, unicode_ws_pred(), (b - a) as int);
    }
    r
}

} // verus!
