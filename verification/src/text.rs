//! Conversions between `str`, `String` and sequences of characters.

use vstd::prelude::*;

verus! {

/// The characters of `s`. Calls `str::chars` and collects them.
#[verifier::external_body]
pub(crate) fn chars_of(s: &str) -> (r: Vec<char>)
    ensures
        r@ == s@,
{
    s.chars().collect()
}

/// A string made of the given characters. Calls `FromIterator<char>` for `String`.
#[verifier::external_body]
pub(crate) fn string_from_chars(chars: &[char]) -> (r: String)
    ensures
        r@ == chars@,
{
    chars.iter().collect()
}

/// Appends a character. Calls `String::push`.
#[verifier::external_body]
pub(crate) fn push_char(s: &mut String, c: char)
    ensures
        final(s)@ == old(s)@.push(c),
{
    s.push(c)
}

/// Appends a string. Calls `String::push_str`.
#[verifier::external_body]
pub(crate) fn push_str(s: &mut String, other: &str)
    ensures
        final(s)@ == old(s)@ + other@,
{
    s.push_str(other)
}

/// Copies a string slice into a new `String`.
pub fn to_owned_string(s: &str) -> (r: String)
    ensures
        r@ == s@,
{
    let mut r = String::new();
    push_str(&mut r, s);
    proof {
        assert(r@ =~= s@);
    }
    r
}

/// A string of the characters `chars[from..to]`.
pub fn string_from_range(chars: &Vec<char>, from: usize, to: usize) -> (r: String)
    requires
        from <= to <= chars.len(),
    ensures
        r@ == chars@.subrange(from as int, to as int),
{
    let mut r = String::new();
    let mut i = from;
    while i < to
        invariant
            from <= i <= to <= chars.len(),
            r@ == chars@.subrange(from as int, i as int),
        decreases to - i,
    {
        push_char(&mut r, chars[i]);
        i += 1;
        proof {
            assert(r@ =~= chars@.subrange(from as int, i as int));
        }
    }
    r
}

/// Whether two strings hold the same characters.
pub fn str_eq(a: &str, b: &str) -> (r: bool)
    ensures
        r == (a@ == b@),
{
    let ca = chars_of(a);
    let cb = chars_of(b);
    if ca.len() != cb.len() {
        return false;
    }
    let mut i: usize = 0;
    while i < ca.len()
        invariant
            ca@ == a@,
            cb@ == b@,
            ca.len() == cb.len(),
            i <= ca.len(),
            forall|j: int| 0 <= j < i ==> ca@[j] == cb@[j],
        decreases ca.len() - i,
    {
        if ca[i] != cb[i] {
            return false;
        }
        i += 1;
    }
    proof {
        assert(a@ =~= b@);
    }
    true
}

/// Number of characters of `s`.
pub fn char_count(s: &str) -> (r: usize)
    ensures
        r == s@.len(),
{
    chars_of(s).len()
}

/// Number of bytes of the UTF-8 encoding of `c`.
pub open spec fn char_utf8_len(c: char) -> int {
    let v = c as u32;
    if v < 0x80 {
        1
    } else if v < 0x800 {
        2
    } else if v < 0x10000 {
        3
    } else {
        4
    }
}

/// Number of bytes of the UTF-8 encoding of `s`.
pub open spec fn utf8_len(s: Seq<char>) -> int
    decreases s.len(),
{
    if s.len() == 0 {
        0
    } else {
        char_utf8_len(s[0]) + utf8_len(s.skip(1))
    }
}

/// The index of the character that byte `b` of the UTF-8 encoding of `s`
/// belongs to: the number of leading characters whose encoding ends at or
/// before `b`.
pub open spec fn char_index_at_byte(s: Seq<char>, b: int) -> int
    decreases s.len(),
{
    if s.len() == 0 {
        0
    } else if char_utf8_len(s[0]) <= b {
        1 + char_index_at_byte(s.skip(1), b - char_utf8_len(s[0]))
    } else {
        0
    }
}

/// The encoding of a concatenation is the concatenation of the encodings.
pub proof fn lemma_utf8_len_concat(a: Seq<char>, b: Seq<char>)
    ensures
        utf8_len(a + b) == utf8_len(a) + utf8_len(b),
    decreases a.len(),
{
    if a.len() > 0 {
        assert((a + b).skip(1) =~= a.skip(1) + b);
        lemma_utf8_len_concat(a.skip(1), b);
    } else {
        assert(a + b =~= b);
    }
}

/// Encoding one more character of `s` adds its length.
pub proof fn lemma_utf8_len_take(s: Seq<char>, i: int)
    requires
        0 <= i < s.len(),
    ensures
        utf8_len(s.take(i + 1)) == utf8_len(s.take(i)) + char_utf8_len(s[i]),
        utf8_len(s.take(i)) >= 0,
        char_utf8_len(s[i]) >= 1,
{
    assert(s.take(i + 1) =~= s.take(i) + seq![s[i]]);
    lemma_utf8_len_concat(s.take(i), seq![s[i]]);
    let one = seq![s[i]];
    assert(one.skip(1) =~= Seq::<char>::empty());
    assert(utf8_len(one.skip(1)) == 0);
    assert(utf8_len(one) == char_utf8_len(s[i]));
    lemma_utf8_len_nonneg(s.take(i));
}

/// Encodings have a nonnegative length, at most that of the whole for a prefix.
pub proof fn lemma_utf8_len_nonneg(s: Seq<char>)
    ensures
        utf8_len(s) >= 0,
        utf8_len(s) >= s.len(),
    decreases s.len(),
{
    if s.len() > 0 {
        lemma_utf8_len_nonneg(s.skip(1));
    }
}

/// Byte length of the UTF-8 encoding of `c`.
pub fn char_utf8_len_exec(c: char) -> (r: usize)
    ensures
        r == char_utf8_len(c),
{
    let v = c as u32;
    if v < 0x80 {
        1
    } else if v < 0x800 {
        2
    } else if v < 0x10000 {
        3
    } else {
        4
    }
}

/// A prefix is encoded in no more bytes than the whole.
pub proof fn lemma_utf8_len_prefix(s: Seq<char>, i: int)
    requires
        0 <= i <= s.len(),
    ensures
        0 <= utf8_len(s.take(i)) <= utf8_len(s),
{
    assert(s =~= s.take(i) + s.skip(i));
    lemma_utf8_len_concat(s.take(i), s.skip(i));
    lemma_utf8_len_nonneg(s.take(i));
    lemma_utf8_len_nonneg(s.skip(i));
}

/// Byte length of the UTF-8 encoding of `s`.
pub fn str_utf8_len(s: &str) -> (r: usize)
    requires
        utf8_len(s@) <= usize::MAX,
    ensures
        r == utf8_len(s@),
{
    let chars = chars_of(s);
    let mut n: usize = 0;
    let mut i: usize = 0;
    while i < chars.len()
        invariant
            chars@ == s@,
            i <= chars.len(),
            n == utf8_len(s@.take(i as int)),
            utf8_len(s@) <= usize::MAX,
        decreases chars.len() - i,
    {
        proof {
            lemma_utf8_len_take(s@, i as int);
            lemma_utf8_len_prefix(s@, i + 1);
        }
        n = n + char_utf8_len_exec(chars[i]);
        i += 1;
    }
    proof {
        assert(s@.take(i as int) =~= s@);
    }
    n
}

/// The byte index, in the UTF-8 encoding of `s`, of its character `idx`
/// (its length for `idx` equal to the character count), or `None` past
/// the end.
pub fn char_index_to_byte_index(s: &str, idx: usize) -> (r: Option<usize>)
    requires
        utf8_len(s@) <= usize::MAX,
    ensures
        idx <= s@.len() ==> r == Some(utf8_len(s@.take(idx as int)) as usize),
        idx > s@.len() ==> r.is_none(),
{
    let chars = chars_of(s);
    if idx > chars.len() {
        return None;
    }
    let mut n: usize = 0;
    let mut i: usize = 0;
    while i < idx
        invariant
            chars@ == s@,
            i <= idx <= chars.len(),
            n == utf8_len(s@.take(i as int)),
            utf8_len(s@) <= usize::MAX,
        decreases idx - i,
    {
        proof {
            lemma_utf8_len_take(s@, i as int);
            lemma_utf8_len_prefix(s@, i + 1);
        }
        n = n + char_utf8_len_exec(chars[i]);
        i += 1;
    }
    Some(n)
}

/// The index of the character of `s` that byte `b` of its UTF-8 encoding
/// belongs to (see `char_index_at_byte`).
pub fn byte_index_to_char_index(s: &str, b: usize) -> (r: usize)
    ensures
        r == char_index_at_byte(s@, b as int),
        r <= s@.len(),
{
    let chars = chars_of(s);
    let mut acc: usize = 0;
    let mut i: usize = 0;
    proof {
        assert(s@.skip(0) =~= s@);
        lemma_char_index_at_byte_bounds(s@, b as int);
    }
    while i < chars.len()
        invariant
            chars@ == s@,
            i <= chars.len(),
            acc <= b,
            char_index_at_byte(s@, b as int) == i + char_index_at_byte(s@.skip(i as int), b - acc),
            0 <= char_index_at_byte(s@.skip(i as int), b - acc) <= s@.len() - i,
        decreases chars.len() - i,
    {
        let c = chars[i];
        let l = char_utf8_len_exec(c);
        proof {
            let rest = s@.skip(i as int);
            assert(rest[0] == c);
            assert(rest.skip(1) =~= s@.skip(i + 1));
            lemma_char_index_at_byte_bounds(s@.skip(i + 1), b - acc - l);
        }
        if l > b - acc {
            return i;
        }
        acc = acc + l;
        i += 1;
    }
    proof {
        assert(s@.skip(i as int) =~= Seq::<char>::empty());
    }
    i
}

/// `char_index_at_byte` counts characters of `s`.
pub proof fn lemma_char_index_at_byte_bounds(s: Seq<char>, b: int)
    ensures
        0 <= char_index_at_byte(s, b) <= s.len(),
    decreases s.len(),
{
    if s.len() > 0 {
        lemma_char_index_at_byte_bounds(s.skip(1), b - char_utf8_len(s[0]));
    }
}

/// The UTF-8 encoding of a character is `char_utf8_len` bytes long.
pub proof fn lemma_encode_scalar_len(c: char)
    ensures
        vstd::utf8::encode_scalar(c as u32).len() == char_utf8_len(c),
{
    vstd::utf8::char_is_scalar(c);
}

/// The UTF-8 encoding of `s` is `utf8_len(s)` bytes long.
pub proof fn lemma_encode_utf8_len(s: Seq<char>)
    ensures
        vstd::utf8::encode_utf8(s).len() == utf8_len(s),
    decreases s.len(),
{
    if s.len() > 0 {
        lemma_encode_scalar_len(s[0]);
        assert(s.drop_first() =~= s.skip(1));
        lemma_encode_utf8_len(s.drop_first());
    }
}

/// Encoding a concatenation concatenates the encodings.
pub proof fn lemma_encode_utf8_concat(a: Seq<char>, b: Seq<char>)
    ensures
        vstd::utf8::encode_utf8(a + b) == vstd::utf8::encode_utf8(a) + vstd::utf8::encode_utf8(b),
    decreases a.len(),
{
    if a.len() == 0 {
        assert(a + b =~= b);
        assert(vstd::utf8::encode_utf8(a) =~= Seq::<u8>::empty());
        assert(vstd::utf8::encode_utf8(a) + vstd::utf8::encode_utf8(b) =~= vstd::utf8::encode_utf8(b));
    } else {
        assert((a + b).drop_first() =~= a.drop_first() + b);
        assert((a + b)[0] == a[0]);
        lemma_encode_utf8_concat(a.drop_first(), b);
        assert(vstd::utf8::encode_utf8(a + b) =~= vstd::utf8::encode_utf8(a) + vstd::utf8::encode_utf8(b));
    }
}

/// The end of the encoding of a prefix is a character boundary.
pub proof fn lemma_prefix_char_boundary(s: Seq<char>, k: int)
    requires
        0 <= k <= s.len(),
    ensures
        vstd::utf8::is_char_boundary(
            vstd::utf8::encode_utf8(s),
            vstd::utf8::encode_utf8(s.take(k)).len() as int,
        ),
    decreases k,
{
    let bytes = vstd::utf8::encode_utf8(s);
    vstd::utf8::encode_utf8_valid_utf8(s);
    if k == 0 {
        assert(s.take(0) =~= Seq::<char>::empty());
        assert(vstd::utf8::encode_utf8(s.take(0)).len() == 0);
    } else {
        vstd::utf8::encode_utf8_first_scalar(s);
        let rest = s.drop_first();
        assert(vstd::utf8::pop_first_scalar(bytes) =~= vstd::utf8::encode_utf8(rest));
        assert(s.take(k).drop_first() =~= rest.take(k - 1));
        assert(s.take(k)[0] == s[0]);
        lemma_prefix_char_boundary(rest, k - 1);
        lemma_encode_utf8_len(s.take(k));
        lemma_encode_utf8_len(s);
        lemma_utf8_len_prefix(s, k);
        lemma_encode_utf8_len(s.take(k));
        assert(vstd::utf8::encode_utf8(s.take(k)).len() == vstd::utf8::encode_scalar(s[0] as u32).len()
            + vstd::utf8::encode_utf8(rest.take(k - 1)).len());
    }
}

/// Number of bytes of `s`, which is that of its UTF-8 encoding.
pub fn str_byte_len(s: &str) -> (r: usize)
    ensures
        r == utf8_len(s@),
{
    let bytes = s.as_bytes();
    proof {
        lemma_encode_utf8_len(s@);
    }
    bytes.len()
}

/// Splits `s` before its character `k`.
pub fn split_at_char<'a>(s: &'a str, k: usize) -> (r: (&'a str, &'a str))
    requires
        k <= s@.len(),
    ensures
        r.0@ == s@.take(k as int),
        r.1@ == s@.skip(k as int),
{
    let _n = str_byte_len(s);
    let mid = match char_index_to_byte_index(s, k) {
        Some(m) => m,
        None => 0,
    };
    proof {
        let t = s@.take(k as int);
        let u = s@.skip(k as int);
        assert(s@ =~= t + u);
        lemma_encode_utf8_len(t);
        lemma_encode_utf8_concat(t, u);
        lemma_prefix_char_boundary(s@, k as int);
        lemma_utf8_len_prefix(s@, k as int);
        assert(mid == vstd::utf8::encode_utf8(t).len());
        assert(vstd::string::StringSliceAdditionalSpecFns::spec_bytes(s) == vstd::utf8::encode_utf8(s@));
    }
    let r = s.split_at(mid);
    proof {
        let t = s@.take(k as int);
        let u = s@.skip(k as int);
        let bytes = vstd::utf8::encode_utf8(s@);
        assert(bytes.subrange(0, mid as int) =~= vstd::utf8::encode_utf8(t));
        assert(bytes.subrange(mid as int, bytes.len() as int) =~= vstd::utf8::encode_utf8(u));
        vstd::utf8::encode_utf8_decode_utf8(r.0@);
        vstd::utf8::encode_utf8_decode_utf8(r.1@);
        vstd::utf8::encode_utf8_decode_utf8(t);
        vstd::utf8::encode_utf8_decode_utf8(u);
    }
    r
}

/// Whether `s` starts with `prefix`.
pub fn starts_with(s: &str, prefix: &str) -> (r: bool)
    ensures
        r == (prefix@.len() <= s@.len() && s@.take(prefix@.len() as int) == prefix@),
{
    let a = chars_of(s);
    let b = chars_of(prefix);
    if b.len() > a.len() {
        return false;
    }
    let mut i: usize = 0;
    while i < b.len()
        invariant
            a@ == s@,
            b@ == prefix@,
            b.len() <= a.len(),
            i <= b.len(),
            forall|j: int| 0 <= j < i ==> a@[j] == b@[j],
        decreases b.len() - i,
    {
        if a[i] != b[i] {
            proof {
                assert(s@.take(prefix@.len() as int)[i as int] != prefix@[i as int]);
            }
            return false;
        }
        i += 1;
    }
    proof {
        assert(s@.take(prefix@.len() as int) =~= prefix@);
    }
    true
}

/// The message of a parse of an empty string into an integer.
pub open spec fn empty_integer_message() -> Seq<char> {
    "cannot parse integer from empty string"@
}

/// The message of a parse into an integer that met a character that is not
/// a digit.
pub open spec fn invalid_digit_message() -> Seq<char> {
    "invalid digit found in string"@
}

/// The message of a parse into an `i32` of a number above its range.
pub open spec fn too_large_message() -> Seq<char> {
    "number too large to fit in target type"@
}

/// The message of a parse into an `i32` of a number below its range.
pub open spec fn too_small_message() -> Seq<char> {
    "number too small to fit in target type"@
}

/// Reads decimal digits after `acc`, adding each digit (subtracting it when
/// `negative`), from left to right; fails at the first character that is
/// not a digit or at the first step that leaves the range of `i32`.
pub open spec fn parse_digits(digits: Seq<char>, negative: bool, acc: int) -> Result<int, Seq<char>>
    decreases digits.len(),
{
    if digits.len() == 0 {
        Ok(acc)
    } else if !('0' <= digits[0] && digits[0] <= '9') {
        Err(invalid_digit_message())
    } else {
        let d = digits[0] as int - '0' as int;
        let v = if negative {
            acc * 10 - d
        } else {
            acc * 10 + d
        };
        if v > i32::MAX {
            Err(too_large_message())
        } else if v < i32::MIN {
            Err(too_small_message())
        } else {
            parse_digits(digits.skip(1), negative, v)
        }
    }
}

/// What parsing `s` as a decimal `i32` gives, as the standard library
/// parses integers: an optional sign, then at least one digit.
pub open spec fn parse_i32_spec(s: Seq<char>) -> Result<int, Seq<char>> {
    if s.len() == 0 {
        Err(empty_integer_message())
    } else if (s[0] == '+' || s[0] == '-') && s.len() == 1 {
        Err(invalid_digit_message())
    } else if s[0] == '+' {
        parse_digits(s.skip(1), false, 0)
    } else if s[0] == '-' {
        parse_digits(s.skip(1), true, 0)
    } else {
        parse_digits(s, false, 0)
    }
}

/// Parses `s` as a decimal `i32` (see `parse_i32_spec`), giving the message
/// of the error met.
pub fn parse_i32(s: &str) -> (r: Result<i32, String>)
    ensures
        match parse_i32_spec(s@) {
            Ok(v) => r == Ok::<i32, String>(v as i32) && i32::MIN <= v <= i32::MAX,
            Err(m) => r matches Err(e) && e@ == m,
        },
{
    proof {
        reveal_strlit("cannot parse integer from empty string");
        reveal_strlit("invalid digit found in string");
        reveal_strlit("number too large to fit in target type");
        reveal_strlit("number too small to fit in target type");
    }
    let chars = chars_of(s);
    if chars.len() == 0 {
        return Err(to_owned_string("cannot parse integer from empty string"));
    }
    if (chars[0] == '+' || chars[0] == '-') && chars.len() == 1 {
        return Err(to_owned_string("invalid digit found in string"));
    }
    let negative = chars[0] == '-';
    let mut i: usize = if chars[0] == '+' || chars[0] == '-' {
        1
    } else {
        0
    };
    let ghost start = i;
    let mut acc: i32 = 0;
    proof {
        assert(chars@.skip(0) =~= s@);
    }
    while i < chars.len()
        invariant
            chars@ == s@,
            start <= i <= chars.len(),
            parse_i32_spec(s@) == parse_digits(chars@.skip(i as int), negative, acc as int),
        decreases chars.len() - i,
    {
        let ghost rest = chars@.skip(i as int);
        let c = chars[i];
        proof {
            assert(rest[0] == c);
            assert(rest.skip(1) =~= chars@.skip(i + 1));
        }
        if !('0' <= c && c <= '9') {
            return Err(to_owned_string("invalid digit found in string"));
        }
        let d: i64 = (c as u32 - '0' as u32) as i64;
        let v: i64 = if negative {
            acc as i64 * 10 - d
        } else {
            acc as i64 * 10 + d
        };
        if v > i32::MAX as i64 {
            return Err(to_owned_string("number too large to fit in target type"));
        }
        if v < i32::MIN as i64 {
            return Err(to_owned_string("number too small to fit in target type"));
        }
        acc = v as i32;
        i += 1;
    }
    proof {
        assert(chars@.skip(i as int) =~= Seq::<char>::empty());
    }
    Ok(acc)
}

/// The decimal digit of `d`, below 10.
pub open spec fn digit_char(d: int) -> char {
    ('0' as int + d) as char
}

/// The decimal notation of `n`, without leading zeros.
pub open spec fn decimal_text(n: nat) -> Seq<char>
    decreases n,
{
    if n < 10 {
        seq![digit_char(n as int)]
    } else {
        decimal_text(n / 10).push(digit_char((n % 10) as int))
    }
}

/// The decimal notation of `n` (see `decimal_text`).
pub fn decimal_string(n: u64) -> (r: String)
    ensures
        r@ == decimal_text(n as nat),
    decreases n,
{
    let d = (n % 10) as u32;
    let c = char_from_digit(d);
    if n < 10 {
        let mut r = String::new();
        push_char(&mut r, c);
        proof {
            assert(r@ =~= seq![c]);
        }
        r
    } else {
        let mut r = decimal_string(n / 10);
        push_char(&mut r, c);
        r
    }
}

/// The character of the decimal digit `d`.
fn char_from_digit(d: u32) -> (r: char)
    requires
        d < 10,
    ensures
        r == digit_char(d as int),
{
    if d == 0 {
        '0'
    } else if d == 1 {
        '1'
    } else if d == 2 {
        '2'
    } else if d == 3 {
        '3'
    } else if d == 4 {
        '4'
    } else if d == 5 {
        '5'
    } else if d == 6 {
        '6'
    } else if d == 7 {
        '7'
    } else if d == 8 {
        '8'
    } else {
        '9'
    }
}

} // verus!
