//! Text at the level of characters: splitting, trimming and decimal numbers.
use vstd::prelude::*;
use vstd::slice::slice_subrange;
use vstd::utf8::{decode_utf8, encode_utf8, encode_utf8_decode_utf8, valid_utf8};

verus! {

/// [`String::push`] puts one character behind the text.
pub assume_specification[ String::push ](text: &mut String, c: char)
    ensures
        final(text)@ == old(text)@.push(c),
;

/// [`std::str::from_utf8`]: the characters that the bytes encode, where the bytes are
/// well-formed UTF-8, and `None` where they are not.
#[verifier::external_body]
pub(crate) fn utf8_text(bytes: &[u8]) -> (text: Option<&str>)
    ensures
        text is Some <==> valid_utf8(bytes@),
        text matches Some(t) ==> t@ == decode_utf8(bytes@),
{
    std::str::from_utf8(bytes).ok()
}

// ---------------------------------------------------------------------------
// Splitting

/// How many items stand before the first `sep`; all of them where there is none.
pub open spec fn find<T>(s: Seq<T>, sep: T) -> nat
    decreases s.len(),
{
    if s.len() == 0 || s[0] == sep {
        0
    } else {
        1 + find(s.drop_first(), sep)
    }
}

/// The text cut at every `sep`: always one piece more than there are separators.
pub open spec fn pieces<T>(s: Seq<T>, sep: T) -> Seq<Seq<T>>
    decreases s.len(),
    via pieces_decreases::<T>
{
    let i = find(s, sep) as int;
    if i >= s.len() {
        seq![s]
    } else {
        seq![s.take(i)] + pieces(s.skip(i + 1), sep)
    }
}

#[via_fn]
proof fn pieces_decreases<T>(s: Seq<T>, sep: T) {
    lemma_find(s, sep);
}

/// The text cut at the first `limit - 1` separators: the last field holds the rest, with the
/// separators that are left in it.
pub open spec fn fields<T>(s: Seq<T>, sep: T, limit: nat) -> Seq<Seq<T>>
    decreases limit,
{
    let i = find(s, sep) as int;
    if limit == 0 {
        seq![]
    } else if limit == 1 || i >= s.len() {
        seq![s]
    } else {
        seq![s.take(i)] + fields(s.skip(i + 1), sep, (limit - 1) as nat)
    }
}

pub proof fn lemma_find<T>(s: Seq<T>, sep: T)
    ensures
        find(s, sep) <= s.len(),
        find(s, sep) < s.len() ==> s[find(s, sep) as int] == sep,
        forall|i: int| 0 <= i < find(s, sep) ==> s[i] != sep,
    decreases s.len(),
{
    if s.len() > 0 && s[0] != sep {
        let t = s.drop_first();
        lemma_find(t, sep);
        assert forall|i: int| 0 <= i < find(s, sep) implies s[i] != sep by {
            if i > 0 {
                assert(s[i] == t[i - 1]);
            }
        }
    }
}

/// [`find`] is the only position with what [`lemma_find`] says of it.
pub proof fn lemma_find_is<T>(s: Seq<T>, sep: T, n: int)
    requires
        0 <= n <= s.len(),
        n < s.len() ==> s[n] == sep,
        forall|i: int| 0 <= i < n ==> s[i] != sep,
    ensures
        find(s, sep) == n,
{
    lemma_find(s, sep);
    let m = find(s, sep) as int;
    if m < n {
        assert(s[m] != sep);
    }
}

/// A first field without a separator in it is found again.
pub proof fn lemma_fields_cons<T>(head: Seq<T>, rest: Seq<T>, sep: T, limit: nat)
    requires
        !head.contains(sep),
        limit >= 2,
    ensures
        fields(head + seq![sep] + rest, sep, limit) == seq![head] + fields(
            rest,
            sep,
            (limit - 1) as nat,
        ),
{
    let s = head + seq![sep] + rest;
    let n = head.len() as int;
    assert forall|i: int| 0 <= i < n implies s[i] != sep by {
        assert(head[i] == s[i]);
        if head[i] == sep {
            assert(head.contains(sep));
        }
    }
    lemma_find_is(s, sep, n);
    assert(s.take(n) =~= head);
    assert(s.skip(n + 1) =~= rest);
}

/// The same for a text that is cut at every separator.
pub proof fn lemma_pieces_cons<T>(head: Seq<T>, rest: Seq<T>, sep: T)
    requires
        !head.contains(sep),
    ensures
        pieces(head + seq![sep] + rest, sep) == seq![head] + pieces(rest, sep),
{
    let s = head + seq![sep] + rest;
    let n = head.len() as int;
    assert forall|i: int| 0 <= i < n implies s[i] != sep by {
        assert(head[i] == s[i]);
        if head[i] == sep {
            assert(head.contains(sep));
        }
    }
    lemma_find_is(s, sep, n);
    assert(s.take(n) =~= head);
    assert(s.skip(n + 1) =~= rest);
}

/// A text without a separator is one piece.
pub proof fn lemma_pieces_one<T>(s: Seq<T>, sep: T)
    requires
        !s.contains(sep),
    ensures
        pieces(s, sep) == seq![s],
        find(s, sep) == s.len(),
{
    assert forall|i: int| 0 <= i < s.len() implies s[i] != sep by {
        if s[i] == sep {
            assert(s.contains(sep));
        }
    }
    lemma_find_is(s, sep, s.len() as int);
}

/// The length of the prefix of `text` that holds no `sep`.
pub fn find_char(text: &[char], sep: char) -> (n: usize)
    ensures
        n == find(text@, sep),
{
    let mut n: usize = 0;
    while n < text.len() && text[n] != sep
        invariant
            n <= text.len(),
            forall|i: int| 0 <= i < n ==> text@[i] != sep,
        decreases text.len() - n,
    {
        n = n + 1;
    }
    proof {
        lemma_find_is(text@, sep, n as int);
    }
    n
}

/// The length of the prefix of `bytes` that holds no `sep`.
pub fn find_byte(bytes: &[u8], sep: u8) -> (n: usize)
    ensures
        n == find(bytes@, sep),
{
    let mut n: usize = 0;
    while n < bytes.len() && bytes[n] != sep
        invariant
            n <= bytes.len(),
            forall|i: int| 0 <= i < n ==> bytes@[i] != sep,
        decreases bytes.len() - n,
    {
        n = n + 1;
    }
    proof {
        lemma_find_is(bytes@, sep, n as int);
    }
    n
}

/// What the slices hold.
pub open spec fn contents(slices: Seq<&[char]>) -> Seq<Seq<char>> {
    Seq::new(slices.len(), |i: int| slices[i]@)
}

/// The text cut at its first `limit - 1` separators.
pub fn split_fields<'a>(text: &'a [char], sep: char, limit: usize) -> (res: Vec<&'a [char]>)
    requires
        limit > 0,
    ensures
        contents(res@) == fields(text@, sep, limit as nat),
{
    let mut res: Vec<&'a [char]> = Vec::new();
    let mut rest: &'a [char] = text;
    let mut left: usize = limit;
    let mut n: usize = find_char(rest, sep);
    assert(contents(res@) + fields(rest@, sep, left as nat) =~= fields(text@, sep, limit as nat));
    while left > 1 && n < rest.len()
        invariant
            left > 0,
            n == find(rest@, sep),
            contents(res@) + fields(rest@, sep, left as nat) == fields(text@, sep, limit as nat),
        decreases left,
    {
        let ghost before = contents(res@);
        let ghost all = rest@;
        let head = slice_subrange(rest, 0, n);
        rest = slice_subrange(rest, n + 1, rest.len());
        res.push(head);
        proof {
            assert(head@ =~= all.take(n as int));
            assert(rest@ =~= all.skip(n + 1));
            assert(contents(res@) =~= before + seq![head@]);
            assert(contents(res@) + fields(rest@, sep, (left - 1) as nat) =~= before + (seq![head@]
                + fields(rest@, sep, (left - 1) as nat)));
        }
        left = left - 1;
        n = find_char(rest, sep);
    }
    let ghost before = contents(res@);
    res.push(rest);
    proof {
        lemma_find(rest@, sep);
        assert(contents(res@) =~= before + seq![rest@]);
    }
    res
}

/// The text cut at every separator.
pub fn split_pieces<'a>(text: &'a [char], sep: char) -> (res: Vec<&'a [char]>)
    ensures
        contents(res@) == pieces(text@, sep),
{
    let mut res: Vec<&'a [char]> = Vec::new();
    let mut rest: &'a [char] = text;
    let mut n: usize = find_char(rest, sep);
    assert(contents(res@) + pieces(rest@, sep) =~= pieces(text@, sep));
    while n < rest.len()
        invariant
            n == find(rest@, sep),
            contents(res@) + pieces(rest@, sep) == pieces(text@, sep),
        decreases rest@.len(),
    {
        let ghost before = contents(res@);
        let ghost all = rest@;
        let head = slice_subrange(rest, 0, n);
        rest = slice_subrange(rest, n + 1, rest.len());
        res.push(head);
        proof {
            assert(head@ =~= all.take(n as int));
            assert(rest@ =~= all.skip(n + 1));
            assert(contents(res@) =~= before + seq![head@]);
            assert(contents(res@) + pieces(rest@, sep) =~= before + (seq![head@] + pieces(
                rest@,
                sep,
            )));
        }
        n = find_char(rest, sep);
    }
    let ghost before = contents(res@);
    res.push(rest);
    proof {
        lemma_find(rest@, sep);
        assert(contents(res@) =~= before + seq![rest@]);
    }
    res
}

// ---------------------------------------------------------------------------
// Characters and strings

/// The characters of a string.
pub fn chars_of(text: &str) -> (chars: Vec<char>)
    ensures
        chars@ == text@,
{
    let mut chars: Vec<char> = Vec::new();
    for c in it: text.chars()
        invariant
            chars@ == it.seq().take(it.index() as int),
            it.seq() == text@,
    {
        chars.push(c);
    }
    chars
}

/// The string that holds the characters.
pub fn string_of(chars: &[char]) -> (text: String)
    ensures
        text@ == chars@,
{
    let mut text = String::new();
    for i in 0..chars.len()
        invariant
            text@ == chars@.take(i as int),
    {
        text.push(chars[i]);
    }
    text
}

/// One string behind the other.
pub fn joined(first: &str, second: &str) -> (text: String)
    ensures
        text@ == first@ + second@,
{
    let mut text = first.to_string();
    text.append(second);
    text
}

/// A number between two texts.
pub fn numbered(before: &str, n: u64, after: &str) -> (text: String)
    ensures
        text@ == before@ + decimal(n as nat) + after@,
{
    let mut text = before.to_string();
    text.append(string_of(&decimal_chars(n as u128)).as_str());
    text.append(after);
    text
}

/// The text without the white space at its two ends.
pub fn trim_text(text: &str) -> (res: String)
    ensures
        res@ == trim(text@),
{
    string_of(trim_chars(&chars_of(text)))
}

/// Whether two strings hold the same characters.
pub fn same_text(a: &str, b: &str) -> (same: bool)
    ensures
        same == (a@ == b@),
{
    let x = a.as_bytes();
    let y = b.as_bytes();
    if x.len() != y.len() {
        return false;
    }
    for i in 0..x.len()
        invariant
            x@ == encode_utf8(a@),
            y@ == encode_utf8(b@),
            x@.len() == y@.len(),
            forall|j: int| 0 <= j < i ==> x@[j] == y@[j],
    {
        if x[i] != y[i] {
            return false;
        }
    }
    proof {
        assert(x@ =~= y@);
        encode_utf8_decode_utf8(a@);
        encode_utf8_decode_utf8(b@);
    }
    true
}

/// Whether the characters are those of the string.
pub fn chars_are(chars: &[char], text: &str) -> (same: bool)
    ensures
        same == (chars@ == text@),
{
    let other = chars_of(text);
    if chars.len() != other.len() {
        return false;
    }
    for i in 0..chars.len()
        invariant
            chars@.len() == other@.len(),
            other@ == text@,
            forall|j: int| 0 <= j < i ==> chars@[j] == other@[j],
    {
        if chars[i] != other[i] {
            return false;
        }
    }
    assert(chars@ =~= other@);
    true
}

// ---------------------------------------------------------------------------
// Trimming

/// The white space of Unicode.
pub open spec fn is_space(c: char) -> bool {
    let n = c as u32;
    ||| 0x09 <= n <= 0x0d
    ||| n == 0x20
    ||| n == 0x85
    ||| n == 0xa0
    ||| n == 0x1680
    ||| 0x2000 <= n <= 0x200a
    ||| n == 0x2028
    ||| n == 0x2029
    ||| n == 0x202f
    ||| n == 0x205f
    ||| n == 0x3000
}

/// Whether the character is white space.
pub fn is_white_space(c: char) -> (space: bool)
    ensures
        space == is_space(c),
{
    let n: u32 = c as u32;
    (0x09 <= n && n <= 0x0d) || n == 0x20 || n == 0x85 || n == 0xa0 || n == 0x1680 || (0x2000 <= n
        && n <= 0x200a) || n == 0x2028 || n == 0x2029 || n == 0x202f || n == 0x205f || n == 0x3000
}

/// The text without the white space that it starts with.
pub open spec fn trim_start(s: Seq<char>) -> Seq<char>
    decreases s.len(),
{
    if s.len() > 0 && is_space(s.first()) {
        trim_start(s.drop_first())
    } else {
        s
    }
}

/// The text without the white space that it ends with.
pub open spec fn trim_end(s: Seq<char>) -> Seq<char>
    decreases s.len(),
{
    if s.len() > 0 && is_space(s.last()) {
        trim_end(s.drop_last())
    } else {
        s
    }
}

/// The text without the white space at its two ends.
pub open spec fn trim(s: Seq<char>) -> Seq<char> {
    trim_end(trim_start(s))
}

/// The text with white space at neither end.
pub open spec fn trimmed(s: Seq<char>) -> bool {
    s.len() > 0 ==> !is_space(s.first()) && !is_space(s.last())
}

pub proof fn lemma_trim_start(s: Seq<char>)
    ensures
        trim_start(s).len() <= s.len(),
        trim_start(s) == s.skip(s.len() - trim_start(s).len()),
        trim_start(s).len() > 0 ==> !is_space(trim_start(s).first()),
    decreases s.len(),
{
    if s.len() > 0 && is_space(s.first()) {
        lemma_trim_start(s.drop_first());
        let t = trim_start(s);
        assert(s.drop_first().skip(s.drop_first().len() - t.len()) =~= s.skip(s.len() - t.len()));
    } else {
        assert(s.skip(0) =~= s);
    }
}

pub proof fn lemma_trim_end(s: Seq<char>)
    ensures
        trim_end(s).len() <= s.len(),
        trim_end(s) == s.take(trim_end(s).len() as int),
        trim_end(s).len() > 0 ==> !is_space(trim_end(s).last()),
    decreases s.len(),
{
    if s.len() > 0 && is_space(s.last()) {
        lemma_trim_end(s.drop_last());
        let t = trim_end(s);
        assert(s.drop_last().take(t.len() as int) =~= s.take(t.len() as int));
    } else {
        assert(s.take(s.len() as int) =~= s);
    }
}

/// Trimming cuts a stretch out of the text that is trimmed, and leaves a trimmed text as it is.
pub proof fn lemma_trim(s: Seq<char>)
    ensures
        trimmed(trim(s)),
        trimmed(s) ==> trim(s) == s,
        forall|c: char| trim(s).contains(c) ==> s.contains(c),
{
    let t = trim_start(s);
    let u = trim(s);
    lemma_trim_start(s);
    lemma_trim_end(t);
    if u.len() > 0 {
        assert(u.first() == t.first());
    }
    assert forall|c: char| u.contains(c) implies s.contains(c) by {
        let i = choose|i: int| 0 <= i < u.len() && u[i] == c;
        assert(u[i] == t[i]);
        assert(t[i] == s[i + (s.len() - t.len())]);
    }
}

/// The text without the white space at its two ends.
pub fn trim_chars(text: &[char]) -> (res: &[char])
    ensures
        res@ == trim(text@),
{
    let mut start: usize = 0;
    assert(text@.skip(0) =~= text@);
    while start < text.len() && is_white_space(text[start])
        invariant
            start <= text.len(),
            trim_start(text@) == trim_start(text@.skip(start as int)),
        decreases text.len() - start,
    {
        assert(text@.skip(start as int).drop_first() =~= text@.skip(start + 1));
        start = start + 1;
    }
    let ghost t = text@.skip(start as int);
    let mut end: usize = text.len();
    assert(t.take(end - start) =~= t);
    while start < end && is_white_space(text[end - 1])
        invariant
            start <= end <= text.len(),
            t == text@.skip(start as int),
            trim_end(t) == trim_end(t.take(end - start)),
        decreases end,
    {
        assert(t.take(end - start).drop_last() =~= t.take(end - start - 1));
        end = end - 1;
    }
    assert(t.take(end - start) =~= text@.subrange(start as int, end as int));
    slice_subrange(text, start, end)
}

// ---------------------------------------------------------------------------
// Decimal numbers

/// The digit with the value `d`.
pub open spec fn digit(d: nat) -> char {
    (48 + d) as char
}

/// Whether the character is one of the ten decimal digits.
pub open spec fn is_digit(c: char) -> bool {
    '0' <= c <= '9'
}

/// `n` in decimal, without leading zeros.
pub open spec fn decimal(n: nat) -> Seq<char>
    decreases n,
{
    if n < 10 {
        seq![digit(n)]
    } else {
        decimal(n / 10).push(digit(n % 10))
    }
}

/// The number that a row of digits stands for.
pub open spec fn number(s: Seq<char>) -> nat
    decreases s.len(),
{
    if s.len() == 0 {
        0
    } else {
        number(s.drop_last()) * 10 + (s.last() as nat - 48) as nat
    }
}

pub open spec fn all_digits(s: Seq<char>) -> bool {
    forall|i: int| 0 <= i < s.len() ==> is_digit(#[trigger] s[i])
}

/// An unsigned number of at most `max`, as text: digits, at least one of them, with or without a
/// plus sign before them.
pub open spec fn unsigned(s: Seq<char>, max: nat) -> Option<nat> {
    let digits = if s.len() > 0 && s[0] == '+' {
        s.drop_first()
    } else {
        s
    };
    if digits.len() > 0 && all_digits(digits) && number(digits) <= max {
        Some(number(digits))
    } else {
        None
    }
}

pub proof fn lemma_number_grows(s: Seq<char>, i: int)
    requires
        0 <= i <= s.len(),
    ensures
        number(s.take(i)) <= number(s),
    decreases s.len() - i,
{
    if i == s.len() {
        assert(s.take(i) =~= s);
    } else {
        lemma_number_grows(s, i + 1);
        assert(s.take(i + 1).drop_last() =~= s.take(i));
    }
}

/// What is written in decimal is read back.
pub proof fn lemma_decimal(n: nat)
    ensures
        decimal(n).len() > 0,
        all_digits(decimal(n)),
        number(decimal(n)) == n,
    decreases n,
{
    if n < 10 {
        assert(decimal(n).drop_last() =~= Seq::<char>::empty());
        assert(number(decimal(n).drop_last()) == 0);
    } else {
        lemma_decimal(n / 10);
        assert(decimal(n).drop_last() =~= decimal(n / 10));
    }
}

/// A number in decimal is read back, whatever the limit that it stays within.
pub proof fn lemma_unsigned_decimal(n: nat, max: nat)
    requires
        n <= max,
    ensures
        unsigned(decimal(n), max) == Some(n),
        trimmed(decimal(n)),
        forall|c: char| decimal(n).contains(c) ==> is_digit(c),
{
    lemma_decimal(n);
    let s = decimal(n);
    assert(is_digit(s[0]));
    assert(is_digit(s[s.len() - 1]));
}

/// `n` in decimal.
pub fn decimal_chars(n: u128) -> (chars: Vec<char>)
    ensures
        chars@ == decimal(n as nat),
    decreases n,
{
    let mut chars: Vec<char> = if n < 10 {
        Vec::new()
    } else {
        decimal_chars(n / 10)
    };
    let d: u8 = (n % 10) as u8;
    chars.push((48u8 + d) as char);
    assert(chars@ =~= decimal(n as nat));
    chars
}

/// The unsigned number of at most `max` that the text stands for.
pub fn parse_unsigned(text: &[char], max: u32) -> (value: Option<u32>)
    ensures
        match value {
            Some(n) => unsigned(text@, max as nat) == Some(n as nat),
            None => unsigned(text@, max as nat) is None,
        },
{
    let start: usize = if text.len() > 0 && text[0] == '+' {
        1
    } else {
        0
    };
    let digits = slice_subrange(text, start, text.len());
    proof {
        if start == 0 {
            assert(digits@ =~= text@);
        } else {
            assert(digits@ =~= text@.drop_first());
        }
    }
    if digits.len() == 0 {
        return None;
    }
    let mut value: u64 = 0;
    for i in 0..digits.len()
        invariant
            value == number(digits@.take(i as int)),
            value <= max,
            forall|j: int| 0 <= j < i ==> is_digit(#[trigger] digits@[j]),
            unsigned(text@, max as nat) == (if digits@.len() > 0 && all_digits(digits@) && number(
                digits@,
            ) <= max {
                Some(number(digits@))
            } else {
                None
            }),
    {
        let c = digits[i];
        if c < '0' || c > '9' {
            return None;
        }
        value = value * 10 + (c as u32 - 48) as u64;
        proof {
            assert(digits@.take(i + 1).drop_last() =~= digits@.take(i as int));
            lemma_number_grows(digits@, i + 1);
        }
        if value > max as u64 {
            return None;
        }
    }
    assert(digits@.take(digits@.len() as int) =~= digits@);
    Some(value as u32)
}

/// Trimming takes white space away at the two ends, all of it, and nothing else: what is left is a
/// stretch of the text, before and behind which there is only white space, and which neither
/// starts nor ends with any.
pub proof fn law_trim(s: Seq<char>)
    ensures
        exists|start: int, end: int|
            0 <= start <= end <= s.len() && trim(s) == #[trigger] s.subrange(start, end) && (forall|
                i: int,
            |
                0 <= i < start || end <= i < s.len() ==> is_space(#[trigger] s[i])),
        trim(s).len() > 0 ==> !is_space(trim(s).first()) && !is_space(trim(s).last()),
{
    let t = trim_start(s);
    let u = trim(s);
    lemma_trim(s);
    lemma_trim_start(s);
    lemma_trim_end(t);
    lemma_cut_start(s);
    lemma_cut_end(t);
    let start = s.len() - t.len();
    let end = start + u.len();
    assert(u =~= s.subrange(start, end));
    assert forall|i: int| 0 <= i < start || end <= i < s.len() implies is_space(#[trigger] s[i]) by {
        if i >= end {
            assert(t[i - start] == s[i]);
        }
    }
}

/// What is cut off at the start is white space.
proof fn lemma_cut_start(s: Seq<char>)
    ensures
        forall|i: int| 0 <= i < s.len() - trim_start(s).len() ==> is_space(#[trigger] s[i]),
    decreases s.len(),
{
    if s.len() > 0 && is_space(s.first()) {
        let rest = s.drop_first();
        lemma_cut_start(rest);
        assert forall|i: int| 0 <= i < s.len() - trim_start(s).len() implies is_space(
            #[trigger] s[i],
        ) by {
            if i > 0 {
                assert(rest[i - 1] == s[i]);
            }
        }
    }
}

/// What is cut off at the end is white space.
proof fn lemma_cut_end(s: Seq<char>)
    ensures
        forall|i: int| trim_end(s).len() <= i < s.len() ==> is_space(#[trigger] s[i]),
    decreases s.len(),
{
    if s.len() > 0 && is_space(s.last()) {
        let rest = s.drop_last();
        lemma_cut_end(rest);
        assert forall|i: int| trim_end(s).len() <= i < s.len() implies is_space(#[trigger] s[i]) by {
            if i < rest.len() {
                assert(rest[i] == s[i]);
            }
        }
    }
}

/// The items of all the parts, with `sep` between two parts.
pub open spec fn joined_by<T>(parts: Seq<Seq<T>>, sep: T) -> Seq<T>
    decreases parts.len(),
{
    if parts.len() == 0 {
        seq![]
    } else if parts.len() == 1 {
        parts[0]
    } else {
        parts[0] + seq![sep] + joined_by(parts.drop_first(), sep)
    }
}

/// Cutting a text at its separators loses nothing: the pieces, put together with separators
/// between them, are the text; and no piece holds a separator.
pub proof fn law_pieces<T>(s: Seq<T>, sep: T)
    ensures
        joined_by(pieces(s, sep), sep) == s,
        pieces(s, sep).len() > 0,
        forall|i: int| 0 <= i < pieces(s, sep).len() ==> !(#[trigger] pieces(s, sep)[i]).contains(sep),
    decreases s.len(),
{
    lemma_find(s, sep);
    let i = find(s, sep) as int;
    if i < s.len() {
        let head = s.take(i);
        let rest = s.skip(i + 1);
        law_pieces(rest, sep);
        let all = pieces(s, sep);
        assert(all =~= seq![head] + pieces(rest, sep));
        assert(all.drop_first() =~= pieces(rest, sep));
        assert(head + seq![sep] + rest =~= s);
        assert forall|k: int| 0 <= k < all.len() implies !(#[trigger] all[k]).contains(sep) by {
            if k == 0 {
                lemma_no_sep(s, sep, i);
            } else {
                assert(all[k] == pieces(rest, sep)[k - 1]);
            }
        }
    } else {
        lemma_no_sep(s, sep, s.len() as int);
        assert(s.take(s.len() as int) =~= s);
    }
}

/// No separator stands before the first one.
proof fn lemma_no_sep<T>(s: Seq<T>, sep: T, n: int)
    requires
        0 <= n <= find(s, sep),
        n <= s.len(),
    ensures
        !s.take(n).contains(sep),
{
    lemma_find(s, sep);
    let head = s.take(n);
    if head.contains(sep) {
        let k = choose|k: int| 0 <= k < head.len() && head[k] == sep;
        assert(s[k] == sep);
    }
}

/// Cutting a text at its first separators loses nothing either: there are at most `limit` fields,
/// of which only the last, and only where there are `limit`, may hold separators; and put together
/// with separators between them they are the text.
pub proof fn law_fields<T>(s: Seq<T>, sep: T, limit: nat)
    requires
        limit > 0,
    ensures
        joined_by(fields(s, sep, limit), sep) == s,
        0 < fields(s, sep, limit).len() <= limit,
        forall|i: int|
            0 <= i < fields(s, sep, limit).len() && i + 1 < limit ==> !(#[trigger] fields(
                s,
                sep,
                limit,
            )[i]).contains(sep),
    decreases limit,
{
    lemma_find(s, sep);
    let i = find(s, sep) as int;
    let all = fields(s, sep, limit);
    if limit == 1 || i >= s.len() {
        assert(all =~= seq![s]);
        if i >= s.len() {
            lemma_no_sep(s, sep, s.len() as int);
            assert(s.take(s.len() as int) =~= s);
        }
    } else {
        let head = s.take(i);
        let rest = s.skip(i + 1);
        let less = (limit - 1) as nat;
        law_fields(rest, sep, less);
        assert(all =~= seq![head] + fields(rest, sep, less));
        assert(all.drop_first() =~= fields(rest, sep, less));
        assert(head + seq![sep] + rest =~= s);
        assert forall|k: int| 0 <= k < all.len() && k + 1 < limit implies !(
        #[trigger] all[k]).contains(sep) by {
            if k == 0 {
                lemma_no_sep(s, sep, i);
            } else {
                assert(all[k] == fields(rest, sep, less)[k - 1]);
            }
        }
    }
}

/// A number in decimal starts with a zero only where it is zero, consists of digits, and stands for
/// the number that was written: each digit for ten times what those behind it can count to.
pub proof fn law_decimal(n: nat)
    ensures
        decimal(n).len() > 0,
        forall|i: int| 0 <= i < decimal(n).len() ==> '0' <= #[trigger] decimal(n)[i] <= '9',
        n > 0 ==> decimal(n)[0] != '0',
        n < 10 ==> decimal(n).len() == 1 && decimal(n)[0] as nat == 48 + n,
        n >= 10 ==> decimal(n).drop_last() == decimal(n / 10) && decimal(n).last() as nat == 48 + n
            % 10,
    decreases n,
{
    lemma_decimal(n);
    if n >= 10 {
        law_decimal(n / 10);
        assert(decimal(n).drop_last() =~= decimal(n / 10));
        assert(decimal(n)[0] == decimal(n / 10)[0]);
    }
    assert forall|i: int| 0 <= i < decimal(n).len() implies '0' <= #[trigger] decimal(n)[i] <= '9' by {
        assert(is_digit(decimal(n)[i]));
    }
}

/// Which texts are read as a number: one or more digits, with or without a plus sign before them,
/// whose number stays within the limit. Zeros at the front change nothing, and each further digit
/// counts the number tenfold.
pub proof fn law_unsigned(s: Seq<char>, max: nat, c: char)
    ensures
        unsigned(seq![], max) is None,
        unsigned(seq!['+'], max) is None,
        unsigned(seq![c], max) == (if '0' <= c <= '9' && c as nat - 48 <= max {
            Some((c as nat - 48) as nat)
        } else {
            None
        }),
        s.len() > 0 && s[0] != '+' ==> unsigned(seq!['+'] + s, max) == unsigned(s, max),
        s.len() > 0 && '0' <= s.last() <= '9' && unsigned(s.drop_last(), max) is Some ==> ({
            let value = unsigned(s.drop_last(), max)->0 * 10 + (s.last() as nat - 48) as nat;
            unsigned(s, max) == if value <= max {
                Some(value)
            } else {
                None
            }
        }),
        (exists|i: int| 1 <= i < s.len() && !('0' <= #[trigger] s[i] <= '9')) ==> unsigned(s, max)
            is None,
        s.len() > 0 && s[0] != '+' && !('0' <= s[0] <= '9') ==> unsigned(s, max) is None,
        s.len() > 1 && s != seq!['+', s[1]] && unsigned(s.drop_last(), max) is None ==> unsigned(s, max)
            is None,
{
    let single = seq![c];
    assert(single.drop_last() =~= Seq::<char>::empty());
    assert(number(single.drop_last()) == 0);
    assert(single.drop_first() =~= Seq::<char>::empty());
    assert(seq!['+'].drop_first() =~= Seq::<char>::empty());
    if !('0' <= c <= '9') {
        assert(!is_digit(single[0]));
    }
    let plus = seq!['+'] + s;
    assert(plus.drop_first() =~= s);
    let start: int = if s.len() > 0 && s[0] == '+' {
        1
    } else {
        0
    };
    let digits = s.skip(start);
    assert(s.skip(0) =~= s);
    assert(s.len() > 0 ==> s.drop_first() =~= s.skip(1));
    if s.len() > 0 && '0' <= s.last() <= '9' && unsigned(s.drop_last(), max) is Some {
        let shorter = s.drop_last();
        assert(shorter.skip(0) =~= shorter);
        assert(shorter.len() > 0 ==> shorter.drop_first() =~= shorter.skip(1));
        assert(shorter.len() > 0);
        assert(shorter[0] == s[0]);
        let less = shorter.skip(start);
        assert(digits.drop_last() =~= less);
        assert(all_digits(less));
        assert forall|i: int| 0 <= i < digits.len() implies is_digit(#[trigger] digits[i]) by {
            if i < less.len() {
                assert(digits[i] == less[i]);
            }
        }
    }
    if exists|i: int| 1 <= i < s.len() && !('0' <= #[trigger] s[i] <= '9') {
        let i = choose|i: int| 1 <= i < s.len() && !('0' <= #[trigger] s[i] <= '9');
        assert(!is_digit(digits[i - start]));
    }
    if s.len() > 0 && s[0] != '+' && !('0' <= s[0] <= '9') {
        assert(!is_digit(digits[0]));
    }
    if s.len() > 1 && s != seq!['+', s[1]] && unsigned(s, max) is Some {
        let shorter = s.drop_last();
        let less = shorter.skip(start);
        assert(shorter.skip(0) =~= shorter);
        assert(shorter.drop_first() =~= shorter.skip(1));
        assert(digits.drop_last() =~= less);
        assert(less.len() > 0) by {
            if less.len() == 0 {
                assert(s =~= seq!['+', s[1]]);
            }
        }
        assert(all_digits(digits));
        assert forall|i: int| 0 <= i < less.len() implies is_digit(#[trigger] less[i]) by {
            assert(digits[i] == less[i]);
        }
        lemma_number_grows(digits, digits.len() - 1);
        assert(digits.take(digits.len() - 1) =~= less);
    }
}

/// A last piece without a separator in it is found again.
pub proof fn lemma_pieces_push<T>(s: Seq<T>, sep: T, last: Seq<T>)
    requires
        !last.contains(sep),
    ensures
        pieces(s + seq![sep] + last, sep) == pieces(s, sep).push(last),
    decreases s.len(),
{
    lemma_find(s, sep);
    let all = s + seq![sep] + last;
    let i = find(s, sep) as int;
    if i < s.len() {
        let head = s.take(i);
        let rest = s.skip(i + 1);
        lemma_no_sep(s, sep, i);
        lemma_pieces_push(rest, sep, last);
        let tail = rest + seq![sep] + last;
        assert(all =~= head + seq![sep] + tail);
        lemma_pieces_cons(head, tail, sep);
        assert(seq![head] + pieces(rest, sep).push(last) =~= (seq![head] + pieces(rest, sep)).push(
            last,
        ));
    } else {
        lemma_no_sep(s, sep, s.len() as int);
        assert(s.take(s.len() as int) =~= s);
        lemma_pieces_cons(s, last, sep);
        lemma_pieces_one(last, sep);
        assert(seq![s] + seq![last] =~= seq![s].push(last));
    }
}

/// The slices hold what is in them, each in its place.
pub proof fn law_contents(slices: Seq<&[char]>, i: int)
    ensures
        contents(slices).len() == slices.len(),
        0 <= i < slices.len() ==> contents(slices)[i] == slices[i]@,
{
}

} // verus!
