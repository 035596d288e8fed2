//! Text primitives over character sequences: building, decimal and hexadecimal
//! numerals, trimming, words, searching and integer parsing.
use vstd::prelude::*;
use vstd::string::*;

verus! {

/// `String::push` appends one character at the end of the text.
pub assume_specification[ String::push ](s: &mut String, c: char)
    ensures
        final(s)@ == old(s)@.push(c),
;

// ---------------------------------------------------------------------------
// Numerals
// ---------------------------------------------------------------------------
/// The lower-case digit of value `d`, for `d` below 16.
pub open spec fn digit_char(d: int) -> char {
    if d < 10 {
        (48 + d) as char
    } else {
        (87 + d) as char
    }
}

/// `n` in base ten, without leading zeros.
pub open spec fn decimal(n: nat) -> Seq<char>
    decreases n,
{
    if n < 10 {
        seq![digit_char(n as int)]
    } else {
        decimal(n / 10).push(digit_char((n % 10) as int))
    }
}

/// `n` in base ten, with a minus sign when it is negative.
pub open spec fn signed_decimal(n: int) -> Seq<char> {
    if n < 0 {
        seq!['-'] + decimal((-n) as nat)
    } else {
        decimal(n as nat)
    }
}

/// `n` in base ten, always with a sign.
pub open spec fn explicit_signed_decimal(n: int) -> Seq<char> {
    if n < 0 {
        seq!['-'] + decimal((-n) as nat)
    } else {
        seq!['+'] + decimal(n as nat)
    }
}

/// `n` in base sixteen with lower-case digits, without leading zeros.
pub open spec fn hex(n: nat) -> Seq<char>
    decreases n,
{
    if n < 16 {
        seq![digit_char(n as int)]
    } else {
        hex(n / 16).push(digit_char((n % 16) as int))
    }
}

/// `count` copies of `c`.
pub open spec fn repeated(c: char, count: int) -> Seq<char> {
    Seq::new(if count < 0 { 0 } else { count as nat }, |i: int| c)
}

/// `s` padded on the left with zeros to at least `width` characters.
pub open spec fn zero_padded(s: Seq<char>, width: int) -> Seq<char> {
    repeated('0', width - s.len()) + s
}

fn digit(d: u8) -> (c: char)
    requires
        d < 16,
    ensures
        c == digit_char(d as int),
{
    if d < 10 {
        (48 + d) as char
    } else {
        (87 + d) as char
    }
}

/// Appends `n` in base ten.
pub fn push_decimal(out: &mut String, n: u64)
    ensures
        final(out)@ == old(out)@ + decimal(n as nat),
    decreases n,
{
    if n >= 10 {
        push_decimal(out, n / 10);
    }
    out.push(digit((n % 10) as u8));
}

/// Appends `n` in base ten.
pub fn push_wide_decimal(out: &mut String, n: u128)
    ensures
        final(out)@ == old(out)@ + decimal(n as nat),
    decreases n,
{
    if n >= 10 {
        push_wide_decimal(out, n / 10);
    }
    out.push(digit((n % 10) as u8));
    assert(out@ =~= old(out)@ + decimal(n as nat));
}

/// Appends `n` in base sixteen.
pub fn push_hex(out: &mut String, n: u64)
    ensures
        final(out)@ == old(out)@ + hex(n as nat),
    decreases n,
{
    if n >= 16 {
        push_hex(out, n / 16);
    }
    out.push(digit((n % 16) as u8));
}

/// Appends `count` copies of `c`.
pub fn push_repeated(out: &mut String, c: char, count: usize)
    ensures
        final(out)@ == old(out)@ + repeated(c, count as int),
{
    let mut i: usize = 0;
    while i < count
        invariant
            i <= count,
            out@ == old(out)@ + repeated(c, i as int),
        decreases count - i,
    {
        out.push(c);
        i += 1;
        assert(out@ =~= old(out)@ + repeated(c, i as int));
    }
}

/// Appends a signed integer in base ten.
pub fn push_signed(out: &mut String, n: i64)
    ensures
        final(out)@ == old(out)@ + signed_decimal(n as int),
{
    if n < 0 {
        out.push('-');
        push_magnitude(out, n);
    } else {
        push_decimal(out, n as u64);
    }
    assert(out@ =~= old(out)@ + signed_decimal(n as int));
}

/// Appends a signed integer in base ten, always with a sign.
pub fn push_explicit_signed(out: &mut String, n: i64)
    ensures
        final(out)@ == old(out)@ + explicit_signed_decimal(n as int),
{
    if n < 0 {
        out.push('-');
        push_magnitude(out, n);
    } else {
        out.push('+');
        push_decimal(out, n as u64);
    }
    assert(out@ =~= old(out)@ + explicit_signed_decimal(n as int));
}

fn push_magnitude(out: &mut String, n: i64)
    requires
        n < 0,
    ensures
        final(out)@ == old(out)@ + decimal((-(n as int)) as nat),
{
    let magnitude: u64 = (-(n as i128)) as u64;
    push_decimal(out, magnitude);
}

/// Appends `n` in base sixteen, padded with zeros to four digits.
pub fn push_hex4(out: &mut String, n: u32)
    ensures
        final(out)@ == old(out)@ + zero_padded(hex(n as nat), 4),
{
    let mut digits = String::new();
    push_hex(&mut digits, n as u64);
    assert(digits@ =~= hex(n as nat));
    let width: usize = count_chars(&digits);
    if width < 4 {
        push_repeated(out, '0', 4 - width);
    }
    out.append(&digits);
    assert(out@ =~= old(out)@ + zero_padded(hex(n as nat), 4));
}

/// The decimal text of `n`.
pub fn decimal_string(n: u64) -> (s: String)
    ensures
        s@ == decimal(n as nat),
{
    let mut out = String::new();
    push_decimal(&mut out, n);
    assert(out@ =~= decimal(n as nat));
    out
}

// ---------------------------------------------------------------------------
// Sequences of texts
// ---------------------------------------------------------------------------
/// The parts in order with `sep` between neighbours.
pub open spec fn join(parts: Seq<Seq<char>>, sep: Seq<char>) -> Seq<char>
    decreases parts.len(),
{
    if parts.len() == 0 {
        Seq::empty()
    } else if parts.len() == 1 {
        parts[0]
    } else {
        join(parts.drop_last(), sep) + sep + parts.last()
    }
}

/// The texts of a vector of strings.
pub open spec fn views(parts: Seq<String>) -> Seq<Seq<char>> {
    parts.map_values(|s: String| s@)
}

/// `[a, b, c]`, the way a list of sizes is shown in messages.
pub open spec fn list_text(values: Seq<usize>) -> Seq<char> {
    "["@ + join(values.map_values(|v: usize| decimal(v as nat)), ", "@) + "]"@
}

/// Joins the parts with `sep` between neighbours.
pub fn join_strings(parts: &Vec<String>, sep: &str) -> (out: String)
    ensures
        out@ == join(views(parts@), sep@),
{
    let mut out = String::new();
    let mut i: usize = 0;
    while i < parts.len()
        invariant
            i <= parts.len(),
            out@ == join(views(parts@).take(i as int), sep@),
        decreases parts.len() - i,
    {
        if i > 0 {
            out.append(sep);
        }
        out.append(&parts[i]);
        proof {
            let upto = views(parts@).take(i as int + 1);
            assert(upto.drop_last() =~= views(parts@).take(i as int));
            assert(upto.last() == parts[i as int]@);
            if i == 0 {
                assert(out@ =~= upto[0]);
            }
        }
        i += 1;
    }
    assert(views(parts@).take(i as int) =~= views(parts@));
    out
}

/// Appends a list of sizes.
pub fn push_list(out: &mut String, values: &[usize])
    ensures
        final(out)@ == old(out)@ + list_text(values@),
{
    let ghost texts = values@.map_values(|v: usize| decimal(v as nat));
    let ghost start = out@;
    out.append("[");
    let mut i: usize = 0;
    while i < values.len()
        invariant
            i <= values.len(),
            texts == values@.map_values(|v: usize| decimal(v as nat)),
            out@ == start + "["@ + join(texts.take(i as int), ", "@),
        decreases values.len() - i,
    {
        if i > 0 {
            out.append(", ");
        }
        push_decimal(out, values[i] as u64);
        proof {
            let upto = texts.take(i as int + 1);
            assert(upto.drop_last() =~= texts.take(i as int));
            assert(upto.last() == decimal(values[i as int] as nat));
            assert(out@ =~= start + "["@ + join(upto, ", "@));
        }
        i += 1;
    }
    out.append("]");
    assert(texts.take(i as int) =~= texts);
    assert(out@ =~= start + list_text(values@));
}

// ---------------------------------------------------------------------------
// Characters
// ---------------------------------------------------------------------------
/// The characters of a text as a vector.
pub fn chars_of(s: &str) -> (v: Vec<char>)
    ensures
        v@ == s@,
{
    let mut v: Vec<char> = Vec::new();
    for c in iter: s.chars()
        invariant
            v@ == iter.seq().take(iter.index() as int),
            iter.seq() == s@,
    {
        v.push(c);
        assert(iter.seq().take(iter.index() as int + 1) =~= iter.seq().take(
            iter.index() as int,
        ).push(c));
    }
    assert(s@.take(s@.len() as int) =~= s@);
    v
}

/// The number of characters of a text.
pub fn count_chars(s: &str) -> (n: usize)
    ensures
        n == s@.len(),
{
    chars_of(s).len()
}

/// The text made of the characters from `from` up to `to`.
pub fn string_of(chars: &[char], from: usize, to: usize) -> (s: String)
    requires
        from <= to <= chars.len(),
    ensures
        s@ == chars@.subrange(from as int, to as int),
{
    let mut s = String::new();
    let mut i: usize = from;
    while i < to
        invariant
            from <= i <= to <= chars.len(),
            s@ == chars@.subrange(from as int, i as int),
        decreases to - i,
    {
        s.push(chars[i]);
        i += 1;
        assert(s@ =~= chars@.subrange(from as int, i as int));
    }
    s
}

/// The characters with the Unicode `White_Space` property.
pub open spec fn is_space(c: char) -> bool {
    let u = c as int;
    9 <= u <= 13 || u == 32 || u == 0x85 || u == 0xA0 || u == 0x1680 || 0x2000 <= u <= 0x200A || u
        == 0x2028 || u == 0x2029 || u == 0x202F || u == 0x205F || u == 0x3000
}

pub open spec fn is_digit(c: char) -> bool {
    48 <= c as int <= 57
}

/// An ASCII capital becomes the small letter; everything else stays.
pub open spec fn lower_char(c: char) -> char {
    if 65 <= c as int <= 90 {
        ((c as int) + 32) as char
    } else {
        c
    }
}

pub open spec fn ascii_lowercase(s: Seq<char>) -> Seq<char> {
    s.map_values(|c: char| lower_char(c))
}

/// Whether `c` is white space.
pub fn is_space_char(c: char) -> (b: bool)
    ensures
        b == is_space(c),
{
    let u: u32 = c as u32;
    (9 <= u && u <= 13) || u == 32 || u == 0x85 || u == 0xA0 || u == 0x1680 || (0x2000 <= u && u
        <= 0x200A) || u == 0x2028 || u == 0x2029 || u == 0x202F || u == 0x205F || u == 0x3000
}

/// Whether `c` is an ASCII digit.
pub fn is_digit_char(c: char) -> (b: bool)
    ensures
        b == is_digit(c),
{
    let u: u32 = c as u32;
    48 <= u && u <= 57
}

/// The text with its ASCII capitals made small.
pub fn lowercase(s: &str) -> (out: String)
    ensures
        out@ == ascii_lowercase(s@),
{
    let chars = chars_of(s);
    let mut out = String::new();
    let mut i: usize = 0;
    while i < chars.len()
        invariant
            i <= chars.len(),
            chars@ == s@,
            out@ == ascii_lowercase(s@).take(i as int),
        decreases chars.len() - i,
    {
        let u: u32 = chars[i] as u32;
        if 65 <= u && u <= 90 {
            out.push((u as u8 + 32) as char);
        } else {
            out.push(chars[i]);
        }
        i += 1;
        assert(out@ =~= ascii_lowercase(s@).take(i as int));
    }
    assert(ascii_lowercase(s@).take(i as int) =~= ascii_lowercase(s@));
    out
}

// ---------------------------------------------------------------------------
// Searching
// ---------------------------------------------------------------------------
/// `needle` stands in `hay` at `i`.
pub open spec fn occurs_at(hay: Seq<char>, needle: Seq<char>, i: int) -> bool {
    0 <= i && i + needle.len() <= hay.len() && hay.subrange(i, i + needle.len()) == needle
}

/// The first place at or after `i` where `needle` stands in `hay`.
pub open spec fn find_from(hay: Seq<char>, needle: Seq<char>, i: int) -> Option<int>
    decreases hay.len() + 1 - i,
{
    if i < 0 || i + needle.len() > hay.len() {
        None
    } else if occurs_at(hay, needle, i) {
        Some(i)
    } else {
        find_from(hay, needle, i + 1)
    }
}

/// The first place where `needle` stands in `hay`.
pub open spec fn find(hay: Seq<char>, needle: Seq<char>) -> Option<int> {
    find_from(hay, needle, 0)
}

pub open spec fn contains(hay: Seq<char>, needle: Seq<char>) -> bool {
    exists|i: int| occurs_at(hay, needle, i)
}

/// What `find_from` names is the first occurrence from `i` on.
pub proof fn lemma_find_from(hay: Seq<char>, needle: Seq<char>, i: int)
    requires
        0 <= i,
    ensures
        find_from(hay, needle, i) matches Some(k) ==> i <= k && occurs_at(hay, needle, k) && forall|
            j: int,
        |
            i <= j < k ==> !occurs_at(hay, needle, j),
        find_from(hay, needle, i) is None ==> forall|j: int|
            i <= j ==> !occurs_at(hay, needle, j),
    decreases hay.len() + 1 - i,
{
    if i + needle.len() <= hay.len() && !occurs_at(hay, needle, i) {
        lemma_find_from(hay, needle, i + 1);
    }
}

/// Whether `needle` stands at `at` in `hay`.
pub fn stands_at(hay: &[char], needle: &[char], at: usize) -> (b: bool)
    ensures
        b == occurs_at(hay@, needle@, at as int),
{
    if at > hay.len() || needle.len() > hay.len() - at {
        return false;
    }
    let mut k: usize = 0;
    while k < needle.len()
        invariant
            k <= needle.len(),
            at + needle.len() <= hay.len(),
            hay@.subrange(at as int, at + k) =~= needle@.take(k as int),
        decreases needle.len() - k,
    {
        if hay[at + k] != needle[k] {
            assert(hay@.subrange(at as int, at + needle.len())[k as int] != needle@[k as int]);
            return false;
        }
        k += 1;
    }
    assert(needle@.take(k as int) =~= needle@);
    true
}

/// Searches `needle` in `hay` from `start` on.
pub fn find_chars(hay: &[char], needle: &[char], start: usize) -> (r: Option<usize>)
    ensures
        match r {
            Some(k) => find_from(hay@, needle@, start as int) == Some(k as int) && start <= k && k
                + needle.len() <= hay.len(),
            None => find_from(hay@, needle@, start as int) is None,
        },
{
    let mut i: usize = start;
    while i <= hay.len() && needle.len() <= hay.len() - i
        invariant
            start <= i,
            find_from(hay@, needle@, start as int) == find_from(hay@, needle@, i as int),
        decreases hay.len() + 1 - i,
    {
        if stands_at(hay, needle, i) {
            return Some(i);
        }
        proof {
            if i == hay.len() {
                assert(hay@.subrange(i as int, i + needle.len()) =~= needle@);
            }
        }
        i += 1;
    }
    None
}

/// Whether `needle` stands somewhere in `hay`.
pub fn contains_str(hay: &str, needle: &str) -> (b: bool)
    ensures
        b == contains(hay@, needle@),
{
    let h = chars_of(hay);
    let n = chars_of(needle);
    let found = find_chars(&h, &n, 0);
    proof {
        lemma_find_from(hay@, needle@, 0);
    }
    found.is_some()
}

pub open spec fn starts_with(s: Seq<char>, prefix: Seq<char>) -> bool {
    occurs_at(s, prefix, 0)
}

/// Whether `s` begins with `prefix`.
pub fn starts_with_str(s: &str, prefix: &str) -> (b: bool)
    ensures
        b == starts_with(s@, prefix@),
{
    let h = chars_of(s);
    let n = chars_of(prefix);
    stands_at(&h, &n, 0)
}

/// The first place at or after `i` of a character that is no digit, or the length.
pub open spec fn digits_end(s: Seq<char>, i: int) -> int
    decreases s.len() - i,
{
    if i < 0 || i >= s.len() || !is_digit(s[i]) {
        i
    } else {
        digits_end(s, i + 1)
    }
}

/// The first place at or after `i` of the character `c`, or the length.
pub open spec fn char_or_end(s: Seq<char>, c: char, i: int) -> int
    decreases s.len() - i,
{
    if i < 0 || i >= s.len() || s[i] == c {
        i
    } else {
        char_or_end(s, c, i + 1)
    }
}

/// The part of `s` before the first `c`, or all of it.
pub open spec fn before_char(s: Seq<char>, c: char) -> Seq<char> {
    s.take(char_or_end(s, c, 0))
}

/// Scans digits from `start` on.
pub fn scan_digits(s: &[char], start: usize) -> (end: usize)
    requires
        start <= s.len(),
    ensures
        end == digits_end(s@, start as int),
        start <= end <= s.len(),
{
    let mut i: usize = start;
    while i < s.len() && is_digit_char(s[i])
        invariant
            start <= i <= s.len(),
            digits_end(s@, start as int) == digits_end(s@, i as int),
        decreases s.len() - i,
    {
        i += 1;
    }
    i
}

/// Scans to the next `c` from `start` on, or to the end.
pub fn scan_to(s: &[char], c: char, start: usize) -> (end: usize)
    requires
        start <= s.len(),
    ensures
        end == char_or_end(s@, c, start as int),
        start <= end <= s.len(),
{
    let mut i: usize = start;
    while i < s.len() && s[i] != c
        invariant
            start <= i <= s.len(),
            char_or_end(s@, c, start as int) == char_or_end(s@, c, i as int),
        decreases s.len() - i,
    {
        i += 1;
    }
    i
}

// ---------------------------------------------------------------------------
// Trimming and words
// ---------------------------------------------------------------------------
/// The first place at or after `i` that is no white space, or the length.
pub open spec fn word_start(s: Seq<char>, i: int) -> int
    decreases s.len() - i,
{
    if i < 0 || i >= s.len() || !is_space(s[i]) {
        i
    } else {
        word_start(s, i + 1)
    }
}

/// The first place at or after `i` that is white space, or the length.
pub open spec fn word_end(s: Seq<char>, i: int) -> int
    decreases s.len() - i,
{
    if i < 0 || i >= s.len() || is_space(s[i]) {
        i
    } else {
        word_end(s, i + 1)
    }
}

/// The length of `s` without the white space at its end.
pub open spec fn trimmed_len(s: Seq<char>, n: int) -> int
    decreases n,
{
    if n <= 0 || n > s.len() || !is_space(s[n - 1]) {
        n
    } else {
        trimmed_len(s, n - 1)
    }
}

/// `s` without the white space at both ends.
pub open spec fn trim(s: Seq<char>) -> Seq<char> {
    let a = word_start(s, 0);
    let b = trimmed_len(s, s.len() as int);
    if a < b {
        s.subrange(a, b)
    } else {
        Seq::empty()
    }
}

/// The maximal runs of characters that are no white space, from `i` on.
pub open spec fn words_from(s: Seq<char>, i: int) -> Seq<Seq<char>>
    decreases s.len() - i,
{
    if i < 0 || i >= s.len() {
        Seq::empty()
    } else {
        let a = word_start(s, i);
        let b = word_end(s, a);
        if i <= a < b <= s.len() {
            seq![s.subrange(a, b)] + words_from(s, b)
        } else {
            Seq::empty()
        }
    }
}

/// The words of `s`: its maximal runs of characters that are no white space.
pub open spec fn words(s: Seq<char>) -> Seq<Seq<char>> {
    words_from(s, 0)
}

/// Scans white space from `start` on.
pub fn skip_space(s: &[char], start: usize) -> (end: usize)
    requires
        start <= s.len(),
    ensures
        end == word_start(s@, start as int),
        start <= end <= s.len(),
        end < s.len() ==> !is_space(s@[end as int]),
{
    let mut i: usize = start;
    while i < s.len() && is_space_char(s[i])
        invariant
            start <= i <= s.len(),
            word_start(s@, start as int) == word_start(s@, i as int),
        decreases s.len() - i,
    {
        i += 1;
    }
    i
}

/// Scans a word from `start` on.
pub fn skip_word(s: &[char], start: usize) -> (end: usize)
    requires
        start <= s.len(),
    ensures
        end == word_end(s@, start as int),
        start <= end <= s.len(),
        start < s.len() && !is_space(s@[start as int]) ==> start < end,
{
    let mut i: usize = start;
    while i < s.len() && !is_space_char(s[i])
        invariant
            start <= i <= s.len(),
            word_end(s@, start as int) == word_end(s@, i as int),
            start < s.len() && !is_space(s@[start as int]) && i == start ==> i < s.len()
                && !is_space(s@[i as int]),
        decreases s.len() - i,
    {
        i += 1;
    }
    i
}

/// Drops white space at both ends.
pub fn trim_string(s: &str) -> (out: String)
    ensures
        out@ == trim(s@),
{
    let chars = chars_of(s);
    let a: usize = skip_space(&chars, 0);
    let mut b: usize = chars.len();
    while b > 0 && is_space_char(chars[b - 1])
        invariant
            b <= chars.len(),
            chars@ == s@,
            trimmed_len(s@, s@.len() as int) == trimmed_len(s@, b as int),
        decreases b,
    {
        b -= 1;
    }
    if a < b {
        string_of(&chars, a, b)
    } else {
        String::new()
    }
}

/// Splits a text into its words.
pub fn split_words(s: &str) -> (out: Vec<String>)
    ensures
        views(out@) == words(s@),
{
    let chars = chars_of(s);
    let mut out: Vec<String> = Vec::new();
    let mut i: usize = 0;
    while i < chars.len()
        invariant
            i <= chars.len(),
            chars@ == s@,
            views(out@) + words_from(s@, i as int) == words(s@),
        decreases chars.len() - i,
    {
        let ghost before = out@;
        let a: usize = skip_space(&chars, i);
        if a == chars.len() {
            proof {
                assert(words_from(s@, i as int) =~= Seq::<Seq<char>>::empty());
                assert(views(out@) =~= words(s@));
            }
            return out;
        }
        let b: usize = skip_word(&chars, a);
        let word = string_of(&chars, a, b);
        out.push(word);
        proof {
            assert(words_from(s@, i as int) == seq![word@] + words_from(s@, b as int));
            assert(views(out@) =~= views(before).push(word@));
            assert(views(before) + (seq![word@] + words_from(s@, b as int)) =~= views(before).push(
                word@,
            ) + words_from(s@, b as int));
        }
        i = b;
    }
    assert(words_from(s@, i as int) =~= Seq::<Seq<char>>::empty());
    assert(views(out@) =~= words(s@));
    out
}

// ---------------------------------------------------------------------------
// Integers
// ---------------------------------------------------------------------------
/// The value of a digit in bases up to sixteen, or 16 for another character.
pub open spec fn digit_value(c: char) -> int {
    let u = c as int;
    if 48 <= u <= 57 {
        u - 48
    } else if 97 <= u <= 102 {
        u - 87
    } else if 65 <= u <= 70 {
        u - 55
    } else {
        16
    }
}

/// All characters of `s` are digits of the base.
pub open spec fn all_digits(s: Seq<char>, base: int) -> bool {
    forall|i: int| 0 <= i < s.len() ==> digit_value(#[trigger] s[i]) < base
}

/// The value of a run of digits.
pub open spec fn number_value(s: Seq<char>, base: int) -> int
    decreases s.len(),
{
    if s.len() == 0 {
        0
    } else {
        number_value(s.drop_last(), base) * base + digit_value(s.last())
    }
}

/// `s` without one leading plus sign.
pub open spec fn without_plus(s: Seq<char>) -> Seq<char> {
    if s.len() > 0 && s[0] == '+' {
        s.skip(1)
    } else {
        s
    }
}

/// What is wrong with the text of an unsigned integer.
#[derive(Debug, Clone, Copy, PartialEq, Eq, Structural)]
pub enum IntError {
    /// There is no text at all.
    Empty,
    /// There is no digit, or a character that is no digit.
    InvalidDigit,
    /// The value does not fit.
    TooLarge,
}

/// The unsigned integer that a text denotes: an optional plus sign and at least
/// one digit of the base, with a value of at most `max`. Digits are read from the
/// left, so a value that has grown too large is reported before a bad character
/// further right.
pub open spec fn parse_unsigned(s: Seq<char>, base: int, max: int) -> Result<int, IntError> {
    let digits = without_plus(s);
    if s.len() == 0 {
        Err(IntError::Empty)
    } else if digits.len() == 0 {
        Err(IntError::InvalidDigit)
    } else {
        read_digits(digits, digits.len() as int, base, max)
    }
}

/// The value of the first `n` digits, or the first thing wrong with them.
pub open spec fn read_digits(s: Seq<char>, n: int, base: int, max: int) -> Result<int, IntError>
    decreases n,
{
    if n <= 0 {
        Ok(0)
    } else {
        match read_digits(s, n - 1, base, max) {
            Err(e) => Err(e),
            Ok(v) => if digit_value(s[n - 1]) >= base {
                Err(IntError::InvalidDigit)
            } else if v * base + digit_value(s[n - 1]) > max {
                Err(IntError::TooLarge)
            } else {
                Ok(v * base + digit_value(s[n - 1]))
            },
        }
    }
}

/// A text of digits alone that denotes a value within bounds is read as that value.
pub proof fn lemma_read_digits(s: Seq<char>, n: int, base: int, max: int)
    requires
        0 <= n <= s.len(),
        2 <= base <= 16,
        0 <= max,
    ensures
        read_digits(s, n, base, max) matches Ok(v) ==> 0 <= v <= max && all_digits(s.take(n), base)
            && v == number_value(s.take(n), base),
        all_digits(s.take(n), base) && number_value(s.take(n), base) <= max ==> read_digits(
            s,
            n,
            base,
            max,
        ) is Ok,
        all_digits(s.take(n), base) ==> number_value(s.take(n), base) >= 0,
    decreases n,
{
    if n > 0 {
        lemma_read_digits(s, n - 1, base, max);
        let t = s.take(n);
        assert(t.drop_last() =~= s.take(n - 1));
        assert(t.last() == s[n - 1]);
        assert forall|i: int| 0 <= i < n && all_digits(s.take(n - 1), base) && digit_value(s[n - 1])
            < base implies digit_value(#[trigger] t[i]) < base by {
            if i < n - 1 {
                assert(s.take(n - 1)[i] == t[i]);
            }
        }
        if all_digits(t, base) {
            assert forall|i: int| 0 <= i < n - 1 implies digit_value(#[trigger] s.take(n - 1)[i])
                < base by {
                assert(t[i] == s.take(n - 1)[i]);
            }
            assert(digit_value(t[n - 1]) < base);
            let v = number_value(s.take(n - 1), base);
            assert(v * base >= v) by (nonlinear_arith)
                requires
                    v >= 0,
                    base >= 2,
            ;
        }
        if read_digits(s, n - 1, base, max) is Ok {
            let v = read_digits(s, n - 1, base, max)->Ok_0;
            assert(v * base >= 0) by (nonlinear_arith)
                requires
                    v >= 0,
                    base >= 2,
            ;
        }
    } else {
        assert(s.take(0) =~= Seq::<char>::empty());
    }
}

/// A numeral is all digits, and is worth the number that it was made from.
pub proof fn lemma_decimal(n: nat)
    ensures
        decimal(n).len() > 0,
        forall|i: int| 0 <= i < decimal(n).len() ==> is_digit(#[trigger] decimal(n)[i]),
        all_digits(decimal(n), 10),
        number_value(decimal(n), 10) == n,
    decreases n,
{
    if n < 10 {
        let one = decimal(n);
        assert(one.drop_last() =~= Seq::<char>::empty());
        assert(number_value(one.drop_last(), 10) == 0);
    } else {
        lemma_decimal(n / 10);
        let all = decimal(n);
        assert(all.drop_last() =~= decimal(n / 10));
        assert forall|i: int| 0 <= i < all.len() implies is_digit(#[trigger] all[i]) by {
            if i < all.len() - 1 {
                assert(all[i] == decimal(n / 10)[i]);
            }
        }
        assert forall|i: int| 0 <= i < all.len() implies digit_value(#[trigger] all[i]) < 10 by {
            assert(is_digit(all[i]));
        }
    }
}

/// What is written as a numeral is read as the same number.
pub proof fn law_decimal_is_read_back(n: nat, max: int)
    requires
        n <= max,
    ensures
        parse_unsigned(decimal(n), 10, max) == Ok::<int, IntError>(n as int),
{
    lemma_decimal(n);
    let s = decimal(n);
    assert(is_digit(s[0]));
    assert(without_plus(s) == s);
    lemma_read_digits(s, s.len() as int, 10, max);
    assert(s.take(s.len() as int) =~= s);
}

/// The digits of a numeral end where it ends, unless a digit follows.
pub proof fn lemma_numeral_ends(n: nat, rest: Seq<char>, i: int)
    requires
        rest.len() == 0 || !is_digit(rest[0]),
        0 <= i <= decimal(n).len(),
    ensures
        digits_end(decimal(n) + rest, i) == decimal(n).len(),
    decreases decimal(n).len() - i,
{
    lemma_decimal(n);
    let s = decimal(n) + rest;
    if i < decimal(n).len() {
        assert(s[i] == decimal(n)[i]);
        lemma_numeral_ends(n, rest, i + 1);
    } else if rest.len() > 0 {
        assert(s[i] == rest[0]);
    }
}

fn digit_of(c: char) -> (d: u64)
    ensures
        d == digit_value(c),
        d <= 16,
{
    let u: u32 = c as u32;
    if 48 <= u && u <= 57 {
        (u - 48) as u64
    } else if 97 <= u && u <= 102 {
        (u - 87) as u64
    } else if 65 <= u && u <= 70 {
        (u - 55) as u64
    } else {
        16
    }
}

/// Reads an unsigned integer in base `base`.
pub fn parse_u64(s: &[char], base: u64, max: u64) -> (r: Result<u64, IntError>)
    requires
        2 <= base <= 16,
    ensures
        match r {
            Ok(v) => parse_unsigned(s@, base as int, max as int) == Ok::<int, IntError>(v as int) && v
                <= max,
            Err(e) => parse_unsigned(s@, base as int, max as int) == Err::<int, IntError>(e),
        },
{
    if s.len() == 0 {
        return Err(IntError::Empty);
    }
    let from: usize = if s[0] == '+' {
        1
    } else {
        0
    };
    let ghost digits = without_plus(s@);
    assert(digits =~= s@.skip(from as int));
    if from == s.len() {
        return Err(IntError::InvalidDigit);
    }
    let mut value: u64 = 0;
    let mut i: usize = from;
    while i < s.len()
        invariant
            from <= i <= s.len(),
            from <= 1,
            2 <= base <= 16,
            digits == s@.skip(from as int),
            value <= max,
            read_digits(digits, i - from, base as int, max as int) == Ok::<int, IntError>(
                value as int,
            ),
            s.len() > 0,
            digits.len() > 0,
            digits == without_plus(s@),
        decreases s.len() - i,
    {
        let d: u64 = digit_of(s[i]);
        assert(digits[i - from] == s@[i as int]);
        if d >= base {
            proof {
                lemma_read_error_stays(
                    digits,
                    i - from + 1,
                    digits.len() as int,
                    base as int,
                    max as int,
                );
            }
            return Err(IntError::InvalidDigit);
        }
        assert(0 <= value as int * base as int <= u64::MAX * 16) by (nonlinear_arith)
            requires
                value <= u64::MAX,
                base <= 16,
                base >= 0,
        ;
        let wide: u128 = value as u128 * base as u128 + d as u128;
        assert(wide == value as int * base as int + d);
        assert(read_digits(digits, i - from + 1, base as int, max as int) == if wide > max {
            Err::<int, IntError>(IntError::TooLarge)
        } else {
            Ok(wide as int)
        });
        if wide > max as u128 {
            proof {
                lemma_read_error_stays(
                    digits,
                    i - from + 1,
                    digits.len() as int,
                    base as int,
                    max as int,
                );
            }
            return Err(IntError::TooLarge);
        }
        value = wide as u64;
        i += 1;
    }
    Ok(value)
}

/// A fault found in the first digits stays the fault of the whole text.
proof fn lemma_read_error_stays(s: Seq<char>, n: int, m: int, base: int, max: int)
    requires
        0 <= n <= m,
        read_digits(s, n, base, max) is Err,
    ensures
        read_digits(s, m, base, max) == read_digits(s, n, base, max),
    decreases m - n,
{
    if n < m {
        lemma_read_error_stays(s, n, m - 1, base, max);
    }
}

// ---------------------------------------------------------------------------
// Comparing and splitting
// ---------------------------------------------------------------------------
/// Whether two texts are the same.
pub fn same_text(a: &str, b: &str) -> (r: bool)
    ensures
        r == (a@ == b@),
{
    let x = chars_of(a);
    let y = chars_of(b);
    let r = x.len() == y.len() && stands_at(&x, &y, 0);
    assert(a@.len() == b@.len() ==> a@.subrange(0, b@.len() as int) =~= a@);
    r
}

/// The number of bytes of a text in UTF-8.
pub open spec fn byte_count(s: Seq<char>) -> int {
    vstd::utf8::encode_utf8(s).len() as int
}

/// Counts the bytes of a text.
pub fn byte_len(s: &str) -> (n: usize)
    ensures
        n == byte_count(s@),
{
    s.as_bytes().len()
}

/// `a` comes before `b` in the order of dictionaries, character by character.
pub open spec fn text_before(a: Seq<char>, b: Seq<char>) -> bool
    decreases a.len(),
{
    if b.len() == 0 {
        false
    } else if a.len() == 0 {
        true
    } else if a[0] != b[0] {
        (a[0] as int) < (b[0] as int)
    } else {
        text_before(a.skip(1), b.skip(1))
    }
}

/// The order of dictionaries is a strict total order.
pub proof fn lemma_text_order(a: Seq<char>, b: Seq<char>, c: Seq<char>)
    ensures
        !text_before(a, a),
        text_before(a, b) || a == b || text_before(b, a),
        !(text_before(a, b) && text_before(b, a)),
        text_before(a, b) && text_before(b, c) ==> text_before(a, c),
    decreases a.len() + b.len() + c.len(),
{
    if a.len() > 0 && b.len() > 0 {
        let c1 = if c.len() > 0 {
            c.skip(1)
        } else {
            c
        };
        lemma_text_order(a.skip(1), b.skip(1), c1);
        if a[0] == b[0] && a.skip(1) == b.skip(1) {
            assert(a =~= seq![a[0]] + a.skip(1));
            assert(b =~= seq![b[0]] + b.skip(1));
        }
    } else if a.len() > 0 {
        lemma_text_order(a.skip(1), b, c);
    } else if b.len() == 0 {
        assert(a =~= b);
    }
}

fn char_less(a: char, b: char) -> (r: bool)
    ensures
        r == ((a as int) < (b as int)),
{
    (a as u32) < (b as u32)
}

/// Whether `a` comes before `b`.
pub fn text_less(a: &str, b: &str) -> (r: bool)
    ensures
        r == text_before(a@, b@),
{
    let x = chars_of(a);
    let y = chars_of(b);
    let mut i: usize = 0;
    assert(a@.skip(0) =~= a@);
    assert(b@.skip(0) =~= b@);
    while i < x.len() && i < y.len() && x[i] == y[i]
        invariant
            i <= x.len(),
            i <= y.len(),
            x@ == a@,
            y@ == b@,
            text_before(a@, b@) == text_before(a@.skip(i as int), b@.skip(i as int)),
        decreases x.len() - i,
    {
        proof {
            assert(a@.skip(i as int).skip(1) =~= a@.skip(i + 1));
            assert(b@.skip(i as int).skip(1) =~= b@.skip(i + 1));
        }
        i += 1;
    }
    if i >= y.len() {
        false
    } else if i >= x.len() {
        true
    } else {
        char_less(x[i], y[i])
    }
}

// ---------------------------------------------------------------------------
// Quantities
// ---------------------------------------------------------------------------
/// Digits in groups of three, with commas between them.
pub open spec fn grouped(digits: Seq<char>) -> Seq<char>
    decreases digits.len(),
{
    if digits.len() <= 3 {
        digits
    } else {
        grouped(digits.take(digits.len() - 3)) + ","@ + digits.skip(digits.len() - 3)
    }
}

/// A number in decimal with commas between the thousands.
pub open spec fn count_text(n: nat) -> Seq<char> {
    grouped(decimal(n))
}

/// Shows a number with commas between the thousands.
pub fn format_count(value: u64) -> (s: String)
    ensures
        s@ == count_text(value as nat),
{
    let digits = chars_of(&decimal_string(value));
    assert(digits@.take(digits.len() as int) =~= digits@);
    push_groups(&digits, digits.len())
}

fn push_groups(digits: &Vec<char>, n: usize) -> (s: String)
    requires
        n <= digits.len(),
    ensures
        s@ == grouped(digits@.take(n as int)),
    decreases n,
{
    if n <= 3 {
        let s = string_of(digits, 0, n);
        assert(s@ =~= digits@.take(n as int));
        s
    } else {
        let mut s = push_groups(digits, n - 3);
        let last = string_of(digits, n - 3, n);
        s.append(",");
        s.append(&last);
        proof {
            let all = digits@.take(n as int);
            assert(all.take(n - 3) =~= digits@.take(n - 3));
            assert(all.skip(n - 3) =~= last@);
        }
        s
    }
}

/// `n / d` rounded to the nearest integer, to the even one where two are nearest.
pub open spec fn nearest_even(n: int, d: int) -> int {
    let q = n / d;
    let r = n % d;
    if 2 * r > d || (2 * r == d && q % 2 == 1) {
        q + 1
    } else {
        q
    }
}

fn round_to_even(n: u128, d: u128) -> (q: u128)
    requires
        0 < d <= 0x1_0000_0000_0000_0000,
    ensures
        q == nearest_even(n as int, d as int),
{
    let q: u128 = n / d;
    let r: u128 = n % d;
    if 2 * r > d || (2 * r == d && q % 2 == 1) {
        proof {
            if d == 1 {
                assert(r == 0);
            }
            assert(q <= n / 2) by (nonlinear_arith)
                requires
                    q == n / d,
                    d >= 2,
            ;
        }
        q + 1
    } else {
        q
    }
}

/// The distance between neighbouring double-precision numbers around `n`, for
/// numbers below 2^64; smaller numbers are all exact.
pub open spec fn double_step(n: int) -> int {
    if n < 0x20000000000000 {
        1
    } else if n < 0x40000000000000 {
        2
    } else if n < 0x80000000000000 {
        4
    } else if n < 0x100000000000000 {
        8
    } else if n < 0x200000000000000 {
        16
    } else if n < 0x400000000000000 {
        32
    } else if n < 0x800000000000000 {
        64
    } else if n < 0x1000000000000000 {
        128
    } else if n < 0x2000000000000000 {
        256
    } else if n < 0x4000000000000000 {
        512
    } else if n < 0x8000000000000000 {
        1024
    } else {
        2048
    }
}

/// The double-precision number nearest to `n`.
pub open spec fn nearest_double(n: int) -> int {
    nearest_even(n, double_step(n)) * double_step(n)
}

fn to_double(n: u64) -> (v: u128)
    ensures
        v == nearest_double(n as int),
        v <= 0x1_0000_0000_0000_0000,
{
    let p: u128 = if n < 0x20000000000000 {
        1
    } else if n < 0x40000000000000 {
        2
    } else if n < 0x80000000000000 {
        4
    } else if n < 0x100000000000000 {
        8
    } else if n < 0x200000000000000 {
        16
    } else if n < 0x400000000000000 {
        32
    } else if n < 0x800000000000000 {
        64
    } else if n < 0x1000000000000000 {
        128
    } else if n < 0x2000000000000000 {
        256
    } else if n < 0x4000000000000000 {
        512
    } else if n < 0x8000000000000000 {
        1024
    } else {
        2048
    };
    let q: u128 = round_to_even(n as u128, p);
    assert(n as int / p as int <= 0x20_0000_0000_0000);
    assert(q * p <= 0x1_0000_0000_0000_0000) by (nonlinear_arith)
        requires
            q <= 0x20_0000_0000_0000,
            p <= 2048,
    ;
    q * p
}

/// How many times a number of bytes is divided by 1024 before it is shown.
pub open spec fn byte_unit(v: int) -> int {
    if v < 0x400 {
        0
    } else if v < 0x10_0000 {
        1
    } else if v < 0x4000_0000 {
        2
    } else if v < 0x100_0000_0000 {
        3
    } else {
        4
    }
}

pub open spec fn unit_size(unit: int) -> int {
    if unit == 0 {
        1
    } else if unit == 1 {
        0x400
    } else if unit == 2 {
        0x10_0000
    } else if unit == 3 {
        0x4000_0000
    } else {
        0x100_0000_0000
    }
}

pub open spec fn unit_text(unit: int) -> Seq<char> {
    if unit == 0 {
        " B"@
    } else if unit == 1 {
        " KiB"@
    } else if unit == 2 {
        " MiB"@
    } else if unit == 3 {
        " GiB"@
    } else {
        " TiB"@
    }
}

/// A number of hundredths with two decimals.
pub open spec fn hundredths_text(n: int) -> Seq<char> {
    decimal((n / 100) as nat) + "."@ + zero_padded(decimal((n % 100) as nat), 2)
}

/// A number of bytes in the largest unit that it reaches, with two decimals.
pub open spec fn bytes_text(bytes: u64) -> Seq<char> {
    let v = nearest_double(bytes as int);
    let unit = byte_unit(v);
    hundredths_text(nearest_even(v * 100, unit_size(unit))) + unit_text(unit)
}

/// Shows a number of bytes.
pub fn format_bytes(bytes: u64) -> (s: String)
    ensures
        s@ == bytes_text(bytes),
{
    let v: u128 = to_double(bytes);
    let (size, unit): (u128, &'static str) = if v < 0x400 {
        (1, " B")
    } else if v < 0x10_0000 {
        (0x400, " KiB")
    } else if v < 0x4000_0000 {
        (0x10_0000, " MiB")
    } else if v < 0x100_0000_0000 {
        (0x4000_0000, " GiB")
    } else {
        (0x100_0000_0000, " TiB")
    };
    let n: u128 = round_to_even(v * 100, size);
    proof {
        if size == 1 {
            assert(nearest_even(v * 100, 1) == v * 100);
        }
    }
    let whole: u64 = (n / 100) as u64;
    let part: u64 = (n % 100) as u64;
    let mut s = decimal_string(whole);
    s.append(".");
    let digits = decimal_string(part);
    if part < 10 {
        s.append("0");
    }
    s.append(&digits);
    proof {
        reveal_strlit("0");
        lemma_decimal_length(part as nat);
        assert(zero_padded(decimal(part as nat), 2) =~= if part < 10 {
            "0"@ + decimal(part as nat)
        } else {
            decimal(part as nat)
        });
        assert(s@ =~= hundredths_text(n as int));
    }
    s.append(unit);
    s
}

proof fn lemma_decimal_length(n: nat)
    requires
        n < 100,
    ensures
        n < 10 ==> decimal(n).len() == 1,
        n >= 10 ==> decimal(n).len() == 2,
{
    reveal_with_fuel(decimal, 2);
}

// ---------------------------------------------------------------------------
// What the functions on text give
// ---------------------------------------------------------------------------
proof fn lemma_word_start(s: Seq<char>, i: int)
    requires
        0 <= i <= s.len(),
    ensures
        i <= word_start(s, i) <= s.len(),
        word_start(s, i) < s.len() ==> !is_space(s[word_start(s, i)]),
        forall|j: int| i <= j < word_start(s, i) ==> is_space(#[trigger] s[j]),
    decreases s.len() - i,
{
    if i < s.len() && is_space(s[i]) {
        lemma_word_start(s, i + 1);
    }
}

proof fn lemma_word_end(s: Seq<char>, i: int)
    requires
        0 <= i <= s.len(),
    ensures
        i <= word_end(s, i) <= s.len(),
        word_end(s, i) < s.len() ==> is_space(s[word_end(s, i)]),
        forall|j: int| i <= j < word_end(s, i) ==> !is_space(#[trigger] s[j]),
    decreases s.len() - i,
{
    if i < s.len() && !is_space(s[i]) {
        lemma_word_end(s, i + 1);
    }
}

proof fn lemma_trimmed_len(s: Seq<char>, n: int)
    requires
        0 <= n <= s.len(),
    ensures
        0 <= trimmed_len(s, n) <= n,
        trimmed_len(s, n) > 0 ==> !is_space(s[trimmed_len(s, n) - 1]),
        forall|j: int| trimmed_len(s, n) <= j < n ==> is_space(#[trigger] s[j]),
    decreases n,
{
    if n > 0 && is_space(s[n - 1]) {
        lemma_trimmed_len(s, n - 1);
    }
}

/// Trimming drops white space at both ends and nothing else: putting it back gives the
/// text again, and what is left neither begins nor ends with white space.
pub proof fn law_trimming_drops_outer_space(s: Seq<char>)
    ensures
        exists|before: Seq<char>, after: Seq<char>|
            {
                &&& s == #[trigger] (before + trim(s) + after)
                &&& forall|i: int| 0 <= i < before.len() ==> is_space(#[trigger] before[i])
                &&& forall|i: int| 0 <= i < after.len() ==> is_space(#[trigger] after[i])
            },
        trim(s).len() > 0 ==> !is_space(trim(s)[0]) && !is_space(trim(s).last()),
{
    lemma_word_start(s, 0);
    lemma_trimmed_len(s, s.len() as int);
    let a = word_start(s, 0);
    let b = trimmed_len(s, s.len() as int);
    let (before, after) = if a < b {
        (s.take(a), s.skip(b))
    } else {
        (s, Seq::empty())
    };
    if a >= b {
        assert forall|i: int| 0 <= i < before.len() implies is_space(#[trigger] before[i]) by {
            assert(is_space(s[i]));
        }
    }
    assert(s =~= before + trim(s) + after);
}

proof fn lemma_words_behind(a: Seq<char>, b: Seq<char>, j: int)
    requires
        0 <= j <= b.len(),
    ensures
        words_from(a + b, a.len() + j) == words_from(b, j),
    decreases b.len() - j,
{
    if j < b.len() {
        lemma_starts_behind(a, b, j);
        let x = word_start(b, j);
        lemma_word_start(b, j);
        lemma_ends_behind(a, b, x);
        lemma_word_end(b, x);
        let y = word_end(b, x);
        if x < y {
            lemma_words_behind(a, b, y);
            assert((a + b).subrange(a.len() + x, a.len() + y) =~= b.subrange(x, y));
        }
    }
}

proof fn lemma_starts_behind(a: Seq<char>, b: Seq<char>, j: int)
    requires
        0 <= j <= b.len(),
    ensures
        word_start(a + b, a.len() + j) == a.len() + word_start(b, j),
    decreases b.len() - j,
{
    if j < b.len() && is_space(b[j]) {
        lemma_starts_behind(a, b, j + 1);
    }
}

proof fn lemma_ends_behind(a: Seq<char>, b: Seq<char>, j: int)
    requires
        0 <= j <= b.len(),
    ensures
        word_end(a + b, a.len() + j) == a.len() + word_end(b, j),
    decreases b.len() - j,
{
    if j < b.len() && !is_space(b[j]) {
        lemma_ends_behind(a, b, j + 1);
    }
}

proof fn lemma_starts_before(a: Seq<char>, c: Seq<char>, i: int)
    requires
        0 <= i <= a.len(),
    ensures
        word_start(a, i) < a.len() ==> word_start(a + c, i) == word_start(a, i),
        word_start(a, i) >= a.len() ==> word_start(a + c, i) == word_start(a + c, a.len() as int),
    decreases a.len() - i,
{
    if i < a.len() && is_space(a[i]) {
        lemma_starts_before(a, c, i + 1);
    }
}

proof fn lemma_ends_before(a: Seq<char>, c: Seq<char>, i: int)
    requires
        0 <= i <= a.len(),
        c.len() > 0,
        is_space(c[0]),
    ensures
        word_end(a + c, i) == word_end(a, i),
    decreases a.len() - i,
{
    if i < a.len() && !is_space(a[i]) {
        lemma_ends_before(a, c, i + 1);
    }
}

proof fn lemma_words_before(a: Seq<char>, c: Seq<char>, i: int)
    requires
        0 <= i <= a.len(),
        c.len() > 0,
        is_space(c[0]),
    ensures
        words_from(a + c, i) == words_from(a, i) + words(c),
    decreases a.len() - i,
{
    let s = a + c;
    lemma_words_behind(a, c, 0);
    lemma_starts_before(a, c, i);
    lemma_word_start(a, i);
    let x = word_start(a, i);
    if x < a.len() {
        lemma_ends_before(a, c, x);
        lemma_word_end(a, x);
        let y = word_end(a, x);
        assert(x < y) by {
            lemma_word_end(a, x + 1);
        }
        lemma_words_before(a, c, y);
        assert(s.subrange(x, y) =~= a.subrange(x, y));
        assert(words_from(s, i) == seq![s.subrange(x, y)] + words_from(s, y));
        assert(words_from(a, i) == seq![a.subrange(x, y)] + words_from(a, y));
        assert(words_from(s, i) =~= words_from(a, i) + words(c));
    } else {
        assert(words_from(a, i) =~= Seq::empty()) by {
            if i < a.len() {
                assert(word_end(a, x) == x);
            }
        }
        let z = a.len() as int;
        lemma_word_start(s, z);
        assert(word_start(s, i) == word_start(s, z));
        assert(words_from(s, i) == words_from(s, z));
        assert(words_from(s, i) =~= words_from(a, i) + words(c));
    }
}

/// White space parts words, and nothing else does: the words on both sides of a space are
/// the words of the whole, and a text without white space is one word, or none where it is
/// empty.
pub proof fn law_space_parts_words(a: Seq<char>, space: char, b: Seq<char>)
    requires
        is_space(space),
    ensures
        words(a.push(space) + b) == words(a) + words(b),
        (forall|i: int| 0 <= i < a.len() ==> !is_space(#[trigger] a[i])) ==> words(a) == if a.len()
            == 0 {
            Seq::<Seq<char>>::empty()
        } else {
            seq![a]
        },
{
    let c = seq![space] + b;
    assert(a.push(space) + b =~= a + c);
    lemma_words_before(a, c, 0);
    lemma_words_behind(seq![space], b, 0);
    assert(words(c) == words(b)) by {
        lemma_word_start(c, 1);
        assert(word_start(c, 0) == word_start(c, 1));
        if b.len() > 0 {
            assert(words_from(c, 0) == words_from(c, 1));
        } else {
            lemma_word_start(c, 1);
            assert(word_start(c, 0) == 1);
            assert(word_end(c, 1) == 1);
        }
    }
    if forall|i: int| 0 <= i < a.len() ==> !is_space(#[trigger] a[i]) {
        if a.len() > 0 {
            assert(!is_space(a[0]));
            assert(word_start(a, 0) == 0);
            lemma_word_end(a, 0);
            let y = word_end(a, 0);
            assert(y == a.len());
            assert(a.subrange(0, y) =~= a);
            assert(words_from(a, y) =~= Seq::<Seq<char>>::empty());
            assert(words(a) =~= seq![a]);
        }
    }
}

/// One text comes before another exactly where they are the same up to some place at which
/// it ends, or has a character with a smaller number.
pub proof fn law_texts_go_by_their_first_difference(a: Seq<char>, b: Seq<char>)
    ensures
        text_before(a, b) <==> exists|k: int| #[trigger] parts_at(a, b, k),
    decreases a.len(),
{
    if a.len() > 0 && b.len() > 0 && a[0] == b[0] {
        let (x, y) = (a.skip(1), b.skip(1));
        law_texts_go_by_their_first_difference(x, y);
        if exists|k: int| parts_at(x, y, k) {
            let k = choose|k: int| parts_at(x, y, k);
            assert forall|i: int| 0 <= i < k + 1 implies #[trigger] a[i] == b[i] by {
                if i > 0 {
                    assert(x[i - 1] == y[i - 1]);
                }
            }
            assert(k < x.len() ==> x[k] == a[k + 1]);
            assert(k < y.len() ==> y[k] == b[k + 1]);
            assert(parts_at(a, b, k + 1));
        }
        if exists|k: int| parts_at(a, b, k) {
            let k = choose|k: int| parts_at(a, b, k);
            assert(k > 0);
            assert forall|i: int| 0 <= i < k - 1 implies #[trigger] x[i] == y[i] by {
                assert(a[i + 1] == b[i + 1]);
            }
            assert(parts_at(x, y, k - 1));
        }
    } else {
        if text_before(a, b) {
            assert(parts_at(a, b, 0));
        }
        if exists|k: int| parts_at(a, b, k) {
            let k = choose|k: int| parts_at(a, b, k);
            if k > 0 {
                assert(a[0] == b[0]);
            }
        }
    }
}

/// The texts are the same up to `k`, where `a` ends or has a smaller character.
pub open spec fn parts_at(a: Seq<char>, b: Seq<char>, k: int) -> bool {
    &&& 0 <= k <= a.len()
    &&& k < b.len()
    &&& forall|i: int| 0 <= i < k ==> #[trigger] a[i] == b[i]
    &&& k == a.len() || (a[k] as int) < (b[k] as int)
}

/// The numeral of a number is the numeral of its tens, where it has any, and its last
/// digit.
pub proof fn law_numerals_end_in_the_last_digit(tens: nat, last: nat)
    requires
        last < 10,
    ensures
        ({
            let digit = "0123456789"@[last as int];
            &&& tens == 0 ==> decimal(last) == seq![digit]
            &&& tens > 0 ==> decimal(10 * tens + last) == decimal(tens).push(digit)
            &&& signed_decimal((10 * tens + last) as int) == decimal(10 * tens + last)
            &&& 10 * tens + last > 0 ==> signed_decimal(-(10 * tens + last)) == seq!['-'] + decimal(
                10 * tens + last,
            )
        }),
{
    reveal_strlit("0123456789");
    assert((10 * tens + last) / 10 == tens);
    assert((10 * tens + last) % 10 == last);
}

/// Rounding gives a nearest whole number, and the even one of two.
proof fn lemma_nearest_even(n: int, d: int)
    requires
        d > 0,
    ensures
        2 * (d * nearest_even(n, d)) <= 2 * n + d,
        2 * n <= 2 * (d * nearest_even(n, d)) + d,
{
    let q = n / d;
    let r = n % d;
    vstd::arithmetic::div_mod::lemma_fundamental_div_mod(n, d);
    assert(0 <= r < d) by (nonlinear_arith)
        requires
            d > 0,
            r == n % d,
    ;
    assert(d * (q + 1) == d * q + d) by (nonlinear_arith);
}

/// A number of bytes below 2^53 is shown in the largest unit that it reaches, with the
/// nearest two decimals.
pub proof fn law_bytes_are_shown_in_their_unit(bytes: u64)
    requires
        bytes < 0x20_0000_0000_0000,
    ensures
        exists|n: int, size: int|
            {
                &&& #[trigger] shows_hundredths(bytes_text(bytes), n, size)
                &&& size == 0x100_0000_0000 || bytes < 0x400 * size
                &&& size == 1 || bytes >= size
                &&& 2 * (size * n) <= 200 * bytes + size
                &&& 200 * bytes <= 2 * (size * n) + size
            },
{
    let v = nearest_double(bytes as int);
    assert(v == bytes) by {
        vstd::arithmetic::div_mod::lemma_fundamental_div_mod(bytes as int, 1);
        assert(double_step(bytes as int) == 1);
        assert(nearest_even(bytes as int, 1) == bytes);
    }
    let unit = byte_unit(v);
    let size = unit_size(unit);
    let n = nearest_even(v * 100, size);
    lemma_nearest_even(v * 100, size);
    assert(shows_hundredths(bytes_text(bytes), n, size));
}

/// `text` is `n` hundredths of the unit of this size.
pub open spec fn shows_hundredths(text: Seq<char>, n: int, size: int) -> bool {
    let number = decimal((n / 100) as nat) + "."@ + zero_padded(decimal((n % 100) as nat), 2);
    ||| size == 1 && text == number + " B"@
    ||| size == 1024 && text == number + " KiB"@
    ||| size == 1024 * 1024 && text == number + " MiB"@
    ||| size == 1024 * 1024 * 1024 && text == number + " GiB"@
    ||| size == 1024 * 1024 * 1024 * 1024 && text == number + " TiB"@
}

/// Counts are shown with a comma in front of every three digits, counted from the right:
/// fewer than a thousand have none, and otherwise the thousands are shown in the same way,
/// followed by a comma and three digits.
pub proof fn law_thousands_are_parted(thousands: nat, rest: nat)
    requires
        rest < 1000,
    ensures
        count_text(rest) == decimal(rest),
        thousands > 0 ==> count_text(1000 * thousands + rest) == count_text(thousands) + seq![
            ',',
            digit_char((rest / 100) as int),
            digit_char((rest / 10 % 10) as int),
            digit_char((rest % 10) as int),
        ],
{
    reveal_with_fuel(decimal, 4);
    assert(decimal(rest).len() <= 3);
    if thousands > 0 {
        let n = 1000 * thousands + rest;
        let digits = decimal(n);
        assert(n / 10 == 100 * thousands + rest / 10);
        assert(n / 10 / 10 == 10 * thousands + rest / 100);
        assert(n / 10 / 10 / 10 == thousands);
        assert(n % 10 == rest % 10);
        assert((n / 10) % 10 == rest / 10 % 10);
        assert((n / 10 / 10) % 10 == rest / 100);
        assert(digits == decimal(thousands).push(digit_char((rest / 100) as int)).push(
            digit_char((rest / 10 % 10) as int),
        ).push(digit_char((rest % 10) as int)));
        lemma_decimal(thousands);
        reveal_strlit(",");
        assert(digits.take(digits.len() - 3) =~= decimal(thousands));
        assert(count_text(n) =~= count_text(thousands) + seq![
            ',',
            digit_char((rest / 100) as int),
            digit_char((rest / 10 % 10) as int),
            digit_char((rest % 10) as int),
        ]);
    }
}

} // verus!
