//! Reading of command-line values and of the texts of progress events.
use vstd::prelude::*;
use vstd::string::*;

use crate::text::{
    before_char, chars_of, decimal, digits_end, find, find_chars, is_digit,
    law_decimal_is_read_back, lemma_decimal, lemma_find_from, lemma_numeral_ends, occurs_at,
    parse_u64, parse_unsigned, scan_digits, scan_to, split_words, stands_at, starts_with,
    string_of, trim, trim_string, views, words, IntError,
};

verus! {

/// The machine word that a text denotes in decimal, if it denotes one.
pub open spec fn number(s: Seq<char>) -> Option<int> {
    match parse_unsigned(s, 10, usize::MAX as int) {
        Ok(n) => Some(n),
        Err(_) => None,
    }
}

/// Reads a machine word in decimal.
pub fn read_number(s: &[char]) -> (r: Option<usize>)
    ensures
        match r {
            Some(n) => number(s@) == Some(n as int),
            None => number(s@) is None,
        },
{
    match parse_u64(s, 10, usize::MAX as u64) {
        Ok(n) => Some(n as usize),
        Err(_) => None,
    }
}

/// A result as a mathematical number.
pub open spec fn as_number(r: Option<usize>) -> Option<int> {
    match r {
        Some(n) => Some(n as int),
        None => None,
    }
}

// ---------------------------------------------------------------------------
// Texts of events
// ---------------------------------------------------------------------------
/// The number in front of the first word, from word `i` on but not the very first,
/// that begins with `chunk`.
pub open spec fn count_before_chunk(ws: Seq<Seq<char>>, i: int) -> Option<int>
    decreases ws.len() - i,
{
    if i < 0 || i >= ws.len() {
        None
    } else if i > 0 && starts_with(ws[i], "chunk"@) {
        number(ws[i - 1])
    } else {
        count_before_chunk(ws, i + 1)
    }
}

/// How many chunks a message such as `running inference across 5 chunk(s)` names.
pub fn parse_chunk_count_from_message(message: &str) -> (r: Option<usize>)
    ensures
        as_number(r) == count_before_chunk(words(message@), 0),
{
    let parts = split_words(message);
    let ghost ws = words(message@);
    let wanted = chars_of("chunk");
    let mut i: usize = 0;
    while i < parts.len()
        invariant
            i <= parts.len(),
            ws == words(message@),
            views(parts@) == ws,
            wanted@ == "chunk"@,
            count_before_chunk(ws, 0) == count_before_chunk(ws, i as int),
        decreases parts.len() - i,
    {
        assert(ws[i as int] == parts@[i as int]@);
        if i > 0 && stands_at(&chars_of(&parts[i]), &wanted, 0) {
            assert(ws[i - 1] == parts@[i - 1]@);
            return read_number(&chars_of(&parts[i - 1]));
        }
        i += 1;
    }
    None
}

proof fn lemma_no_chunk_word(ws: Seq<Seq<char>>, tail: Seq<Seq<char>>, i: int)
    requires
        0 <= i <= ws.len(),
        forall|k: int| 0 <= k < ws.len() ==> !starts_with(#[trigger] ws[k], "chunk"@),
    ensures
        count_before_chunk(ws + tail, i) == count_before_chunk(ws + tail, ws.len() as int),
    decreases ws.len() - i,
{
    if i < ws.len() {
        assert((ws + tail)[i] == ws[i]);
        lemma_no_chunk_word(ws, tail, i + 1);
    }
}

/// A number that is written in front of the first word that begins with `chunk` is
/// read back as the same number.
pub proof fn law_chunk_counts_are_read_back(ws: Seq<Seq<char>>, n: nat, last: Seq<char>)
    requires
        n <= usize::MAX,
        starts_with(last, "chunk"@),
        forall|k: int| 0 <= k < ws.len() ==> !starts_with(#[trigger] ws[k], "chunk"@),
    ensures
        count_before_chunk(ws + seq![decimal(n), last], 0) == Some(n as int),
{
    reveal_strlit("chunk");
    let tail = seq![decimal(n), last];
    let all = ws + tail;
    lemma_no_chunk_word(ws, tail, 0);
    let k = ws.len() as int;
    assert(all[k] == decimal(n) && all[k + 1] == last);
    lemma_decimal(n);
    assert(!starts_with(decimal(n), "chunk"@)) by {
        if starts_with(decimal(n), "chunk"@) {
            assert(is_digit(decimal(n)[0]));
            assert(decimal(n).subrange(0, 5)[0] == decimal(n)[0]);
        }
    }
    law_decimal_is_read_back(n, usize::MAX as int);
    reveal_with_fuel(count_before_chunk, 3);
}

/// The zero-based index that a text beginning with `chunk N`, with something
/// behind the number, names.
pub open spec fn chunk_index(detail: Seq<char>) -> Option<int> {
    if !starts_with(detail, "chunk "@) {
        None
    } else {
        let rest = detail.skip("chunk "@.len() as int);
        let end = digits_end(rest, 0);
        if end >= rest.len() {
            None
        } else {
            match number(rest.take(end)) {
                Some(n) => Some(
                    if n > 0 {
                        n - 1
                    } else {
                        0
                    },
                ),
                None => None,
            }
        }
    }
}

/// Reads the zero-based index of a chunk.
pub fn parse_chunk_index(detail: &str) -> (r: Option<usize>)
    ensures
        as_number(r) == chunk_index(detail@),
        r is Some ==> r->0 < usize::MAX,
{
    let chars = chars_of(detail);
    let prefix = chars_of("chunk ");
    if !stands_at(&chars, &prefix, 0) {
        return None;
    }
    let rest = string_of(&chars, prefix.len(), chars.len());
    assert(rest@ =~= detail@.skip("chunk "@.len() as int));
    let rest = chars_of(&rest);
    let end: usize = scan_digits(&rest, 0);
    if end >= rest.len() {
        return None;
    }
    let digits = string_of(&rest, 0, end);
    assert(digits@ =~= rest@.take(end as int));
    match read_number(&chars_of(&digits)) {
        Some(n) => Some(n.saturating_sub(1)),
        None => None,
    }
}

/// What is told of an audio file: the text behind the arrow, if there is one, up to
/// the first comma.
pub open spec fn audio_bracket(detail: Seq<char>) -> Seq<char> {
    match find(detail, "-> "@) {
        Some(at) => trim(before_char(detail.skip(at + "-> "@.len()), ',')),
        None => trim(before_char(detail, ',')),
    }
}

/// The part of a text before the first `c`, without white space at its ends.
fn trimmed_before(chars: &Vec<char>, c: char) -> (out: String)
    ensures
        out@ == trim(before_char(chars@, c)),
{
    let end: usize = scan_to(chars, c, 0);
    let part = string_of(chars, 0, end);
    assert(part@ =~= before_char(chars@, c));
    trim_string(&part)
}

/// Shortens the description of an audio file.
pub fn parse_audio_bracket(detail: &str) -> (out: String)
    ensures
        out@ == audio_bracket(detail@),
{
    let chars = chars_of(detail);
    let arrow = chars_of("-> ");
    match find_chars(&chars, &arrow, 0) {
        Some(at) => {
            let rest = string_of(&chars, at + arrow.len(), chars.len());
            assert(rest@ =~= detail@.skip(at + "-> "@.len()));
            trimmed_before(&chars_of(&rest), ',')
        },
        None => trimmed_before(&chars, ','),
    }
}

/// The number behind the first `key` in a text.
pub open spec fn number_behind(detail: Seq<char>, key: Seq<char>) -> Option<int> {
    match find(detail, key) {
        Some(at) => {
            let rest = detail.skip(at + key.len());
            number(rest.take(digits_end(rest, 0)))
        },
        None => None,
    }
}

/// Reads the number behind a key such as `chunks=`.
pub fn parse_kv_usize(detail: &str, key: &str) -> (r: Option<usize>)
    ensures
        as_number(r) == number_behind(detail@, key@),
{
    let chars = chars_of(detail);
    let needle = chars_of(key);
    let at: usize = match find_chars(&chars, &needle, 0) {
        Some(at) => at,
        None => {
            return None;
        },
    };
    let rest = string_of(&chars, at + needle.len(), chars.len());
    assert(rest@ =~= detail@.skip(at + key@.len()));
    let rest = chars_of(&rest);
    let end: usize = scan_digits(&rest, 0);
    let digits = string_of(&rest, 0, end);
    assert(digits@ =~= rest@.take(end as int));
    read_number(&chars_of(&digits))
}

/// What follows `prefix` in the first word that begins with it, from word `i` on;
/// nothing where no word does.
pub open spec fn word_after(ws: Seq<Seq<char>>, prefix: Seq<char>, i: int) -> Seq<char>
    decreases ws.len() - i,
{
    if i < 0 || i >= ws.len() {
        Seq::empty()
    } else if starts_with(ws[i], prefix) {
        ws[i].skip(prefix.len() as int)
    } else {
        word_after(ws, prefix, i + 1)
    }
}

/// What follows a prefix in the first word that begins with it.
pub fn find_word_after(text: &str, prefix: &str) -> (out: String)
    ensures
        out@ == word_after(words(text@), prefix@, 0),
{
    let parts = split_words(text);
    let ghost ws = words(text@);
    let needle = chars_of(prefix);
    let mut i: usize = 0;
    while i < parts.len()
        invariant
            i <= parts.len(),
            ws == words(text@),
            views(parts@) == ws,
            needle@ == prefix@,
            word_after(ws, prefix@, 0) == word_after(ws, prefix@, i as int),
        decreases parts.len() - i,
    {
        assert(ws[i as int] == parts@[i as int]@);
        let word = chars_of(&parts[i]);
        if stands_at(&word, &needle, 0) {
            let out = string_of(&word, needle.len(), word.len());
            assert(out@ =~= ws[i as int].skip(prefix@.len() as int));
            return out;
        }
        i += 1;
    }
    let out = String::new();
    assert(out@ =~= Seq::<char>::empty());
    out
}

/// The label of a chunk: from `chunk 1/5: infer start offset=.. duration=4.56s` it
/// is `chunk 1 (dur: 4.56s)`. Another text stays as it is.
pub open spec fn chunk_status(message: Seq<char>) -> Seq<char> {
    match find(message, ": infer start "@) {
        Some(at) => {
            let label = before_char(message.take(at), '/');
            let rest = message.skip(at + ": infer start "@.len());
            let duration = word_after(words(rest), "duration="@, 0);
            if duration.len() == 0 {
                label
            } else {
                label + " (dur: "@ + duration + ")"@
            }
        },
        None => message,
    }
}

/// Makes the label of a chunk from the text of its status.
pub fn format_chunk_status(message: &str) -> (out: String)
    ensures
        out@ == chunk_status(message@),
{
    let chars = chars_of(message);
    let mark = chars_of(": infer start ");
    match find_chars(&chars, &mark, 0) {
        Some(at) => {
            let id = string_of(&chars, 0, at);
            assert(id@ =~= message@.take(at as int));
            let id = chars_of(&id);
            let slash: usize = scan_to(&id, '/', 0);
            let mut label = string_of(&id, 0, slash);
            assert(label@ =~= before_char(id@, '/'));
            let rest = string_of(&chars, at + mark.len(), chars.len());
            assert(rest@ =~= message@.skip(at + ": infer start "@.len()));
            let duration = find_word_after(&rest, "duration=");
            if chars_of(&duration).len() == 0 {
                label
            } else {
                label.append(" (dur: ");
                label.append(&duration);
                label.append(")");
                label
            }
        },
        None => String::from_str(message),
    }
}

// ---------------------------------------------------------------------------
// Command-line values
// ---------------------------------------------------------------------------
/// What is said of a text that denotes no integer.
pub open spec fn int_error_text(e: IntError) -> Seq<char> {
    match e {
        IntError::Empty => "cannot parse integer from empty string"@,
        IntError::InvalidDigit => "invalid digit found in string"@,
        IntError::TooLarge => "number too large to fit in target type"@,
    }
}

fn int_error_message(e: IntError) -> (s: &'static str)
    ensures
        s@ == int_error_text(e),
{
    match e {
        IntError::Empty => "cannot parse integer from empty string",
        IntError::InvalidDigit => "invalid digit found in string",
        IntError::TooLarge => "number too large to fit in target type",
    }
}

/// The message about a value that denotes no integer.
pub open spec fn invalid_value_text(what: Seq<char>, value: Seq<char>, e: IntError) -> Seq<char> {
    what + value + "`: "@ + int_error_text(e)
}

fn invalid_value(what: &str, value: &str, e: IntError) -> (s: String)
    ensures
        s@ == invalid_value_text(what@, value@, e),
{
    let mut s = String::from_str(what);
    s.append(value);
    s.append("`: ");
    s.append(int_error_message(e));
    s
}

/// The identifier that a text denotes: hexadecimal behind `0x` or `0X`, decimal
/// otherwise.
pub open spec fn u32_auto(value: Seq<char>) -> Result<int, Seq<char>> {
    let v = trim(value);
    if starts_with(v, "0x"@) || starts_with(v, "0X"@) {
        match parse_unsigned(v.skip(2), 16, u32::MAX as int) {
            Ok(n) => Ok(n),
            Err(e) => Err(invalid_value_text("invalid hex value `"@, v, e)),
        }
    } else {
        match parse_unsigned(v, 10, u32::MAX as int) {
            Ok(n) => Ok(n),
            Err(e) => Err(invalid_value_text("invalid integer value `"@, v, e)),
        }
    }
}

/// Reads an identifier in decimal or hexadecimal.
pub fn parse_u32_auto(value: &str) -> (r: Result<u32, String>)
    ensures
        match r {
            Ok(n) => u32_auto(value@) == Ok::<int, Seq<char>>(n as int),
            Err(e) => u32_auto(value@) == Err::<int, Seq<char>>(e@),
        },
{
    let value = trim_string(value);
    let chars = chars_of(&value);
    let small = chars_of("0x");
    let large = chars_of("0X");
    if stands_at(&chars, &small, 0) || stands_at(&chars, &large, 0) {
        proof {
            reveal_strlit("0x");
            reveal_strlit("0X");
        }
        let hex = string_of(&chars, 2, chars.len());
        assert(hex@ =~= value@.skip(2));
        match parse_u64(&chars_of(&hex), 16, u32::MAX as u64) {
            Ok(n) => Ok(n as u32),
            Err(e) => Err(invalid_value("invalid hex value `", &value, e)),
        }
    } else {
        match parse_u64(&chars, 10, u32::MAX as u64) {
            Ok(n) => Ok(n as u32),
            Err(e) => Err(invalid_value("invalid integer value `", &value, e)),
        }
    }
}

/// The number above zero that a text denotes.
pub open spec fn positive_number(value: Seq<char>) -> Result<int, Seq<char>> {
    match parse_unsigned(trim(value), 10, usize::MAX as int) {
        Ok(n) => if n == 0 {
            Err("value must be greater than 0"@)
        } else {
            Ok(n)
        },
        Err(e) => Err(invalid_value_text("invalid integer value `"@, trim(value), e)),
    }
}

/// Reads a number above zero.
pub fn parse_positive_usize(value: &str) -> (r: Result<usize, String>)
    ensures
        match r {
            Ok(n) => positive_number(value@) == Ok::<int, Seq<char>>(n as int),
            Err(e) => positive_number(value@) == Err::<int, Seq<char>>(e@),
        },
{
    let value = trim_string(value);
    match parse_u64(&chars_of(&value), 10, usize::MAX as u64) {
        Ok(n) => if n == 0 {
            Err(String::from_str("value must be greater than 0"))
        } else {
            Ok(n as usize)
        },
        Err(e) => Err(invalid_value("invalid integer value `", &value, e)),
    }
}

// ---------------------------------------------------------------------------
// Where a panic came from
// ---------------------------------------------------------------------------
/// What a thread is at work on.
#[derive(Debug, Clone)]
pub struct PanicContext {
    pub input_file: String,
    pub stage: String,
}

/// The file and the stage, as far as they are known.
pub open spec fn context_text(input_file: Seq<char>, stage: Seq<char>) -> Seq<char> {
    if input_file.len() == 0 && stage.len() == 0 {
        Seq::empty()
    } else if input_file.len() == 0 {
        "stage="@ + stage
    } else if stage.len() == 0 {
        "file="@ + input_file
    } else {
        "file="@ + input_file + " stage="@ + stage
    }
}

impl PanicContext {
    /// Shows the context.
    pub fn display(&self) -> (s: String)
        ensures
            s@ == context_text(self.input_file@, self.stage@),
    {
        let no_file = chars_of(&self.input_file).len() == 0;
        let no_stage = chars_of(&self.stage).len() == 0;
        let mut s = String::new();
        if no_file && no_stage {
            assert(s@ =~= Seq::<char>::empty());
            return s;
        }
        if no_file {
            s = String::from_str("stage=");
            s.append(&self.stage);
        } else {
            s = String::from_str("file=");
            s.append(&self.input_file);
            if !no_stage {
                s.append(" stage=");
                s.append(&self.stage);
            }
        }
        s
    }
}

/// A number is read from what stands behind the first occurrence of its key.
pub proof fn law_numbers_are_read_behind_their_key(
    before: Seq<char>,
    key: Seq<char>,
    n: nat,
    rest: Seq<char>,
)
    requires
        n <= usize::MAX,
        rest.len() == 0 || !is_digit(rest[0]),
        forall|i: int|
            0 <= i < before.len() ==> !occurs_at(before + key + decimal(n) + rest, key, i),
    ensures
        number_behind(before + key + decimal(n) + rest, key) == Some(n as int),
{
    let all = before + key + decimal(n) + rest;
    let at = before.len() as int;
    assert(all.subrange(at, at + key.len()) =~= key);
    assert(occurs_at(all, key, at));
    lemma_find_from(all, key, 0);
    assert(find(all, key) == Some(at));
    let tail = all.skip(at + key.len());
    assert(tail =~= decimal(n) + rest);
    lemma_numeral_ends(n, rest, 0);
    assert(tail.take(digits_end(tail, 0)) =~= decimal(n));
    law_decimal_is_read_back(n, usize::MAX as int);
}

/// Numbers are read in base ten, and in base sixteen behind `0x`; white space around them
/// is dropped. A number of things must not be zero.
pub proof fn law_arguments_are_read(n: nat, value: Seq<char>)
    ensures
        trim(value) == decimal(n) && n <= u32::MAX ==> u32_auto(value) == Ok::<int, Seq<char>>(
            n as int,
        ),
        trim(value) == decimal(n) && 0 < n <= usize::MAX ==> positive_number(value) == Ok::<
            int,
            Seq<char>,
        >(n as int),
        trim(value) == decimal(0) ==> positive_number(value) is Err,
        starts_with(trim(value), "0x"@) && parse_unsigned(
            trim(value).skip(2),
            16,
            u32::MAX as int,
        ) == Ok::<int, IntError>(n as int) ==> u32_auto(value) == Ok::<int, Seq<char>>(n as int),
{
    reveal_strlit("0x");
    reveal_strlit("0X");
    let v = trim(value);
    if v == decimal(n) {
        lemma_decimal(n);
        if v.len() >= 2 {
            assert(is_digit(v[1]));
            assert(v.subrange(0, 2)[1] == v[1]);
            assert("0x"@[1] == 'x' && "0X"@[1] == 'X');
        }
        if n <= u32::MAX {
            law_decimal_is_read_back(n, u32::MAX as int);
        }
        if n <= usize::MAX {
            law_decimal_is_read_back(n, usize::MAX as int);
        }
    }
    law_decimal_is_read_back(0, usize::MAX as int);
}

} // verus!
