//! Which font files are tried, and in what order.
use vstd::prelude::*;
use vstd::string::*;

use crate::text::{
    ascii_lowercase, before_char, chars_of, contains, contains_str, lower_char, lowercase,
    same_text, scan_to, starts_with, starts_with_str, string_of, views,
};

verus! {

// ---------------------------------------------------------------------------
// Names
// ---------------------------------------------------------------------------
/// A letter or a digit of ASCII.
pub open spec fn is_ascii_alphanumeric(c: char) -> bool {
    ('0' <= c && c <= '9') || ('a' <= c && c <= 'z') || ('A' <= c && c <= 'Z')
}

/// The letters and digits of the first `n` characters, in small letters.
pub open spec fn font_key_of(s: Seq<char>, n: int) -> Seq<char>
    decreases n,
{
    if n <= 0 {
        Seq::empty()
    } else if is_ascii_alphanumeric(s[n - 1]) {
        font_key_of(s, n - 1).push(lower_char(s[n - 1]))
    } else {
        font_key_of(s, n - 1)
    }
}

/// By what a font is known: the letters and digits of its name.
pub open spec fn font_key(s: Seq<char>) -> Seq<char> {
    font_key_of(s, s.len() as int)
}

/// Reduces the name of a font to its letters and digits.
pub fn normalize_font_name(value: &str) -> (out: String)
    ensures
        out@ == font_key(value@),
{
    let lower = chars_of(&lowercase(value));
    let chars = chars_of(value);
    let mut out = String::new();
    let mut i: usize = 0;
    assert(out@ =~= font_key_of(value@, 0));
    while i < chars.len()
        invariant
            i <= chars.len(),
            chars@ == value@,
            lower@ == ascii_lowercase(value@),
            lower.len() == chars.len(),
            out@ == font_key_of(value@, i as int),
        decreases chars.len() - i,
    {
        let c: char = chars[i];
        if ('0' <= c && c <= '9') || ('a' <= c && c <= 'z') || ('A' <= c && c <= 'Z') {
            out.push(lower[i]);
        }
        i += 1;
    }
    out
}

/// Reduces a name in the list of installed fonts: what stands in brackets behind it
/// does not count.
pub fn normalize_registry_font_value_name(value: &str) -> (out: String)
    ensures
        out@ == font_key(before_char(value@, '(')),
{
    let chars = chars_of(value);
    let end: usize = scan_to(&chars, '(', 0);
    let name = string_of(&chars, 0, end);
    assert(name@ =~= before_char(value@, '('));
    normalize_font_name(&name)
}

/// The file of a font that is known by its name.
pub open spec fn known_file(face_name: Seq<char>) -> Option<Seq<char>> {
    let key = font_key(face_name);
    if key == "segoeui"@ || key == "segoeuihistoric"@ {
        Some("segoeui.ttf"@)
    } else if key == "microsoftyaheiui"@ || key == "microsoftyahei"@ {
        Some("msyh.ttc"@)
    } else if key == "dengxian"@ {
        Some("Deng.ttf"@)
    } else if key == "simsun"@ {
        Some("simsun.ttc"@)
    } else if key == "simhei"@ {
        Some("simhei.ttf"@)
    } else {
        None
    }
}

/// Finds the files of a font that are known by its name.
pub fn known_windows_font_files(face_name: &str) -> (files: Vec<String>)
    ensures
        views(files@) == match known_file(face_name@) {
            Some(file) => seq![file],
            None => Seq::empty(),
        },
{
    let key = normalize_font_name(face_name);
    let mut files: Vec<String> = Vec::new();
    if same_text(&key, "segoeui") || same_text(&key, "segoeuihistoric") {
        files.push(String::from_str("segoeui.ttf"));
    } else if same_text(&key, "microsoftyaheiui") || same_text(&key, "microsoftyahei") {
        files.push(String::from_str("msyh.ttc"));
    } else if same_text(&key, "dengxian") {
        files.push(String::from_str("Deng.ttf"));
    } else if same_text(&key, "simsun") {
        files.push(String::from_str("simsun.ttc"));
    } else if same_text(&key, "simhei") {
        files.push(String::from_str("simhei.ttf"));
    }
    assert(views(files@) =~= match known_file(face_name@) {
        Some(file) => seq![file],
        None => Seq::empty(),
    });
    files
}

// ---------------------------------------------------------------------------
// The list of installed fonts
// ---------------------------------------------------------------------------
pub open spec fn mark(lower: Seq<char>, marker: Seq<char>) -> int {
    if contains(lower, marker) {
        1
    } else {
        0
    }
}

/// How far a font is from the plain one: the more of its name that tells of weight
/// or slant, the further.
pub open spec fn font_distance(value_name: Seq<char>) -> int {
    let lower = ascii_lowercase(value_name);
    mark(lower, "bold"@) + mark(lower, "italic"@) + mark(lower, "oblique"@) + mark(
        lower,
        "light"@,
    ) + mark(lower, "semibold"@) + mark(lower, "black"@)
}

fn marked(lower: &str, marker: &str) -> (n: u8)
    ensures
        n == mark(lower@, marker@),
        n <= 1,
{
    if contains_str(lower, marker) {
        1
    } else {
        0
    }
}

/// Tells how far a font is from the plain one.
pub fn registry_font_priority(value_name: &str) -> (p: u8)
    ensures
        p == font_distance(value_name@),
{
    let lower = lowercase(value_name);
    marked(&lower, "bold") + marked(&lower, "italic") + marked(&lower, "oblique") + marked(
        &lower,
        "light",
    ) + marked(&lower, "semibold") + marked(&lower, "black")
}

/// The text of UTF-16 units: a high and a low surrogate together are one character, and
/// a surrogate without its partner gives the replacement character.
pub open spec fn utf16_text(units: Seq<u16>) -> Seq<char>
    decreases units.len(),
{
    if units.len() == 0 {
        Seq::empty()
    } else if !(0xd800 <= units[0] <= 0xdfff) {
        seq![units[0] as char] + utf16_text(units.skip(1))
    } else if units[0] < 0xdc00 && units.len() >= 2 && 0xdc00 <= units[1] <= 0xdfff {
        let c = 0x1_0000 + 0x400 * (units[0] - 0xd800) + (units[1] - 0xdc00);
        seq![c as char] + utf16_text(units.skip(2))
    } else {
        seq!['\u{fffd}'] + utf16_text(units.skip(1))
    }
}

/// `String::from_utf16_lossy`: the text of the units, with a replacement character for
/// every surrogate that is not part of a pair.
#[verifier::external_body]
fn utf16_string(units: &[u16]) -> (s: String)
    ensures
        s@ == utf16_text(units@),
{
    String::from_utf16_lossy(units)
}

/// Where the units before the first zero end, from `i` on.
pub open spec fn zero_or_end(units: Seq<u16>, i: int) -> int
    decreases units.len() - i,
{
    if i < 0 || i >= units.len() || units[i] == 0 {
        i
    } else {
        zero_or_end(units, i + 1)
    }
}

/// The text of the units before the first zero, if there are any.
pub open spec fn terminated_text(units: Seq<u16>) -> Option<Seq<char>> {
    let end = zero_or_end(units, 0);
    if end > 0 {
        Some(utf16_text(units.take(end)))
    } else {
        None
    }
}

/// Reads the units before the first zero.
pub fn utf16_nul_terminated(units: &[u16]) -> (r: Option<String>)
    ensures
        crate::paths::text_view(r) == terminated_text(units@),
{
    let mut kept: Vec<u16> = Vec::new();
    let mut end: usize = 0;
    while end < units.len() && units[end] != 0
        invariant
            end <= units.len(),
            kept@ == units@.take(end as int),
            zero_or_end(units@, 0) == zero_or_end(units@, end as int),
        decreases units.len() - end,
    {
        kept.push(units[end]);
        end += 1;
        assert(kept@ =~= units@.take(end as int));
    }
    if end > 0 {
        Some(utf16_string(&kept))
    } else {
        None
    }
}

/// The units that bytes stand for, the low byte first; an odd byte at the end does
/// not count.
pub open spec fn units_of(data: Seq<u8>) -> Seq<u16> {
    Seq::new(data.len() / 2, |i: int| (data[2 * i] + 256 * data[2 * i + 1]) as u16)
}

/// Reads the text of a value in the list of installed fonts.
pub fn registry_string_data(data: &[u8]) -> (r: Option<String>)
    ensures
        crate::paths::text_view(r) == terminated_text(units_of(data@)),
{
    let mut units: Vec<u16> = Vec::new();
    let count: usize = data.len() / 2;
    let mut i: usize = 0;
    while i < count
        invariant
            i <= count,
            count == data.len() / 2,
            units.len() == i,
            forall|k: int| 0 <= k < i ==> #[trigger] units@[k] == units_of(data@)[k],
        decreases count - i,
    {
        let low: u16 = data[2 * i] as u16;
        let high: u16 = data[2 * i + 1] as u16;
        units.push(low + 256 * high);
        i += 1;
    }
    assert(units@ =~= units_of(data@));
    utf16_nul_terminated(&units)
}

/// An entry in the list of installed fonts: the units of its name, and its value.
#[derive(Debug)]
pub struct FontValue {
    pub name: Vec<u16>,
    pub data: Vec<u8>,
}

/// A file and how far its font is from the plain one.
#[derive(Debug)]
pub struct RankedFile {
    pub distance: u8,
    pub file: String,
}

pub open spec fn ranked_view(f: RankedFile) -> (int, Seq<char>) {
    (f.distance as int, f.file@)
}

pub open spec fn ranked_views(files: Seq<RankedFile>) -> Seq<(int, Seq<char>)> {
    files.map_values(|f: RankedFile| ranked_view(f))
}

/// The file that an entry gives for a font, if its name begins as that of the font.
pub open spec fn entry_file(value: FontValue, face: Seq<char>) -> Option<(int, Seq<char>)> {
    let name = utf16_text(value.name@);
    if !starts_with(font_key(before_char(name, '(')), face) {
        None
    } else {
        match terminated_text(units_of(value.data@)) {
            Some(file) => Some((font_distance(name), file)),
            None => None,
        }
    }
}

/// Where a file of this distance goes: behind the first `n` files that are no
/// further.
pub open spec fn rank_place(files: Seq<(int, Seq<char>)>, distance: int, n: int) -> int
    decreases n,
{
    if n <= 0 || files[n - 1].0 <= distance {
        n
    } else {
        rank_place(files, distance, n - 1)
    }
}

/// The files with one more, behind all that are no further.
pub open spec fn ranked(files: Seq<(int, Seq<char>)>, f: (int, Seq<char>)) -> Seq<(int, Seq<char>)> {
    files.insert(rank_place(files, f.0, files.len() as int), f)
}

/// The files that the first `n` entries give for a font: nearer ones first, and in
/// the order of the entries where they are as near.
pub open spec fn ranked_files(values: Seq<FontValue>, face: Seq<char>, n: int) -> Seq<
    (int, Seq<char>),
>
    decreases n,
{
    if n <= 0 {
        Seq::empty()
    } else {
        match entry_file(values[n - 1], face) {
            Some(f) => ranked(ranked_files(values, face, n - 1), f),
            None => ranked_files(values, face, n - 1),
        }
    }
}

pub open spec fn file_texts(files: Seq<(int, Seq<char>)>) -> Seq<Seq<char>> {
    files.map_values(|f: (int, Seq<char>)| f.1)
}

fn add_ranked(files: &mut Vec<RankedFile>, f: RankedFile)
    ensures
        ranked_views(final(files)@) == ranked(ranked_views(old(files)@), ranked_view(f)),
{
    let ghost before = ranked_views(files@);
    let mut n: usize = files.len();
    while n > 0 && files[n - 1].distance > f.distance
        invariant
            n <= files.len(),
            files@ == old(files)@,
            before == ranked_views(files@),
            rank_place(before, f.distance as int, files.len() as int) == rank_place(
                before,
                f.distance as int,
                n as int,
            ),
        decreases n,
    {
        n -= 1;
    }
    files.insert(n, f);
    assert(ranked_views(files@) =~= before.insert(n as int, ranked_view(f)));
}

/// Finds the files of a font in the list of installed fonts, the plainest first.
pub fn registry_font_files(face_name: &str, values: &Vec<FontValue>) -> (files: Vec<String>)
    ensures
        views(files@) == file_texts(
            ranked_files(values@, font_key(face_name@), values.len() as int),
        ),
{
    let face = normalize_font_name(face_name);
    let mut found: Vec<RankedFile> = Vec::new();
    let mut i: usize = 0;
    assert(ranked_views(found@) =~= ranked_files(values@, face@, 0));
    while i < values.len()
        invariant
            i <= values.len(),
            ranked_views(found@) == ranked_files(values@, face@, i as int),
        decreases values.len() - i,
    {
        let value: &FontValue = &values[i];
        let name = utf16_string(&value.name);
        if starts_with_str(&normalize_registry_font_value_name(&name), &face) {
            if let Some(file) = registry_string_data(&value.data) {
                let distance: u8 = registry_font_priority(&name);
                add_ranked(&mut found, RankedFile { distance, file });
            }
        }
        i += 1;
    }
    let ghost all = ranked_files(values@, face@, values.len() as int);
    let mut files: Vec<String> = Vec::new();
    let mut k: usize = 0;
    while k < found.len()
        invariant
            k <= found.len(),
            ranked_views(found@) == all,
            views(files@) == file_texts(all).take(k as int),
        decreases found.len() - k,
    {
        let ghost before = files@;
        assert(all[k as int] == ranked_view(found@[k as int]));
        files.push(String::from_str(&found[k].file));
        k += 1;
        proof {
            let texts = file_texts(all);
            assert(views(files@) =~= views(before).push(texts[k - 1]));
            assert(texts.take(k as int) =~= texts.take(k - 1).push(texts[k - 1]));
        }
    }
    assert(file_texts(all).take(k as int) =~= file_texts(all));
    files
}

proof fn lemma_place(files: Seq<(int, Seq<char>)>, distance: int, n: int)
    requires
        0 <= n <= files.len(),
    ensures
        0 <= rank_place(files, distance, n) <= n,
        rank_place(files, distance, n) > 0 ==> files[rank_place(files, distance, n) - 1].0
            <= distance,
        forall|i: int| rank_place(files, distance, n) <= i < n ==> (#[trigger] files[i]).0 > distance,
    decreases n,
{
    if n > 0 && files[n - 1].0 > distance {
        lemma_place(files, distance, n - 1);
    }
}

/// Nearer files come before farther ones.
pub proof fn law_plainer_fonts_come_first(values: Seq<FontValue>, face: Seq<char>, n: int)
    requires
        0 <= n <= values.len(),
    ensures
        forall|i: int, j: int|
            0 <= i <= j < ranked_files(values, face, n).len() ==> (#[trigger] ranked_files(
                values,
                face,
                n,
            )[i]).0 <= (#[trigger] ranked_files(values, face, n)[j]).0,
    decreases n,
{
    if n > 0 {
        law_plainer_fonts_come_first(values, face, n - 1);
        match entry_file(values[n - 1], face) {
            Some(f) => {
                let files = ranked_files(values, face, n - 1);
                lemma_place(files, f.0, files.len() as int);
            },
            None => {},
        }
    }
}

// ---------------------------------------------------------------------------
// Fallbacks
// ---------------------------------------------------------------------------
fn joined_name(dir: &str, name: &str) -> (s: String)
    ensures
        s@ == dir@ + "\\"@ + name@,
{
    let mut s = String::from_str(dir);
    s.append("\\");
    s.append(name);
    s
}

/// The files in the folder of fonts that hold Chinese, Japanese and Korean
/// characters.
pub open spec fn windows_candidates(fonts: Seq<char>) -> Seq<Seq<char>> {
    seq![
        fonts + "\\"@ + "Deng.ttf"@,
        fonts + "\\"@ + "msyh.ttc"@,
        fonts + "\\"@ + "simhei.ttf"@,
        fonts + "\\"@ + "simsun.ttc"@,
        fonts + "\\"@ + "NotoSansCJK-Regular.ttc"@,
    ]
}

/// The files elsewhere that hold them.
pub open spec fn common_candidates() -> Seq<Seq<char>> {
    seq![
        "/System/Library/Fonts/PingFang.ttc"@,
        "/System/Library/Fonts/STHeiti Light.ttc"@,
        "/usr/share/fonts/opentype/noto/NotoSansCJK-Regular.ttc"@,
        "/usr/share/fonts/noto-cjk/NotoSansCJK-Regular.ttc"@,
        "/usr/share/fonts/truetype/noto/NotoSansCJK-Regular.ttc"@,
        "/usr/share/fonts/truetype/wqy/wqy-microhei.ttc"@,
    ]
}

/// Lists the files to try for Chinese, Japanese and Korean characters; `fonts` is
/// the folder of fonts where the system has one.
pub fn cjk_font_candidates(fonts: Option<&str>) -> (paths: Vec<String>)
    ensures
        views(paths@) == match fonts {
            Some(dir) => windows_candidates(dir@) + common_candidates(),
            None => common_candidates(),
        },
{
    let mut paths: Vec<String> = Vec::new();
    if let Some(dir) = fonts {
        paths.push(joined_name(dir, "Deng.ttf"));
        paths.push(joined_name(dir, "msyh.ttc"));
        paths.push(joined_name(dir, "simhei.ttf"));
        paths.push(joined_name(dir, "simsun.ttc"));
        paths.push(joined_name(dir, "NotoSansCJK-Regular.ttc"));
    }
    paths.push(String::from_str("/System/Library/Fonts/PingFang.ttc"));
    paths.push(String::from_str("/System/Library/Fonts/STHeiti Light.ttc"));
    paths.push(String::from_str("/usr/share/fonts/opentype/noto/NotoSansCJK-Regular.ttc"));
    paths.push(String::from_str("/usr/share/fonts/noto-cjk/NotoSansCJK-Regular.ttc"));
    paths.push(String::from_str("/usr/share/fonts/truetype/noto/NotoSansCJK-Regular.ttc"));
    paths.push(String::from_str("/usr/share/fonts/truetype/wqy/wqy-microhei.ttc"));
    proof {
        let all = match fonts {
            Some(dir) => windows_candidates(dir@) + common_candidates(),
            None => common_candidates(),
        };
        assert(views(paths@) =~= all);
    }
    paths
}

/// The key of a name keeps the Latin letters, as small ones, and the digits, and drops
/// everything else.
pub proof fn law_font_keys_keep_letters_and_digits(name: Seq<char>, c: char)
    ensures
        font_key(Seq::empty()) == Seq::<char>::empty(),
        is_ascii_alphanumeric(c) ==> font_key(name.push(c)) == font_key(name).push(lower_char(c)),
        !is_ascii_alphanumeric(c) ==> font_key(name.push(c)) == font_key(name),
        is_ascii_alphanumeric(c) <==> 48 <= c as int <= 57 || 65 <= c as int <= 90 || 97 <= c as int
            <= 122,
{
    lemma_key_of_prefix(name, c, name.len() as int);
}

proof fn lemma_key_of_prefix(name: Seq<char>, c: char, n: int)
    requires
        0 <= n <= name.len(),
    ensures
        font_key_of(name.push(c), n) == font_key_of(name, n),
    decreases n,
{
    if n > 0 {
        lemma_key_of_prefix(name, c, n - 1);
    }
}

/// The units that encode a character: one, or a pair for those beyond sixteen bits.
pub open spec fn encoded(c: char) -> Seq<u16> {
    let code = c as int;
    if code < 0x1_0000 {
        seq![code as u16]
    } else {
        seq![
            (0xd800 + (code - 0x1_0000) / 0x400) as u16,
            (0xdc00 + (code - 0x1_0000) % 0x400) as u16,
        ]
    }
}

/// Characters are read back from the units that encode them.
pub proof fn law_encoded_characters_are_read_back(c: char, rest: Seq<u16>)
    ensures
        utf16_text(Seq::empty()) == Seq::<char>::empty(),
        utf16_text(encoded(c) + rest) == seq![c] + utf16_text(rest),
{
    let code = c as int;
    let units = encoded(c) + rest;
    assert(0 <= code <= 0x10_ffff && !(0xd800 <= code <= 0xdfff));
    if code < 0x1_0000 {
        assert(units[0] == code);
        assert(units.skip(1) =~= rest);
    } else {
        let high = (code - 0x1_0000) / 0x400;
        let low = (code - 0x1_0000) % 0x400;
        assert(0 <= high < 0x400 && 0 <= low < 0x400);
        assert(units[0] == 0xd800 + high);
        assert(units[1] == 0xdc00 + low);
        assert(0x1_0000 + 0x400 * high + low == code);
        assert(units.skip(2) =~= rest);
    }
}

/// A text ends before its first zero, or with the units; an empty one is none.
pub proof fn law_texts_end_at_the_first_zero(units: Seq<u16>, rest: Seq<u16>)
    requires
        forall|i: int| 0 <= i < units.len() ==> #[trigger] units[i] != 0,
    ensures
        units.len() == 0 ==> terminated_text(units) is None && terminated_text(
            units.push(0) + rest,
        ) is None,
        units.len() > 0 ==> terminated_text(units) == Some(utf16_text(units)),
        units.len() > 0 ==> terminated_text(units.push(0) + rest) == Some(utf16_text(units)),
{
    let all = units.push(0) + rest;
    lemma_zero(units, all, 0);
    assert(units.take(units.len() as int) =~= units);
    assert(all.take(units.len() as int) =~= units);
}

proof fn lemma_zero(units: Seq<u16>, all: Seq<u16>, i: int)
    requires
        0 <= i <= units.len(),
        forall|k: int| 0 <= k < units.len() ==> #[trigger] units[k] != 0,
        units.len() < all.len(),
        all[units.len() as int] == 0,
        forall|k: int| 0 <= k < units.len() ==> #[trigger] all[k] == units[k],
    ensures
        zero_or_end(units, i) == units.len(),
        zero_or_end(all, i) == units.len(),
    decreases units.len() - i,
{
    if i < units.len() {
        assert(all[i] == units[i]);
        lemma_zero(units, all, i + 1);
    }
}

/// The files of a face: one for each value whose name begins with the face and that names a
/// file, and no others; those of the same distance stay in the order of the values.
pub proof fn law_every_file_of_a_face_is_listed(values: Seq<FontValue>, face: Seq<char>, n: int)
    requires
        0 <= n < values.len(),
    ensures
        ranked_files(values, face, 0).len() == 0,
        ({
            let before = ranked_files(values, face, n);
            let after = ranked_files(values, face, n + 1);
            match entry_file(values[n], face) {
                None => after == before,
                Some(f) => exists|at: int|
                    {
                        &&& #[trigger] after.remove(at) == before
                        &&& 0 <= at < after.len()
                        &&& after[at] == f
                        &&& at > 0 ==> before[at - 1].0 <= f.0
                        &&& forall|i: int| at <= i < before.len() ==> (#[trigger] before[i]).0 > f.0
                    },
            }
        }),
{
    let before = ranked_files(values, face, n);
    let after = ranked_files(values, face, n + 1);
    if entry_file(values[n], face) is Some {
        let f = entry_file(values[n], face)->0;
        let at = rank_place(before, f.0, before.len() as int);
        lemma_places_behind(before, f.0, before.len() as int);
        assert(after == before.insert(at, f));
        assert(after.remove(at) =~= before);
    }
}

proof fn lemma_places_behind(files: Seq<(int, Seq<char>)>, distance: int, n: int)
    requires
        0 <= n <= files.len(),
    ensures
        0 <= rank_place(files, distance, n) <= n,
        rank_place(files, distance, n) > 0 ==> files[rank_place(files, distance, n) - 1].0
            <= distance,
        forall|i: int|
            rank_place(files, distance, n) <= i < n ==> (#[trigger] files[i]).0 > distance,
    decreases n,
{
    if n > 0 && files[n - 1].0 > distance {
        lemma_places_behind(files, distance, n - 1);
    }
}

/// Bytes are read in pairs, the lower one first; a last byte without another is left out.
pub proof fn law_bytes_are_read_in_pairs(units: Seq<u16>, data: Seq<u8>)
    requires
        data.len() / 2 == units.len(),
        forall|i: int|
            0 <= i < units.len() ==> data[2 * i] == #[trigger] units[i] % 256 && data[2 * i + 1]
                == units[i] / 256,
    ensures
        units_of(data) == units,
{
    assert(units_of(data) =~= units) by {
        assert forall|i: int| 0 <= i < units.len() implies units_of(data)[i] == units[i] by {
            assert(data[2 * i] == units[i] % 256);
            assert(data[2 * i + 1] == units[i] / 256);
            assert(units[i] % 256 + 256 * (units[i] / 256) == units[i]);
        }
    }
}

} // verus!
