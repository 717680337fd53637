//! One line of a language file: `key=lang="value"`.

use vstd::prelude::*;
use crate::text::{chars_of, find, find_in, lemma_find_bound, lemma_find_is, string_of};

verus! {

/// A character that a key may hold: an ASCII letter or digit, `_` or `-`.
pub open spec fn is_key_char(c: char) -> bool {
    ||| ('a' <= c && c <= 'z')
    ||| ('A' <= c && c <= 'Z')
    ||| ('0' <= c && c <= '9')
    ||| c == '_'
    ||| c == '-'
}

pub open spec fn is_ascii_letter(c: char) -> bool {
    ('a' <= c && c <= 'z') || ('A' <= c && c <= 'Z')
}

/// A key is a non-empty run of key characters.
pub open spec fn valid_key(s: Seq<char>) -> bool {
    s.len() > 0 && forall|i: int| 0 <= i < s.len() ==> is_key_char(#[trigger] s[i])
}

/// A language code is exactly two ASCII letters. (Two ASCII characters are
/// also two bytes, so this is the same as asking for a two-byte text made of
/// ASCII letters.)
pub open spec fn valid_lang(s: Seq<char>) -> bool {
    s.len() == 2 && forall|i: int| 0 <= i < s.len() ==> is_ascii_letter(#[trigger] s[i])
}

/// The lower-case form of a character: ASCII capitals map to their small
/// letters, every other character stays. On ASCII letters this is what
/// Unicode lower-casing does as well.
pub open spec fn ascii_lower(c: char) -> char {
    if 'A' <= c && c <= 'Z' {
        ((c as u32) + 32) as char
    } else {
        c
    }
}

pub open spec fn lower_seq(s: Seq<char>) -> Seq<char> {
    s.map_values(|c: char| ascii_lower(c))
}

/// What a line means: split at the first two `=` into key, language and the
/// quoted value (which may hold further `=`); the key must be valid, the
/// language a two-letter code, and the value enclosed in double quotes. The
/// result is the key, the language in lower case, and the value without its
/// quotes; any other line means nothing.
pub open spec fn parse_line_spec(line: Seq<char>) -> Option<(Seq<char>, Seq<char>, Seq<char>)> {
    let i1 = find(line, '=');
    if i1 >= line.len() {
        None
    } else {
        let key = line.take(i1 as int);
        let rest = line.skip(i1 + 1 as int);
        let i2 = find(rest, '=');
        if i2 >= rest.len() {
            None
        } else {
            let lang = rest.take(i2 as int);
            let quoted = rest.skip(i2 + 1 as int);
            if valid_key(key) && valid_lang(lang) && quoted.len() >= 2 && quoted[0] == '"'
                && quoted.last() == '"' {
                Some((key, lower_seq(lang), quoted.subrange(1, quoted.len() - 1)))
            } else {
                None
            }
        }
    }
}

/// The line that writes `value` under `key` for `lang`.
pub open spec fn format_line(key: Seq<char>, lang: Seq<char>, value: Seq<char>) -> Seq<char> {
    key + seq!['='] + lang + seq!['=', '"'] + value + seq!['"']
}

/// A line written in the file's format reads back as what was written, with
/// the language in lower case, whatever the value holds.
pub proof fn lemma_parse_format(key: Seq<char>, lang: Seq<char>, value: Seq<char>)
    requires
        valid_key(key),
        valid_lang(lang),
    ensures
        parse_line_spec(format_line(key, lang, value)) == Some((key, lower_seq(lang), value)),
{
    let s = format_line(key, lang, value);
    let n: int = key.len() as int;
    assert forall|j: int| 0 <= j < n implies s[j] != '=' by {
        assert(s[j] == key[j]);
        assert(is_key_char(key[j]));
    }
    assert(s[n] == '=');
    lemma_find_is(s, '=', n);
    let rest = s.skip(n + 1);
    assert(rest =~= lang + seq!['=', '"'] + value + seq!['"']);
    assert forall|j: int| 0 <= j < 2 implies rest[j] != '=' by {
        assert(rest[j] == lang[j]);
        assert(is_ascii_letter(lang[j]));
    }
    assert(rest[2] == '=');
    lemma_find_is(rest, '=', 2);
    assert(s.take(n) =~= key);
    assert(rest.take(2) =~= lang);
    let quoted = rest.skip(3);
    assert(quoted =~= seq!['"'] + value + seq!['"']);
    assert(quoted.subrange(1, quoted.len() - 1) =~= value);
}

/// A key is exactly a non-empty text, of any length, made of ASCII letters,
/// digits, `_` and `-`.
pub proof fn lemma_valid_key_chars(s: Seq<char>)
    ensures
        valid_key(s) <==> (s.len() > 0 && forall|i: int|
            0 <= i < s.len() ==> (('a' <= #[trigger] s[i] && s[i] <= 'z') || ('A' <= s[i]
                && s[i] <= 'Z') || ('0' <= s[i] && s[i] <= '9') || s[i] == '_' || s[i] == '-')),
{
}

/// A language code is exactly a text of two ASCII letters, `a`-`z` or `A`-`Z`.
pub proof fn lemma_valid_lang_chars(s: Seq<char>)
    ensures
        valid_lang(s) <==> (s.len() == 2 && forall|i: int|
            0 <= i < 2 ==> (('a' <= #[trigger] s[i] && s[i] <= 'z') || ('A' <= s[i] && s[i]
                <= 'Z'))),
{
}

/// Lower-casing maps each capital ASCII letter to the small letter 32 code
/// points above it and keeps every other character.
pub proof fn lemma_ascii_lower(c: char)
    ensures
        ('A' <= c && c <= 'Z') ==> ascii_lower(c) as u32 == c as u32 + 32 && 'a' <= ascii_lower(c)
            && ascii_lower(c) <= 'z',
        !('A' <= c && c <= 'Z') ==> ascii_lower(c) == c,
{
}

/// Lower-casing a text lower-cases each of its characters in place.
pub proof fn lemma_lower_seq(s: Seq<char>)
    ensures
        lower_seq(s).len() == s.len(),
        forall|i: int| 0 <= i < s.len() ==> #[trigger] lower_seq(s)[i] == ascii_lower(s[i]),
{
}

/// A line that reads is a line in the format: its key, `=`, the language
/// as written (two ASCII letters, reported in lower case), `="`, its value
/// and a closing `"`.
pub proof fn lemma_parse_line_sound(line: Seq<char>)
    requires
        parse_line_spec(line) is Some,
    ensures
        ({
            let (k, l, v) = parse_line_spec(line)->0;
            exists|raw: Seq<char>|
                #![trigger format_line(k, raw, v)]
                valid_key(k) && valid_lang(raw) && l == lower_seq(raw) && line == format_line(
                    k,
                    raw,
                    v,
                )
        }),
{
    let (k, l, v) = parse_line_spec(line)->0;
    lemma_find_bound(line, '=');
    let i1 = find(line, '=') as int;
    let rest = line.skip(i1 + 1);
    lemma_find_bound(rest, '=');
    let i2 = find(rest, '=') as int;
    let raw = rest.take(i2);
    let quoted = rest.skip(i2 + 1);
    assert(quoted =~= seq!['"'] + v + seq!['"']);
    assert(rest =~= raw + seq!['='] + quoted);
    assert(line =~= line.take(i1) + seq!['='] + rest);
    assert(line =~= format_line(k, raw, v));
}

/// Executable test for a key character.
fn is_key_char_exec(c: char) -> (r: bool)
    ensures
        r == is_key_char(c),
{
    ('a' <= c && c <= 'z') || ('A' <= c && c <= 'Z') || ('0' <= c && c <= '9') || c == '_'
        || c == '-'
}

fn is_ascii_letter_exec(c: char) -> (r: bool)
    ensures
        r == is_ascii_letter(c),
{
    ('a' <= c && c <= 'z') || ('A' <= c && c <= 'Z')
}

/// Whether `cs[lo..hi]` is a valid key.
pub fn is_valid_key(cs: &Vec<char>, lo: usize, hi: usize) -> (r: bool)
    requires
        lo <= hi <= cs@.len(),
    ensures
        r == valid_key(cs@.subrange(lo as int, hi as int)),
{
    let ghost s = cs@.subrange(lo as int, hi as int);
    if lo == hi {
        return false;
    }
    let mut i: usize = lo;
    while i < hi
        invariant
            lo <= i <= hi <= cs@.len(),
            s == cs@.subrange(lo as int, hi as int),
            forall|j: int| 0 <= j < i - lo ==> is_key_char(#[trigger] s[j]),
        decreases hi - i,
    {
        if !is_key_char_exec(cs[i]) {
            assert(s[i - lo] == cs@[i as int]);
            return false;
        }
        assert(s[i - lo] == cs@[i as int]);
        i = i + 1;
    }
    true
}

/// Whether `cs[lo..hi]` is a valid language code.
pub fn is_valid_lang(cs: &Vec<char>, lo: usize, hi: usize) -> (r: bool)
    requires
        lo <= hi <= cs@.len(),
    ensures
        r == valid_lang(cs@.subrange(lo as int, hi as int)),
{
    let ghost s = cs@.subrange(lo as int, hi as int);
    if hi - lo != 2 {
        return false;
    }
    let r: bool = is_ascii_letter_exec(cs[lo]) && is_ascii_letter_exec(cs[lo + 1]);
    assert(s[0] == cs@[lo as int] && s[1] == cs@[lo + 1]);
    if r {
        assert forall|i: int| 0 <= i < s.len() implies is_ascii_letter(#[trigger] s[i]) by {
            if i == 0 {
            } else {
                assert(i == 1);
            }
        }
    }
    r
}

fn ascii_lower_exec(c: char) -> (r: char)
    ensures
        r == ascii_lower(c),
{
    if 'A' <= c && c <= 'Z' {
        ((c as u8) + 32) as char
    } else {
        c
    }
}

/// A string holding `cs[lo..hi]` in lower case.
fn lowercase_of(cs: &Vec<char>, lo: usize, hi: usize) -> (r: String)
    requires
        lo <= hi <= cs@.len(),
    ensures
        r@ == lower_seq(cs@.subrange(lo as int, hi as int)),
{
    let mut lowered: Vec<char> = Vec::new();
    let mut i: usize = lo;
    while i < hi
        invariant
            lo <= i <= hi <= cs@.len(),
            lowered@ == lower_seq(cs@.subrange(lo as int, i as int)),
        decreases hi - i,
    {
        lowered.push(ascii_lower_exec(cs[i]));
        i = i + 1;
        assert(lowered@ =~= lower_seq(cs@.subrange(lo as int, i as int)));
    }
    let n: usize = lowered.len();
    let r = string_of(&lowered, 0, n);
    assert(lowered@.subrange(0, n as int) =~= lowered@);
    r
}

/// Reads the line `cs[lo..hi]`.
pub fn parse_line_chars(cs: &Vec<char>, lo: usize, hi: usize) -> (r: Option<(String, String, String)>)
    requires
        lo <= hi <= cs@.len(),
    ensures
        match r {
            Some((k, l, v)) => parse_line_spec(cs@.subrange(lo as int, hi as int)) == Some(
                (k@, l@, v@),
            ),
            None => parse_line_spec(cs@.subrange(lo as int, hi as int)) is None,
        },
{
    let ghost s = cs@.subrange(lo as int, hi as int);
    let i1: usize = find_in(cs, lo, hi, '=');
    if i1 == hi {
        return None;
    }
    let i2: usize = find_in(cs, i1 + 1, hi, '=');
    let ghost rest = s.skip(i1 - lo + 1);
    assert(rest =~= cs@.subrange(i1 + 1, hi as int));
    if i2 == hi {
        return None;
    }
    assert(s.take(i1 - lo) =~= cs@.subrange(lo as int, i1 as int));
    assert(rest.take(i2 - i1 - 1) =~= cs@.subrange(i1 + 1, i2 as int));
    let ghost quoted = rest.skip(i2 - i1);
    assert(quoted =~= cs@.subrange(i2 + 1, hi as int));
    if !is_valid_key(cs, lo, i1) {
        return None;
    }
    if !is_valid_lang(cs, i1 + 1, i2) {
        return None;
    }
    if hi - (i2 + 1) < 2 {
        return None;
    }
    if cs[i2 + 1] != '"' || cs[hi - 1] != '"' {
        return None;
    }
    let key = string_of(cs, lo, i1);
    let lang = lowercase_of(cs, i1 + 1, i2);
    let value = string_of(cs, i2 + 2, hi - 1);
    assert(quoted.subrange(1, quoted.len() - 1) =~= cs@.subrange(i2 + 2, hi - 1));
    Some((key, lang, value))
}

/// Reads one line of the format `key=lang="value"`: `Some((key, lang, value))`
/// with the language in lower case, or `None` when the line does not follow
/// the format (see `parse_line_spec`).
pub fn parse_line(line: &str) -> (r: Option<(String, String, String)>)
    ensures
        match r {
            Some((k, l, v)) => parse_line_spec(line@) == Some((k@, l@, v@)),
            None => parse_line_spec(line@) is None,
        },
{
    let cs = chars_of(line);
    let n: usize = cs.len();
    assert(cs@.subrange(0, n as int) =~= cs@);
    parse_line_chars(&cs, 0, n)
}

} // verus!
