//! What a language pack means: the translations a file gives, the lookup
//! with fallback, and the laws that loading obeys.

use vstd::prelude::*;
use crate::line::{
    ascii_lower, format_line, is_ascii_letter, is_key_char, lemma_parse_format, lower_seq,
    parse_line_spec, valid_key, valid_lang,
};
use crate::text::{
    find, lemma_find_is, lemma_split_lines_join, split_lines, trim, trim_end, trim_start,
};

verus! {

/// Translations: key to (language to value).
pub type Translations = Map<Seq<char>, Map<Seq<char>, Seq<char>>>;

/// The variants of `key` (language to value); empty when the key is absent.
pub open spec fn variants_of(
    m: Translations,
    key: Seq<char>,
) -> Map<Seq<char>, Seq<char>> {
    if m.contains_key(key) {
        m[key]
    } else {
        Map::empty()
    }
}

/// A line that is skipped before it is read: empty, or a `#` comment.
pub open spec fn is_skipped(line: Seq<char>) -> bool {
    line.len() == 0 || line[0] == '#'
}

/// What one raw line of a file does to the translations read so far: the
/// line is trimmed; a blank line, a comment or a line that does not follow
/// the format changes nothing; a valid line sets the value of its key for
/// its language, replacing an earlier one.
pub open spec fn apply_line(
    m: Translations,
    raw: Seq<char>,
) -> Translations {
    let line = trim(raw);
    if is_skipped(line) {
        m
    } else {
        match parse_line_spec(line) {
            Some((k, l, v)) => m.insert(k, variants_of(m, k).insert(l, v)),
            None => m,
        }
    }
}

/// The translations that a sequence of lines gives, read in order.
pub open spec fn load_lines(lines: Seq<Seq<char>>) -> Translations
    decreases lines.len(),
{
    if lines.len() == 0 {
        Map::empty()
    } else {
        apply_line(load_lines(lines.drop_last()), lines.last())
    }
}

/// The translations that the content of a language file gives.
pub open spec fn load_spec(content: Seq<char>) -> Translations {
    load_lines(split_lines(content))
}

/// The translation of `key` for `lang`, falling back on the default
/// language; `None` when the key is absent or has neither language.
pub open spec fn lookup(
    m: Translations,
    default_lang: Seq<char>,
    key: Seq<char>,
    lang: Seq<char>,
) -> Option<Seq<char>> {
    if !m.contains_key(key) {
        None
    } else if m[key].contains_key(lang) {
        Some(m[key][lang])
    } else if m[key].contains_key(default_lang) {
        Some(m[key][default_lang])
    } else {
        None
    }
}

/// The languages in which some key has a translation.
pub open spec fn languages_of(m: Translations) -> Set<Seq<char>> {
    Set::new(|l: Seq<char>| exists|k: Seq<char>| m.contains_key(k) && m[k].contains_key(l))
}

/// The map of `key` to its translation for `lang`, for every key that has
/// one (with the fallback of `lookup`).
pub open spec fn by_lang(
    m: Translations,
    default_lang: Seq<char>,
    lang: Seq<char>,
) -> Map<Seq<char>, Seq<char>> {
    Map::new(
        |k: Seq<char>| lookup(m, default_lang, k, lang) is Some,
        |k: Seq<char>| lookup(m, default_lang, k, lang)->0,
    )
}

/// A lookup gives the requested language's translation whenever there is
/// one (an empty value included); otherwise the default language's; and
/// nothing when the key is absent or has neither.
pub proof fn lemma_lookup_cases(m: Translations, d: Seq<char>, k: Seq<char>, l: Seq<char>)
    ensures
        m.contains_key(k) && m[k].contains_key(l) ==> lookup(m, d, k, l) == Some(m[k][l]),
        m.contains_key(k) && !m[k].contains_key(l) && m[k].contains_key(d) ==> lookup(m, d, k, l)
            == Some(m[k][d]),
        lookup(m, d, k, l) is None <==> (!m.contains_key(k) || (!m[k].contains_key(l)
            && !m[k].contains_key(d))),
{
}

/// The per-language map holds a key exactly when the key has a translation
/// in the requested or the default language, with the requested one first.
pub proof fn lemma_by_lang_cases(m: Translations, d: Seq<char>, lang: Seq<char>, k: Seq<char>)
    ensures
        by_lang(m, d, lang).contains_key(k) <==> m.contains_key(k) && (m[k].contains_key(lang)
            || m[k].contains_key(d)),
        by_lang(m, d, lang).contains_key(k) ==> by_lang(m, d, lang)[k] == if m[k].contains_key(
            lang,
        ) {
            m[k][lang]
        } else {
            m[k][d]
        },
        by_lang(m, d, lang).contains_key(k) <==> lookup(m, d, k, lang) is Some,
        by_lang(m, d, lang).contains_key(k) ==> Some(by_lang(m, d, lang)[k]) == lookup(
            m,
            d,
            k,
            lang,
        ),
{
}

/// A language lies in a pack exactly when some key has a translation in it.
pub proof fn lemma_languages_of_cases(m: Translations, l: Seq<char>)
    ensures
        languages_of(m).contains(l) <==> exists|k: Seq<char>|
            #[trigger] m.contains_key(k) && m[k].contains_key(l),
{
}

/// A language code in the form a pack keeps it: two small ASCII letters.
pub open spec fn is_lower_code(l: Seq<char>) -> bool {
    l.len() == 2 && forall|i: int| 0 <= i < l.len() ==> 'a' <= #[trigger] l[i] && l[i] <= 'z'
}

/// A line that is blank, a comment or not in the format changes nothing,
/// wherever it stands: the lines after it load as if it were not there.
pub proof fn lemma_bad_line_changes_nothing(a: Seq<Seq<char>>, x: Seq<char>, b: Seq<Seq<char>>)
    requires
        is_skipped(trim(x)) || parse_line_spec(trim(x)) is None,
    ensures
        load_lines(a.push(x) + b) == load_lines(a + b),
    decreases b.len(),
{
    if b.len() == 0 {
        assert(a.push(x) + b =~= a.push(x));
        assert(a + b =~= a);
        assert(a.push(x).drop_last() =~= a);
    } else {
        lemma_bad_line_changes_nothing(a, x, b.drop_last());
        assert((a.push(x) + b).drop_last() =~= a.push(x) + b.drop_last());
        assert((a + b).drop_last() =~= a + b.drop_last());
    }
}

/// A line that reads is never skipped: its key makes it non-empty and its
/// first character is a key character, not `#`.
pub proof fn lemma_parsed_not_skipped(line: Seq<char>)
    requires
        parse_line_spec(line) is Some,
    ensures
        !is_skipped(line),
        is_key_char(line[0]),
{
    let i1 = find(line, '=');
    let key = line.take(i1 as int);
    assert(valid_key(key));
    assert(key[0] == line[0]);
}

/// A valid line sets its translation, replacing an earlier one for the same
/// key and language, and leaves every other translation as it was.
pub proof fn lemma_last_line_wins(
    lines: Seq<Seq<char>>,
    x: Seq<char>,
    k: Seq<char>,
    l: Seq<char>,
    v: Seq<char>,
)
    requires
        parse_line_spec(trim(x)) == Some((k, l, v)),
    ensures
        load_lines(lines.push(x)).contains_key(k),
        load_lines(lines.push(x))[k].contains_key(l),
        load_lines(lines.push(x))[k][l] == v,
        forall|k2: Seq<char>|
            k2 != k ==> (#[trigger] load_lines(lines.push(x)).contains_key(k2) == load_lines(
                lines,
            ).contains_key(k2) && (load_lines(lines).contains_key(k2) ==> load_lines(
                lines.push(x),
            )[k2] == load_lines(lines)[k2])),
        forall|l2: Seq<char>|
            l2 != l ==> (#[trigger] load_lines(lines.push(x))[k].contains_key(l2) == variants_of(
                load_lines(lines),
                k,
            ).contains_key(l2) && (variants_of(load_lines(lines), k).contains_key(l2)
                ==> load_lines(lines.push(x))[k][l2] == variants_of(load_lines(lines), k)[l2])),
{
    lemma_parsed_not_skipped(trim(x));
    assert(lines.push(x).drop_last() =~= lines);
}

/// Every key of a loaded pack is a valid key with at least one
/// translation, and every language is two small ASCII letters (the code as
/// it was written, in lower case).
pub proof fn lemma_load_well_formed(lines: Seq<Seq<char>>)
    ensures
        forall|k: Seq<char>| #[trigger] load_lines(lines).contains_key(k) ==> valid_key(k),
        forall|k: Seq<char>, l: Seq<char>|
            load_lines(lines).contains_key(k) && #[trigger] load_lines(lines)[k].contains_key(l)
                ==> is_lower_code(l),
        forall|k: Seq<char>|
            #[trigger] load_lines(lines).contains_key(k) ==> exists|l: Seq<char>|
                load_lines(lines)[k].contains_key(l),
    decreases lines.len(),
{
    if lines.len() > 0 {
        let t = lines.drop_last();
        lemma_load_well_formed(t);
        let m0 = load_lines(t);
        let m = load_lines(lines);
        let line = trim(lines.last());
        if !is_skipped(line) {
            if let Some((k, l, v)) = parse_line_spec(line) {
                let i1 = find(line, '=');
                let rest = line.skip(i1 + 1 as int);
                let i2 = find(rest, '=');
                let raw = rest.take(i2 as int);
                assert(valid_key(k));
                assert(valid_lang(raw));
                assert(l == lower_seq(raw));
                assert forall|i: int| 0 <= i < l.len() implies 'a' <= #[trigger] l[i] && l[i]
                    <= 'z' by {
                    assert(is_ascii_letter(raw[i]));
                    assert(l[i] == ascii_lower(raw[i]));
                }
                assert(is_lower_code(l));
                assert(m == m0.insert(k, variants_of(m0, k).insert(l, v)));
                assert forall|k2: Seq<char>| #[trigger] m.contains_key(k2) implies exists|l2: Seq<char>|
                    m[k2].contains_key(l2) by {
                    if k2 == k {
                        assert(m[k2].contains_key(l));
                    } else {
                        assert(m0.contains_key(k2));
                        let l2 = choose|l2: Seq<char>| m0[k2].contains_key(l2);
                        assert(m[k2].contains_key(l2));
                    }
                }
                assert forall|k2: Seq<char>| #[trigger] m.contains_key(k2) implies valid_key(k2) by {
                    if k2 != k {
                        assert(m0.contains_key(k2));
                    }
                }
                assert forall|k2: Seq<char>, l2: Seq<char>|
                    m.contains_key(k2) && #[trigger] m[k2].contains_key(l2) implies is_lower_code(
                    l2,
                ) by {
                    if k2 != k {
                        assert(m0.contains_key(k2) && m0[k2].contains_key(l2));
                    } else if l2 != l {
                        assert(m0.contains_key(k2) && m0[k2].contains_key(l2));
                    }
                }
            } else {
                assert(m == m0);
            }
        } else {
            assert(m == m0);
        }
    }
}

/// A file of one line written in the format loads as exactly that one
/// translation, with the language in lower case.
pub proof fn lemma_load_one_line(k: Seq<char>, l: Seq<char>, v: Seq<char>)
    requires
        valid_key(k),
        valid_lang(l),
        forall|i: int| 0 <= i < v.len() ==> #[trigger] v[i] != '\n',
    ensures
        load_spec(format_line(k, l, v)) == map![k => map![lower_seq(l) => v]],
{
    let s = format_line(k, l, v);
    assert forall|j: int| 0 <= j < s.len() implies s[j] != '\n' by {
        if j < k.len() {
            assert(s[j] == k[j]);
            assert(is_key_char(k[j]));
        } else if j > k.len() && j < k.len() + 3 {
            assert(s[j] == l[j - k.len() - 1]);
            assert(is_ascii_letter(l[j - k.len() - 1]));
        } else if j >= k.len() + 5 && j < s.len() - 1 {
            assert(s[j] == v[j - k.len() - 5]);
        }
    }
    lemma_find_is(s, '\n', s.len() as int);
    assert(split_lines(s) == seq![s]);
    assert(is_key_char(s[0]));
    assert(trim_start(s) == s);
    assert(s.last() == '"');
    assert(trim_end(s) == s);
    lemma_parse_format(k, l, v);
    assert(trim(s) == s);
    assert(seq![s].drop_last() =~= Seq::<Seq<char>>::empty());
    assert(load_lines(Seq::<Seq<char>>::empty()) == Map::<Seq<char>, Map<Seq<char>, Seq<char>>>::empty());
    let e = Map::<Seq<char>, Map<Seq<char>, Seq<char>>>::empty();
    assert(load_spec(s) == apply_line(e, s));
    assert(variants_of(e, k) == Map::<Seq<char>, Seq<char>>::empty());
    assert(apply_line(e, s) == e.insert(k, Map::<Seq<char>, Seq<char>>::empty().insert(lower_seq(l), v)));
    assert(map![lower_seq(l) => v] =~= Map::<Seq<char>, Seq<char>>::empty().insert(lower_seq(l), v));
    assert(load_spec(s) =~= map![k => map![lower_seq(l) => v]]);
}

/// The translation that the map gives for `key` in `lang`, if any.
pub open spec fn translation(
    m: Translations,
    key: Seq<char>,
    lang: Seq<char>,
) -> Option<Seq<char>> {
    if m.contains_key(key) && m[key].contains_key(lang) {
        Some(m[key][lang])
    } else {
        None
    }
}

/// `first` when it is there, else `second`.
pub open spec fn prefer(first: Option<Seq<char>>, second: Option<Seq<char>>) -> Option<Seq<char>> {
    if first is Some {
        first
    } else {
        second
    }
}

/// What one raw line sets, when it is a valid line: key, language, value.
pub open spec fn line_entry(raw: Seq<char>) -> Option<(Seq<char>, Seq<char>, Seq<char>)> {
    let line = trim(raw);
    if is_skipped(line) {
        None
    } else {
        parse_line_spec(line)
    }
}

/// The key that one raw line sets, if it sets one.
pub open spec fn line_key(raw: Seq<char>) -> Option<Seq<char>> {
    match line_entry(raw) {
        Some((k, l, v)) => Some(k),
        None => None,
    }
}

/// The value that one raw line sets for `key` in `lang`, if it sets one.
pub open spec fn line_sets(raw: Seq<char>, key: Seq<char>, lang: Seq<char>) -> Option<Seq<char>> {
    match line_entry(raw) {
        Some((k, l, v)) => if k == key && l == lang {
            Some(v)
        } else {
            None
        },
        None => None,
    }
}

/// A line's effect: it adds its key, and sets its value over whatever the
/// key and language had before.
proof fn lemma_apply_line_effect(m: Translations, raw: Seq<char>)
    ensures
        forall|k: Seq<char>|
            #[trigger] apply_line(m, raw).contains_key(k) == (line_key(raw) == Some(k)
                || m.contains_key(k)),
        forall|k: Seq<char>, l: Seq<char>|
            #[trigger] translation(apply_line(m, raw), k, l) == prefer(
                line_sets(raw, k, l),
                translation(m, k, l),
            ),
{
}

/// Loading the lines `a` then `b`: the keys of both, and per key and
/// language the value from `b` over the value from `a`.
proof fn lemma_load_lines_join(a: Seq<Seq<char>>, b: Seq<Seq<char>>)
    ensures
        forall|k: Seq<char>|
            #[trigger] load_lines(a + b).contains_key(k) == (load_lines(a).contains_key(k)
                || load_lines(b).contains_key(k)),
        forall|k: Seq<char>, l: Seq<char>|
            #[trigger] translation(load_lines(a + b), k, l) == prefer(
                translation(load_lines(b), k, l),
                translation(load_lines(a), k, l),
            ),
    decreases b.len(),
{
    if b.len() == 0 {
        assert(a + b =~= a);
        assert(load_lines(b) == Map::<Seq<char>, Map<Seq<char>, Seq<char>>>::empty());
    } else {
        let b2 = b.drop_last();
        let x = b.last();
        lemma_load_lines_join(a, b2);
        assert((a + b).drop_last() =~= a + b2);
        assert((a + b).last() == x);
        lemma_apply_line_effect(load_lines(a + b2), x);
        lemma_apply_line_effect(load_lines(b2), x);
    }
}

/// Loading two texts joined by a newline gives the keys of both, and for
/// every key and language the second text's value over the first's.
pub proof fn lemma_load_join(c1: Seq<char>, c2: Seq<char>)
    ensures
        forall|k: Seq<char>|
            #[trigger] load_spec(c1 + seq!['\n'] + c2).contains_key(k) == (load_spec(
                c1,
            ).contains_key(k) || load_spec(c2).contains_key(k)),
        forall|k: Seq<char>, l: Seq<char>|
            #[trigger] translation(load_spec(c1 + seq!['\n'] + c2), k, l) == prefer(
                translation(load_spec(c2), k, l),
                translation(load_spec(c1), k, l),
            ),
{
    lemma_split_lines_join(c1, c2);
    lemma_load_lines_join(split_lines(c1), split_lines(c2));
}

} // verus!
