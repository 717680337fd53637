//! The language pack: translations keyed by string id and language, with a
//! default language to fall back on.

use vstd::prelude::*;
use crate::assoc::{
    assoc, keys_distinct, lemma_assoc_len, lemma_assoc_lookup, lemma_assoc_push,
    lemma_assoc_update, position,
};
use crate::line::parse_line_chars;
use crate::model::{
    Translations, apply_line, by_lang, languages_of, load_lines, load_spec, lookup, variants_of};
use crate::order::{insert_sorted, lemma_lex_irreflexive, sorted_strict};
use crate::text::{chars_of, find, find_in, split_lines, trim_bounds};

verus! {

/// The language pack's translations and its default language.
#[derive(Debug)]
pub struct LangPack {
    data: Vec<(String, Vec<(String, String)>)>,
    default_lang: String,
}

/// The variants of one key as (language, value) pairs of texts.
pub open spec fn variant_pairs(v: Seq<(String, String)>) -> Seq<(Seq<char>, Seq<char>)> {
    v.map_values(|p: (String, String)| (p.0@, p.1@))
}

/// The entries as (key, variants) pairs of texts and maps.
pub open spec fn entry_pairs(d: Seq<(String, Vec<(String, String)>)>) -> Seq<
    (Seq<char>, Map<Seq<char>, Seq<char>>),
> {
    d.map_values(|e: (String, Vec<(String, String)>)| (e.0@, assoc(variant_pairs(e.1@))))
}

/// No key occurs twice, every key has at least one translation, and no
/// language occurs twice under one key.
pub open spec fn table_wf(d: Seq<(String, Vec<(String, String)>)>) -> bool {
    &&& keys_distinct(entry_pairs(d))
    &&& forall|i: int| 0 <= i < d.len() ==> keys_distinct(variant_pairs(#[trigger] d[i].1@))
    &&& forall|i: int| 0 <= i < d.len() ==> (#[trigger] d[i].1@).len() > 0
}

/// The map that the entries stand for.
pub open spec fn table_view(d: Seq<(String, Vec<(String, String)>)>) -> Translations {
    assoc(entry_pairs(d))
}

/// A pack is seen as its translations: key to (language to value).
impl View for LangPack {
    type V = Translations;

    closed spec fn view(&self) -> Translations {
        table_view(self.data@)
    }
}

/// Where the key `key` sits in the entries, and what the map holds for it.
proof fn lemma_table_lookup(d: Seq<(String, Vec<(String, String)>)>, key: Seq<char>)
    requires
        table_wf(d),
    ensures
        table_view(d).contains_key(key) <==> exists|i: int| 0 <= i < d.len() && d[i].0@ == key,
        forall|i: int|
            0 <= i < d.len() && d[i].0@ == key ==> table_view(d)[key] == assoc(
                variant_pairs(d[i].1@),
            ),
{
    let e = entry_pairs(d);
    lemma_assoc_lookup(e, key);
    if exists|i: int| 0 <= i < d.len() && d[i].0@ == key {
        let i = choose|i: int| 0 <= i < d.len() && d[i].0@ == key;
        assert(e[i].0 == key);
    }
    if exists|i: int| 0 <= i < e.len() && e[i].0 == key {
        let i = choose|i: int| 0 <= i < e.len() && e[i].0 == key;
        assert(d[i].0@ == key);
    }
    assert forall|i: int| 0 <= i < d.len() && d[i].0@ == key implies table_view(d)[key] == assoc(
        variant_pairs(d[i].1@),
    ) by {
        assert(e[i].0 == key);
    }
}

/// Where the language `lang` sits in the variants of one key.
proof fn lemma_variants_lookup(v: Seq<(String, String)>, lang: Seq<char>)
    requires
        keys_distinct(variant_pairs(v)),
    ensures
        assoc(variant_pairs(v)).contains_key(lang) <==> exists|j: int|
            0 <= j < v.len() && v[j].0@ == lang,
        forall|j: int|
            0 <= j < v.len() && v[j].0@ == lang ==> assoc(variant_pairs(v))[lang] == v[j].1@,
{
    let p = variant_pairs(v);
    lemma_assoc_lookup(p, lang);
    if exists|j: int| 0 <= j < v.len() && v[j].0@ == lang {
        let j = choose|j: int| 0 <= j < v.len() && v[j].0@ == lang;
        assert(p[j].0 == lang);
    }
    if exists|j: int| 0 <= j < p.len() && p[j].0 == lang {
        let j = choose|j: int| 0 <= j < p.len() && p[j].0 == lang;
        assert(v[j].0@ == lang);
    }
    assert forall|j: int| 0 <= j < v.len() && v[j].0@ == lang implies assoc(
        variant_pairs(v),
    )[lang] == v[j].1@ by {
        assert(p[j].0 == lang);
    }
}

/// Sets the value of `key` for `lang`.
fn insert_entry(
    data: &mut Vec<(String, Vec<(String, String)>)>,
    key: String,
    lang: String,
    value: String,
)
    requires
        table_wf(old(data)@),
    ensures
        table_wf(final(data)@),
        table_view(final(data)@) == table_view(old(data)@).insert(
            key@,
            variants_of(table_view(old(data)@), key@).insert(lang@, value@),
        ),
{
    let ghost d0 = data@;
    proof {
        lemma_table_lookup(d0, key@);
    }
    match position(data, &key) {
        Some(i) => {
            let ghost v0 = d0[i as int].1@;
            proof {
                lemma_variants_lookup(v0, lang@);
            }
            match position(&data[i].1, &lang) {
                Some(j) => {
                    data[i].1.set(j, (lang, value));
                    proof {
                        let v1 = data@[i as int].1@;
                        assert(variant_pairs(v1) =~= variant_pairs(v0).update(
                            j as int,
                            (variant_pairs(v0)[j as int].0, value@),
                        ));
                        lemma_assoc_update(variant_pairs(v0), j as int, value@);
                    }
                },
                None => {
                    data[i].1.push((lang, value));
                    proof {
                        let v1 = data@[i as int].1@;
                        assert(variant_pairs(v1) =~= variant_pairs(v0).push((lang@, value@)));
                        lemma_assoc_push(variant_pairs(v0), lang@, value@);
                        let p = variant_pairs(v1);
                        assert forall|a: int, b: int| 0 <= a < b < p.len() implies p[a].0
                            != p[b].0 by {
                            if b == p.len() - 1 {
                                assert(p[a].0 == v0[a].0@);
                            } else {
                                assert(p[a].0 == variant_pairs(v0)[a].0);
                                assert(p[b].0 == variant_pairs(v0)[b].0);
                            }
                        }
                    }
                },
            }
            proof {
                let d1 = data@;
                let newv = assoc(variant_pairs(d1[i as int].1@));
                assert(entry_pairs(d1) =~= entry_pairs(d0).update(
                    i as int,
                    (entry_pairs(d0)[i as int].0, newv),
                ));
                lemma_assoc_update(entry_pairs(d0), i as int, newv);
                assert forall|k: int| 0 <= k < d1.len() implies keys_distinct(
                    variant_pairs(#[trigger] d1[k].1@),
                ) by {
                    if k != i {
                        assert(d1[k] == d0[k]);
                    }
                }
            }
        },
        None => {
            let mut variants: Vec<(String, String)> = Vec::new();
            variants.push((lang, value));
            let ghost v1 = variants@;
            data.push((key, variants));
            proof {
                let d1 = data@;
                assert(variant_pairs(v1) =~= seq![(lang@, value@)]);
                assert(variant_pairs(v1) =~= Seq::<(Seq<char>, Seq<char>)>::empty().push(
                    (lang@, value@),
                ));
                lemma_assoc_push(Seq::<(Seq<char>, Seq<char>)>::empty(), lang@, value@);
                assert(assoc(Seq::<(Seq<char>, Seq<char>)>::empty()) =~= Map::<
                    Seq<char>,
                    Seq<char>,
                >::empty());
                let newv = assoc(variant_pairs(v1));
                assert(entry_pairs(d1) =~= entry_pairs(d0).push((key@, newv)));
                lemma_assoc_push(entry_pairs(d0), key@, newv);
                let e = entry_pairs(d1);
                assert forall|a: int, b: int| 0 <= a < b < e.len() implies e[a].0 != e[b].0 by {
                    if b == e.len() - 1 {
                        assert(e[a].0 == d0[a].0@);
                    } else {
                        assert(e[a].0 == entry_pairs(d0)[a].0);
                        assert(e[b].0 == entry_pairs(d0)[b].0);
                    }
                }
                assert forall|k: int| 0 <= k < d1.len() implies keys_distinct(
                    variant_pairs(#[trigger] d1[k].1@),
                ) by {
                    if k < d0.len() {
                        assert(d1[k] == d0[k]);
                    }
                }
            }
        },
    }
}

/// Applies the raw line `cs[lo..hi]` to the entries.
fn apply_line_exec(data: &mut Vec<(String, Vec<(String, String)>)>, cs: &Vec<char>, lo: usize, hi: usize)
    requires
        table_wf(old(data)@),
        lo <= hi <= cs@.len(),
    ensures
        table_wf(final(data)@),
        table_view(final(data)@) == apply_line(
            table_view(old(data)@),
            cs@.subrange(lo as int, hi as int),
        ),
{
    let (a, b) = trim_bounds(cs, lo, hi);
    let ghost line = cs@.subrange(a as int, b as int);
    if a == b {
        return;
    }
    assert(line[0] == cs@[a as int]);
    if cs[a] == '#' {
        return;
    }
    match parse_line_chars(cs, a, b) {
        Some((k, l, v)) => {
            insert_entry(data, k, l, v);
        },
        None => {},
    }
}

/// Splitting the text from `p` on: the line up to `q`, then the rest.
proof fn lemma_split_step(s: Seq<char>, p: int, q: int)
    requires
        0 <= p <= q <= s.len(),
        q - p == find(s.subrange(p, s.len() as int), '\n'),
    ensures
        q == s.len() ==> split_lines(s.subrange(p, s.len() as int)) == seq![s.subrange(p, q)],
        q < s.len() ==> split_lines(s.subrange(p, s.len() as int)) == seq![s.subrange(p, q)]
            + split_lines(s.subrange(q + 1, s.len() as int)),
{
    let t = s.subrange(p, s.len() as int);
    assert(t.take(q - p) =~= s.subrange(p, q));
    if q < s.len() {
        assert(t.skip(q - p + 1) =~= s.subrange(q + 1, s.len() as int));
    }
    if q == s.len() {
        assert(t =~= s.subrange(p, q));
    }
}

/// `l` occurs in the vector of texts.
pub open spec fn listed(s: Seq<&str>, l: Seq<char>) -> bool {
    exists|t: int| 0 <= t < s.len() && s[t]@ == l
}

/// `l` is the language of some variant before position `(i, j)` of the entries.
spec fn seen_before(d: Seq<(String, Vec<(String, String)>)>, i: int, j: int, l: Seq<char>) -> bool {
    exists|a: int, b: int|
        #![trigger d[a].1@[b]]
        0 <= a && 0 <= b && ((a < i && b < d[a].1@.len()) || (a == i && a < d.len() && b < j))
            && d[a].1@[b].0@ == l
}

/// Whether a language lies in a pack is whether some entry has it.
proof fn lemma_languages_of(d: Seq<(String, Vec<(String, String)>)>, l: Seq<char>)
    requires
        table_wf(d),
    ensures
        languages_of(table_view(d)).contains(l) <==> exists|a: int, b: int|
            #![trigger d[a].1@[b]]
            0 <= a < d.len() && 0 <= b < d[a].1@.len() && d[a].1@[b].0@ == l,
{
    let m = table_view(d);
    if languages_of(m).contains(l) {
        let k = choose|k: Seq<char>| m.contains_key(k) && m[k].contains_key(l);
        lemma_table_lookup(d, k);
        let a = choose|a: int| 0 <= a < d.len() && d[a].0@ == k;
        lemma_variants_lookup(d[a].1@, l);
        let b = choose|b: int| 0 <= b < d[a].1@.len() && d[a].1@[b].0@ == l;
        assert(d[a].1@[b].0@ == l);
    }
    if exists|a: int, b: int|
        #![trigger d[a].1@[b]]
        0 <= a < d.len() && 0 <= b < d[a].1@.len() && d[a].1@[b].0@ == l {
        let (a, b) = choose|a: int, b: int|
            #![trigger d[a].1@[b]]
            0 <= a < d.len() && 0 <= b < d[a].1@.len() && d[a].1@[b].0@ == l;
        let k = d[a].0@;
        lemma_table_lookup(d, k);
        lemma_variants_lookup(d[a].1@, l);
        assert(m.contains_key(k) && m[k].contains_key(l));
    }
}

impl LangPack {
    #[verifier::type_invariant]
    spec fn wf(self) -> bool {
        table_wf(self.data@)
    }

    /// The language that `get` falls back on.
    pub closed spec fn fallback(self) -> Seq<char> {
        self.default_lang@
    }

    /// A pack with no translations.
    pub fn empty(default_lang: &str) -> (r: LangPack)
        ensures
            r@ == Map::<Seq<char>, Map<Seq<char>, Seq<char>>>::empty(),
            r.fallback() == default_lang@,
    {
        let r = LangPack { data: Vec::new(), default_lang: String::from_str(default_lang) };
        assert(r@ =~= Map::<Seq<char>, Map<Seq<char>, Seq<char>>>::empty());
        r
    }

    /// The translation that entry `i` gives for `lang`.
    fn lookup_at(&self, i: usize, lang: &String) -> (r: Option<&str>)
        requires
            i < self.data@.len(),
        ensures
            match r {
                Some(s) => lookup(self@, self.fallback(), self.data@[i as int].0@, lang@) == Some(
                    s@,
                ),
                None => lookup(self@, self.fallback(), self.data@[i as int].0@, lang@) is None,
            },
    {
        proof {
            use_type_invariant(self);
            lemma_table_lookup(self.data@, self.data@[i as int].0@);
        }
        let variants = &self.data[i].1;
        proof {
            lemma_variants_lookup(variants@, lang@);
            lemma_variants_lookup(variants@, self.default_lang@);
        }
        match position(variants, lang) {
            Some(j) => Some(variants[j].1.as_str()),
            None => match position(variants, &self.default_lang) {
                Some(j) => Some(variants[j].1.as_str()),
                None => None,
            },
        }
    }

    /// The translation of `key` for `lang`, falling back on the default
    /// language; `None` when the key has a translation in neither.
    pub fn get(&self, key: &str, lang: &str) -> (r: Option<&str>)
        ensures
            match r {
                Some(s) => lookup(self@, self.fallback(), key@, lang@) == Some(s@),
                None => lookup(self@, self.fallback(), key@, lang@) is None,
            },
    {
        proof {
            use_type_invariant(self);
            lemma_table_lookup(self.data@, key@);
        }
        let k = String::from_str(key);
        match position(&self.data, &k) {
            Some(i) => {
                let l = String::from_str(lang);
                self.lookup_at(i, &l)
            },
            None => None,
        }
    }

    /// Like `get`, but gives the key itself when there is no translation.
    pub fn get_or_key<'a>(&'a self, key: &'a str, lang: &str) -> (r: &'a str)
        ensures
            r@ == match lookup(self@, self.fallback(), key@, lang@) {
                Some(v) => v,
                None => key@,
            },
    {
        match self.get(key, lang) {
            Some(v) => v,
            None => key,
        }
    }

    /// The language used as fallback.
    pub fn default_lang(&self) -> (r: &str)
        ensures
            r@ == self.fallback(),
    {
        self.default_lang.as_str()
    }

    /// The number of keys loaded; each has at least one translation.
    pub fn len(&self) -> (r: usize)
        ensures
            r == self@.dom().len(),
            forall|k: Seq<char>|
                #[trigger] self@.contains_key(k) ==> exists|l: Seq<char>| self@[k].contains_key(l),
    {
        proof {
            use_type_invariant(self);
            lemma_assoc_len(entry_pairs(self.data@));
            let d = self.data@;
            assert forall|k: Seq<char>| #[trigger] self@.contains_key(k) implies exists|
                l: Seq<char>,
            | self@[k].contains_key(l) by {
                lemma_table_lookup(d, k);
                let i = choose|i: int| 0 <= i < d.len() && d[i].0@ == k;
                let l = d[i].1@[0].0@;
                lemma_variants_lookup(d[i].1@, l);
                assert(self@[k].contains_key(l));
            }
        }
        self.data.len()
    }

    /// Whether there are no translations at all.
    pub fn is_empty(&self) -> (r: bool)
        ensures
            r == (self@.dom().len() == 0),
            r == (forall|k: Seq<char>, l: Seq<char>| #[trigger] lookup(self@, self.fallback(), k, l) is None),
    {
        proof {
            use_type_invariant(self);
            lemma_assoc_len(entry_pairs(self.data@));
            let d = self.data@;
            if d.len() > 0 {
                let k = d[0].0@;
                let l = d[0].1@[0].0@;
                lemma_table_lookup(d, k);
                lemma_variants_lookup(d[0].1@, l);
                assert(lookup(self@, self.fallback(), k, l) is Some);
            } else {
                assert forall|k: Seq<char>, l: Seq<char>| #[trigger] lookup(self@, self.fallback(), k, l) is None by {
                    lemma_table_lookup(d, k);
                }
            }
        }
        self.data.len() == 0
    }

    /// The languages with at least one translation, each once, in
    /// ascending order.
    pub fn languages(&self) -> (r: Vec<&str>)
        ensures
            sorted_strict(r@),
            forall|i: int, j: int| 0 <= i < j < r@.len() ==> r@[i]@ != r@[j]@,
            forall|t: int| 0 <= t < r@.len() ==> languages_of(self@).contains(#[trigger] r@[t]@),
            forall|l: Seq<char>| languages_of(self@).contains(l) ==> listed(r@, l),
    {
        proof {
            use_type_invariant(self);
        }
        let ghost d = self.data@;
        let mut out: Vec<&str> = Vec::new();
        let mut i: usize = 0;
        while i < self.data.len()
            invariant
                d == self.data@,
                i <= d.len(),
                sorted_strict(out@),
                forall|t: int| 0 <= t < out@.len() ==> seen_before(d, i as int, 0, #[trigger] out@[t]@),
                forall|a: int, b: int|
                    0 <= a < i && 0 <= b < d[a].1@.len() ==> listed(out@, #[trigger] d[a].1@[b].0@),
            decreases d.len() - i,
        {
            let variants = &self.data[i].1;
            let mut j: usize = 0;
            while j < variants.len()
                invariant
                    d == self.data@,
                    i < d.len(),
                    variants@ == d[i as int].1@,
                    j <= variants@.len(),
                    sorted_strict(out@),
                    forall|t: int|
                        0 <= t < out@.len() ==> seen_before(d, i as int, j as int, #[trigger] out@[t]@),
                    forall|a: int, b: int|
                        (0 <= a < i && 0 <= b < d[a].1@.len()) || (a == i && 0 <= b < j) ==> listed(
                            out@,
                            #[trigger] d[a].1@[b].0@,
                        ),
                decreases variants@.len() - j,
            {
                let ghost before = out@;
                insert_sorted(&mut out, variants[j].0.as_str());
                proof {
                    let l = d[i as int].1@[j as int].0@;
                    assert forall|t: int| 0 <= t < out@.len() implies seen_before(
                        d,
                        i as int,
                        j + 1,
                        #[trigger] out@[t]@,
                    ) by {
                        if out@[t]@ == l {
                            assert(d[i as int].1@[j as int].0@ == l);
                        } else {
                            let u = choose|u: int| 0 <= u < before.len() && before[u]@ == out@[t]@;
                            assert(seen_before(d, i as int, j as int, before[u]@));
                        }
                    }
                    assert forall|a: int, b: int|
                        (0 <= a < i && 0 <= b < d[a].1@.len()) || (a == i && 0 <= b < j + 1) implies listed(
                        out@,
                        #[trigger] d[a].1@[b].0@,
                    ) by {
                        if a == i && b == j {
                        } else {
                            assert(listed(before, d[a].1@[b].0@));
                            let u = choose|u: int| 0 <= u < before.len() && before[u]@ == d[a].1@[b].0@;
                            assert(before[u] == before[u]);
                        }
                    }
                }
                j = j + 1;
            }
            proof {
                assert forall|t: int| 0 <= t < out@.len() implies seen_before(
                    d,
                    i + 1,
                    0,
                    #[trigger] out@[t]@,
                ) by {
                    assert(seen_before(d, i as int, j as int, out@[t]@));
                }
            }
            i = i + 1;
        }
        proof {
            assert forall|t: int| 0 <= t < out@.len() implies languages_of(self@).contains(
                #[trigger] out@[t]@,
            ) by {
                assert(seen_before(d, d.len() as int, 0, out@[t]@));
                lemma_languages_of(d, out@[t]@);
            }
            assert forall|l: Seq<char>| languages_of(self@).contains(l) implies listed(out@, l) by {
                lemma_languages_of(d, l);
            }
            assert forall|i: int, j: int| 0 <= i < j < out@.len() implies out@[i]@ != out@[j]@ by {
                lemma_lex_irreflexive(out@[i]@);
            }
        }
        out
    }

    /// The translation of every key for `lang` (with the fallback of `get`),
    /// as pairs of key and translation; keys without one are left out.
    pub fn to_hashmap_by_lang(&self, lang: &str) -> (r: Vec<(String, String)>)
        ensures
            keys_distinct(variant_pairs(r@)),
            assoc(variant_pairs(r@)) == by_lang(self@, self.fallback(), lang@),
    {
        proof {
            use_type_invariant(self);
        }
        let ghost d = self.data@;
        let ghost m = self@;
        let l = String::from_str(lang);
        let mut out: Vec<(String, String)> = Vec::new();
        let mut i: usize = 0;
        while i < self.data.len()
            invariant
                d == self.data@,
                m == self@,
                m == table_view(d),
                table_wf(d),
                l@ == lang@,
                i <= d.len(),
                keys_distinct(variant_pairs(out@)),
                forall|t: int|
                    0 <= t < out@.len() ==> exists|a: int|
                        0 <= a < i && #[trigger] out@[t].0@ == d[a].0@,
                forall|k: Seq<char>|
                    #[trigger] assoc(variant_pairs(out@)).contains_key(k) <==> (exists|a: int|
                        0 <= a < i && d[a].0@ == k) && lookup(m, self.fallback(), k, lang@) is Some,
                forall|k: Seq<char>|
                    #[trigger] assoc(variant_pairs(out@)).contains_key(k) ==> assoc(
                        variant_pairs(out@),
                    )[k] == lookup(m, self.fallback(), k, lang@)->0,
            decreases d.len() - i,
        {
            let ghost before = out@;
            proof {
                lemma_assoc_lookup(variant_pairs(before), d[i as int].0@);
            }
            match self.lookup_at(i, &l) {
                Some(v) => {
                    out.push((self.data[i].0.clone(), String::from_str(v)));
                    proof {
                        let k = d[i as int].0@;
                        assert(variant_pairs(out@) =~= variant_pairs(before).push((k, v@)));
                        lemma_assoc_push(variant_pairs(before), k, v@);
                        let p = variant_pairs(out@);
                        assert forall|x: int, y: int| 0 <= x < y < p.len() implies p[x].0
                            != p[y].0 by {
                            if y == p.len() - 1 {
                                let a = choose|a: int| 0 <= a < i && #[trigger] before[x].0@ == d[a].0@;
                                assert(entry_pairs(d)[a].0 == d[a].0@);
                                assert(entry_pairs(d)[i as int].0 == d[i as int].0@);
                            } else {
                                assert(p[x].0 == variant_pairs(before)[x].0);
                                assert(p[y].0 == variant_pairs(before)[y].0);
                            }
                        }
                        assert forall|t: int| 0 <= t < out@.len() implies exists|a: int|
                            0 <= a < i + 1 && #[trigger] out@[t].0@ == d[a].0@ by {
                            if t < before.len() {
                                assert(out@[t] == before[t]);
                            }
                        }
                    }
                },
                None => {
                    proof {
                        assert forall|t: int| 0 <= t < out@.len() implies exists|a: int|
                            0 <= a < i + 1 && #[trigger] out@[t].0@ == d[a].0@ by {
                        }
                    }
                },
            }
            i = i + 1;
        }
        proof {
            assert forall|k: Seq<char>| #[trigger] by_lang(m, self.fallback(), lang@).contains_key(k)
                implies assoc(variant_pairs(out@)).contains_key(k) by {
                lemma_table_lookup(d, k);
            }
            assert(assoc(variant_pairs(out@)) =~= by_lang(m, self.fallback(), lang@));
        }
        out
    }

    /// Loads translations from the content of a language file.
    ///
    /// Each line is trimmed; blank lines and lines starting with `#` are
    /// skipped, lines of the form `key=lang="value"` set a translation (a
    /// later line for the same key and language wins), and any other line is
    /// skipped silently.
    pub fn load(content: &str, default_lang: &str) -> (r: LangPack)
        ensures
            r@ == load_spec(content@),
            r.fallback() == default_lang@,
    {
        let cs = chars_of(content);
        let n: usize = cs.len();
        let mut data: Vec<(String, Vec<(String, String)>)> = Vec::new();
        let mut p: usize = 0;
        let ghost mut done: Seq<Seq<char>> = seq![];
        assert(cs@.subrange(0, n as int) =~= cs@);
        assert(done + split_lines(cs@.subrange(0, n as int)) =~= split_lines(cs@));
        assert(table_view(data@) =~= load_lines(done));
        loop
            invariant_except_break
                p <= n,
                split_lines(cs@) == done + split_lines(cs@.subrange(p as int, n as int)),
            invariant
                n == cs@.len(),
                table_wf(data@),
                table_view(data@) == load_lines(done),
            ensures
                split_lines(cs@) == done,
            decreases n - p,
        {
            let q: usize = find_in(&cs, p, n, '\n');
            proof {
                lemma_split_step(cs@, p as int, q as int);
            }
            let ghost before = done;
            apply_line_exec(&mut data, &cs, p, q);
            proof {
                done = done.push(cs@.subrange(p as int, q as int));
                assert(done.drop_last() =~= before);
            }
            if q == n {
                assert(split_lines(cs@) =~= done);
                break;
            }
            assert(split_lines(cs@) =~= done + split_lines(cs@.subrange(q + 1, n as int)));
            p = q + 1;
        }
        LangPack { data, default_lang: String::from_str(default_lang) }
    }
}

/// A copy of the variants of one key.
fn clone_variants(v: &Vec<(String, String)>) -> (r: Vec<(String, String)>)
    ensures
        variant_pairs(r@) == variant_pairs(v@),
{
    let mut r: Vec<(String, String)> = Vec::new();
    let mut j: usize = 0;
    while j < v.len()
        invariant
            j <= v@.len(),
            r@.len() == j,
            forall|t: int| 0 <= t < j ==> #[trigger] r@[t].0@ == v@[t].0@ && r@[t].1@ == v@[t].1@,
        decreases v@.len() - j,
    {
        r.push((v[j].0.clone(), v[j].1.clone()));
        j = j + 1;
    }
    assert(variant_pairs(r@) =~= variant_pairs(v@));
    r
}

impl Clone for LangPack {
    /// A copy with the same translations and default language.
    fn clone(&self) -> (r: Self)
        ensures
            r@ == self@,
            r.fallback() == self.fallback(),
    {
        proof {
            use_type_invariant(self);
        }
        let ghost d = self.data@;
        let mut data: Vec<(String, Vec<(String, String)>)> = Vec::new();
        let mut i: usize = 0;
        while i < self.data.len()
            invariant
                d == self.data@,
                table_wf(d),
                i <= d.len(),
                data@.len() == i,
                forall|k: int|
                    0 <= k < i ==> #[trigger] data@[k].0@ == d[k].0@ && variant_pairs(data@[k].1@)
                        == variant_pairs(d[k].1@),
            decreases d.len() - i,
        {
            let variants = clone_variants(&self.data[i].1);
            data.push((self.data[i].0.clone(), variants));
            i = i + 1;
        }
        assert(entry_pairs(data@) =~= entry_pairs(d));
        assert forall|a: int, b: int| 0 <= a < b < data@.len() implies entry_pairs(data@)[a].0
            != entry_pairs(data@)[b].0 by {
            assert(entry_pairs(d)[a].0 != entry_pairs(d)[b].0);
        }
        assert forall|k: int| 0 <= k < data@.len() implies keys_distinct(
            variant_pairs(#[trigger] data@[k].1@),
        ) by {
            assert(data@[k].0@ == d[k].0@);
            assert(keys_distinct(variant_pairs(d[k].1@)));
        }
        assert forall|k: int| 0 <= k < data@.len() implies (#[trigger] data@[k].1@).len() > 0 by {
            assert(data@[k].0@ == d[k].0@);
            assert(variant_pairs(data@[k].1@).len() == variant_pairs(d[k].1@).len());
        }
        LangPack { data, default_lang: self.default_lang.clone() }
    }
}

} // verus!
