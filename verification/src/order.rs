//! The order of texts that `str`'s `Ord` gives: lexicographic by character,
//! which is the byte order of their UTF-8 encodings.

use vstd::prelude::*;

verus! {

/// `a` comes strictly before `b`: at the first position where they differ
/// `a` has the smaller character, or `a` is a proper prefix of `b`.
pub open spec fn lex_lt(a: Seq<char>, b: Seq<char>) -> bool
    decreases a.len(),
{
    if a.len() == 0 {
        b.len() > 0
    } else if b.len() == 0 {
        false
    } else if a[0] != b[0] {
        a[0] < b[0]
    } else {
        lex_lt(a.drop_first(), b.drop_first())
    }
}

/// No text comes before itself.
pub proof fn lemma_lex_irreflexive(a: Seq<char>)
    ensures
        !lex_lt(a, a),
    decreases a.len(),
{
    if a.len() > 0 {
        lemma_lex_irreflexive(a.drop_first());
    }
}

/// Of two different texts, one comes before the other, and never both.
pub proof fn lemma_lex_total(a: Seq<char>, b: Seq<char>)
    ensures
        a != b ==> lex_lt(a, b) || lex_lt(b, a),
        !(lex_lt(a, b) && lex_lt(b, a)),
    decreases a.len(),
{
    if a.len() > 0 && b.len() > 0 && a[0] == b[0] {
        lemma_lex_total(a.drop_first(), b.drop_first());
        if a != b {
            if a.drop_first() == b.drop_first() {
                assert(a =~= seq![a[0]] + a.drop_first());
                assert(b =~= seq![b[0]] + b.drop_first());
            }
        }
    }
    if a.len() == 0 && b.len() == 0 {
        assert(a =~= b);
    }
}

/// The order is transitive.
pub proof fn lemma_lex_transitive(a: Seq<char>, b: Seq<char>, c: Seq<char>)
    requires
        lex_lt(a, b),
        lex_lt(b, c),
    ensures
        lex_lt(a, c),
    decreases a.len(),
{
    if a.len() > 0 && b.len() > 0 && c.len() > 0 && a[0] == b[0] && b[0] == c[0] {
        lemma_lex_transitive(a.drop_first(), b.drop_first(), c.drop_first());
    }
}

/// At the first position where two texts differ, the smaller character
/// decides which comes first.
pub proof fn lemma_lex_first_difference(a: Seq<char>, b: Seq<char>, i: int)
    requires
        0 <= i < a.len(),
        i < b.len(),
        a.take(i) == b.take(i),
        a[i] != b[i],
    ensures
        lex_lt(a, b) == (a[i] < b[i]),
    decreases i,
{
    if i > 0 {
        assert(a[0] == a.take(i)[0] && b[0] == b.take(i)[0]);
        assert(a.drop_first().take(i - 1) =~= a.take(i).drop_first());
        assert(b.drop_first().take(i - 1) =~= b.take(i).drop_first());
        lemma_lex_first_difference(a.drop_first(), b.drop_first(), i - 1);
    }
}

/// A proper prefix comes before the longer text.
pub proof fn lemma_lex_prefix(a: Seq<char>, b: Seq<char>)
    requires
        a.len() < b.len(),
        b.take(a.len() as int) == a,
    ensures
        lex_lt(a, b),
    decreases a.len(),
{
    if a.len() > 0 {
        assert(a[0] == b.take(a.len() as int)[0]);
        assert(b.drop_first().take(a.len() - 1) =~= a.drop_first());
        lemma_lex_prefix(a.drop_first(), b.drop_first());
    }
}

/// Two different one-character texts are ordered by their characters.
pub proof fn lemma_lex_single(x: char, y: char)
    ensures
        lex_lt(seq![x], seq![y]) == (x < y),
{
    let a = seq![x];
    let b = seq![y];
    if x != y {
        assert(a.take(0) =~= b.take(0));
        lemma_lex_first_difference(a, b, 0);
    } else {
        assert(a =~= b);
        lemma_lex_irreflexive(a);
    }
}

/// Whether `a` comes strictly before `b`.
pub fn str_less(a: &str, b: &str) -> (r: bool)
    ensures
        r == lex_lt(a@, b@),
{
    let la: usize = a.unicode_len();
    let lb: usize = b.unicode_len();
    let mut i: usize = 0;
    assert(a@.skip(0) =~= a@);
    assert(b@.skip(0) =~= b@);
    while i < la && i < lb
        invariant
            i <= la == a@.len(),
            i <= lb == b@.len(),
            lex_lt(a@, b@) == lex_lt(a@.skip(i as int), b@.skip(i as int)),
        decreases la - i,
    {
        let ca = a.get_char(i);
        let cb = b.get_char(i);
        assert(a@.skip(i as int)[0] == ca && b@.skip(i as int)[0] == cb);
        if ca != cb {
            return ca < cb;
        }
        assert(a@.skip(i as int).drop_first() =~= a@.skip(i + 1));
        assert(b@.skip(i as int).drop_first() =~= b@.skip(i + 1));
        i = i + 1;
    }
    i == la && i < lb
}

/// The texts are in strictly increasing order (so none occurs twice).
pub open spec fn sorted_strict(s: Seq<&str>) -> bool {
    forall|i: int, j: int| 0 <= i < j < s.len() ==> lex_lt(s[i]@, s[j]@)
}

/// Adds `l` to a strictly sorted vector unless it is there already.
pub fn insert_sorted<'a>(out: &mut Vec<&'a str>, l: &'a str)
    requires
        sorted_strict(old(out)@),
    ensures
        sorted_strict(final(out)@),
        exists|t: int| 0 <= t < final(out)@.len() && final(out)@[t]@ == l@,
        forall|t: int|
            0 <= t < final(out)@.len() ==> final(out)@[t]@ == l@ || exists|u: int|
                0 <= u < old(out)@.len() && old(out)@[u]@ == final(out)@[t]@,
        forall|u: int|
            #![trigger old(out)@[u]]
            0 <= u < old(out)@.len() ==> exists|t: int|
                0 <= t < final(out)@.len() && final(out)@[t]@ == old(out)@[u]@,
{
    let ghost o = out@;
    let mut pos: usize = 0;
    while pos < out.len() && str_less(out[pos], l)
        invariant
            pos <= out@.len(),
            out@ == o,
            forall|t: int| 0 <= t < pos ==> lex_lt(#[trigger] o[t]@, l@),
        decreases out@.len() - pos,
    {
        pos = pos + 1;
    }
    if pos < out.len() && !str_less(l, out[pos]) {
        proof {
            lemma_lex_total(o[pos as int]@, l@);
        }
        assert forall|u: int| #![trigger o[u]] 0 <= u < o.len() implies exists|t: int|
            0 <= t < out@.len() && out@[t]@ == o[u]@ by {
            assert(out@[u]@ == o[u]@);
        }
        return;
    }
    if pos < out.len() {
        proof {
            lemma_lex_total(o[pos as int]@, l@);
        }
    }
    out.insert(pos, l);
    proof {
        let f = out@;
        assert(f =~= o.insert(pos as int, l));
        assert forall|i: int, j: int| 0 <= i < j < f.len() implies lex_lt(f[i]@, f[j]@) by {
            if j < pos {
                assert(f[i] == o[i] && f[j] == o[j]);
            } else if j == pos {
                assert(f[i] == o[i]);
            } else if i > pos {
                assert(f[i] == o[i - 1] && f[j] == o[j - 1]);
            } else if i == pos {
                assert(f[j] == o[j - 1]);
                if j - 1 > pos {
                    lemma_lex_transitive(l@, o[pos as int]@, o[j - 1]@);
                }
            } else {
                assert(f[i] == o[i] && f[j] == o[j - 1]);
                if j - 1 == pos as int {
                    lemma_lex_transitive(o[i]@, l@, o[pos as int]@);
                }
            }
        }
        assert(f[pos as int]@ == l@);
        assert forall|t: int| 0 <= t < f.len() implies f[t]@ == l@ || exists|u: int|
            0 <= u < o.len() && o[u]@ == f[t]@ by {
            if t < pos {
                assert(o[t]@ == f[t]@);
            } else if t > pos {
                assert(o[t - 1]@ == f[t]@);
            }
        }
        assert forall|u: int| #![trigger o[u]] 0 <= u < o.len() implies exists|t: int|
            0 <= t < f.len() && f[t]@ == o[u]@ by {
            if u < pos {
                assert(f[u]@ == o[u]@);
            } else {
                assert(f[u + 1]@ == o[u]@);
            }
        }
    }
}

} // verus!
