//! Characters and lines: the whitespace that `trim` removes, the split of a
//! text into lines, and the executable helpers that work on a text held as a
//! vector of characters.

use vstd::prelude::*;

verus! {

/// The characters with the Unicode `White_Space` property, which is what
/// `char::is_whitespace` tests and what `str::trim` removes.
pub open spec fn is_white(c: char) -> bool {
    ||| ('\u{9}' <= c && c <= '\u{D}')
    ||| c == ' '
    ||| c == '\u{85}'
    ||| c == '\u{A0}'
    ||| c == '\u{1680}'
    ||| ('\u{2000}' <= c && c <= '\u{200A}')
    ||| c == '\u{2028}'
    ||| c == '\u{2029}'
    ||| c == '\u{202F}'
    ||| c == '\u{205F}'
    ||| c == '\u{3000}'
}

/// The text without its leading whitespace.
pub open spec fn trim_start(s: Seq<char>) -> Seq<char>
    decreases s.len(),
{
    if s.len() > 0 && is_white(s[0]) {
        trim_start(s.drop_first())
    } else {
        s
    }
}

/// The text without its trailing whitespace.
pub open spec fn trim_end(s: Seq<char>) -> Seq<char>
    decreases s.len(),
{
    if s.len() > 0 && is_white(s.last()) {
        trim_end(s.drop_last())
    } else {
        s
    }
}

/// The text without leading and trailing whitespace.
pub open spec fn trim(s: Seq<char>) -> Seq<char> {
    trim_end(trim_start(s))
}

/// The index of the first occurrence of `c` in `s`, or `s.len()` when there is none.
pub open spec fn find(s: Seq<char>, c: char) -> nat
    decreases s.len(),
{
    if s.len() == 0 {
        0
    } else if s[0] == c {
        0
    } else {
        1 + find(s.drop_first(), c)
    }
}

pub proof fn lemma_find_bound(s: Seq<char>, c: char)
    ensures
        find(s, c) <= s.len(),
        find(s, c) < s.len() ==> s[find(s, c) as int] == c,
        forall|j: int| 0 <= j < find(s, c) ==> s[j] != c,
    decreases s.len(),
{
    if s.len() > 0 && s[0] != c {
        lemma_find_bound(s.drop_first(), c);
        assert forall|j: int| 0 <= j < find(s, c) implies s[j] != c by {
            if j > 0 {
                assert(s[j] == s.drop_first()[j - 1]);
            }
        }
    }
}

/// `find` is the index `p` that the scan stops at: no `c` before it, and `c`
/// at it unless it is the end.
pub proof fn lemma_find_is(s: Seq<char>, c: char, p: int)
    requires
        0 <= p <= s.len(),
        forall|j: int| 0 <= j < p ==> s[j] != c,
        p < s.len() ==> s[p] == c,
    ensures
        find(s, c) == p,
    decreases p,
{
    if p > 0 {
        lemma_find_is(s.drop_first(), c, p - 1);
    }
}

/// The lines of a text: the pieces between its newline characters. A text
/// with `n` newlines has `n + 1` pieces; a line ending in `"\r\n"` keeps its
/// `'\r'`, which is whitespace, and a final newline leaves an empty last
/// piece. Both disappear once a line is trimmed and empty lines are skipped.
pub open spec fn split_lines(s: Seq<char>) -> Seq<Seq<char>>
    decreases s.len(),
{
    let i = find(s, '\n');
    if i >= s.len() {
        seq![s]
    } else {
        seq![s.take(i as int)] + split_lines(s.skip(i + 1 as int))
    }
}

/// The lines of two texts joined by a newline are the lines of the first
/// followed by the lines of the second.
pub proof fn lemma_split_lines_join(a: Seq<char>, b: Seq<char>)
    ensures
        split_lines(a + seq!['\n'] + b) == split_lines(a) + split_lines(b),
    decreases a.len(),
{
    let s = a + seq!['\n'] + b;
    lemma_find_bound(a, '\n');
    let i = find(a, '\n') as int;
    assert forall|j: int| 0 <= j < i implies s[j] != '\n' by {
        assert(s[j] == a[j]);
    }
    if i == a.len() {
        lemma_find_is(s, '\n', i);
        assert(s.take(i) =~= a);
        assert(s.skip(i + 1) =~= b);
        assert(split_lines(a) == seq![a]);
        assert(split_lines(s) =~= split_lines(a) + split_lines(b));
    } else {
        assert(s[i] == a[i]);
        lemma_find_is(s, '\n', i);
        let a2 = a.skip(i + 1);
        assert(s.take(i) =~= a.take(i));
        assert(s.skip(i + 1) =~= a2 + seq!['\n'] + b);
        lemma_split_lines_join(a2, b);
        assert(split_lines(s) =~= split_lines(a) + split_lines(b));
    }
}

/// The whitespace characters by code point: 9 to 13, 32, 0x85, 0xA0,
/// 0x1680, 0x2000 to 0x200A, 0x2028, 0x2029, 0x202F, 0x205F and 0x3000.
pub proof fn lemma_is_white_code_points(c: char)
    ensures
        is_white(c) <==> {
            let n = c as u32;
            ||| (9 <= n && n <= 13)
            ||| n == 32
            ||| n == 0x85
            ||| n == 0xA0
            ||| n == 0x1680
            ||| (0x2000 <= n && n <= 0x200A)
            ||| n == 0x2028
            ||| n == 0x2029
            ||| n == 0x202F
            ||| n == 0x205F
            ||| n == 0x3000
        },
{
}

/// `trim_start` removes exactly the leading run of whitespace.
proof fn lemma_trim_start_index(s: Seq<char>) -> (a: int)
    ensures
        0 <= a <= s.len(),
        trim_start(s) == s.subrange(a, s.len() as int),
        forall|j: int| 0 <= j < a ==> is_white(#[trigger] s[j]),
        a < s.len() ==> !is_white(s[a]),
    decreases s.len(),
{
    if s.len() > 0 && is_white(s[0]) {
        let t = s.drop_first();
        let a1 = lemma_trim_start_index(t);
        assert(t.subrange(a1, t.len() as int) =~= s.subrange(a1 + 1, s.len() as int));
        assert forall|j: int| 0 <= j < a1 + 1 implies is_white(#[trigger] s[j]) by {
            if j > 0 {
                assert(s[j] == t[j - 1]);
            }
        }
        a1 + 1
    } else {
        assert(s.subrange(0, s.len() as int) =~= s);
        0
    }
}

/// `trim_end` removes exactly the trailing run of whitespace.
proof fn lemma_trim_end_index(s: Seq<char>) -> (b: int)
    ensures
        0 <= b <= s.len(),
        trim_end(s) == s.subrange(0, b),
        forall|j: int| b <= j < s.len() ==> is_white(#[trigger] s[j]),
        b > 0 ==> !is_white(s[b - 1]),
    decreases s.len(),
{
    if s.len() > 0 && is_white(s.last()) {
        let t = s.drop_last();
        let b1 = lemma_trim_end_index(t);
        assert(t.subrange(0, b1) =~= s.subrange(0, b1));
        assert forall|j: int| b1 <= j < s.len() implies is_white(#[trigger] s[j]) by {
            if j < s.len() - 1 {
                assert(s[j] == t[j]);
            }
        }
        b1
    } else {
        assert(s.subrange(0, s.len() as int) =~= s);
        s.len() as int
    }
}

/// Trimming keeps a middle piece of the text: everything before and after
/// it is whitespace, and the piece is empty or starts and ends with a
/// character that is not whitespace.
pub proof fn lemma_trim_shape(s: Seq<char>)
    ensures
        exists|a: int, b: int|
            #![trigger s.subrange(a, b)]
            0 <= a <= b <= s.len() && trim(s) == s.subrange(a, b) && (forall|j: int|
                0 <= j < a ==> is_white(#[trigger] s[j])) && (forall|j: int|
                b <= j < s.len() ==> is_white(#[trigger] s[j])) && (a < b ==> !is_white(s[a])
                && !is_white(s[b - 1])),
{
    let a = lemma_trim_start_index(s);
    let t = s.subrange(a, s.len() as int);
    let b1 = lemma_trim_end_index(t);
    let b = a + b1;
    assert(t.subrange(0, b1) =~= s.subrange(a, b));
    assert forall|j: int| b <= j < s.len() implies is_white(#[trigger] s[j]) by {
        assert(s[j] == t[j - a]);
    }
    if a < b {
        assert(s[a] == t[0]);
        if b1 < t.len() {
        }
        assert(s[b - 1] == t[b1 - 1]);
        if b1 == 1 {
        }
    }
}

/// Lines joined back with newlines between them.
pub open spec fn join_lines(lines: Seq<Seq<char>>) -> Seq<char>
    decreases lines.len(),
{
    if lines.len() == 0 {
        seq![]
    } else if lines.len() == 1 {
        lines[0]
    } else {
        lines[0] + seq!['\n'] + join_lines(lines.drop_first())
    }
}

/// Splitting into lines cuts the text exactly at its newlines: there is at
/// least one line, no line holds a newline, and joining the lines with
/// newlines gives the text back.
pub proof fn lemma_split_lines_shape(s: Seq<char>)
    ensures
        split_lines(s).len() >= 1,
        join_lines(split_lines(s)) == s,
        forall|i: int, j: int|
            0 <= i < split_lines(s).len() && 0 <= j < split_lines(s)[i].len() ==> #[trigger] split_lines(
                s,
            )[i][j] != '\n',
    decreases s.len(),
{
    lemma_find_bound(s, '\n');
    let i = find(s, '\n') as int;
    if i < s.len() {
        let rest = s.skip(i + 1);
        lemma_split_lines_shape(rest);
        let ls = split_lines(s);
        assert(ls == seq![s.take(i)] + split_lines(rest));
        assert(ls.drop_first() =~= split_lines(rest));
        assert(s =~= s.take(i) + seq!['\n'] + rest);
        assert forall|x: int, j: int|
            0 <= x < ls.len() && 0 <= j < ls[x].len() implies #[trigger] ls[x][j] != '\n' by {
            if x > 0 {
                assert(ls[x] == split_lines(rest)[x - 1]);
            }
        }
    } else {
        assert forall|x: int, j: int|
            0 <= x < split_lines(s).len() && 0 <= j < split_lines(s)[x].len() implies #[trigger] split_lines(
            s,
        )[x][j] != '\n' by {
            assert(x == 0);
        }
    }
}

/// Whitespace before position `i` does not change `trim_start`.
pub proof fn lemma_trim_start_skip(s: Seq<char>, i: int)
    requires
        0 <= i <= s.len(),
        forall|j: int| 0 <= j < i ==> is_white(s[j]),
    ensures
        trim_start(s) == trim_start(s.subrange(i, s.len() as int)),
    decreases i,
{
    if i == 0 {
        assert(s.subrange(0, s.len() as int) =~= s);
    } else {
        let t = s.drop_first();
        lemma_trim_start_skip(t, i - 1);
        assert(t.subrange(i - 1, t.len() as int) =~= s.subrange(i, s.len() as int));
    }
}

/// Whitespace from position `i` on does not change `trim_end`.
pub proof fn lemma_trim_end_skip(s: Seq<char>, i: int)
    requires
        0 <= i <= s.len(),
        forall|j: int| i <= j < s.len() ==> is_white(s[j]),
    ensures
        trim_end(s) == trim_end(s.subrange(0, i)),
    decreases s.len() - i,
{
    if i == s.len() {
        assert(s.subrange(0, i) =~= s);
    } else {
        let t = s.drop_last();
        lemma_trim_end_skip(t, i);
        assert(t.subrange(0, i) =~= s.subrange(0, i));
    }
}

/// Executable `char::is_whitespace`.
pub fn is_white_char(c: char) -> (r: bool)
    ensures
        r == is_white(c),
{
    ('\u{9}' <= c && c <= '\u{D}') || c == ' ' || c == '\u{85}' || c == '\u{A0}' || c
        == '\u{1680}' || ('\u{2000}' <= c && c <= '\u{200A}') || c == '\u{2028}' || c
        == '\u{2029}' || c == '\u{202F}' || c == '\u{205F}' || c == '\u{3000}'
}

/// The characters of a string slice.
pub fn chars_of(s: &str) -> (r: Vec<char>)
    ensures
        r@ == s@,
{
    let mut out: Vec<char> = Vec::new();
    for c in it: s.chars()
        invariant
            out@ == it.seq().take(it.index() as int),
    {
        out.push(c);
    }
    out
}

/// Appends one character to a string.
///
/// Calls `String::push`, whose documentation says that it appends the given
/// character to the end of the string; the contract states exactly that.
#[verifier::external_body]
fn push_char(s: &mut String, c: char)
    ensures
        final(s)@ == old(s)@.push(c),
{
    s.push(c);
}

/// A string holding the characters `cs[lo..hi]`.
pub fn string_of(cs: &Vec<char>, lo: usize, hi: usize) -> (r: String)
    requires
        lo <= hi <= cs@.len(),
    ensures
        r@ == cs@.subrange(lo as int, hi as int),
{
    let mut out = String::new();
    let mut i: usize = lo;
    while i < hi
        invariant
            lo <= i <= hi <= cs@.len(),
            out@ == cs@.subrange(lo as int, i as int),
        decreases hi - i,
    {
        push_char(&mut out, cs[i]);
        i = i + 1;
        assert(out@ =~= cs@.subrange(lo as int, i as int));
    }
    out
}

/// The first index `p` in `lo..hi` with `cs[p] == c`, or `hi` when there is none.
pub fn find_in(cs: &Vec<char>, lo: usize, hi: usize, c: char) -> (p: usize)
    requires
        lo <= hi <= cs@.len(),
    ensures
        lo <= p <= hi,
        p - lo == find(cs@.subrange(lo as int, hi as int), c),
{
    let mut p: usize = lo;
    while p < hi && cs[p] != c
        invariant
            lo <= p <= hi <= cs@.len(),
            forall|j: int| lo <= j < p ==> cs@[j] != c,
        decreases hi - p,
    {
        p = p + 1;
    }
    proof {
        lemma_find_is(cs@.subrange(lo as int, hi as int), c, p - lo);
    }
    p
}

/// The bounds `(a, b)` of `trim(cs[lo..hi])` inside `cs`.
pub fn trim_bounds(cs: &Vec<char>, lo: usize, hi: usize) -> (r: (usize, usize))
    requires
        lo <= hi <= cs@.len(),
    ensures
        lo <= r.0 <= r.1 <= hi,
        cs@.subrange(r.0 as int, r.1 as int) == trim(cs@.subrange(lo as int, hi as int)),
{
    let ghost s = cs@.subrange(lo as int, hi as int);
    let mut a: usize = lo;
    while a < hi && is_white_char(cs[a])
        invariant
            lo <= a <= hi <= cs@.len(),
            forall|j: int| lo <= j < a ==> is_white(cs@[j]),
        decreases hi - a,
    {
        a = a + 1;
    }
    proof {
        lemma_trim_start_skip(s, a - lo);
        assert(s.subrange(a - lo, s.len() as int) =~= cs@.subrange(a as int, hi as int));
    }
    let ghost t = cs@.subrange(a as int, hi as int);
    assert(trim_start(t) == t);
    let mut b: usize = hi;
    while b > a && is_white_char(cs[b - 1])
        invariant
            lo <= a <= b <= hi <= cs@.len(),
            forall|j: int| b <= j < hi ==> is_white(cs@[j]),
        decreases b - a,
    {
        b = b - 1;
    }
    proof {
        lemma_trim_end_skip(t, b - a);
        assert(t.subrange(0, b - a) =~= cs@.subrange(a as int, b as int));
    }
    (a, b)
}

} // verus!
