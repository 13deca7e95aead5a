//! Character-sequence primitives: whitespace trimming, single-character
//! search, splitting on a delimiter, and the annotation-marker search.
//! Each spec function has a verified executable counterpart or is used
//! directly by the table parser's contracts.

use vstd::prelude::*;

verus! {

/// True when `c` has the Unicode `White_Space` property, the set that
/// `char::is_whitespace` recognizes and that cell trimming removes from
/// both ends of a cell.
pub open spec fn is_wsp(c: char) -> bool {
    c == ' ' || c == '\t' || c == '\n' || c == '\r' || c == '\u{b}' || c == '\u{c}'
        || c == '\u{85}' || c == '\u{a0}' || c == '\u{1680}' || c == '\u{2000}' || c == '\u{2001}'
        || c == '\u{2002}' || c == '\u{2003}' || c == '\u{2004}' || c == '\u{2005}'
        || c == '\u{2006}' || c == '\u{2007}' || c == '\u{2008}' || c == '\u{2009}'
        || c == '\u{200a}' || c == '\u{2028}' || c == '\u{2029}' || c == '\u{202f}'
        || c == '\u{205f}' || c == '\u{3000}'
}

/// Index of the first occurrence of `c` in `s`, or -1 when absent.
pub open spec fn find_char(s: Seq<char>, c: char) -> int
    decreases s.len(),
{
    if s.len() == 0 {
        -1
    } else if s[0] == c {
        0
    } else {
        let r = find_char(s.drop_first(), c);
        if r == -1 {
            -1
        } else {
            r + 1
        }
    }
}

pub proof fn lemma_find_char_none(s: Seq<char>, c: char)
    requires
        forall|k: int| 0 <= k < s.len() ==> s[k] != c,
    ensures
        find_char(s, c) == -1,
    decreases s.len(),
{
    if s.len() > 0 {
        lemma_find_char_none(s.drop_first(), c);
    }
}

pub proof fn lemma_find_char_is(s: Seq<char>, c: char, j: int)
    requires
        0 <= j < s.len(),
        s[j] == c,
        forall|k: int| 0 <= k < j ==> s[k] != c,
    ensures
        find_char(s, c) == j,
    decreases s.len(),
{
    if j > 0 {
        lemma_find_char_is(s.drop_first(), c, j - 1);
    }
}

/// Leading whitespace removed.
pub open spec fn trim_start(s: Seq<char>) -> Seq<char>
    decreases s.len(),
{
    if s.len() > 0 && is_wsp(s[0]) {
        trim_start(s.drop_first())
    } else {
        s
    }
}

/// Trailing whitespace removed.
pub open spec fn trim_end(s: Seq<char>) -> Seq<char>
    decreases s.len(),
{
    if s.len() > 0 && is_wsp(s.last()) {
        trim_end(s.drop_last())
    } else {
        s
    }
}

/// Whitespace removed from both ends.
pub open spec fn trim_spec(s: Seq<char>) -> Seq<char> {
    trim_end(trim_start(s))
}

pub proof fn lemma_trim_start_at(s: Seq<char>, p: int)
    requires
        0 <= p <= s.len(),
        forall|k: int| 0 <= k < p ==> is_wsp(s[k]),
        p < s.len() ==> !is_wsp(s[p]),
    ensures
        trim_start(s) == s.skip(p),
    decreases p,
{
    if p == 0 {
        assert(s.skip(0) =~= s);
    } else {
        lemma_trim_start_at(s.drop_first(), p - 1);
        assert(s.drop_first().skip(p - 1) =~= s.skip(p));
    }
}

pub proof fn lemma_trim_end_at(s: Seq<char>, q: int)
    requires
        0 <= q <= s.len(),
        forall|k: int| q <= k < s.len() ==> is_wsp(s[k]),
        q > 0 ==> !is_wsp(s[q - 1]),
    ensures
        trim_end(s) == s.take(q),
    decreases s.len(),
{
    if q == s.len() {
        assert(s.take(q) =~= s);
        if s.len() > 0 {
            assert(!is_wsp(s.last()));
        }
    } else {
        assert(is_wsp(s.last()));
        lemma_trim_end_at(s.drop_last(), q);
        assert(s.drop_last().take(q) =~= s.take(q));
    }
}

/// `s` split on every occurrence of `c`; always at least one fragment.
pub open spec fn split_char(s: Seq<char>, c: char) -> Seq<Seq<char>>
    decreases s.len(),
{
    let i = find_char(s, c);
    if i == -1 {
        seq![s]
    } else if 0 <= i < s.len() {
        seq![s.take(i)] + split_char(s.skip(i + 1), c)
    } else {
        seq![s]
    }
}

/// True when the five-character annotation marker `@code` stands at
/// position `j` of `s`.
pub open spec fn marker_at(s: Seq<char>, j: int) -> bool {
    &&& 0 <= j
    &&& j + 5 <= s.len()
    &&& s[j] == '@'
    &&& s[j + 1] == 'c'
    &&& s[j + 2] == 'o'
    &&& s[j + 3] == 'd'
    &&& s[j + 4] == 'e'
}

/// Index of the first occurrence of the marker in `s`, or -1 when absent.
pub open spec fn find_marker(s: Seq<char>) -> int
    decreases s.len(),
{
    if s.len() == 0 {
        -1
    } else if marker_at(s, 0) {
        0
    } else {
        let r = find_marker(s.drop_first());
        if r == -1 {
            -1
        } else {
            r + 1
        }
    }
}

pub proof fn lemma_marker_at_shift(s: Seq<char>, j: int)
    requires
        0 <= j <= s.len(),
    ensures
        forall|k: int| 0 <= k ==> (marker_at(s.skip(j), k) <==> marker_at(s, j + k)),
{
    assert forall|k: int| 0 <= k implies (marker_at(s.skip(j), k) <==> marker_at(s, j + k)) by {
        if k + 5 <= s.skip(j).len() {
            assert(s.skip(j)[k] == s[j + k]);
            assert(s.skip(j)[k + 1] == s[j + k + 1]);
            assert(s.skip(j)[k + 2] == s[j + k + 2]);
            assert(s.skip(j)[k + 3] == s[j + k + 3]);
            assert(s.skip(j)[k + 4] == s[j + k + 4]);
        }
    }
}

pub proof fn lemma_find_marker_none(s: Seq<char>)
    requires
        forall|k: int| !marker_at(s, k),
    ensures
        find_marker(s) == -1,
    decreases s.len(),
{
    if s.len() > 0 {
        assert forall|k: int| !marker_at(s.drop_first(), k) by {
            if marker_at(s.drop_first(), k) {
                assert(s.drop_first() =~= s.skip(1));
                lemma_marker_at_shift(s, 1);
            }
        }
        lemma_find_marker_none(s.drop_first());
    }
}

pub proof fn lemma_find_marker_is(s: Seq<char>, j: int)
    requires
        marker_at(s, j),
        forall|k: int| 0 <= k < j ==> !marker_at(s, k),
    ensures
        find_marker(s) == j,
    decreases s.len(),
{
    if j > 0 {
        assert(s.drop_first() =~= s.skip(1));
        lemma_marker_at_shift(s, 1);
        assert(marker_at(s.drop_first(), j - 1));
        assert forall|k: int| 0 <= k < j - 1 implies !marker_at(s.drop_first(), k) by {
            if marker_at(s.drop_first(), k) {
                assert(marker_at(s, k + 1));
            }
        }
        lemma_find_marker_is(s.drop_first(), j - 1);
    }
}

/// The characters of `s`, as a vector with constant-time indexing.
pub fn chars_of(s: &str) -> (v: Vec<char>)
    ensures
        v@ == s@,
{
    let n = s.unicode_len();
    let mut v: Vec<char> = Vec::new();
    let mut i: usize = 0;
    while i < n
        invariant
            i <= n,
            n == s@.len(),
            v@ == s@.take(i as int),
        decreases n - i,
    {
        let c = s.get_char(i);
        v.push(c);
        i += 1;
        proof {
            assert(v@ =~= s@.take(i as int));
        }
    }
    proof {
        assert(s@.take(n as int) =~= s@);
    }
    v
}

/// First occurrence of `c` at an index in `[from, to)` of `cv`, if any;
/// the result also fixes `find_char` on the corresponding subrange.
pub fn find_in_range(cv: &Vec<char>, from: usize, to: usize, c: char) -> (r: Option<usize>)
    requires
        from <= to <= cv@.len(),
    ensures
        match r {
            Some(j) => {
                &&& from <= j < to
                &&& cv@[j as int] == c
                &&& forall|k: int| from <= k < j ==> cv@[k] != c
                &&& find_char(cv@.subrange(from as int, to as int), c) == j - from
            },
            None => {
                &&& forall|k: int| from <= k < to ==> cv@[k] != c
                &&& find_char(cv@.subrange(from as int, to as int), c) == -1
            },
        },
{
    let mut i: usize = from;
    while i < to
        invariant
            from <= i <= to <= cv@.len(),
            forall|k: int| from <= k < i ==> cv@[k] != c,
        decreases to - i,
    {
        if cv[i] == c {
            proof {
                assert forall|k: int| 0 <= k < i - from implies cv@.subrange(
                    from as int,
                    to as int,
                )[k] != c by {
                    assert(cv@.subrange(from as int, to as int)[k] == cv@[from + k]);
                }
                assert(cv@.subrange(from as int, to as int)[i - from] == cv@[i as int]);
                lemma_find_char_is(cv@.subrange(from as int, to as int), c, i - from);
            }
            return Some(i);
        }
        i += 1;
    }
    proof {
        assert forall|k: int| 0 <= k < to - from implies cv@.subrange(from as int, to as int)[k]
            != c by {
            assert(cv@.subrange(from as int, to as int)[k] == cv@[from + k]);
        }
        lemma_find_char_none(cv@.subrange(from as int, to as int), c);
    }
    None
}

/// First index in `[from, cv.len())` at which the marker stands, if any;
/// the result also fixes `find_marker` on the tail that starts at `from`.
pub fn find_marker_in(cv: &Vec<char>, from: usize) -> (r: Option<usize>)
    requires
        from <= cv@.len(),
    ensures
        match r {
            Some(j) => {
                &&& from <= j
                &&& marker_at(cv@, j as int)
                &&& forall|k: int| from <= k < j ==> !marker_at(cv@, k)
                &&& find_marker(cv@.skip(from as int)) == j - from
            },
            None => {
                &&& forall|k: int| from <= k ==> !marker_at(cv@, k)
                &&& find_marker(cv@.skip(from as int)) == -1
            },
        },
{
    proof {
        lemma_marker_at_shift(cv@, from as int);
    }
    let n = cv.len();
    let mut i: usize = from;
    while i < n
        invariant
            from <= i <= n == cv@.len(),
            forall|k: int| from <= k < i ==> !marker_at(cv@, k),
        decreases n - i,
    {
        if n - i >= 5 && cv[i] == '@' && cv[i + 1] == 'c' && cv[i + 2] == 'o' && cv[i + 3] == 'd'
            && cv[i + 4] == 'e' {
            proof {
                assert(marker_at(cv@, i as int));
                assert(marker_at(cv@.skip(from as int), i - from) <==> marker_at(
                    cv@,
                    from + (i - from),
                ));
                assert forall|k: int| 0 <= k < i - from implies !marker_at(
                    cv@.skip(from as int),
                    k,
                ) by {
                    assert(marker_at(cv@.skip(from as int), k) <==> marker_at(cv@, from + k));
                }
                lemma_find_marker_is(cv@.skip(from as int), i - from);
            }
            return Some(i);
        }
        i += 1;
    }
    proof {
        assert forall|k: int| !marker_at(cv@.skip(from as int), k) by {
            if 0 <= k {
                assert(marker_at(cv@.skip(from as int), k) <==> marker_at(cv@, from + k));
                assert(!marker_at(cv@, from + k));
            }
        }
        lemma_find_marker_none(cv@.skip(from as int));
    }
    None
}

/// Trimmed bounds of the fragment `cv[from..to)`: the returned pair `(a, b)`
/// satisfies `cv[a..b) == trim_spec(cv[from..to))`.
pub fn trim_range(cv: &Vec<char>, from: usize, to: usize) -> (r: (usize, usize))
    requires
        from <= to <= cv@.len(),
    ensures
        from <= r.0 <= r.1 <= to,
        cv@.subrange(r.0 as int, r.1 as int) == trim_spec(cv@.subrange(from as int, to as int)),
{
    let ghost sub = cv@.subrange(from as int, to as int);
    let mut a: usize = from;
    while a < to && is_wsp_exec(cv[a])
        invariant
            from <= a <= to <= cv@.len(),
            forall|k: int| from <= k < a ==> is_wsp(cv@[k]),
        decreases to - a,
    {
        a += 1;
    }
    let mut b: usize = to;
    while b > a && is_wsp_exec(cv[b - 1])
        invariant
            a <= b <= to <= cv@.len(),
            forall|k: int| b <= k < to ==> is_wsp(cv@[k]),
        decreases b,
    {
        b -= 1;
    }
    proof {
        assert forall|k: int| 0 <= k < a - from implies is_wsp(sub[k]) by {
            assert(sub[k] == cv@[from + k]);
        }
        if a < to {
            assert(sub[a - from] == cv@[a as int]);
        }
        lemma_trim_start_at(sub, a - from);
        let ghost mid = sub.skip(a - from);
        assert(mid =~= cv@.subrange(a as int, to as int));
        assert forall|k: int| b - a <= k < mid.len() implies is_wsp(mid[k]) by {
            assert(mid[k] == cv@[a + k]);
        }
        if b > a {
            assert(mid[b - a - 1] == cv@[b - 1]);
        }
        lemma_trim_end_at(mid, b - a);
        assert(mid.take(b - a) =~= cv@.subrange(a as int, b as int));
    }
    (a, b)
}

/// Executable test for the whitespace set used by trimming.
pub fn is_wsp_exec(c: char) -> (r: bool)
    ensures
        r == is_wsp(c),
{
    c == ' ' || c == '\t' || c == '\n' || c == '\r' || c == '\u{b}' || c == '\u{c}'
        || c == '\u{85}' || c == '\u{a0}' || c == '\u{1680}' || c == '\u{2000}' || c == '\u{2001}'
        || c == '\u{2002}' || c == '\u{2003}' || c == '\u{2004}' || c == '\u{2005}'
        || c == '\u{2006}' || c == '\u{2007}' || c == '\u{2008}' || c == '\u{2009}'
        || c == '\u{200a}' || c == '\u{2028}' || c == '\u{2029}' || c == '\u{202f}'
        || c == '\u{205f}' || c == '\u{3000}'
}

} // verus!
