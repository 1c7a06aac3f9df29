//! Character-sequence helpers: whitespace trimming and comma-separated
//! alias lists, with executable counterparts proved against the spec.

use vstd::prelude::*;

verus! {

/// The characters that count as whitespace when an alias is trimmed
/// (the Unicode `White_Space` set, as `str::trim` uses it).
pub open spec fn is_space(c: char) -> bool {
    c == ' ' || c == '\t' || c == '\n' || c == '\r' || c == '\u{000B}' || c == '\u{000C}'
        || c == '\u{0085}' || c == '\u{00A0}' || c == '\u{1680}' || ('\u{2000}' <= c && c
        <= '\u{200A}') || c == '\u{2028}' || c == '\u{2029}' || c == '\u{202F}' || c == '\u{205F}'
        || c == '\u{3000}'
}

/// Number of leading whitespace characters of `s`.
pub open spec fn lead_ws(s: Seq<char>) -> int
    decreases s.len(),
{
    if s.len() == 0 {
        0
    } else if is_space(s[0]) {
        1 + lead_ws(s.drop_first())
    } else {
        0
    }
}

/// Number of trailing whitespace characters of `s`.
pub open spec fn trail_ws(s: Seq<char>) -> int
    decreases s.len(),
{
    if s.len() == 0 {
        0
    } else if is_space(s[s.len() - 1]) {
        1 + trail_ws(s.drop_last())
    } else {
        0
    }
}

/// `s` with leading and trailing whitespace removed, as `str::trim` does.
pub open spec fn trimmed(s: Seq<char>) -> Seq<char> {
    if lead_ws(s) == s.len() {
        Seq::empty()
    } else {
        s.subrange(lead_ws(s), s.len() - trail_ws(s))
    }
}

/// A prefix of whitespace followed by a non-space (or the end) pins
/// `lead_ws` down exactly.
pub proof fn lemma_lead_ws_is(s: Seq<char>, k: int)
    requires
        0 <= k <= s.len(),
        forall|i: int| 0 <= i < k ==> is_space(s[i]),
        k < s.len() ==> !is_space(s[k]),
    ensures
        lead_ws(s) == k,
    decreases s.len(),
{
    if s.len() > 0 && is_space(s[0]) {
        lemma_lead_ws_is(s.drop_first(), k - 1);
    }
}

/// A suffix of whitespace preceded by a non-space (or the start) pins
/// `trail_ws` down exactly.
pub proof fn lemma_trail_ws_is(s: Seq<char>, k: int)
    requires
        0 <= k <= s.len(),
        forall|i: int| s.len() - k <= i < s.len() ==> is_space(s[i]),
        k < s.len() ==> !is_space(s[s.len() - 1 - k]),
    ensures
        trail_ws(s) == k,
    decreases s.len(),
{
    if s.len() > 0 && is_space(s[s.len() - 1]) {
        assert forall|i: int| s.drop_last().len() - (k - 1) <= i < s.drop_last().len()
            implies is_space(s.drop_last()[i]) by {
            assert(s.drop_last()[i] == s[i]);
        }
        lemma_trail_ws_is(s.drop_last(), k - 1);
    }
}

/// Index of the first occurrence of `c` in `s`, or `s.len()` if absent.
pub open spec fn first_at(s: Seq<char>, c: char) -> nat
    decreases s.len(),
{
    if s.len() == 0 {
        0
    } else if s[0] == c {
        0
    } else {
        1 + first_at(s.drop_first(), c)
    }
}

/// `first_at` points at the first occurrence: nothing before it equals
/// `c`, and it equals `c` unless `c` is absent altogether.
pub proof fn lemma_first_at(s: Seq<char>, c: char)
    ensures
        0 <= first_at(s, c) <= s.len(),
        forall|i: int| 0 <= i < first_at(s, c) ==> s[i] != c,
        first_at(s, c) < s.len() ==> s[first_at(s, c) as int] == c,
    decreases s.len(),
{
    if s.len() > 0 && s[0] != c {
        lemma_first_at(s.drop_first(), c);
        assert forall|i: int| 0 <= i < first_at(s, c) implies s[i] != c by {
            if i > 0 {
                assert(s[i] == s.drop_first()[i - 1]);
            }
        }
    }
}

/// A position preceded only by other characters pins `first_at` down.
pub proof fn lemma_first_at_is(s: Seq<char>, c: char, k: int)
    requires
        0 <= k <= s.len(),
        forall|i: int| 0 <= i < k ==> s[i] != c,
        k < s.len() ==> s[k] == c,
    ensures
        first_at(s, c) == k,
    decreases s.len(),
{
    if s.len() > 0 && s[0] != c {
        lemma_first_at_is(s.drop_first(), c, k - 1);
    }
}

/// Whether the comma-separated alias list `s` contains a non-empty
/// segment that, once trimmed, equals `token`.  Segments are the maximal
/// comma-free runs, and empty segments never match.
pub open spec fn alias_has(s: Seq<char>, token: Seq<char>) -> bool
    decreases s.len(),
{
    let k = first_at(s, ',') as int;
    (k > 0 && trimmed(s.subrange(0, k)) == token) || (k < s.len() && alias_has(
        s.subrange(k + 1, s.len() as int),
        token,
    ))
}

/// Executable whitespace test, matching `is_space` exactly.
pub fn space(c: char) -> (b: bool)
    ensures
        b == is_space(c),
{
    c == ' ' || c == '\t' || c == '\n' || c == '\r' || c == '\u{000B}' || c == '\u{000C}'
        || c == '\u{0085}' || c == '\u{00A0}' || c == '\u{1680}' || ('\u{2000}' <= c && c
        <= '\u{200A}') || c == '\u{2028}' || c == '\u{2029}' || c == '\u{202F}' || c == '\u{205F}'
        || c == '\u{3000}'
}

/// Whether the character ranges `a[alo..ahi)` and `b[blo..bhi)` hold the
/// same characters.
pub fn range_eq(a: &str, alo: usize, ahi: usize, b: &str, blo: usize, bhi: usize) -> (r: bool)
    requires
        alo <= ahi <= a@.len(),
        blo <= bhi <= b@.len(),
    ensures
        r == (a@.subrange(alo as int, ahi as int) == b@.subrange(blo as int, bhi as int)),
{
    if ahi - alo != bhi - blo {
        assert(a@.subrange(alo as int, ahi as int).len() != b@.subrange(
            blo as int,
            bhi as int,
        ).len());
        return false;
    }
    let len: usize = ahi - alo;
    let mut i: usize = 0;
    while i < len
        invariant
            len == ahi - alo == bhi - blo,
            alo <= ahi <= a@.len(),
            blo <= bhi <= b@.len(),
            i <= len,
            forall|j: int| 0 <= j < i ==> #[trigger] a@[alo + j] == b@[blo + j],
        decreases len - i,
    {
        if a.get_char(alo + i) != b.get_char(blo + i) {
            assert(a@.subrange(alo as int, ahi as int)[i as int] != b@.subrange(
                blo as int,
                bhi as int,
            )[i as int]);
            return false;
        }
        i += 1;
    }
    proof {
        assert forall|j: int| 0 <= j < len implies a@.subrange(alo as int, ahi as int)[j]
            == b@.subrange(blo as int, bhi as int)[j] by {
            assert(a@[alo + j] == b@[blo + j]);
        }
        assert(a@.subrange(alo as int, ahi as int) =~= b@.subrange(blo as int, bhi as int));
    }
    true
}

/// Whether two strings hold the same characters.
pub fn text_eq(a: &str, b: &str) -> (r: bool)
    ensures
        r == (a@ == b@),
{
    let na = a.unicode_len();
    let nb = b.unicode_len();
    let r = range_eq(a, 0, na, b, 0, nb);
    assert(a@.subrange(0, na as int) =~= a@);
    assert(b@.subrange(0, nb as int) =~= b@);
    r
}

/// First position in `[lo, hi)` holding a non-whitespace character, or `hi`.
fn skip_ws_forward(s: &str, lo: usize, hi: usize) -> (a: usize)
    requires
        lo <= hi <= s@.len(),
    ensures
        lo <= a <= hi,
        forall|i: int| lo <= i < a ==> is_space(s@[i]),
        a < hi ==> !is_space(s@[a as int]),
{
    let mut a: usize = lo;
    loop
        invariant
            lo <= a <= hi <= s@.len(),
            forall|i: int| lo <= i < a ==> is_space(s@[i]),
        decreases hi - a,
    {
        if a >= hi {
            return a;
        }
        if !space(s.get_char(a)) {
            return a;
        }
        a += 1;
    }
}

/// Last boundary in `(lo, hi]` with only whitespace at and after it, not
/// passing a non-whitespace character.
fn skip_ws_backward(s: &str, lo: usize, hi: usize) -> (b: usize)
    requires
        lo <= hi <= s@.len(),
    ensures
        lo <= b <= hi,
        forall|i: int| b <= i < hi ==> is_space(s@[i]),
        b > lo ==> !is_space(s@[b - 1]),
{
    let mut b: usize = hi;
    loop
        invariant
            lo <= b <= hi <= s@.len(),
            forall|i: int| b <= i < hi ==> is_space(s@[i]),
        decreases b,
    {
        if b == lo {
            return b;
        }
        if !space(s.get_char(b - 1)) {
            return b;
        }
        b -= 1;
    }
}

/// First position in `[lo, hi)` holding `c`, or `hi` if `c` is absent there.
pub(crate) fn find_char(s: &str, lo: usize, hi: usize, c: char) -> (k: usize)
    requires
        lo <= hi <= s@.len(),
    ensures
        lo <= k <= hi,
        forall|i: int| lo <= i < k ==> s@[i] != c,
        k < hi ==> s@[k as int] == c,
{
    let mut k: usize = lo;
    loop
        invariant
            lo <= k <= hi <= s@.len(),
            forall|i: int| lo <= i < k ==> s@[i] != c,
        decreases hi - k,
    {
        if k >= hi {
            return k;
        }
        if s.get_char(k) == c {
            return k;
        }
        k += 1;
    }
}

/// Whether the segment `s[lo..hi)`, once trimmed, equals `token`.
pub fn range_trim_matches(s: &str, lo: usize, hi: usize, token: &str) -> (r: bool)
    requires
        lo <= hi <= s@.len(),
    ensures
        r == (trimmed(s@.subrange(lo as int, hi as int)) == token@),
{
    let ghost seg = s@.subrange(lo as int, hi as int);
    let a = skip_ws_forward(s, lo, hi);
    if a == hi {
        // the whole segment is whitespace: it trims to the empty sequence
        proof {
            assert forall|i: int| 0 <= i < seg.len() implies is_space(seg[i]) by {
                assert(seg[i] == s@[lo + i]);
            }
            lemma_lead_ws_is(seg, seg.len() as int);
        }
        let empty_token = token.unicode_len() == 0;
        proof {
            if empty_token {
                assert(token@ =~= Seq::<char>::empty());
            }
        }
        return empty_token;
    }
    let b = skip_ws_backward(s, a + 1, hi);
    // now trimmed(seg) == s@.subrange(a, b)
    proof {
        assert forall|i: int| 0 <= i < a - lo implies is_space(seg[i]) by {
            assert(seg[i] == s@[lo + i]);
        }
        assert(seg[a - lo] == s@[a as int]);
        lemma_lead_ws_is(seg, a - lo);
        assert forall|i: int| seg.len() - (hi - b) <= i < seg.len() implies is_space(seg[i]) by {
            assert(seg[i] == s@[lo + i]);
        }
        assert(!is_space(s@[b - 1]));
        assert(seg[seg.len() - 1 - (hi - b)] == s@[b - 1]);
        lemma_trail_ws_is(seg, hi - b);
        assert(trimmed(seg) =~= s@.subrange(a as int, b as int));
    }
    let tn = token.unicode_len();
    let r = range_eq(s, a, b, token, 0, tn);
    assert(token@.subrange(0, tn as int) =~= token@);
    r
}

/// Whether some non-empty comma-separated segment of `alias`, trimmed,
/// equals `token` — the rule that decides which flag a token selects.
pub fn alias_matches(alias: &str, token: &str) -> (r: bool)
    ensures
        r == alias_has(alias@, token@),
{
    let n = alias.unicode_len();
    let mut start: usize = 0;
    proof {
        assert(alias@.subrange(0, n as int) =~= alias@);
    }
    loop
        invariant
            start <= n,
            n == alias@.len(),
            alias_has(alias@, token@) == alias_has(
                alias@.subrange(start as int, n as int),
                token@,
            ),
        decreases n - start,
    {
        let ghost suffix = alias@.subrange(start as int, n as int);
        let i = find_char(alias, start, n, ',');
        proof {
            assert forall|j: int| 0 <= j < i - start implies suffix[j] != ',' by {
                assert(suffix[j] == alias@[start + j]);
            }
            if i < n {
                assert(suffix[i - start] == alias@[i as int]);
            }
            lemma_first_at_is(suffix, ',', i - start);
            assert(suffix.subrange(0, i - start) =~= alias@.subrange(start as int, i as int));
        }
        if i > start {
            if range_trim_matches(alias, start, i, token) {
                return true;
            }
        }
        if i == n {
            return false;
        }
        proof {
            assert(suffix.subrange(i - start + 1, suffix.len() as int) =~= alias@.subrange(
                i + 1,
                n as int,
            ));
        }
        start = i + 1;
    }
}

} // verus!
