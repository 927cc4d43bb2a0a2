//! Text normalization and matching used for tags, names and search.
use vstd::prelude::*;

verus! {

broadcast use vstd::string::group_string_axioms;

/// Whether `c` has the Unicode `White_Space` property, as `char::is_whitespace` reports.
pub uninterp spec fn white_space(c: char) -> bool;

/// Calls `char::is_whitespace`. Claimed: the answer depends on `c` alone
/// (the Unicode `White_Space` property), so it is named `white_space(c)`;
/// which characters have the property is not stated.
#[verifier::external_body]
fn is_whitespace(c: char) -> (b: bool)
    ensures
        b == white_space(c),
{
    c.is_whitespace()
}

/// `s` with its leading whitespace removed.
pub open spec fn strip_leading(s: Seq<char>) -> Seq<char>
    decreases s.len(),
{
    if s.len() > 0 && white_space(s[0]) {
        strip_leading(s.subrange(1, s.len() as int))
    } else {
        s
    }
}

/// `s` with its trailing whitespace removed.
pub open spec fn strip_trailing(s: Seq<char>) -> Seq<char>
    decreases s.len(),
{
    if s.len() > 0 && white_space(s.last()) {
        strip_trailing(s.drop_last())
    } else {
        s
    }
}

/// `s` with leading and trailing whitespace removed.
pub open spec fn trimmed(s: Seq<char>) -> Seq<char> {
    strip_trailing(strip_leading(s))
}

/// The lowercase mapping of `s` that `str::to_lowercase` computes.
pub uninterp spec fn lowercased(s: Seq<char>) -> Seq<char>;

/// Calls `str::to_lowercase`. Claimed: the result depends on the characters
/// of `s` alone (Unicode lowercase mapping, no locale), so it is named
/// `lowercased(s)`; the mapping itself is not stated.
#[verifier::external_body]
fn to_lowercase(s: &str) -> (r: String)
    ensures
        r@ == lowercased(s@),
{
    s.to_lowercase()
}

proof fn lemma_strip_leading_from(s: Seq<char>, i: int)
    requires
        0 <= i <= s.len(),
        forall|k: int| 0 <= k < i ==> white_space(#[trigger] s[k]),
        i == s.len() || !white_space(s[i]),
    ensures
        strip_leading(s) == s.subrange(i, s.len() as int),
    decreases i,
{
    if i > 0 {
        let rest = s.subrange(1, s.len() as int);
        assert forall|k: int| 0 <= k < i - 1 implies white_space(#[trigger] rest[k]) by {
            assert(rest[k] == s[k + 1]);
        }
        if i - 1 < rest.len() {
            assert(rest[i - 1] == s[i]);
        }
        lemma_strip_leading_from(rest, i - 1);
        assert(white_space(s[0]));
        assert(rest.subrange(i - 1, rest.len() as int) =~= s.subrange(i, s.len() as int));
    } else {
        assert(s.subrange(0, s.len() as int) =~= s);
    }
}

proof fn lemma_strip_trailing_to(s: Seq<char>, j: int)
    requires
        0 <= j <= s.len(),
        forall|k: int| j <= k < s.len() ==> white_space(#[trigger] s[k]),
        j == 0 || !white_space(s[j - 1]),
    ensures
        strip_trailing(s) == s.subrange(0, j),
    decreases s.len() - j,
{
    if j < s.len() {
        let rest = s.drop_last();
        assert forall|k: int| j <= k < rest.len() implies white_space(#[trigger] rest[k]) by {
            assert(rest[k] == s[k]);
        }
        if j > 0 {
            assert(rest[j - 1] == s[j - 1]);
        }
        lemma_strip_trailing_to(rest, j);
        assert(white_space(s[s.len() - 1]));
        assert(rest.subrange(0, j) =~= s.subrange(0, j));
    } else {
        assert(s.subrange(0, s.len() as int) =~= s);
    }
}

/// The characters of `s`.
fn chars_of(s: &str) -> (v: Vec<char>)
    ensures
        v@ == s@,
{
    let n = s.unicode_len();
    let mut v: Vec<char> = Vec::new();
    let mut i: usize = 0;
    while i < n
        invariant
            n == s@.len(),
            i <= n,
            v@ == s@.subrange(0, i as int),
        decreases n - i,
    {
        v.push(s.get_char(i));
        i = i + 1;
        assert(v@ =~= s@.subrange(0, i as int));
    }
    assert(s@.subrange(0, n as int) =~= s@);
    v
}

/// `s` without leading and trailing whitespace.
pub fn trim(s: &str) -> (r: String)
    ensures
        r@ == trimmed(s@),
{
    let chars = chars_of(s);
    let n = chars.len();
    let mut i: usize = 0;
    while i < n && is_whitespace(chars[i])
        invariant
            n == chars@.len(),
            chars@ == s@,
            i <= n,
            forall|k: int| 0 <= k < i ==> white_space(#[trigger] s@[k]),
        decreases n - i,
    {
        i = i + 1;
    }
    let mut j: usize = n;
    while j > i && is_whitespace(chars[j - 1])
        invariant
            n == chars@.len(),
            chars@ == s@,
            i <= j <= n,
            forall|k: int| j <= k < n ==> white_space(#[trigger] s@[k]),
        decreases j,
    {
        j = j - 1;
    }
    proof {
        lemma_strip_leading_from(s@, i as int);
        let lead = s@.subrange(i as int, n as int);
        assert forall|k: int| j - i <= k < lead.len() implies white_space(#[trigger] lead[k]) by {
            assert(lead[k] == s@[k + i]);
        }
        if j > i {
            assert(lead[j - i - 1] == s@[j - 1]);
        }
        lemma_strip_trailing_to(lead, j - i);
        assert(lead.subrange(0, j - i) =~= s@.subrange(i as int, j as int));
    }
    s.substring_char(i, j).to_string()
}

/// Trimmed, lowercased form used to compare names, tags and queries.
pub fn normalize(value: String) -> (r: String)
    ensures
        r@ == lowercased(trimmed(value@)),
{
    let trimmed_value = trim(value.as_str());
    to_lowercase(trimmed_value.as_str())
}

/// `needle` occurs as a contiguous run of characters in `haystack`.
pub open spec fn occurs_in(needle: Seq<char>, haystack: Seq<char>) -> bool {
    exists|i: int| 0 <= i && i + needle.len() <= haystack.len() && #[trigger] haystack.subrange(i, i + needle.len()) == needle
}

/// Whether `needle` occurs in `haystack`.
pub fn contains_text(haystack: &str, needle: &str) -> (b: bool)
    ensures
        b == occurs_in(needle@, haystack@),
{
    let h = chars_of(haystack);
    let n = chars_of(needle);
    if n.len() > h.len() {
        proof {
            assert forall|i: int| 0 <= i && i + n@.len() <= h@.len() implies #[trigger] haystack@.subrange(i, i + needle@.len()) != needle@ by {
            }
        }
        return false;
    }
    let hl = h.len();
    let last_start = hl - n.len();
    let mut start: usize = 0;
    loop
        invariant
            h@ == haystack@,
            n@ == needle@,
            hl == h@.len(),
            last_start == h@.len() - n@.len(),
            start <= last_start,
            forall|i: int| 0 <= i < start ==> #[trigger] haystack@.subrange(i, i + needle@.len()) != needle@,
        decreases last_start - start,
    {
        let mut k: usize = 0;
        while k < n.len() && h[start + k] == n[k]
            invariant
                h@ == haystack@,
                n@ == needle@,
                hl == h@.len(),
                start <= last_start,
                last_start == h@.len() - n@.len(),
                k <= n@.len(),
                forall|q: int| 0 <= q < k ==> h@[start + q] == n@[q],
            decreases n@.len() - k,
        {
            k = k + 1;
        }
        if k == n.len() {
            assert(haystack@.subrange(start as int, start + needle@.len()) =~= needle@);
            return true;
        }
        assert(haystack@.subrange(start as int, start + needle@.len())[k as int] != needle@[k as int]);
        if start == last_start {
            return false;
        }
        start = start + 1;
    }
}

/// `a` sorts before `b`: the lexicographic order of their characters by
/// code point, which is the byte order of their UTF-8 encodings that strings
/// are ordered by.
pub open spec fn text_lt(a: Seq<char>, b: Seq<char>) -> bool
    decreases a.len(),
{
    if a.len() == 0 {
        b.len() > 0
    } else if b.len() == 0 {
        false
    } else if a[0] != b[0] {
        (a[0] as int) < (b[0] as int)
    } else {
        text_lt(a.drop_first(), b.drop_first())
    }
}

/// No text sorts before itself.
pub proof fn lemma_text_lt_irreflexive(a: Seq<char>)
    ensures
        !text_lt(a, a),
    decreases a.len(),
{
    if a.len() > 0 {
        lemma_text_lt_irreflexive(a.drop_first());
    }
}

/// The text order is transitive.
pub proof fn lemma_text_lt_transitive(a: Seq<char>, b: Seq<char>, c: Seq<char>)
    requires
        text_lt(a, b),
        text_lt(b, c),
    ensures
        text_lt(a, c),
    decreases a.len(),
{
    if a.len() > 0 && b.len() > 0 && c.len() > 0 && a[0] == b[0] && b[0] == c[0] {
        lemma_text_lt_transitive(a.drop_first(), b.drop_first(), c.drop_first());
    }
}

/// Two different texts are ordered one way or the other.
pub proof fn lemma_text_lt_total(a: Seq<char>, b: Seq<char>)
    requires
        a != b,
    ensures
        text_lt(a, b) || text_lt(b, a),
    decreases a.len(),
{
    if a.len() > 0 && b.len() > 0 {
        if a[0] == b[0] {
            if a.drop_first() == b.drop_first() {
                assert(a =~= seq![a[0]] + a.drop_first());
                assert(b =~= seq![b[0]] + b.drop_first());
            }
            lemma_text_lt_total(a.drop_first(), b.drop_first());
        } else {
            assert((a[0] as int) != (b[0] as int));
        }
    } else if a.len() == 0 && b.len() == 0 {
        assert(a =~= b);
    }
}

/// Whether `a` sorts before `b` (see `text_lt`).
pub fn text_less(a: &str, b: &str) -> (r: bool)
    ensures
        r == text_lt(a@, b@),
{
    let x = chars_of(a);
    let y = chars_of(b);
    let mut i: usize = 0;
    assert(a@.skip(0) =~= a@ && b@.skip(0) =~= b@);
    while i < x.len() && i < y.len() && x[i] == y[i]
        invariant
            x@ == a@,
            y@ == b@,
            i <= x@.len(),
            i <= y@.len(),
            text_lt(a@, b@) == text_lt(a@.skip(i as int), b@.skip(i as int)),
        decreases x@.len() - i,
    {
        assert(a@.skip(i as int).drop_first() =~= a@.skip(i + 1));
        assert(b@.skip(i as int).drop_first() =~= b@.skip(i + 1));
        i = i + 1;
    }
    let ghost sa = a@.skip(i as int);
    let ghost sb = b@.skip(i as int);
    if i == x.len() {
        assert(sa.len() == 0);
        i < y.len()
    } else if i == y.len() {
        assert(sa.len() > 0 && sb.len() == 0);
        false
    } else {
        let c = x[i];
        let d = y[i];
        assert(sa[0] == c && sb[0] == d);
        c < d
    }
}

} // verus!
