use vstd::prelude::*;
use vstd::string::*;

verus! {

/// ASCII whitespace, as `char::is_ascii_whitespace` defines it:
/// space, horizontal tab, line feed, form feed, carriage return.
pub open spec fn is_ws(c: char) -> bool {
    c == ' ' || c == '\t' || c == '\n' || c == '\u{000C}' || c == '\r'
}

pub open spec fn is_alpha(c: char) -> bool {
    ('a' <= c && c <= 'z') || ('A' <= c && c <= 'Z')
}

pub open spec fn is_upper(c: char) -> bool {
    'A' <= c && c <= 'Z'
}

pub open spec fn is_digit(c: char) -> bool {
    '0' <= c && c <= '9'
}

/// Characters that may form the optional count after a kanji span's
/// underscores: decimal digits and hyphens.
pub open spec fn is_count_char(c: char) -> bool {
    is_digit(c) || c == '-'
}

/// Lower-casing of a single character, restricted to ASCII letters.
pub open spec fn lower_char(c: char) -> char {
    if is_upper(c) {
        ((c as u32) + 32) as char
    } else {
        c
    }
}

pub open spec fn lower(s: Seq<char>) -> Seq<char> {
    s.map(|_i: int, c: char| lower_char(c))
}

/// Index of the first character of `s` satisfying `p`, or `s.len()` if none does.
pub open spec fn spec_find(s: Seq<char>, p: spec_fn(char) -> bool) -> int
    decreases s.len(),
{
    if s.len() == 0 {
        0
    } else if p(s[0]) {
        0
    } else {
        1 + spec_find(s.drop_first(), p)
    }
}

/// Index of the first occurrence of `pat` as a contiguous subsequence of `s`,
/// or `s.len()` if there is none.
pub open spec fn spec_find_seq(s: Seq<char>, pat: Seq<char>) -> int
    decreases s.len(),
{
    if s.len() < pat.len() {
        s.len() as int
    } else if s.take(pat.len() as int) == pat {
        0
    } else if s.len() == pat.len() {
        s.len() as int
    } else {
        1 + spec_find_seq(s.drop_first(), pat)
    }
}

pub open spec fn is_prefix_of(pat: Seq<char>, s: Seq<char>) -> bool {
    pat.len() <= s.len() && s.take(pat.len() as int) == pat
}

/// Lexicographic order on character sequences, by Unicode scalar value.
pub open spec fn lex_le(a: Seq<char>, b: Seq<char>) -> bool
    decreases a.len(),
{
    if a.len() == 0 {
        true
    } else if b.len() == 0 {
        false
    } else if a[0] != b[0] {
        a[0] < b[0]
    } else {
        lex_le(a.drop_first(), b.drop_first())
    }
}

pub proof fn lemma_spec_find(s: Seq<char>, p: spec_fn(char) -> bool)
    ensures
        0 <= spec_find(s, p) <= s.len(),
        forall|j: int| 0 <= j < spec_find(s, p) ==> !p(s[j]),
        spec_find(s, p) < s.len() ==> p(s[spec_find(s, p)]),
    decreases s.len(),
{
    if s.len() != 0 && !p(s[0]) {
        lemma_spec_find(s.drop_first(), p);
        assert forall|j: int| 0 <= j < spec_find(s, p) implies !p(s[j]) by {
            if j > 0 {
                assert(s.drop_first()[j - 1] == s[j]);
            }
        }
        if spec_find(s, p) < s.len() {
            assert(s.drop_first()[spec_find(s, p) - 1] == s[spec_find(s, p)]);
        }
    }
}

pub proof fn lemma_spec_find_unique(s: Seq<char>, p: spec_fn(char) -> bool, r: int)
    requires
        0 <= r <= s.len(),
        forall|j: int| 0 <= j < r ==> !p(s[j]),
        r < s.len() ==> p(s[r]),
    ensures
        r == spec_find(s, p),
{
    lemma_spec_find(s, p);
    let f = spec_find(s, p);
    if f < r {
        assert(p(s[f]));
        assert(!p(s[f]));
    } else if r < f {
        assert(p(s[r]));
        assert(!p(s[r]));
    }
}

pub proof fn lemma_spec_find_seq(s: Seq<char>, pat: Seq<char>)
    requires
        pat.len() >= 1,
    ensures
        0 <= spec_find_seq(s, pat) <= s.len(),
        spec_find_seq(s, pat) + pat.len() <= s.len() ==> s.subrange(
            spec_find_seq(s, pat),
            spec_find_seq(s, pat) + pat.len(),
        ) == pat,
        spec_find_seq(s, pat) + pat.len() > s.len() ==> spec_find_seq(s, pat) == s.len(),
        forall|i: int|
            0 <= i < spec_find_seq(s, pat) && i + pat.len() <= s.len() ==> #[trigger] s.subrange(
                i,
                i + pat.len(),
            ) != pat,
    decreases s.len(),
{
    let f = spec_find_seq(s, pat);
    if s.len() < pat.len() {
    } else if s.take(pat.len() as int) == pat {
        assert(s.subrange(0, pat.len() as int) == s.take(pat.len() as int));
    } else if s.len() == pat.len() {
        assert forall|i: int| 0 <= i < f && i + pat.len() <= s.len() implies #[trigger] s.subrange(
            i,
            i + pat.len(),
        ) != pat by {
            assert(i == 0);
            assert(s.subrange(0, pat.len() as int) == s.take(pat.len() as int));
        }
    } else {
        lemma_spec_find_seq(s.drop_first(), pat);
        let g = spec_find_seq(s.drop_first(), pat);
        assert(f == 1 + g);
        if g + pat.len() <= s.drop_first().len() {
            assert(s.drop_first().subrange(g, g + pat.len() as int) =~= s.subrange(
                f,
                f + pat.len() as int,
            ));
        }
        assert forall|i: int| 0 <= i < f && i + pat.len() <= s.len() implies #[trigger] s.subrange(
            i,
            i + pat.len(),
        ) != pat by {
            if i == 0 {
                assert(s.subrange(0, pat.len() as int) == s.take(pat.len() as int));
            } else {
                assert(s.drop_first().subrange(i - 1, i - 1 + pat.len() as int) =~= s.subrange(
                    i,
                    i + pat.len(),
                ));
            }
        }
    }
}

pub proof fn lemma_spec_find_seq_unique(s: Seq<char>, pat: Seq<char>, r: int)
    requires
        pat.len() >= 1,
        0 <= r <= s.len(),
        r + pat.len() <= s.len() ==> s.subrange(r, r + pat.len()) == pat,
        r + pat.len() > s.len() ==> r == s.len(),
        forall|i: int|
            0 <= i < r && i + pat.len() <= s.len() ==> #[trigger] s.subrange(i, i + pat.len())
                != pat,
    ensures
        r == spec_find_seq(s, pat),
{
    lemma_spec_find_seq(s, pat);
    let f = spec_find_seq(s, pat);
    if f < r {
        if f + pat.len() <= s.len() {
            assert(s.subrange(f, f + pat.len() as int) == pat);
            assert(s.subrange(f, f + pat.len() as int) != pat);
        }
    } else if r < f {
        if r + pat.len() <= s.len() {
            assert(s.subrange(r, r + pat.len() as int) == pat);
            assert(s.subrange(r, r + pat.len() as int) != pat);
        }
    }
}

/// Exec counterpart of `lower_char`.
pub fn lower_char_exec(c: char) -> (r: char)
    ensures
        r == lower_char(c),
{
    if 'A' <= c && c <= 'Z' {
        assert('A' as u32 == 65 && 'Z' as u32 == 90);
        let u: u32 = c as u32;
        let b: u8 = (u + 32) as u8;
        b as char
    } else {
        c
    }
}

/// Relies on `String::push`: appends the given character to the end of the string.
#[verifier::external_body]
pub fn push_char(s: &mut String, c: char)
    ensures
        final(s)@ == old(s)@.push(c),
{
    s.push(c)
}

/// Lower-cases a string, character by character.
pub fn lower_str(s: &str) -> (r: String)
    ensures
        r@ == lower(s@),
{
    let n: usize = s.unicode_len();
    let mut out: String = String::new();
    let mut i: usize = 0;
    while i < n
        invariant
            i <= n,
            n == s@.len(),
            out@ == lower(s@.take(i as int)),
        decreases n - i,
    {
        let c = s.get_char(i);
        push_char(&mut out, lower_char_exec(c));
        proof {
            assert(lower(s@.take(i + 1)) =~= lower(s@.take(i as int)).push(lower_char(s@[i as int])));
        }
        i = i + 1;
    }
    proof {
        assert(s@.take(n as int) =~= s@);
    }
    out
}

pub fn exec_is_ws(c: char) -> (r: bool)
    ensures
        r == is_ws(c),
{
    c == ' ' || c == '\t' || c == '\n' || c == '\u{000C}' || c == '\r'
}

/// Whether `pat` occurs at character position `pos` of `s`.
pub fn starts_with_at(s: &str, pos: usize, pat: &str) -> (r: bool)
    requires
        pos <= s@.len(),
    ensures
        r == is_prefix_of(pat@, s@.skip(pos as int)),
{
    let n: usize = s.unicode_len();
    let m: usize = pat.unicode_len();
    if m > n - pos {
        assert(!is_prefix_of(pat@, s@.skip(pos as int)));
        return false;
    }
    let mut i: usize = 0;
    while i < m
        invariant
            i <= m,
            m == pat@.len(),
            n == s@.len(),
            pos + m <= n,
            forall|j: int| 0 <= j < i ==> s@[pos + j] == pat@[j],
        decreases m - i,
    {
        if s.get_char(pos + i) != pat.get_char(i) {
            assert(s@.skip(pos as int).take(m as int)[i as int] != pat@[i as int]);
            return false;
        }
        i = i + 1;
    }
    proof {
        assert(s@.skip(pos as int).take(m as int) =~= pat@);
    }
    true
}


// First occurrences of particular character classes, by name, so that the
// tokenizer's specification and the executable scanners speak of the same
// functions.

pub open spec fn idx_ws(s: Seq<char>) -> int {
    spec_find(s, |c: char| is_ws(c))
}

pub open spec fn idx_not_ws(s: Seq<char>) -> int {
    spec_find(s, |c: char| !is_ws(c))
}

pub open spec fn idx_us_or_ws(s: Seq<char>) -> int {
    spec_find(s, |c: char| c == '_' || is_ws(c))
}

pub open spec fn idx_not_us(s: Seq<char>) -> int {
    spec_find(s, |c: char| c != '_')
}

pub open spec fn idx_not_count(s: Seq<char>) -> int {
    spec_find(s, |c: char| !is_count_char(c))
}

pub open spec fn idx_alpha(s: Seq<char>) -> int {
    spec_find(s, |c: char| is_alpha(c))
}

pub open spec fn idx_char(s: Seq<char>, t: char) -> int
    decreases s.len(),
{
    if s.len() == 0 {
        0
    } else if s[0] == t {
        0
    } else {
        1 + idx_char(s.drop_first(), t)
    }
}

pub proof fn lemma_idx_ws(s: Seq<char>)
    ensures
        0 <= idx_ws(s) <= s.len(),
        forall|j: int| 0 <= j < idx_ws(s) ==> !is_ws(s[j]),
        idx_ws(s) < s.len() ==> is_ws(s[idx_ws(s)]),
{
    lemma_spec_find(s, |c: char| is_ws(c));
}

pub proof fn lemma_idx_not_ws(s: Seq<char>)
    ensures
        0 <= idx_not_ws(s) <= s.len(),
        forall|j: int| 0 <= j < idx_not_ws(s) ==> is_ws(s[j]),
        idx_not_ws(s) < s.len() ==> !is_ws(s[idx_not_ws(s)]),
{
    lemma_spec_find(s, |c: char| !is_ws(c));
}

pub proof fn lemma_idx_us_or_ws(s: Seq<char>)
    ensures
        0 <= idx_us_or_ws(s) <= s.len(),
        forall|j: int| 0 <= j < idx_us_or_ws(s) ==> !(s[j] == '_' || is_ws(s[j])),
        idx_us_or_ws(s) < s.len() ==> (s[idx_us_or_ws(s)] == '_' || is_ws(s[idx_us_or_ws(s)])),
{
    lemma_spec_find(s, |c: char| c == '_' || is_ws(c));
}

pub proof fn lemma_idx_not_us(s: Seq<char>)
    ensures
        0 <= idx_not_us(s) <= s.len(),
        forall|j: int| 0 <= j < idx_not_us(s) ==> s[j] == '_',
        idx_not_us(s) < s.len() ==> s[idx_not_us(s)] != '_',
{
    lemma_spec_find(s, |c: char| c != '_');
}

pub proof fn lemma_idx_not_count(s: Seq<char>)
    ensures
        0 <= idx_not_count(s) <= s.len(),
        forall|j: int| 0 <= j < idx_not_count(s) ==> is_count_char(s[j]),
        idx_not_count(s) < s.len() ==> !is_count_char(s[idx_not_count(s)]),
{
    lemma_spec_find(s, |c: char| !is_count_char(c));
}

pub proof fn lemma_idx_alpha(s: Seq<char>)
    ensures
        0 <= idx_alpha(s) <= s.len(),
        forall|j: int| 0 <= j < idx_alpha(s) ==> !is_alpha(s[j]),
        idx_alpha(s) < s.len() ==> is_alpha(s[idx_alpha(s)]),
{
    lemma_spec_find(s, |c: char| is_alpha(c));
}

pub proof fn lemma_idx_char(s: Seq<char>, t: char)
    ensures
        0 <= idx_char(s, t) <= s.len(),
        forall|j: int| 0 <= j < idx_char(s, t) ==> s[j] != t,
        idx_char(s, t) < s.len() ==> s[idx_char(s, t)] == t,
    decreases s.len(),
{
    if s.len() != 0 && s[0] != t {
        lemma_idx_char(s.drop_first(), t);
        assert forall|j: int| 0 <= j < idx_char(s, t) implies s[j] != t by {
            if j > 0 {
                assert(s.drop_first()[j - 1] == s[j]);
            }
        }
        if idx_char(s, t) < s.len() {
            assert(s.drop_first()[idx_char(s, t) - 1] == s[idx_char(s, t)]);
        }
    }
}

pub proof fn lemma_idx_char_unique(s: Seq<char>, t: char, r: int)
    requires
        0 <= r <= s.len(),
        forall|j: int| 0 <= j < r ==> s[j] != t,
        r < s.len() ==> s[r] == t,
    ensures
        r == idx_char(s, t),
{
    lemma_idx_char(s, t);
    let f = idx_char(s, t);
    if f < r {
        assert(s[f] == t);
        assert(s[f] != t);
    } else if r < f {
        assert(s[r] == t);
        assert(s[r] != t);
    }
}

pub fn find_ws_from(s: &str, start: usize) -> (r: usize)
    requires
        start <= s@.len(),
    ensures
        start <= r <= s@.len(),
        r - start == idx_ws(s@.skip(start as int)),
        forall|j: int| start <= j < r ==> !is_ws(s@[j]),
        r < s@.len() ==> is_ws(s@[r as int]),
{
    let n: usize = s.unicode_len();
    let mut i: usize = start;
    while i < n
        invariant
            start <= i <= n,
            n == s@.len(),
            forall|j: int| start <= j < i ==> !is_ws(s@[j]),
        decreases n - i,
    {
        if exec_is_ws(s.get_char(i)) {
            proof {
                lemma_spec_find_unique(s@.skip(start as int), |c: char| is_ws(c), i - start);
            }
            return i;
        }
        i = i + 1;
    }
    proof {
        lemma_spec_find_unique(s@.skip(start as int), |c: char| is_ws(c), n - start);
    }
    n
}

pub fn find_not_ws_from(s: &str, start: usize) -> (r: usize)
    requires
        start <= s@.len(),
    ensures
        start <= r <= s@.len(),
        r - start == idx_not_ws(s@.skip(start as int)),
        forall|j: int| start <= j < r ==> is_ws(s@[j]),
        r < s@.len() ==> !is_ws(s@[r as int]),
{
    let n: usize = s.unicode_len();
    let mut i: usize = start;
    while i < n
        invariant
            start <= i <= n,
            n == s@.len(),
            forall|j: int| start <= j < i ==> is_ws(s@[j]),
        decreases n - i,
    {
        if !exec_is_ws(s.get_char(i)) {
            proof {
                lemma_spec_find_unique(s@.skip(start as int), |c: char| !is_ws(c), i - start);
            }
            return i;
        }
        i = i + 1;
    }
    proof {
        lemma_spec_find_unique(s@.skip(start as int), |c: char| !is_ws(c), n - start);
    }
    n
}

pub fn find_us_or_ws_from(s: &str, start: usize) -> (r: usize)
    requires
        start <= s@.len(),
    ensures
        start <= r <= s@.len(),
        r - start == idx_us_or_ws(s@.skip(start as int)),
        forall|j: int| start <= j < r ==> !(s@[j] == '_' || is_ws(s@[j])),
        r < s@.len() ==> (s@[r as int] == '_' || is_ws(s@[r as int])),
{
    let n: usize = s.unicode_len();
    let mut i: usize = start;
    while i < n
        invariant
            start <= i <= n,
            n == s@.len(),
            forall|j: int| start <= j < i ==> !(s@[j] == '_' || is_ws(s@[j])),
        decreases n - i,
    {
        let c = s.get_char(i);
        if c == '_' || exec_is_ws(c) {
            proof {
                lemma_spec_find_unique(
                    s@.skip(start as int),
                    |c: char| c == '_' || is_ws(c),
                    i - start,
                );
            }
            return i;
        }
        i = i + 1;
    }
    proof {
        lemma_spec_find_unique(s@.skip(start as int), |c: char| c == '_' || is_ws(c), n - start);
    }
    n
}

pub fn find_not_us_from(s: &str, start: usize) -> (r: usize)
    requires
        start <= s@.len(),
    ensures
        start <= r <= s@.len(),
        r - start == idx_not_us(s@.skip(start as int)),
        forall|j: int| start <= j < r ==> s@[j] == '_',
        r < s@.len() ==> s@[r as int] != '_',
{
    let n: usize = s.unicode_len();
    let mut i: usize = start;
    while i < n
        invariant
            start <= i <= n,
            n == s@.len(),
            forall|j: int| start <= j < i ==> s@[j] == '_',
        decreases n - i,
    {
        if s.get_char(i) != '_' {
            proof {
                lemma_spec_find_unique(s@.skip(start as int), |c: char| c != '_', i - start);
            }
            return i;
        }
        i = i + 1;
    }
    proof {
        lemma_spec_find_unique(s@.skip(start as int), |c: char| c != '_', n - start);
    }
    n
}

pub fn find_not_count_from(s: &str, start: usize) -> (r: usize)
    requires
        start <= s@.len(),
    ensures
        start <= r <= s@.len(),
        r - start == idx_not_count(s@.skip(start as int)),
        forall|j: int| start <= j < r ==> is_count_char(s@[j]),
        r < s@.len() ==> !is_count_char(s@[r as int]),
{
    let n: usize = s.unicode_len();
    let mut i: usize = start;
    while i < n
        invariant
            start <= i <= n,
            n == s@.len(),
            forall|j: int| start <= j < i ==> is_count_char(s@[j]),
        decreases n - i,
    {
        let c = s.get_char(i);
        if !(('0' <= c && c <= '9') || c == '-') {
            proof {
                lemma_spec_find_unique(
                    s@.skip(start as int),
                    |c: char| !is_count_char(c),
                    i - start,
                );
            }
            return i;
        }
        i = i + 1;
    }
    proof {
        lemma_spec_find_unique(s@.skip(start as int), |c: char| !is_count_char(c), n - start);
    }
    n
}

pub fn find_alpha_from(s: &str, start: usize) -> (r: usize)
    requires
        start <= s@.len(),
    ensures
        start <= r <= s@.len(),
        r - start == idx_alpha(s@.skip(start as int)),
        forall|j: int| start <= j < r ==> !is_alpha(s@[j]),
        r < s@.len() ==> is_alpha(s@[r as int]),
{
    let n: usize = s.unicode_len();
    let mut i: usize = start;
    while i < n
        invariant
            start <= i <= n,
            n == s@.len(),
            forall|j: int| start <= j < i ==> !is_alpha(s@[j]),
        decreases n - i,
    {
        let c = s.get_char(i);
        if ('a' <= c && c <= 'z') || ('A' <= c && c <= 'Z') {
            proof {
                lemma_spec_find_unique(s@.skip(start as int), |c: char| is_alpha(c), i - start);
            }
            return i;
        }
        i = i + 1;
    }
    proof {
        lemma_spec_find_unique(s@.skip(start as int), |c: char| is_alpha(c), n - start);
    }
    n
}

pub fn find_char_from(s: &str, start: usize, t: char) -> (r: usize)
    requires
        start <= s@.len(),
    ensures
        start <= r <= s@.len(),
        r - start == idx_char(s@.skip(start as int), t),
        forall|j: int| start <= j < r ==> s@[j] != t,
        r < s@.len() ==> s@[r as int] == t,
{
    let n: usize = s.unicode_len();
    let mut i: usize = start;
    while i < n
        invariant
            start <= i <= n,
            n == s@.len(),
            forall|j: int| start <= j < i ==> s@[j] != t,
        decreases n - i,
    {
        if s.get_char(i) == t {
            proof {
                lemma_idx_char_unique(s@.skip(start as int), t, i - start);
            }
            return i;
        }
        i = i + 1;
    }
    proof {
        lemma_idx_char_unique(s@.skip(start as int), t, n - start);
    }
    n
}

pub fn find_seq_from(s: &str, start: usize, pat: &str) -> (r: usize)
    requires
        start <= s@.len(),
        pat@.len() >= 1,
    ensures
        start <= r <= s@.len(),
        r - start == spec_find_seq(s@.skip(start as int), pat@),
{
    let n: usize = s.unicode_len();
    let m: usize = pat.unicode_len();
    if m > n - start {
        proof {
            lemma_spec_find_seq_unique(s@.skip(start as int), pat@, n - start);
        }
        return n;
    }
    let mut i: usize = start;
    while i <= n - m
        invariant
            start <= i <= n - m + 1,
            m >= 1,
            m <= n - start,
            n == s@.len(),
            m == pat@.len(),
            forall|j: int|
                start <= j < i && j + m <= n ==> #[trigger] s@.subrange(j, j + m as int) != pat@,
        decreases n - i,
    {
        if starts_with_at(s, i, pat) {
            proof {
                assert(s@.skip(i as int).take(m as int) =~= s@.subrange(i as int, i + m as int));
                assert forall|jj: int|
                    0 <= jj < i - start && jj + m <= s@.skip(start as int).len() implies #[trigger] s@.skip(
                    start as int,
                ).subrange(jj, jj + m as int) != pat@ by {
                    assert(s@.skip(start as int).subrange(jj, jj + m as int) =~= s@.subrange(
                        start + jj,
                        start + jj + m,
                    ));
                }
                assert(s@.skip(start as int).subrange(i - start, i - start + m as int)
                    =~= s@.subrange(i as int, i + m as int));
                lemma_spec_find_seq_unique(s@.skip(start as int), pat@, i - start);
            }
            return i;
        }
        proof {
            assert(s@.skip(i as int).take(m as int) =~= s@.subrange(i as int, i + m as int));
        }
        i = i + 1;
    }
    proof {
        assert forall|jj: int|
            0 <= jj < n - start && jj + m <= s@.skip(start as int).len() implies #[trigger] s@.skip(
            start as int,
        ).subrange(jj, jj + m as int) != pat@ by {
            assert(s@.skip(start as int).subrange(jj, jj + m as int) =~= s@.subrange(
                start + jj,
                start + jj + m,
            ));
        }
        lemma_spec_find_seq_unique(s@.skip(start as int), pat@, n - start);
    }
    n
}


// Decimal counts: a run of digits, optionally preceded by one hyphen, read as
// a signed number that must fit in an `i64`.

pub open spec fn digit_val(c: char) -> int {
    c as int - '0' as int
}

pub open spec fn digits_val(s: Seq<char>) -> int
    decreases s.len(),
{
    if s.len() == 0 {
        0
    } else {
        10 * digits_val(s.drop_last()) + digit_val(s.last())
    }
}

pub open spec fn all_digits(s: Seq<char>) -> bool {
    forall|i: int| 0 <= i < s.len() ==> is_digit(#[trigger] s[i])
}

/// Whether a digit-and-hyphen run is a well-formed signed count: digits with
/// at most one leading hyphen, whose value fits in an `i64`.
pub open spec fn count_str_valid(s: Seq<char>) -> bool {
    if s.len() == 0 {
        false
    } else if s[0] == '-' {
        s.len() >= 2 && all_digits(s.skip(1)) && digits_val(s.skip(1)) <= 0x8000000000000000
    } else {
        all_digits(s) && digits_val(s) <= 0x7fffffffffffffff
    }
}

pub open spec fn count_str_val(s: Seq<char>) -> int
    recommends
        count_str_valid(s),
{
    if s.len() > 0 && s[0] == '-' {
        -digits_val(s.skip(1))
    } else {
        digits_val(s)
    }
}

pub proof fn lemma_digits_val_nonneg(s: Seq<char>)
    requires
        all_digits(s),
    ensures
        digits_val(s) >= 0,
    decreases s.len(),
{
    if s.len() > 0 {
        assert(is_digit(s[s.len() - 1]));
        lemma_digits_val_nonneg(s.drop_last());
    }
}

/// The value of a digit string only grows as more digits are appended.
pub proof fn lemma_digits_val_prefix_le(s: Seq<char>, j: int)
    requires
        all_digits(s),
        0 <= j <= s.len(),
    ensures
        digits_val(s.take(j)) <= digits_val(s),
    decreases s.len() - j,
{
    if j == s.len() {
        assert(s.take(j) =~= s);
    } else {
        lemma_digits_val_prefix_le(s, j + 1);
        assert(s.take(j + 1).drop_last() =~= s.take(j));
        assert(forall|i: int| 0 <= i < j + 1 ==> is_digit(#[trigger] s.take(j + 1)[i]));
        assert(all_digits(s.take(j)));
        lemma_digits_val_nonneg(s.take(j));
        assert(is_digit(s[j]));
        assert(digits_val(s.take(j + 1)) == 10 * digits_val(s.take(j)) + digit_val(s[j]));
    }
}

/// Reads the character range `[start, end)` of `s` as a signed count.
/// Returns `None` exactly when that range is not a well-formed count.
#[verifier::loop_isolation(false)]
pub fn parse_count_run(s: &str, start: usize, end: usize) -> (r: Option<i64>)
    requires
        start <= end <= s@.len(),
    ensures
        r is Some <==> count_str_valid(s@.subrange(start as int, end as int)),
        r is Some ==> r.unwrap() as int == count_str_val(s@.subrange(start as int, end as int)),
{
    let ghost run = s@.subrange(start as int, end as int);
    if start == end {
        return None;
    }
    let neg = s.get_char(start) == '-';
    let dstart: usize = if neg { start + 1 } else { start };
    if dstart == end {
        // A lone hyphen has no digits.
        return None;
    }
    let limit: u64 = if neg {
        0x8000000000000000
    } else {
        0x7fffffffffffffff
    };
    let ghost digits = s@.subrange(dstart as int, end as int);
    proof {
        if neg {
            assert(digits =~= run.skip(1));
        } else {
            assert(digits =~= run);
        }
    }
    let mut mag: u64 = 0;
    let mut i: usize = dstart;
    while i < end
        invariant
            dstart <= i <= end,
            end <= s@.len(),
            dstart < end,
            digits == s@.subrange(dstart as int, end as int),
            all_digits(s@.subrange(dstart as int, i as int)),
            mag as int == digits_val(s@.subrange(dstart as int, i as int)),
            mag <= limit,
            limit == 0x8000000000000000 || limit == 0x7fffffffffffffff,
        decreases end - i,
    {
        let c = s.get_char(i);
        if !('0' <= c && c <= '9') {
            proof {
                assert(digits[i - dstart] == s@[i as int]);
                assert(!is_digit(digits[i - dstart]));
                assert(!all_digits(digits));
            }
            return None;
        }
        assert('0' as u32 == 48 && '9' as u32 == 57);
        let d: u64 = (c as u32 - 48) as u64;
        let ghost prefix = s@.subrange(dstart as int, i as int);
        let ghost prefix1 = s@.subrange(dstart as int, i + 1);
        proof {
            assert(prefix1.drop_last() =~= prefix);
            assert(prefix1.last() == s@[i as int]);
            assert(is_digit(s@[i as int]));
            assert(digits_val(prefix1) == 10 * digits_val(prefix) + digit_val(s@[i as int]));
            assert(digit_val(s@[i as int]) == d);
        }
        if mag > (limit - d) / 10 {
            proof {
                // The value read so far already overflows, and appending more
                // digits can only increase it.
                assert(10 * mag + d > limit) by (nonlinear_arith)
                    requires
                        mag > (limit - d) / 10,
                        d <= 9,
                        limit >= d,
                ;
                assert(digits_val(prefix1) > limit);
                if count_str_valid(run) {
                    let dv = if neg { run.skip(1) } else { run };
                    assert(dv == digits);
                    assert(all_digits(digits));
                    lemma_digits_val_prefix_le(digits, i + 1 - dstart);
                    assert(digits.take(i + 1 - dstart) =~= prefix1);
                    assert(digits_val(digits) >= digits_val(prefix1));
                    assert(digits_val(digits) <= limit);
                }
            }
            return None;
        }
        proof {
            assert(10 * mag + d <= limit) by (nonlinear_arith)
                requires
                    mag <= (limit - d) / 10,
                    d <= 9,
                    limit >= d,
            ;
            assert(forall|k: int|
                0 <= k < i + 1 - dstart ==> is_digit(#[trigger] prefix1[k]));
        }
        mag = mag * 10 + d;
        i = i + 1;
        proof {
            assert(s@.subrange(dstart as int, i as int) == prefix1);
        }
    }
    proof {
        assert(s@.subrange(dstart as int, i as int) =~= digits);
        assert(all_digits(digits));
        assert(count_str_valid(run));
    }
    if neg {
        if mag == 0x8000000000000000 {
            Some(i64::MIN)
        } else {
            Some(-(mag as i64))
        }
    } else {
        Some(mag as i64)
    }
}


/// Exec counterpart of `lex_le`.
pub fn str_lex_le(a: &str, b: &str) -> (r: bool)
    ensures
        r == lex_le(a@, b@),
{
    let na: usize = a.unicode_len();
    let nb: usize = b.unicode_len();
    let mut i: usize = 0;
    proof {
        assert(a@.skip(0) =~= a@);
        assert(b@.skip(0) =~= b@);
    }
    loop
        invariant
            i <= na,
            i <= nb,
            na == a@.len(),
            nb == b@.len(),
            lex_le(a@, b@) == lex_le(a@.skip(i as int), b@.skip(i as int)),
        decreases na - i,
    {
        if i == na {
            return true;
        }
        if i == nb {
            assert(a@.skip(i as int).len() > 0);
            return false;
        }
        let ca = a.get_char(i);
        let cb = b.get_char(i);
        assert(a@.skip(i as int)[0] == ca && b@.skip(i as int)[0] == cb);
        if ca != cb {
            return ca < cb;
        }
        proof {
            assert(a@.skip(i as int).drop_first() =~= a@.skip(i + 1));
            assert(b@.skip(i as int).drop_first() =~= b@.skip(i + 1));
        }
        i = i + 1;
    }
}

} // verus!

