//! Character classes, maximal-run scanning, whitespace trimming and
//! lexicographic ordering over strings.

use vstd::prelude::*;

verus! {

/// The Unicode `White_Space` characters, as `str::trim` and token
/// boundaries understand whitespace.
pub open spec fn is_space(c: char) -> bool {
    let u = c as u32;
    (9 <= u && u <= 13) || u == 32 || u == 0x85 || u == 0xA0 || u == 0x1680 || (0x2000 <= u && u
        <= 0x200A) || u == 0x2028 || u == 0x2029 || u == 0x202F || u == 0x205F || u == 0x3000
}

/// Separators between tokens of an alias value: space, tab, carriage
/// return and line feed.
pub open spec fn is_sep(c: char) -> bool {
    c == ' ' || c == '\t' || c == '\r' || c == '\n'
}

/// Characters allowed inside a token: anything but quotes and whitespace.
pub open spec fn is_token_char(c: char) -> bool {
    c != '\'' && c != '"' && !is_space(c)
}

/// Characters allowed inside an alias name: anything but `=`.
pub open spec fn is_name_char(c: char) -> bool {
    c != '='
}

pub open spec fn space_pred() -> spec_fn(char) -> bool {
    |c: char| is_space(c)
}

pub open spec fn sep_pred() -> spec_fn(char) -> bool {
    |c: char| is_sep(c)
}

pub open spec fn token_pred() -> spec_fn(char) -> bool {
    |c: char| is_token_char(c)
}

pub open spec fn name_pred() -> spec_fn(char) -> bool {
    |c: char| is_name_char(c)
}

/// Length of the maximal run of characters satisfying `p` that starts at
/// index `i` of `s`.
pub open spec fn run_len(s: Seq<char>, i: int, p: spec_fn(char) -> bool) -> int
    decreases s.len() - i,
{
    if i < 0 || i >= s.len() || !p(s[i]) {
        0
    } else {
        1 + run_len(s, i + 1, p)
    }
}

pub proof fn lemma_run_len_bounds(s: Seq<char>, i: int, p: spec_fn(char) -> bool)
    requires
        0 <= i <= s.len(),
    ensures
        0 <= run_len(s, i, p),
        i + run_len(s, i, p) <= s.len(),
        forall|j: int| i <= j < i + run_len(s, i, p) ==> p(s[j]),
        i + run_len(s, i, p) < s.len() ==> !p(s[i + run_len(s, i, p)]),
    decreases s.len() - i,
{
    if i < s.len() && p(s[i]) {
        lemma_run_len_bounds(s, i + 1, p);
    }
}

/// A run length is pinned down by its characterization: `p` holds on the
/// whole run and fails right after it (or the run reaches the end).
pub proof fn lemma_run_len_is(s: Seq<char>, i: int, p: spec_fn(char) -> bool, n: int)
    requires
        0 <= i,
        0 <= n,
        i + n <= s.len(),
        forall|j: int| i <= j < i + n ==> p(s[j]),
        i + n == s.len() || !p(s[i + n]),
    ensures
        run_len(s, i, p) == n,
    decreases n,
{
    if n > 0 {
        assert(p(s[i]));
        lemma_run_len_is(s, i + 1, p, n - 1);
    }
}

pub fn space_char(c: char) -> (r: bool)
    ensures
        r == is_space(c),
{
    let u = c as u32;
    (9 <= u && u <= 13) || u == 32 || u == 0x85 || u == 0xA0 || u == 0x1680 || (0x2000 <= u && u
        <= 0x200A) || u == 0x2028 || u == 0x2029 || u == 0x202F || u == 0x205F || u == 0x3000
}

pub fn sep_char(c: char) -> (r: bool)
    ensures
        r == is_sep(c),
{
    c == ' ' || c == '\t' || c == '\r' || c == '\n'
}

pub fn token_char(c: char) -> (r: bool)
    ensures
        r == is_token_char(c),
{
    c != '\'' && c != '"' && !space_char(c)
}

pub fn name_char(c: char) -> (r: bool)
    ensures
        r == is_name_char(c),
{
    c != '='
}

/// First index at or after `from` where the token-character run ends.
pub fn scan_token_run(s: &str, from: usize) -> (j: usize)
    requires
        from <= s@.len(),
    ensures
        from <= j <= s@.len(),
        j - from == run_len(s@, from as int, token_pred()),
{
    let n = s.unicode_len();
    let mut j = from;
    while j < n && token_char(s.get_char(j))
        invariant
            from <= j <= n,
            n == s@.len(),
            forall|k: int| from <= k < j ==> is_token_char(s@[k]),
        decreases n - j,
    {
        j = j + 1;
    }
    proof {
        lemma_run_len_is(s@, from as int, token_pred(), j - from);
    }
    j
}

/// First index at or after `from` where the separator run ends.
pub fn scan_sep_run(s: &str, from: usize) -> (j: usize)
    requires
        from <= s@.len(),
    ensures
        from <= j <= s@.len(),
        j - from == run_len(s@, from as int, sep_pred()),
{
    let n = s.unicode_len();
    let mut j = from;
    while j < n && sep_char(s.get_char(j))
        invariant
            from <= j <= n,
            n == s@.len(),
            forall|k: int| from <= k < j ==> is_sep(s@[k]),
        decreases n - j,
    {
        j = j + 1;
    }
    proof {
        lemma_run_len_is(s@, from as int, sep_pred(), j - from);
    }
    j
}

/// First index at or after `from` where the name-character run ends.
pub fn scan_name_run(s: &str, from: usize) -> (j: usize)
    requires
        from <= s@.len(),
    ensures
        from <= j <= s@.len(),
        j - from == run_len(s@, from as int, name_pred()),
{
    let n = s.unicode_len();
    let mut j = from;
    while j < n && name_char(s.get_char(j))
        invariant
            from <= j <= n,
            n == s@.len(),
            forall|k: int| from <= k < j ==> is_name_char(s@[k]),
        decreases n - j,
    {
        j = j + 1;
    }
    proof {
        lemma_run_len_is(s@, from as int, name_pred(), j - from);
    }
    j
}

/// Index of the first non-whitespace character (the length if none).
pub open spec fn trim_start(s: Seq<char>) -> int {
    run_len(s, 0, space_pred())
}

/// Index just past the last non-whitespace character (0 if none).
pub open spec fn trim_end(s: Seq<char>) -> int
    decreases s.len(),
{
    if s.len() == 0 {
        0
    } else if is_space(s[s.len() - 1]) {
        trim_end(s.drop_last())
    } else {
        s.len() as int
    }
}

/// `s` with leading and trailing whitespace removed.
pub open spec fn trimmed(s: Seq<char>) -> Seq<char> {
    if trim_end(s) <= trim_start(s) {
        Seq::empty()
    } else {
        s.subrange(trim_start(s), trim_end(s))
    }
}

pub proof fn lemma_trim_end_is(s: Seq<char>, m: int)
    requires
        0 <= m <= s.len(),
        forall|j: int| m <= j < s.len() ==> is_space(s[j]),
        m > 0 ==> !is_space(s[m - 1]),
    ensures
        trim_end(s) == m,
    decreases s.len(),
{
    if s.len() == 0 {
    } else if is_space(s[s.len() - 1]) {
        assert(m < s.len());
        lemma_trim_end_is(s.drop_last(), m);
    } else {
        if m < s.len() {
            assert(is_space(s[s.len() - 1]));
        }
    }
}

/// Removes leading and trailing whitespace, as `str::trim` does.
pub fn trim(s: &str) -> (r: String)
    ensures
        r@ == trimmed(s@),
{
    let n = s.unicode_len();
    let mut a: usize = 0;
    while a < n && space_char(s.get_char(a))
        invariant
            a <= n,
            n == s@.len(),
            forall|k: int| 0 <= k < a ==> is_space(s@[k]),
        decreases n - a,
    {
        a = a + 1;
    }
    proof {
        lemma_run_len_is(s@, 0, space_pred(), a as int);
    }
    let mut b: usize = n;
    while b > 0 && space_char(s.get_char(b - 1))
        invariant
            b <= n,
            n == s@.len(),
            forall|k: int| b <= k < n ==> is_space(s@[k]),
        decreases b,
    {
        b = b - 1;
    }
    proof {
        lemma_trim_end_is(s@, b as int);
    }
    if b <= a {
        String::new()
    } else {
        s.substring_char(a, b).to_owned()
    }
}

/// Decides view equality of two string slices.
pub fn str_eq(a: &str, b: &str) -> (r: bool)
    ensures
        r == (a@ == b@),
{
    let na = a.unicode_len();
    let nb = b.unicode_len();
    if na != nb {
        return false;
    }
    let mut i: usize = 0;
    while i < na
        invariant
            i <= na,
            na == a@.len(),
            na == b@.len(),
            forall|k: int| 0 <= k < i ==> a@[k] == b@[k],
        decreases na - i,
    {
        if a.get_char(i) != b.get_char(i) {
            return false;
        }
        i = i + 1;
    }
    proof {
        assert(a@ =~= b@);
    }
    true
}

/// Lexicographic order on character sequences, by Unicode scalar value.
pub open spec fn lex_le(a: Seq<char>, b: Seq<char>) -> bool
    decreases a.len(),
{
    if a.len() == 0 {
        true
    } else if b.len() == 0 {
        false
    } else if (a[0] as u32) < (b[0] as u32) {
        true
    } else if (a[0] as u32) > (b[0] as u32) {
        false
    } else {
        lex_le(a.skip(1), b.skip(1))
    }
}

pub proof fn lemma_lex_le_total(a: Seq<char>, b: Seq<char>)
    ensures
        lex_le(a, b) || lex_le(b, a),
    decreases a.len(),
{
    if a.len() > 0 && b.len() > 0 && a[0] as u32 == b[0] as u32 {
        lemma_lex_le_total(a.skip(1), b.skip(1));
    }
}

pub proof fn lemma_lex_le_transitive(a: Seq<char>, b: Seq<char>, c: Seq<char>)
    requires
        lex_le(a, b),
        lex_le(b, c),
    ensures
        lex_le(a, c),
    decreases a.len(),
{
    if a.len() > 0 && b.len() > 0 && c.len() > 0 && a[0] as u32 == b[0] as u32 && b[0] as u32 == c[
        0] as u32 {
        lemma_lex_le_transitive(a.skip(1), b.skip(1), c.skip(1));
    }
}

/// Decides `lex_le` on string slices.
pub fn str_le(a: &str, b: &str) -> (r: bool)
    ensures
        r == lex_le(a@, b@),
{
    let na = a.unicode_len();
    let nb = b.unicode_len();
    let mut i: usize = 0;
    proof {
        assert(a@.skip(0) =~= a@);
        assert(b@.skip(0) =~= b@);
    }
    loop
        invariant
            i <= na,
            i <= nb,
            na == a@.len(),
            nb == b@.len(),
            lex_le(a@, b@) == lex_le(a@.skip(i as int), b@.skip(i as int)),
            forall|k: int| 0 <= k < i ==> a@[k] == b@[k],
        decreases na - i,
    {
        if i == na {
            return true;
        }
        if i == nb {
            return false;
        }
        let ca = a.get_char(i);
        let cb = b.get_char(i);
        if (ca as u32) < (cb as u32) {
            return true;
        }
        if (ca as u32) > (cb as u32) {
            return false;
        }
        proof {
            vstd::utf8::char_u32_cast(ca, ca as u32);
            vstd::utf8::char_u32_cast(cb, cb as u32);
            assert(a@.skip(i as int).skip(1) =~= a@.skip(i + 1));
            assert(b@.skip(i as int).skip(1) =~= b@.skip(i + 1));
        }
        i = i + 1;
    }
}

} // verus!
