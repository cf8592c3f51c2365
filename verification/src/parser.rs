//! The alias line parser.
//!
//! Grammar: `alias := name "=" value`, where `name` is one or more
//! characters other than `=`, and `value` is either a bare run of
//! whitespace-separated tokens or such a run enclosed in matching single
//! or double quotes. Tokens contain no quotes and no whitespace. Trailing
//! characters after the value are returned as an unconsumed remainder.

use vstd::prelude::*;
use crate::alias::{Alias, name_wf, token_wf};
use crate::text::{
    is_token_char,
    lemma_run_len_bounds,
    name_pred,
    run_len,
    scan_name_run,
    scan_sep_run,
    scan_token_run,
    sep_pred,
    token_pred,
};

verus! {

/// Greedy parse of one or more whitespace-separated tokens starting at
/// index `i`: returns the index after the last token, and the tokens.
/// The separator run after the last token is not consumed. The clamps on
/// `j` and `k` and the `i < j && j < k` guard only make termination
/// evident; `lemma_run_len_bounds` shows they never bind.
pub open spec fn spec_tokens_at(s: Seq<char>, i: int) -> Option<(int, Seq<Seq<char>>)>
    decreases s.len() - i,
{
    if i < 0 || i >= s.len() || !is_token_char(s[i]) {
        None
    } else {
        let n = run_len(s, i, token_pred());
        let j = if i + n <= s.len() {
            i + n
        } else {
            s.len() as int
        };
        let tok = s.subrange(i, j);
        let w = run_len(s, j, sep_pred());
        let k = if j + w <= s.len() {
            j + w
        } else {
            s.len() as int
        };
        if i < j && j < k && k < s.len() && is_token_char(s[k]) {
            match spec_tokens_at(s, k) {
                Some((e, ts)) => Some((e, seq![tok] + ts)),
                None => Some((j, seq![tok])),
            }
        } else {
            Some((j, seq![tok]))
        }
    }
}

/// A value enclosed in the quote character `q`: the quote, a token run,
/// then the closing quote immediately after the last token.
pub open spec fn spec_quoted(s: Seq<char>, q: char) -> Option<(int, Seq<Seq<char>>)> {
    if s.len() > 0 && s[0] == q {
        match spec_tokens_at(s, 1) {
            Some((e, ts)) => if 0 <= e < s.len() && s[e] == q {
                Some((e + 1, ts))
            } else {
                None
            },
            None => None,
        }
    } else {
        None
    }
}

/// A quoted value: double quotes tried first, then single quotes.
pub open spec fn spec_between_quotes(s: Seq<char>) -> Option<(int, Seq<Seq<char>>)> {
    if spec_quoted(s, '"') is Some {
        spec_quoted(s, '"')
    } else {
        spec_quoted(s, '\'')
    }
}

/// A value: quoted if a quoted parse succeeds, otherwise bare tokens.
pub open spec fn spec_value(s: Seq<char>) -> Option<(int, Seq<Seq<char>>)> {
    if spec_between_quotes(s) is Some {
        spec_between_quotes(s)
    } else {
        spec_tokens_at(s, 0)
    }
}

/// A name: the maximal non-empty prefix free of `=`.
pub open spec fn spec_name(s: Seq<char>) -> Option<(int, Seq<char>)> {
    let n = run_len(s, 0, name_pred());
    if n <= 0 {
        None
    } else {
        Some((n, s.subrange(0, n)))
    }
}

/// One alias line: a name, `=`, then a value; the remainder is whatever
/// follows the value.
pub open spec fn spec_alias(s: Seq<char>) -> Option<(Seq<char>, Seq<char>, Seq<Seq<char>>)> {
    match spec_name(s) {
        Some((p, name)) => if p < s.len() && s[p] == '=' {
            let tail = s.subrange(p + 1, s.len() as int);
            match spec_value(tail) {
                Some((e, ts)) => Some((tail.subrange(e, tail.len() as int), name, ts)),
                None => None,
            }
        } else {
            None
        },
        None => None,
    }
}

/// Every token a successful token-run parse yields is well formed, the
/// end lies within the input, and at least one token comes back.
pub proof fn lemma_tokens_wf(s: Seq<char>, i: int)
    requires
        0 <= i <= s.len(),
        spec_tokens_at(s, i) is Some,
    ensures
        ({
            let (e, ts) = spec_tokens_at(s, i)->Some_0;
            &&& i < e <= s.len()
            &&& ts.len() >= 1
            &&& forall|x: int| 0 <= x < ts.len() ==> token_wf(#[trigger] ts[x])
        }),
    decreases s.len() - i,
{
    let n = run_len(s, i, token_pred());
    lemma_run_len_bounds(s, i, token_pred());
    let j = i + n;
    let w = run_len(s, j, sep_pred());
    lemma_run_len_bounds(s, j, sep_pred());
    let k = j + w;
    assert(token_wf(s.subrange(i, j)));
    if i < j && j < k && k < s.len() && is_token_char(s[k]) {
        lemma_tokens_wf(s, k);
    }
}

fn substring(s: &str, from: usize, to: usize) -> (r: String)
    requires
        from <= to <= s@.len(),
    ensures
        r@ == s@.subrange(from as int, to as int),
{
    s.substring_char(from, to).to_owned()
}

/// Parses one or more tokens starting at `i`, pushing them onto `out`;
/// returns the index just past the last token consumed.
fn tokens_from(s: &str, i: usize, out: &mut Vec<String>) -> (end: usize)
    requires
        i < s@.len(),
        is_token_char(s@[i as int]),
    ensures
        spec_tokens_at(s@, i as int) is Some,
        ({
            let (e, ts) = spec_tokens_at(s@, i as int)->Some_0;
            &&& end == e
            &&& final (out).deep_view() == old(out).deep_view() + ts
        }),
    decreases s@.len() - i,
{
    proof {
        lemma_run_len_bounds(s@, i as int, token_pred());
    }
    let j = scan_token_run(s, i);
    let tok = substring(s, i, j);
    out.push(tok);
    let ghost mid: Vec<String> = *out;
    proof {
        let tokseq = s@.subrange(i as int, j as int);
        assert(mid.deep_view() =~= old(out).deep_view() + seq![tokseq]);
        lemma_run_len_bounds(s@, j as int, sep_pred());
    }
    let k = scan_sep_run(s, j);
    let n = s.unicode_len();
    if j < k && k < n && crate::text::token_char(s.get_char(k)) {
        let end = tokens_from(s, k, out);
        proof {
            let (e, ts) = spec_tokens_at(s@, k as int)->Some_0;
            let tokseq = s@.subrange(i as int, j as int);
            assert(out.deep_view() =~= old(out).deep_view() + (seq![tokseq] + ts));
        }
        end
    } else {
        j
    }
}

/// Parses the maximal non-empty prefix free of `=`; returns the
/// remainder and the name.
pub fn parse_name(input: &str) -> (r: Option<(String, String)>)
    ensures
        (match spec_name(input@) {
            Some((e, name)) => {
                &&& r is Some
                &&& r->Some_0.0@ == input@.subrange(e, input@.len() as int)
                &&& r->Some_0.1@ == name
            },
            None => r is None,
        }),
{
    proof {
        lemma_run_len_bounds(input@, 0, name_pred());
    }
    let j = scan_name_run(input, 0);
    if j == 0 {
        None
    } else {
        let name = substring(input, 0, j);
        let rest = substring(input, j, input.unicode_len());
        Some((rest, name))
    }
}

/// Parses one token: the maximal non-empty prefix of token characters.
pub fn parse_token(input: &str) -> (r: Option<(String, String)>)
    ensures
        ({
            let n = run_len(input@, 0, token_pred());
            &&& (r is Some <==> n > 0)
            &&& (r is Some ==> r->Some_0.1@ == input@.subrange(0, n) && r->Some_0.0@
                == input@.subrange(n, input@.len() as int))
        }),
{
    proof {
        lemma_run_len_bounds(input@, 0, token_pred());
    }
    let j = scan_token_run(input, 0);
    if j == 0 {
        None
    } else {
        let tok = substring(input, 0, j);
        let rest = substring(input, j, input.unicode_len());
        Some((rest, tok))
    }
}

/// Parses a bare run of whitespace-separated tokens at the start of the
/// input; returns the remainder and the tokens.
pub fn parse_whitespace_separated(input: &str) -> (r: Option<(String, Vec<String>)>)
    ensures
        (match spec_tokens_at(input@, 0) {
            Some((e, ts)) => {
                &&& r is Some
                &&& r->Some_0.0@ == input@.subrange(e, input@.len() as int)
                &&& r->Some_0.1.deep_view() == ts
            },
            None => r is None,
        }),
{
    let n = s_len(input);
    if n == 0 || !crate::text::token_char(input.get_char(0)) {
        return None;
    }
    let mut toks: Vec<String> = Vec::new();
    let end = tokens_from(input, 0, &mut toks);
    proof {
        lemma_tokens_wf(input@, 0);
        assert(toks.deep_view() =~= spec_tokens_at(input@, 0)->Some_0.1);
    }
    let rest = substring(input, end, n);
    Some((rest, toks))
}

fn s_len(s: &str) -> (n: usize)
    ensures
        n == s@.len(),
{
    s.unicode_len()
}

/// Parses a value enclosed in matching single or double quotes.
pub fn parse_between_quotes(input: &str) -> (r: Option<(String, Vec<String>)>)
    ensures
        (match spec_between_quotes(input@) {
            Some((e, ts)) => {
                &&& r is Some
                &&& r->Some_0.0@ == input@.subrange(e, input@.len() as int)
                &&& r->Some_0.1.deep_view() == ts
            },
            None => r is None,
        }),
{
    let n = s_len(input);
    if n == 0 {
        return None;
    }
    let q = input.get_char(0);
    if !(q == '"' || q == '\'') {
        return None;
    }
    if n == 1 || !crate::text::token_char(input.get_char(1)) {
        return None;
    }
    let mut toks: Vec<String> = Vec::new();
    let end = tokens_from(input, 1, &mut toks);
    proof {
        lemma_tokens_wf(input@, 1);
    }
    if end < n && input.get_char(end) == q {
        proof {
            assert(toks.deep_view() =~= spec_tokens_at(input@, 1)->Some_0.1);
        }
        let rest = substring(input, end + 1, n);
        Some((rest, toks))
    } else {
        None
    }
}

/// Parses a value: quoted if possible, otherwise bare tokens.
pub fn parse_value(input: &str) -> (r: Option<(String, Vec<String>)>)
    ensures
        (match spec_value(input@) {
            Some((e, ts)) => {
                &&& r is Some
                &&& r->Some_0.0@ == input@.subrange(e, input@.len() as int)
                &&& r->Some_0.1.deep_view() == ts
            },
            None => r is None,
        }),
{
    let quoted = parse_between_quotes(input);
    if quoted.is_some() {
        quoted
    } else {
        parse_whitespace_separated(input)
    }
}

/// Parses one alias line into an [`Alias`]; returns the unconsumed
/// remainder alongside it. On success the alias is well formed.
pub fn parse_alias(input: &str) -> (r: Option<(String, Alias)>)
    ensures
        (match spec_alias(input@) {
            Some((rest, name, ts)) => {
                &&& r is Some
                &&& r->Some_0.0@ == rest
                &&& r->Some_0.1.name@ == name
                &&& r->Some_0.1.value.deep_view() == ts
                &&& r->Some_0.1.wf()
            },
            None => r is None,
        }),
{
    proof {
        lemma_run_len_bounds(input@, 0, name_pred());
    }
    let p = scan_name_run(input, 0);
    let n = s_len(input);
    if p == 0 || p >= n {
        return None;
    }
    assert(input@[p as int] == '=');
    let name = substring(input, 0, p);
    let tail = substring(input, p + 1, n);
    match parse_value(tail.as_str()) {
        Some((rest, toks)) => {
            proof {
                lemma_value_wf(tail@);
                assert(name_wf(name@));
                let ts = spec_value(tail@)->Some_0.1;
                assert forall|i: int| 0 <= i < toks@.len() implies token_wf(
                    #[trigger] toks@[i]@,
                ) by {
                    assert(toks.deep_view()[i] == toks@[i]@);
                    assert(token_wf(ts[i]));
                }
            }
            let alias = Alias { name, value: toks };
            Some((rest, alias))
        },
        None => None,
    }
}

/// A successful value parse stays within the input and yields only well
/// formed tokens, at least one of them.
pub proof fn lemma_value_wf(s: Seq<char>)
    requires
        spec_value(s) is Some,
    ensures
        ({
            let (e, ts) = spec_value(s)->Some_0;
            &&& 0 <= e <= s.len()
            &&& ts.len() >= 1
            &&& forall|x: int| 0 <= x < ts.len() ==> token_wf(#[trigger] ts[x])
        }),
{
    if spec_between_quotes(s) is Some {
        lemma_tokens_wf(s, 1);
    } else {
        lemma_tokens_wf(s, 0);
    }
}

/// Law: whatever the parser accepts is well formed: the name is
/// non-empty and free of `=`; the value holds at least one token, each
/// token non-empty and free of quotes and whitespace.
pub proof fn lemma_parsed_alias_wf(s: Seq<char>)
    requires
        spec_alias(s) is Some,
    ensures
        ({
            let (rest, name, ts) = spec_alias(s)->Some_0;
            &&& name_wf(name)
            &&& ts.len() >= 1
            &&& forall|x: int| 0 <= x < ts.len() ==> token_wf(#[trigger] ts[x])
        }),
{
    lemma_run_len_bounds(s, 0, name_pred());
    let p = run_len(s, 0, name_pred());
    let tail = s.subrange(p + 1, s.len() as int);
    lemma_value_wf(tail);
}

} // verus!
