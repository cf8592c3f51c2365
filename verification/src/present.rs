//! Turns the alias groups into printable sections: multi-alias groups
//! sorted by command, a general group for singletons, and an unparsable
//! group; then renders the sections as output lines.

use vstd::prelude::*;
use vstd::multiset::Multiset;
use crate::alias::{Alias, display_spec};
use crate::color::{bright_black_prefix, esc_char, yellow_prefix, reset_suffix};
use crate::group::{Aliases, Bucket};
use crate::text::{lex_le, lemma_lex_le_total, lemma_lex_le_transitive, str_le};

verus! {

broadcast use vstd::seq_lib::group_to_multiset_ensures;

/// Aliases in non-decreasing name order.
pub open spec fn sorted_by_name(s: Seq<Alias>) -> bool {
    forall|i: int, j: int| 0 <= i < j < s.len() ==> lex_le(s[i].name@, s[j].name@)
}

/// Law: aliases sorted by name whose names are pairwise distinct stand in
/// strictly ascending name order.
pub proof fn lemma_sorted_distinct_strict(s: Seq<Alias>)
    requires
        sorted_by_name(s),
        forall|i: int, j: int| 0 <= i < j < s.len() ==> s[i].name@ != s[j].name@,
    ensures
        forall|i: int, j: int|
            0 <= i < j < s.len() ==> lex_le(s[i].name@, s[j].name@) && s[i].name@ != s[j].name@,
{
}

fn insert_by_name(v: &mut Vec<Alias>, a: Alias)
    requires
        sorted_by_name(old(v)@),
    ensures
        sorted_by_name(final (v)@),
        exists|p: int| 0 <= p <= old(v)@.len() && final (v)@ == old(v)@.insert(p, a),
        final (v)@.to_multiset() == old(v)@.to_multiset().insert(a),
{
    let n = v.len();
    let mut p: usize = 0;
    while p < n && str_le(v[p].name.as_str(), a.name.as_str())
        invariant
            p <= n,
            n == v@.len(),
            v@ == old(v)@,
            forall|k: int| 0 <= k < p ==> lex_le(v@[k].name@, a.name@),
        decreases n - p,
    {
        p = p + 1;
    }
    proof {
        if p < n {
            lemma_lex_le_total(v@[p as int].name@, a.name@);
        }
    }
    let ghost before = v@;
    v.insert(p, a);
    proof {
        assert(v@ == before.insert(p as int, a));
        assert forall|i: int, j: int| 0 <= i < j < v@.len() implies lex_le(
            v@[i].name@,
            v@[j].name@,
        ) by {
            if i == p as int && j > p as int {
                if j - 1 > p as int {
                    lemma_lex_le_transitive(a.name@, before[p as int].name@, before[j - 1].name@);
                }
            } else if i < p as int && j > p as int {
                if i == j - 1 {
                    lemma_lex_le_total(before[i].name@, before[i].name@);
                }
            }
        }
        assert(v@.to_multiset() == before.to_multiset().insert(a));
    }
}

/// Sorts aliases by name; the result is a permutation of the input.
pub fn sort_aliases(v: Vec<Alias>) -> (r: Vec<Alias>)
    ensures
        sorted_by_name(r@),
        r@.to_multiset() == v@.to_multiset(),
{
    let ghost orig = v@;
    let mut rest = v;
    let mut out: Vec<Alias> = Vec::new();
    while rest.len() > 0
        invariant
            sorted_by_name(out@),
            out@.to_multiset().add(rest@.to_multiset()) == orig.to_multiset(),
        decreases rest@.len(),
    {
        let ghost prev = rest@;
        let a = rest.pop().unwrap();
        proof {
            assert(prev.subrange(0, prev.len() - 1).push(a) =~= prev);
        }
        let ghost outprev = out@;
        insert_by_name(&mut out, a);
        proof {
            assert(out@.to_multiset().add(rest@.to_multiset()) =~= orig.to_multiset());
        }
    }
    proof {
        assert(rest@.to_multiset() =~= Multiset::<Alias>::empty());
        assert(out@.to_multiset().add(Multiset::<Alias>::empty()) =~= out@.to_multiset());
    }
    out
}

/// One printable section: a bracketed title followed by rendered aliases.
pub struct Section {
    pub title: String,
    pub entries: Vec<Alias>,
}

fn insert_by_title(v: &mut Vec<Section>, s: Section)
    requires
        forall|i: int, j: int| 0 <= i < j < old(v)@.len() ==> lex_le(old(v)@[i].title@, old(v)@[j].title@),
    ensures
        forall|i: int, j: int| 0 <= i < j < final (v)@.len() ==> lex_le(final (v)@[i].title@, final (v)@[j].title@),
        exists|p: int| 0 <= p <= old(v)@.len() && final (v)@ == old(v)@.insert(p, s),
{
    let n = v.len();
    let mut p: usize = 0;
    while p < n && str_le(v[p].title.as_str(), s.title.as_str())
        invariant
            p <= n,
            n == v@.len(),
            v@ == old(v)@,
            forall|k: int| 0 <= k < p ==> lex_le(v@[k].title@, s.title@),
        decreases n - p,
    {
        p = p + 1;
    }
    proof {
        if p < n {
            lemma_lex_le_total(v@[p as int].title@, s.title@);
        }
    }
    let ghost before = v@;
    v.insert(p, s);
    proof {
        assert(v@ == before.insert(p as int, s));
        assert forall|i: int, j: int| 0 <= i < j < v@.len() implies lex_le(
            v@[i].title@,
            v@[j].title@,
        ) by {
            if i == p as int && j > p as int {
                if j - 1 > p as int {
                    lemma_lex_le_transitive(s.title@, before[p as int].title@, before[j - 1].title@);
                }
            } else if i < p as int && j > p as int {
                if i == j - 1 {
                    lemma_lex_le_total(before[i].title@, before[i].title@);
                }
            }
        }
    }
}

/// Number of buckets holding two or more aliases.
pub open spec fn count_multi(bs: Seq<Bucket>) -> int
    decreases bs.len(),
{
    if bs.len() == 0 {
        0
    } else {
        (if bs[0].items@.len() >= 2 {
            1int
        } else {
            0int
        }) + count_multi(bs.skip(1))
    }
}

/// The aliases sitting alone in their bucket: the general group.
pub open spec fn singles_ms(bs: Seq<Bucket>) -> Multiset<Alias>
    decreases bs.len(),
{
    if bs.len() == 0 {
        Multiset::empty()
    } else {
        (if bs[0].items@.len() == 1 {
            bs[0].items@.to_multiset()
        } else {
            Multiset::empty()
        }).add(singles_ms(bs.skip(1)))
    }
}


/// What a section shows, independent of entry order: its title and the
/// multiset of its aliases.
pub open spec fn section_model(s: Section) -> (Seq<char>, Multiset<Alias>) {
    (s.title@, s.entries@.to_multiset())
}

pub open spec fn sec_models(secs: Seq<Section>) -> Multiset<(Seq<char>, Multiset<Alias>)>
    decreases secs.len(),
{
    if secs.len() == 0 {
        Multiset::empty()
    } else {
        sec_models(secs.drop_last()).insert(section_model(secs.last()))
    }
}

/// The models of the buckets holding two or more aliases: one section is
/// owed to each.
pub open spec fn multi_models(bs: Seq<Bucket>) -> Multiset<(Seq<char>, Multiset<Alias>)>
    decreases bs.len(),
{
    if bs.len() == 0 {
        Multiset::empty()
    } else if bs[0].items@.len() >= 2 {
        multi_models(bs.skip(1)).insert((bs[0].key@, bs[0].items@.to_multiset()))
    } else {
        multi_models(bs.skip(1))
    }
}

proof fn lemma_sec_models_insert(secs: Seq<Section>, p: int, s: Section)
    requires
        0 <= p <= secs.len(),
    ensures
        sec_models(secs.insert(p, s)) == sec_models(secs).insert(section_model(s)),
    decreases secs.len(),
{
    let new = secs.insert(p, s);
    if p == secs.len() {
        assert(new.drop_last() =~= secs);
        assert(new.last() == s);
    } else {
        assert(new.last() == secs.last());
        assert(new.drop_last() =~= secs.drop_last().insert(p, s));
        lemma_sec_models_insert(secs.drop_last(), p, s);
        assert(sec_models(new) =~= sec_models(secs).insert(section_model(s)));
    }
}

/// How the section list relates to the buckets `bs` it was built from:
/// one section per bucket of two or more aliases (same title, same
/// aliases), those sections first and sorted by title; every section's
/// entries sorted by name; and, iff any bucket is a singleton, a final
/// "general" section holding exactly the singleton aliases.
pub open spec fn sections_ok(bs: Seq<Bucket>, secs: Seq<Section>) -> bool {
    let m = count_multi(bs);
    &&& secs.len() == m + (if singles_ms(bs).len() > 0 {
        1int
    } else {
        0int
    })
    &&& sec_models(secs.take(m)) == multi_models(bs)
    &&& forall|i: int| 0 <= i < secs.len() ==> sorted_by_name(#[trigger] secs[i].entries@)
    &&& forall|i: int, j: int| 0 <= i < j < m ==> lex_le(secs[i].title@, secs[j].title@)
    &&& (singles_ms(bs).len() > 0 ==> secs[m].title@ == "general"@ && secs[m].entries@.to_multiset()
        == singles_ms(bs))
}

/// Splits the groups into printable sections, as `sections_ok` states.
#[verifier::rlimit(60)]
pub fn sections_of(groups: Aliases) -> (r: Vec<Section>)
    requires
        groups.wf(),
    ensures
        sections_ok(groups.aliases@, r@),
{
    let ghost bfull = groups.aliases@;
    let mut bs = groups.aliases;
    proof {
        assert(bfull.take(bfull.len() as int) =~= bfull);
    }
    let mut multi: Vec<Section> = Vec::new();
    let mut singles: Vec<Alias> = Vec::new();
    while bs.len() > 0
        invariant
            bs@ == bfull.take(bs@.len() as int),
            bs@.len() <= bfull.len(),
            forall|b: int| 0 <= b < bfull.len() ==> (#[trigger] bfull[b]).wf(),
            multi@.len() == count_multi(bfull.skip(bs@.len() as int)),
            sec_models(multi@) == multi_models(bfull.skip(bs@.len() as int)),
            forall|i: int| 0 <= i < multi@.len() ==> sorted_by_name(#[trigger] multi@[i].entries@),
            forall|i: int, j: int|
                0 <= i < j < multi@.len() ==> lex_le(multi@[i].title@, multi@[j].title@),
            singles@.to_multiset() == singles_ms(bfull.skip(bs@.len() as int)),
        decreases bs@.len(),
    {
        let ghost k = bs@.len() as int;
        let bucket = bs.pop().unwrap();
        proof {
            assert(bfull.take(k).subrange(0, k - 1) =~= bfull.take(k - 1));
            assert(bucket == bfull[k - 1]);
            assert(bfull.skip(k - 1).skip(1) =~= bfull.skip(k));
            assert(bfull.skip(k - 1)[0] == bfull[k - 1]);
            assert(bfull[k - 1].wf());
        }
        if bucket.items.len() >= 2 {
            let entries = sort_aliases(bucket.items);
            let section = Section { title: bucket.key, entries };
            let ghost mprev = multi@;
            insert_by_title(&mut multi, section);
            proof {
                let p = choose|p: int| 0 <= p <= mprev.len() && multi@ == mprev.insert(p, section);
                lemma_sec_models_insert(mprev, p, section);
                assert(section_model(section) == (
                    bfull[k - 1].key@,
                    bfull[k - 1].items@.to_multiset(),
                ));
                assert forall|i: int| 0 <= i < multi@.len() implies sorted_by_name(
                    #[trigger] multi@[i].entries@,
                ) by {
                    if i != p {
                        let io: int = if i < p {
                            i
                        } else {
                            i - 1
                        };
                        assert(multi@[i] == mprev[io]);
                    }
                }
                assert(singles@.to_multiset() =~= singles_ms(bfull.skip(k - 1)));
            }
        } else {
            let mut items = bucket.items;
            let ghost itemseq = items@;
            let a = items.pop().unwrap();
            singles.push(a);
            proof {
                assert(itemseq =~= Seq::<Alias>::empty().push(a));
                assert(itemseq.to_multiset() =~= Multiset::<Alias>::empty().insert(a));
                assert(singles@.to_multiset() =~= singles_ms(bfull.skip(k - 1)));
            }
        }
    }
    proof {
        assert(bfull.skip(0) =~= bfull);
    }
    let mut r = multi;
    if singles.len() > 0 {
        let entries = sort_aliases(singles);
        let general = Section { title: String::from_str("general"), entries };
        let ghost rprev = r@;
        r.push(general);
        proof {
            assert(r@.take(rprev.len() as int) =~= rprev);
        }
    } else {
        proof {
            assert(r@.take(r@.len() as int) =~= r@);
        }
    }
    r
}

/// Which color a header carries, when color is on at all.
pub enum HeaderStyle {
    Yellow,
    BrightBlack,
}

pub open spec fn style_prefix(c: Option<HeaderStyle>) -> Option<Seq<char>> {
    match c {
        Some(HeaderStyle::Yellow) => Some(yellow_prefix()),
        Some(HeaderStyle::BrightBlack) => Some(bright_black_prefix()),
        None => None,
    }
}

/// A header line: the title in brackets, optionally wrapped in a color
/// prefix and the reset sequence.
pub open spec fn header_spec(title: Seq<char>, prefix: Option<Seq<char>>) -> Seq<char> {
    match prefix {
        Some(p) => seq!['['] + p + title + reset_suffix() + seq![']'],
        None => seq!['['] + title + seq![']'],
    }
}

/// Renders one header line.
pub fn print_header(title: &str, color: Option<HeaderStyle>) -> (r: String)
    ensures
        r@ == header_spec(title@, style_prefix(color)),
{
    proof {
        reveal_strlit("[");
        reveal_strlit("]");
        assert("["@ =~= seq!['[']);
        assert("]"@ =~= seq![']']);
    }
    let mut out = String::from_str("[");
    match color {
        Some(HeaderStyle::Yellow) => {
            let colored = crate::color::color_yellow(title);
            out.append(colored.as_str());
        },
        Some(HeaderStyle::BrightBlack) => {
            let colored = crate::color::color_bright_black(title);
            out.append(colored.as_str());
        },
        None => {
            out.append(title);
        },
    }
    out.append("]");
    out
}

/// The lines one section prints: its header, one indented entry per
/// alias, then a blank line.
pub open spec fn section_lines(sec: Section, in_color: bool) -> Seq<Seq<char>> {
    seq![
        header_spec(
            sec.title@,
            if in_color {
                Some(yellow_prefix())
            } else {
                None
            },
        ),
    ] + Seq::new(sec.entries@.len(), |i: int| seq![' ', ' '] + display_spec(sec.entries@[i], in_color))
        + seq![Seq::<char>::empty()]
}

pub open spec fn sections_lines(secs: Seq<Section>, in_color: bool) -> Seq<Seq<char>>
    decreases secs.len(),
{
    if secs.len() == 0 {
        Seq::empty()
    } else {
        sections_lines(secs.drop_last(), in_color) + section_lines(secs.last(), in_color)
    }
}

/// Everything written to standard output: the sections, then — iff any
/// line was unparsable — the bracketed unparsable header.
pub open spec fn out_lines(secs: Seq<Section>, unparsable: Seq<Seq<char>>, in_color: bool) -> Seq<
    Seq<char>,
> {
    sections_lines(secs, in_color) + (if unparsable.len() > 0 {
        seq![
            header_spec(
                "unparsable"@,
                if in_color {
                    Some(bright_black_prefix())
                } else {
                    None
                },
            ),
        ]
    } else {
        Seq::empty()
    })
}

/// Everything written to standard error: each unparsable line, indented.
pub open spec fn err_lines(unparsable: Seq<Seq<char>>) -> Seq<Seq<char>> {
    Seq::new(unparsable.len(), |i: int| seq![' ', ' '] + unparsable[i])
}

/// The views of a sequence of strings: its lines as character sequences.
pub open spec fn views_of(v: Seq<String>) -> Seq<Seq<char>> {
    Seq::new(v.len(), |i: int| v[i]@)
}

pub proof fn lemma_views_push(v: Seq<String>, s: String)
    ensures
        views_of(v.push(s)) == views_of(v).push(s@),
{
    assert(views_of(v.push(s)) =~= views_of(v).push(s@));
}

pub proof fn lemma_views_is_deep(v: Vec<String>)
    ensures
        v.deep_view() == views_of(v@),
{
    assert(v.deep_view() =~= views_of(v@));
}

fn indent_line(s: &str) -> (r: String)
    ensures
        r@ == seq![' ', ' '] + s@,
{
    proof {
        reveal_strlit("  ");
        assert("  "@ =~= seq![' ', ' ']);
    }
    let mut out = String::from_str("  ");
    out.append(s);
    out
}

/// Renders the sections and the unparsable list into the two output
/// streams' lines: standard output first, standard error second.
pub fn render(sections: &Vec<Section>, unparsable: &Vec<String>, in_color: bool) -> (r: (
    Vec<String>,
    Vec<String>,
))
    ensures
        r.0.deep_view() == out_lines(sections@, unparsable.deep_view(), in_color),
        r.1.deep_view() == err_lines(unparsable.deep_view()),
{
    proof {
        lemma_views_is_deep(*unparsable);
    }
    let mut out: Vec<String> = Vec::new();
    let ns = sections.len();
    let mut si: usize = 0;
    proof {
        assert(sections@.take(0) =~= Seq::<Section>::empty());
        assert(views_of(out@) =~= Seq::<Seq<char>>::empty());
    }
    while si < ns
        invariant
            si <= ns,
            ns == sections@.len(),
            views_of(out@) == sections_lines(sections@.take(si as int), in_color),
        decreases ns - si,
    {
        let sec: &Section = &sections[si];
        let style = if in_color {
            Some(HeaderStyle::Yellow)
        } else {
            None
        };
        let header = print_header(sec.title.as_str(), style);
        let ghost base = views_of(out@);
        let ghost hdr = header@;
        let ghost v0 = out@;
        out.push(header);
        proof {
            lemma_views_push(v0, out@[v0.len() as int]);
            assert(views_of(out@) == base.push(hdr));
        }
        let ne = sec.entries.len();
        let mut ei: usize = 0;
        proof {
            assert(views_of(out@) =~= base.push(hdr) + Seq::new(
                0nat,
                |i: int| seq![' ', ' '] + display_spec(sec.entries@[i], in_color),
            ));
        }
        while ei < ne
            invariant
                ei <= ne,
                ne == sec.entries@.len(),
                views_of(out@) == base.push(hdr) + Seq::new(
                    ei as nat,
                    |i: int| seq![' ', ' '] + display_spec(sec.entries@[i], in_color),
                ),
            decreases ne - ei,
        {
            let shown = sec.entries[ei].display(in_color);
            let line = indent_line(shown.as_str());
            let ghost v1 = out@;
            out.push(line);
            proof {
                lemma_views_push(v1, out@[v1.len() as int]);
                assert(views_of(out@) =~= base.push(hdr) + Seq::new(
                    (ei + 1) as nat,
                    |i: int| seq![' ', ' '] + display_spec(sec.entries@[i], in_color),
                ));
            }
            ei = ei + 1;
        }
        let ghost v2 = out@;
        out.push(String::new());
        proof {
            lemma_views_push(v2, out@[v2.len() as int]);
            assert(sections@.take(si + 1).drop_last() =~= sections@.take(si as int));
            assert(sections@.take(si + 1).last() == sections@[si as int]);
            assert(views_of(out@) =~= sections_lines(sections@.take(si + 1), in_color));
        }
        si = si + 1;
    }
    proof {
        assert(sections@.take(ns as int) =~= sections@);
    }
    if unparsable.len() > 0 {
        let style = if in_color {
            Some(HeaderStyle::BrightBlack)
        } else {
            None
        };
        let header = print_header("unparsable", style);
        let ghost v3 = out@;
        out.push(header);
        proof {
            lemma_views_push(v3, out@[v3.len() as int]);
            assert(views_of(out@) =~= out_lines(sections@, unparsable.deep_view(), in_color));
        }
    } else {
        proof {
            assert(views_of(out@) =~= out_lines(sections@, unparsable.deep_view(), in_color));
        }
    }
    let mut err: Vec<String> = Vec::new();
    let nu = unparsable.len();
    let mut ui: usize = 0;
    proof {
        assert(views_of(err@) =~= Seq::new(
            0nat,
            |i: int| seq![' ', ' '] + unparsable.deep_view()[i],
        ));
    }
    while ui < nu
        invariant
            ui <= nu,
            nu == unparsable@.len(),
            views_of(err@) == Seq::new(
                ui as nat,
                |i: int| seq![' ', ' '] + unparsable.deep_view()[i],
            ),
        decreases nu - ui,
    {
        let line = indent_line(unparsable[ui].as_str());
        let ghost v4 = err@;
        err.push(line);
        proof {
            lemma_views_push(v4, err@[v4.len() as int]);
            assert(unparsable.deep_view()[ui as int] == unparsable@[ui as int]@);
            assert(views_of(err@) =~= Seq::new(
                (ui + 1) as nat,
                |i: int| seq![' ', ' '] + unparsable.deep_view()[i],
            ));
        }
        ui = ui + 1;
    }
    proof {
        assert(views_of(err@) =~= err_lines(unparsable.deep_view()));
        lemma_views_is_deep(out);
        lemma_views_is_deep(err);
    }
    (out, err)
}

/// No ANSI escape character anywhere in the text.
pub open spec fn esc_free(s: Seq<char>) -> bool {
    forall|i: int| 0 <= i < s.len() ==> s[i] != esc_char()
}

pub open spec fn all_esc_free(ls: Seq<Seq<char>>) -> bool {
    forall|i: int| 0 <= i < ls.len() ==> esc_free(#[trigger] ls[i])
}

pub open spec fn alias_esc_free(a: Alias) -> bool {
    esc_free(a.name@) && forall|i: int|
        0 <= i < a.value@.len() ==> esc_free((#[trigger] a.value@[i])@)
}

pub open spec fn section_esc_free(s: Section) -> bool {
    esc_free(s.title@) && forall|i: int|
        0 <= i < s.entries@.len() ==> alias_esc_free(#[trigger] s.entries@[i])
}

proof fn lemma_esc_free_concat(a: Seq<char>, b: Seq<char>)
    requires
        esc_free(a),
        esc_free(b),
    ensures
        esc_free(a + b),
{
    assert forall|i: int| 0 <= i < (a + b).len() implies (a + b)[i] != esc_char() by {
        if i < a.len() {
            assert((a + b)[i] == a[i]);
        } else {
            assert((a + b)[i] == b[i - a.len()]);
        }
    }
}

proof fn lemma_joined_esc_free(ts: Seq<Seq<char>>)
    requires
        forall|i: int| 0 <= i < ts.len() ==> esc_free(#[trigger] ts[i]),
    ensures
        esc_free(crate::alias::joined(ts)),
    decreases ts.len(),
{
    if ts.len() > 1 {
        assert(forall|i: int| 0 <= i < ts.skip(1).len() ==> esc_free(#[trigger] ts.skip(1)[i]));
        lemma_joined_esc_free(ts.skip(1));
        lemma_esc_free_concat(ts[0], seq![' ']);
        lemma_esc_free_concat(ts[0] + seq![' '], crate::alias::joined(ts.skip(1)));
    }
}

proof fn lemma_display_esc_free(a: Alias)
    requires
        alias_esc_free(a),
    ensures
        esc_free(display_spec(a, false)),
{
    assert(forall|i: int|
        0 <= i < a.value.deep_view().len() ==> esc_free(#[trigger] a.value.deep_view()[i]));
    lemma_joined_esc_free(a.value.deep_view());
    lemma_esc_free_concat(a.name@, seq!['=', '\'']);
    lemma_esc_free_concat(
        a.name@ + seq!['=', '\''],
        crate::alias::joined(a.value.deep_view()),
    );
    lemma_esc_free_concat(
        a.name@ + seq!['=', '\''] + crate::alias::joined(a.value.deep_view()),
        seq!['\''],
    );
}

proof fn lemma_section_lines_esc_free(sec: Section)
    requires
        section_esc_free(sec),
    ensures
        all_esc_free(section_lines(sec, false)),
{
    lemma_esc_free_concat(seq!['['], sec.title@);
    lemma_esc_free_concat(seq!['['] + sec.title@, seq![']']);
    assert forall|i: int| 0 <= i < section_lines(sec, false).len() implies esc_free(
        #[trigger] section_lines(sec, false)[i],
    ) by {
        let ls = section_lines(sec, false);
        if i == 0 {
            assert(ls[0] == header_spec(sec.title@, None));
        } else if i <= sec.entries@.len() {
            assert(ls[i] == seq![' ', ' '] + display_spec(sec.entries@[i - 1], false));
            lemma_display_esc_free(sec.entries@[i - 1]);
            lemma_esc_free_concat(seq![' ', ' '], display_spec(sec.entries@[i - 1], false));
        } else {
            assert(ls[i] =~= Seq::<char>::empty());
        }
    }
}

proof fn lemma_sections_lines_esc_free(secs: Seq<Section>)
    requires
        forall|i: int| 0 <= i < secs.len() ==> section_esc_free(#[trigger] secs[i]),
    ensures
        all_esc_free(sections_lines(secs, false)),
    decreases secs.len(),
{
    if secs.len() > 0 {
        lemma_sections_lines_esc_free(secs.drop_last());
        lemma_section_lines_esc_free(secs.last());
        let a = sections_lines(secs.drop_last(), false);
        let b = section_lines(secs.last(), false);
        assert forall|i: int| 0 <= i < (a + b).len() implies esc_free(#[trigger] (a + b)[i]) by {
            if i < a.len() {
                assert((a + b)[i] == a[i]);
            } else {
                assert((a + b)[i] == b[i - a.len()]);
            }
        }
    }
}

/// Law: with color off, no line of either output stream contains the
/// ANSI escape character, provided no section title, alias name, value
/// token or unparsable line contains it.
pub proof fn lemma_no_color_no_escape(secs: Seq<Section>, unparsable: Seq<Seq<char>>)
    requires
        forall|i: int| 0 <= i < secs.len() ==> section_esc_free(#[trigger] secs[i]),
        all_esc_free(unparsable),
    ensures
        all_esc_free(out_lines(secs, unparsable, false)),
        all_esc_free(err_lines(unparsable)),
{
    lemma_sections_lines_esc_free(secs);
    reveal_strlit("unparsable");
    assert(esc_free("unparsable"@));
    lemma_esc_free_concat(seq!['['], "unparsable"@);
    lemma_esc_free_concat(seq!['['] + "unparsable"@, seq![']']);
    let a = sections_lines(secs, false);
    let o = out_lines(secs, unparsable, false);
    assert forall|i: int| 0 <= i < o.len() implies esc_free(#[trigger] o[i]) by {
        if i < a.len() {
            assert(o[i] == a[i]);
        } else {
            assert(o[i] == header_spec("unparsable"@, None));
        }
    }
    assert forall|i: int| 0 <= i < err_lines(unparsable).len() implies esc_free(
        #[trigger] err_lines(unparsable)[i],
    ) by {
        assert(err_lines(unparsable)[i] == seq![' ', ' '] + unparsable[i]);
        lemma_esc_free_concat(seq![' ', ' '], unparsable[i]);
    }
}

} // verus!
