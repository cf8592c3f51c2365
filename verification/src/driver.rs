//! The formatting driver: trims each input line, parses the non-empty
//! ones, groups what parses and collects what does not, then renders
//! the whole run.

use vstd::prelude::*;
use vstd::multiset::Multiset;
use crate::group::{Aliases, alias_model, buckets_models, lemma_pushed_models, pushed_at};
use crate::parser::{parse_alias, spec_alias};
use crate::present::{
    Section,
    err_lines,
    out_lines,
    render,
    sections_of,
    sections_ok,
    lemma_views_push,
    views_of,
    lemma_views_is_deep,
};
use crate::text::{trim, trimmed};

verus! {

/// How many lines are non-empty once trimmed: each owes the run exactly
/// one alias or one unparsable entry.
pub open spec fn nonempty_count(lines: Seq<Seq<char>>) -> int
    decreases lines.len(),
{
    if lines.len() == 0 {
        0
    } else {
        nonempty_count(lines.drop_last()) + (if trimmed(lines.last()).len() > 0 {
            1int
        } else {
            0int
        })
    }
}

/// The trimmed forms of the non-empty lines the parser rejects, in input
/// order.
pub open spec fn rejected(lines: Seq<Seq<char>>) -> Seq<Seq<char>>
    decreases lines.len(),
{
    if lines.len() == 0 {
        Seq::empty()
    } else {
        rejected(lines.drop_last()) + (if trimmed(lines.last()).len() > 0 && spec_alias(
            trimmed(lines.last()),
        ) is None {
            seq![trimmed(lines.last())]
        } else {
            Seq::empty()
        })
    }
}

/// The models of the aliases parsed out of the accepted lines.
pub open spec fn parsed_models(lines: Seq<Seq<char>>) -> Multiset<(Seq<char>, Seq<Seq<char>>)>
    decreases lines.len(),
{
    if lines.len() == 0 {
        Multiset::empty()
    } else {
        let t = trimmed(lines.last());
        parsed_models(lines.drop_last()).add(
            (if t.len() > 0 && spec_alias(t) is Some {
                Multiset::empty().insert((spec_alias(t)->Some_0.1, spec_alias(t)->Some_0.2))
            } else {
                Multiset::empty()
            }),
        )
    }
}

/// Parses and groups the input lines. The groups hold exactly the
/// aliases of the accepted lines; the second result lists the rejected
/// lines, trimmed, in order; and every non-empty trimmed line lands in
/// exactly one of the two.
pub fn process_lines(lines: &Vec<String>) -> (r: (Aliases, Vec<String>))
    ensures
        r.0.wf(),
        buckets_models(r.0.aliases@) == parsed_models(lines.deep_view()),
        r.1.deep_view() == rejected(lines.deep_view()),
        r.0.total() + r.1@.len() == nonempty_count(lines.deep_view()),
{
    let ghost ldv = lines.deep_view();
    let mut groups = Aliases::new();
    let mut errs: Vec<String> = Vec::new();
    let n = lines.len();
    let mut i: usize = 0;
    proof {
        assert(ldv.take(0) =~= Seq::<Seq<char>>::empty());
        assert(views_of(errs@) =~= Seq::<Seq<char>>::empty());
    }
    while i < n
        invariant
            i <= n,
            n == lines@.len(),
            ldv == lines.deep_view(),
            ldv.len() == n,
            groups.wf(),
            buckets_models(groups.aliases@) == parsed_models(ldv.take(i as int)),
            views_of(errs@) == rejected(ldv.take(i as int)),
            groups.total() + errs@.len() == nonempty_count(ldv.take(i as int)),
        decreases n - i,
    {
        let t = trim(lines[i].as_str());
        proof {
            assert(ldv[i as int] == lines@[i as int]@);
            assert(ldv.take(i + 1).drop_last() =~= ldv.take(i as int));
            assert(ldv.take(i + 1).last() == ldv[i as int]);
        }
        if !t.as_str().is_empty() {
            let parsed = parse_alias(t.as_str());
            match parsed {
                Some(pair) => {
                    let alias = pair.1;
                    let ghost oldg = groups.aliases@;
                    groups.push(alias);
                    proof {
                        let b = choose|b: int|
                            0 <= b < groups.aliases@.len() && pushed_at(
                                oldg,
                                groups.aliases@,
                                alias,
                                b,
                            );
                        lemma_pushed_models(oldg, groups.aliases@, alias, b);
                        assert(alias_model(alias) == (
                            spec_alias(t@)->Some_0.1,
                            spec_alias(t@)->Some_0.2,
                        ));
                        assert(buckets_models(groups.aliases@) =~= parsed_models(
                            ldv.take(i + 1),
                        ));
                    }
                },
                None => {
                    let ghost eprev = errs@;
                    errs.push(t);
                    proof {
                        lemma_views_push(eprev, errs@[eprev.len() as int]);
                        assert(views_of(errs@) =~= rejected(ldv.take(i + 1)));
                        assert(buckets_models(groups.aliases@) =~= parsed_models(
                            ldv.take(i + 1),
                        ));
                    }
                },
            }
        } else {
            proof {
                assert(views_of(errs@) =~= rejected(ldv.take(i + 1)));
                assert(buckets_models(groups.aliases@) =~= parsed_models(ldv.take(i + 1)));
            }
        }
        i = i + 1;
    }
    proof {
        assert(ldv.take(n as int) =~= ldv);
        lemma_views_is_deep(errs);
    }
    (groups, errs)
}

/// One full formatting run: parse and group the lines, split the groups
/// into sections, render. The first result holds the standard-output
/// lines, the second the standard-error lines.
pub fn run_format(lines: &Vec<String>, in_color: bool) -> (r: (Vec<String>, Vec<String>))
    ensures
        (exists|groups: Aliases, secs: Seq<Section>|
            {
                &&& groups.wf()
                &&& buckets_models(groups.aliases@) == parsed_models(lines.deep_view())
                &&& groups.total() + rejected(lines.deep_view()).len() == nonempty_count(
                    lines.deep_view(),
                )
                &&& sections_ok(groups.aliases@, secs)
                &&& r.0.deep_view() == out_lines(secs, rejected(lines.deep_view()), in_color)
            }),
        r.1.deep_view() == err_lines(rejected(lines.deep_view())),
{
    let (groups, errs) = process_lines(lines);
    let ghost g = groups;
    let secs = sections_of(groups);
    let r = render(&secs, &errs, in_color);
    proof {
        assert(errs.deep_view() == rejected(lines.deep_view()));
        assert(g.wf() && buckets_models(g.aliases@) == parsed_models(lines.deep_view())
            && g.total() + rejected(lines.deep_view()).len() == nonempty_count(lines.deep_view())
            && sections_ok(g.aliases@, secs@) && r.0.deep_view() == out_lines(
            secs@,
            rejected(lines.deep_view()),
            in_color,
        ));
    }
    r
}

} // verus!
