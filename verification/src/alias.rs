//! The parsed form of one alias definition: a name and the sequence of
//! tokens making up its value.

use vstd::prelude::*;
use crate::color::{color_green, green_prefix, reset_suffix};
use crate::text::{is_name_char, is_token_char};

verus! {

/// A single well-formed token: non-empty, free of quotes and whitespace.
pub open spec fn token_wf(t: Seq<char>) -> bool {
    t.len() > 0 && forall|j: int| 0 <= j < t.len() ==> is_token_char(t[j])
}

/// A well-formed name: non-empty and free of `=`.
pub open spec fn name_wf(n: Seq<char>) -> bool {
    n.len() > 0 && forall|j: int| 0 <= j < n.len() ==> is_name_char(n[j])
}

/// One alias definition: `name` maps to the command `value`, a non-empty
/// token sequence whose first token is the invoked program.
#[derive(Debug)]
pub struct Alias {
    pub name: String,
    pub value: Vec<String>,
}

impl Alias {
    /// Every alias the parser hands out satisfies this: the name has no
    /// `=`, and each value token is non-empty without quotes or whitespace.
    pub open spec fn wf(self) -> bool {
        &&& name_wf(self.name@)
        &&& self.value@.len() >= 1
        &&& forall|i: int| 0 <= i < self.value@.len() ==> token_wf(#[trigger] self.value@[i]@)
    }

    pub fn new(name: &str, value: Vec<String>) -> (r: Alias)
        ensures
            r.name@ == name@,
            r.value == value,
    {
        Alias { name: name.to_owned(), value }
    }
}

/// The value tokens joined by single spaces.
pub open spec fn joined(ts: Seq<Seq<char>>) -> Seq<char>
    decreases ts.len(),
{
    if ts.len() == 0 {
        Seq::empty()
    } else if ts.len() == 1 {
        ts[0]
    } else {
        ts[0] + seq![' '] + joined(ts.skip(1))
    }
}

proof fn lemma_joined_push(ts: Seq<Seq<char>>, t: Seq<char>)
    ensures
        ts.len() == 0 ==> joined(ts.push(t)) == t,
        ts.len() > 0 ==> joined(ts.push(t)) == joined(ts) + seq![' '] + t,
    decreases ts.len(),
{
    if ts.len() == 0 {
        assert(ts.push(t)[0] =~= t);
    } else {
        lemma_joined_push(ts.skip(1), t);
        assert(ts.push(t).skip(1) =~= ts.skip(1).push(t));
        if ts.len() == 1 {
            assert(joined(ts.push(t)) =~= ts[0] + seq![' '] + t);
        } else {
            assert(joined(ts) + seq![' '] + t =~= ts[0] + seq![' '] + (joined(ts.skip(1))
                + seq![' '] + t));
        }
    }
}

/// How one alias is rendered: the name (green when in color), `='`, the
/// space-joined value, and a closing quote.
pub open spec fn display_spec(a: Alias, in_color: bool) -> Seq<char> {
    let shown_name = if in_color {
        green_prefix() + a.name@ + reset_suffix()
    } else {
        a.name@
    };
    shown_name + seq!['=', '\''] + joined(a.value.deep_view()) + seq!['\'']
}

fn join_tokens(value: &Vec<String>) -> (r: String)
    ensures
        r@ == joined(value.deep_view()),
{
    let mut out = String::new();
    let n = value.len();
    let mut i: usize = 0;
    proof {
        assert(value.deep_view().take(0) =~= Seq::<Seq<char>>::empty());
    }
    while i < n
        invariant
            i <= n,
            n == value@.len(),
            out@ == joined(value.deep_view().take(i as int)),
        decreases n - i,
    {
        if i > 0 {
            out.append(" ");
            proof {
                reveal_strlit(" ");
                assert(" "@ =~= seq![' ']);
            }
        }
        out.append(value[i].as_str());
        proof {
            lemma_joined_push(value.deep_view().take(i as int), value.deep_view()[i as int]);
            assert(value.deep_view().take(i + 1) =~= value.deep_view().take(i as int).push(
                value.deep_view()[i as int],
            ));
            assert(value.deep_view()[i as int] == value@[i as int]@);
        }
        i = i + 1;
    }
    proof {
        assert(value.deep_view().take(n as int) =~= value.deep_view());
    }
    out
}

impl Alias {
    /// Renders the alias as `name='value'`, the name colored green when
    /// `in_color` is set.
    pub fn display(&self, in_color: bool) -> (r: String)
        ensures
            r@ == display_spec(*self, in_color),
    {
        let mut out = if in_color {
            color_green(self.name.as_str())
        } else {
            self.name.as_str().to_owned()
        };
        out.append("='");
        let tokens = join_tokens(&self.value);
        out.append(tokens.as_str());
        out.append("'");
        proof {
            reveal_strlit("='");
            reveal_strlit("'");
            assert("='"@ =~= seq!['=', '\'']);
            assert("'"@ =~= seq!['\'']);
        }
        out
    }
}

impl PartialEq for Alias {
    fn eq(&self, other: &Alias) -> (r: bool) {
        let names_eq = self.name == other.name;
        if !names_eq {
            return false;
        }
        if self.value.len() != other.value.len() {
            proof {
                assert(self.value.deep_view().len() != other.value.deep_view().len());
            }
            return false;
        }
        let n = self.value.len();
        let mut i: usize = 0;
        while i < n
            invariant
                i <= n,
                n == self.value@.len() == other.value@.len(),
                self.name@ == other.name@,
                forall|k: int| 0 <= k < i ==> self.value@[k]@ == other.value@[k]@,
            decreases n - i,
        {
            if !(self.value[i] == other.value[i]) {
                proof {
                    assert(self.value.deep_view()[i as int] != other.value.deep_view()[i as int]);
                }
                return false;
            }
            i = i + 1;
        }
        proof {
            assert(self.value.deep_view() =~= other.value.deep_view());
        }
        true
    }
}

impl vstd::std_specs::cmp::PartialEqSpecImpl for Alias {
    open spec fn obeys_eq_spec() -> bool {
        true
    }

    open spec fn eq_spec(&self, other: &Alias) -> bool {
        self.name@ == other.name@ && self.value.deep_view() == other.value.deep_view()
    }
}

} // verus!
