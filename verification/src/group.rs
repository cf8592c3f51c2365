//! Accumulates parsed aliases into buckets keyed by the first token of
//! the alias value (the invoked program).

use vstd::prelude::*;
use vstd::multiset::Multiset;
use crate::alias::Alias;

verus! {

/// One bucket: the aliases whose value starts with the token `key`, in
/// insertion order.
pub struct Bucket {
    pub key: String,
    pub items: Vec<Alias>,
}

impl Bucket {
    pub open spec fn wf(self) -> bool {
        &&& self.items@.len() >= 1
        &&& forall|i: int|
            0 <= i < self.items@.len() ==> (#[trigger] self.items@[i]).wf()
                && self.items@[i].value@[0]@ == self.key@
    }
}

/// Sum of the bucket sizes.
pub open spec fn total_of(bs: Seq<Bucket>) -> int
    decreases bs.len(),
{
    if bs.len() == 0 {
        0
    } else {
        total_of(bs.drop_last()) + bs.last().items@.len()
    }
}

/// The alias groups: buckets with pairwise distinct keys, each bucket
/// non-empty and keyed by its members' first token.
pub struct Aliases {
    pub aliases: Vec<Bucket>,
}

/// What one `push` does: either the key was present at index `b` and the
/// alias was appended to that bucket, or it was absent and a fresh
/// singleton bucket was appended at `b`, the end.
pub open spec fn pushed_at(oldb: Seq<Bucket>, newb: Seq<Bucket>, alias: Alias, b: int) -> bool {
    if b < oldb.len() {
        &&& newb.len() == oldb.len()
        &&& oldb[b].key@ == alias.value@[0]@
        &&& newb[b].key@ == oldb[b].key@
        &&& newb[b].items@ == oldb[b].items@.push(alias)
        &&& forall|i: int| 0 <= i < newb.len() && i != b ==> newb[i] == oldb[i]
    } else {
        &&& b == oldb.len()
        &&& newb.len() == oldb.len() + 1
        &&& newb[b].key@ == alias.value@[0]@
        &&& newb[b].items@ == seq![alias]
        &&& forall|i: int| 0 <= i < oldb.len() ==> newb[i] == oldb[i]
        &&& forall|i: int| 0 <= i < oldb.len() ==> (#[trigger] oldb[i].key@) != alias.value@[0]@
    }
}

proof fn lemma_total_grows(oldb: Seq<Bucket>, newb: Seq<Bucket>, b: int)
    requires
        newb.len() == oldb.len(),
        0 <= b < oldb.len(),
        newb[b].items@.len() == oldb[b].items@.len() + 1,
        forall|i: int| 0 <= i < newb.len() && i != b ==> newb[i] == oldb[i],
    ensures
        total_of(newb) == total_of(oldb) + 1,
    decreases oldb.len(),
{
    if b == oldb.len() - 1 {
        assert(newb.drop_last() =~= oldb.drop_last());
    } else {
        lemma_total_grows(oldb.drop_last(), newb.drop_last(), b);
    }
}

impl Aliases {
    pub open spec fn wf(self) -> bool {
        &&& forall|i: int| 0 <= i < self.aliases@.len() ==> (#[trigger] self.aliases@[i]).wf()
        &&& forall|i: int, j: int|
            0 <= i < j < self.aliases@.len() ==> self.aliases@[i].key@ != self.aliases@[j].key@
    }

    /// Total number of aliases held, over all buckets.
    pub open spec fn total(self) -> int {
        total_of(self.aliases@)
    }

    pub fn new() -> (r: Aliases)
        ensures
            r.wf(),
            r.total() == 0,
            r.aliases@.len() == 0,
    {
        Aliases { aliases: Vec::new() }
    }

    /// Inserts `alias` into the bucket keyed by its first token, creating
    /// the bucket if the key is new.
    pub fn push(&mut self, alias: Alias)
        requires
            old(self).wf(),
            alias.wf(),
        ensures
            final (self).wf(),
            final (self).total() == old(self).total() + 1,
            exists|b: int|
                0 <= b < final (self).aliases@.len() && pushed_at(
                    old(self).aliases@,
                    final (self).aliases@,
                    alias,
                    b,
                ),
    {
        let n = self.aliases.len();
        let i = find_bucket(&self.aliases, &alias.value[0]);
        let ghost oldb = self.aliases@;
        if i < n {
            let mut bucket = self.aliases.remove(i);
            bucket.items.push(alias);
            self.aliases.insert(i, bucket);
            proof {
                assert(self.aliases@ =~= oldb.update(i as int, self.aliases@[i as int]));
                assert(pushed_at(oldb, self.aliases@, alias, i as int));
                lemma_total_grows(oldb, self.aliases@, i as int);
            }
        } else {
            let mut items: Vec<Alias> = Vec::new();
            let key = first_token(&alias);
            items.push(alias);
            proof {
                assert(items@ =~= seq![alias]);
            }
            self.aliases.push(Bucket { key, items });
            proof {
                assert(pushed_at(oldb, self.aliases@, alias, oldb.len() as int));
                assert(self.aliases@.drop_last() =~= oldb);
            }
        }
    }
}

/// Index of the bucket carrying `key`, or the length if the key is new.
fn find_bucket(bs: &Vec<Bucket>, key: &String) -> (r: usize)
    ensures
        r <= bs@.len(),
        forall|k: int| 0 <= k < r ==> (#[trigger] bs@[k].key@) != key@,
        r < bs@.len() ==> bs@[r as int].key@ == key@,
{
    let n = bs.len();
    let mut i: usize = 0;
    while i < n
        invariant
            i <= n,
            n == bs@.len(),
            forall|k: int| 0 <= k < i ==> (#[trigger] bs@[k].key@) != key@,
        decreases n - i,
    {
        let hit = bs[i].key == *key;
        if hit {
            return i;
        }
        i = i + 1;
    }
    n
}

/// A copy of the alias's first value token, the key its bucket carries.
fn first_token(alias: &Alias) -> (r: String)
    requires
        alias.value@.len() >= 1,
    ensures
        r@ == alias.value@[0]@,
{
    alias.value[0].as_str().to_owned()
}

/// An alias reduced to mathematics: its name and its token sequence.
pub open spec fn alias_model(a: Alias) -> (Seq<char>, Seq<Seq<char>>) {
    (a.name@, a.value.deep_view())
}

pub open spec fn items_models(items: Seq<Alias>) -> Multiset<(Seq<char>, Seq<Seq<char>>)>
    decreases items.len(),
{
    if items.len() == 0 {
        Multiset::empty()
    } else {
        items_models(items.drop_last()).insert(alias_model(items.last()))
    }
}

/// Everything the groups hold, as a multiset of alias models.
pub open spec fn buckets_models(bs: Seq<Bucket>) -> Multiset<(Seq<char>, Seq<Seq<char>>)>
    decreases bs.len(),
{
    if bs.len() == 0 {
        Multiset::empty()
    } else {
        buckets_models(bs.drop_last()).add(items_models(bs.last().items@))
    }
}

/// One push adds exactly the pushed alias to what the groups hold.
pub proof fn lemma_pushed_models(oldb: Seq<Bucket>, newb: Seq<Bucket>, alias: Alias, b: int)
    requires
        0 <= b < newb.len(),
        pushed_at(oldb, newb, alias, b),
    ensures
        buckets_models(newb) == buckets_models(oldb).insert(alias_model(alias)),
    decreases oldb.len(),
{
    if b == oldb.len() {
        assert(newb.drop_last() =~= oldb);
        assert(newb.last().items@ =~= Seq::<Alias>::empty().push(alias));
        assert(newb.last().items@.drop_last() =~= Seq::<Alias>::empty());
        assert(newb.last().items@.last() == alias);
        assert(items_models(Seq::<Alias>::empty()) == Multiset::<(
            Seq<char>,
            Seq<Seq<char>>,
        )>::empty());
        assert(items_models(newb.last().items@) =~= Multiset::empty().insert(alias_model(alias)));
        assert(buckets_models(newb) == buckets_models(oldb).add(items_models(newb.last().items@)));
        assert(buckets_models(oldb).add(Multiset::empty().insert(alias_model(alias)))
            =~= buckets_models(oldb).insert(alias_model(alias)));
    } else if b == oldb.len() - 1 {
        assert(newb.drop_last() =~= oldb.drop_last());
        assert(newb.last().items@ == oldb.last().items@.push(alias));
        assert(newb.last().items@.drop_last() =~= oldb.last().items@);
        assert(newb.last().items@.last() == alias);
        assert(items_models(newb.last().items@) == items_models(oldb.last().items@).insert(
            alias_model(alias),
        ));
        assert(buckets_models(newb) == buckets_models(oldb.drop_last()).add(
            items_models(oldb.last().items@).insert(alias_model(alias)),
        ));
        assert(buckets_models(oldb.drop_last()).add(
            items_models(oldb.last().items@).insert(alias_model(alias)),
        ) =~= buckets_models(oldb).insert(alias_model(alias)));
    } else {
        assert(pushed_at(oldb.drop_last(), newb.drop_last(), alias, b)) by {
            assert(forall|i: int|
                0 <= i < newb.len() && i != b ==> newb[i] == oldb[i]);
            assert(newb.drop_last().len() == oldb.drop_last().len());
        }
        lemma_pushed_models(oldb.drop_last(), newb.drop_last(), alias, b);
        assert(newb.last() == oldb.last());
        assert(buckets_models(newb) =~= buckets_models(oldb).insert(alias_model(alias)));
    }
}

/// Law: an alias stored in a bucket has that bucket's key as the first
/// token of its value.
pub proof fn lemma_bucket_key(g: Aliases, b: int, i: int)
    requires
        g.wf(),
        0 <= b < g.aliases@.len(),
        0 <= i < g.aliases@[b].items@.len(),
    ensures
        g.aliases@[b].items@[i].value@[0]@ == g.aliases@[b].key@,
{
}

} // verus!
