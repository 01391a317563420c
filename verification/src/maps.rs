//! Sets of addresses and lists keyed by an address.

use crate::ordered;
use std::collections::{BTreeMap, BTreeSet};
use vstd::prelude::*;
use vstd::std_specs::btree::*;

verus! {

broadcast use vstd::laws_cmp::group_laws_cmp;

proof fn walk_is_rising(all: Seq<&usize>)
    requires
        increasing_seq(all),
    ensures
        ordered::is_sorted(all.unref(), ordered::rising()),
{
    assert(vstd::laws_cmp::obeys_cmp::<&usize>());
    assert forall|i: int, j: int| 0 <= i < j < all.len() implies (ordered::rising())(
        #[trigger] all.unref()[i],
        #[trigger] all.unref()[j],
    ) by {
        assert(vstd::std_specs::cmp::OrdSpec::cmp_spec(&all[i], &all[j]) is Less);
    }
}

/// The members of a set, ascending.
pub fn members(set: &BTreeSet<usize>) -> (out: Vec<usize>)
    ensures
        ordered::is_sorted(out@, ordered::rising()),
        forall|x: usize| #![trigger out@.contains(x)] out@.contains(x) <==> set@.contains(x),
{
    let mut out: Vec<usize> = Vec::new();
    let ghost all = vstd::std_specs::iter::IteratorSpec::remaining(&spec_btree_keys_iter(set));
    for x in it: set.iter()
        invariant
            it.seq() == all,
            out@ == all.unref().take(it.index()),
    {
        out.push(*x);
        assert(out@ =~= all.unref().take(it.index() + 1));
    }
    proof {
        assert(out@ =~= all.unref());
        walk_is_rising(all);
        assert(all.unref().to_set() == set@);
        assert forall|x: usize| #![trigger out@.contains(x)] out@.contains(x) <==> set@.contains(
            x,
        ) by {
            assert(all.unref().to_set().contains(x) <==> all.unref().contains(x));
        }
    }
    out
}

/// The addresses in ascending order, each once.
pub fn sort_unique(items: &Vec<usize>) -> (out: Vec<usize>)
    ensures
        out@ == ordered::sorted_set(items@, ordered::rising()),
{
    let mut set: BTreeSet<usize> = BTreeSet::new();
    let mut i: usize = 0;
    while i < items.len()
        invariant
            i <= items@.len(),
            forall|x: usize|
                #![trigger set@.contains(x)]
                set@.contains(x) <==> exists|k: int| 0 <= k < i && items@[k] == x,
        decreases items@.len() - i,
    {
        let ghost before = set@;
        set.insert(items[i]);
        i += 1;
        assert forall|x: usize| #![trigger set@.contains(x)] set@.contains(x) <==> exists|k: int|
            0 <= k < i && items@[k] == x by {
            if before.contains(x) {
                let k = choose|k: int| 0 <= k < i - 1 && items@[k] == x;
                assert(items@[k] == x);
            }
            if x == items@[i - 1] {
                assert(items@[i - 1] == x);
            }
        }
    }
    let out = members(&set);
    proof {
        let want = ordered::sorted_set(items@, ordered::rising());
        ordered::numbers_are_ordered();
        ordered::sorted_set_is_sorted(Seq::empty(), items@, ordered::rising());
        assert forall|x: usize| #![trigger out@.contains(x)] out@.contains(x) <==> want.contains(
            x,
        ) by {
            assert(set@.contains(x) <==> items@.contains(x));
            assert(!Seq::<usize>::empty().contains(x));
        }
        ordered::sorted_is_unique(out@, want, ordered::rising());
    }
    out
}

/// A list of addresses for each address that has one.
pub struct Lists {
    pub map: BTreeMap<usize, Vec<usize>>,
}

impl Lists {
    /// The list of `k`; empty where it has none.
    pub open spec fn of(&self, k: usize) -> Seq<usize> {
        if self.map@.contains_key(k) {
            self.map@[k]@
        } else {
            Seq::empty()
        }
    }

    /// No lists.
    pub fn new() -> (l: Lists)
        ensures
            forall|k: usize| #[trigger] l.of(k) == Seq::<usize>::empty(),
            l.map@ == Map::<usize, Vec<usize>>::empty(),
    {
        Lists { map: BTreeMap::new() }
    }

    /// The list of `k`.
    pub fn get(&self, k: usize) -> (r: Vec<usize>)
        ensures
            r@ == self.of(k),
    {
        match self.map.get(&k) {
            Some(v) => {
                let r = v.clone();
                assert(r@ =~= v@);
                r
            },
            None => Vec::new(),
        }
    }

    /// Add `x` at the end of the list of `k`.
    pub fn push(&mut self, k: usize, x: usize)
        ensures
            final(self).of(k) == old(self).of(k).push(x),
            forall|j: usize| j != k ==> #[trigger] final(self).of(j) == old(self).of(j),
            final(self).map@.dom() == old(self).map@.dom().insert(k),
    {
        let mut list: Vec<usize> = match self.map.remove(&k) {
            Some(v) => v,
            None => Vec::new(),
        };
        list.push(x);
        self.map.insert(k, list);
        assert(self.map@.dom() =~= old(self).map@.dom().insert(k));
    }

    /// Put `x` at its place in the ascending list of `k`.
    pub fn insert(&mut self, k: usize, x: usize)
        ensures
            final(self).of(k) == ordered::ins(old(self).of(k), x, ordered::rising()),
            forall|j: usize| j != k ==> #[trigger] final(self).of(j) == old(self).of(j),
            final(self).map@.dom() == old(self).map@.dom().insert(k),
    {
        let mut list: Vec<usize> = match self.map.remove(&k) {
            Some(v) => v,
            None => Vec::new(),
        };
        ordered::insert_usize(&mut list, x);
        self.map.insert(k, list);
        assert(self.map@.dom() =~= old(self).map@.dom().insert(k));
    }
}

/// A count for each address.
pub struct Tally {
    pub map: BTreeMap<usize, usize>,
}

impl Tally {
    /// The count of `k`.
    pub open spec fn of(&self, k: usize) -> int {
        if self.map@.contains_key(k) {
            self.map@[k] + 0
        } else {
            0
        }
    }

    /// Nothing counted.
    pub fn new() -> (t: Tally)
        ensures
            forall|k: usize| #[trigger] t.of(k) == 0,
    {
        Tally { map: BTreeMap::new() }
    }

    /// The count of `k`.
    pub fn get(&self, k: usize) -> (r: usize)
        ensures
            r == self.of(k),
    {
        match self.map.get(&k) {
            Some(v) => *v,
            None => 0,
        }
    }

    /// Count one more for `k`.
    pub fn bump(&mut self, k: usize)
        requires
            old(self).of(k) < usize::MAX,
        ensures
            final(self).of(k) == old(self).of(k) + 1,
            forall|j: usize| j != k ==> #[trigger] final(self).of(j) == old(self).of(j),
    {
        let n: usize = self.get(k);
        self.map.insert(k, n + 1);
    }
}

}
