use std::collections::HashMap;
use vstd::prelude::*;

verus! {

broadcast use vstd::std_specs::hash::group_hash_axioms;

/// A lookup from a principal (by its raw key) to an ordered list of asset
/// sequence numbers. Lists keep insertion order; a principal without a list
/// reads as an empty one.
pub struct AssetIndex {
    lists: HashMap<u64, Vec<u32>>,
}

impl AssetIndex {
    /// The list held for principal `p`.
    pub closed spec fn list(&self, p: u64) -> Seq<u32> {
        if self.lists@.contains_key(p) {
            self.lists@[p]@
        } else {
            Seq::empty()
        }
    }

    pub fn new() -> (r: AssetIndex)
        ensures
            forall|p: u64| #[trigger] r.list(p) == Seq::<u32>::empty(),
    {
        AssetIndex { lists: HashMap::new() }
    }

    /// Takes the list of `p` out of the map, or an empty one if it has none.
    fn take(&mut self, p: u64) -> (r: Vec<u32>)
        ensures
            r@ == old(self).list(p),
            !final(self).lists@.contains_key(p),
            forall|q: u64| q != p ==> #[trigger] final(self).list(q) == old(self).list(q),
    {
        match self.lists.remove(&p) {
            Some(v) => v,
            None => Vec::new(),
        }
    }

    /// Appends `id` to the list of `p`, creating the list if absent.
    pub fn add(&mut self, p: u64, id: u32)
        ensures
            final(self).list(p) == old(self).list(p).push(id),
            forall|q: u64| q != p ==> #[trigger] final(self).list(q) == old(self).list(q),
    {
        let mut v = self.take(p);
        v.push(id);
        let ghost mid = *self;
        self.lists.insert(p, v);
        assert forall|q: u64| q != p implies #[trigger] self.list(q) == old(self).list(q) by {
            assert(self.list(q) == mid.list(q));
        }
    }

    /// Removes the first occurrence of `id` from the list of `p`; does
    /// nothing if it is absent.
    pub fn remove_first(&mut self, p: u64, id: u32)
        ensures
            old(self).list(p).contains(id) ==> exists|k: int|
                0 <= k < old(self).list(p).len() && old(self).list(p)[k] == id && (forall|j: int|
                    0 <= j < k ==> old(self).list(p)[j] != id) && final(self).list(p) == old(
                    self,
                ).list(p).remove(k),
            !old(self).list(p).contains(id) ==> final(self).list(p) == old(self).list(p),
            forall|q: u64| q != p ==> #[trigger] final(self).list(q) == old(self).list(q),
    {
        if !self.lists.contains_key(&p) {
            return;
        }
        let mut v = self.take(p);
        let ghost before = v@;
        let mut i: usize = 0;
        while i < v.len() && v[i] != id
            invariant
                v@ == before,
                0 <= i <= v@.len(),
                forall|j: int| 0 <= j < i ==> v@[j] != id,
            decreases v@.len() - i,
        {
            i = i + 1;
        }
        if i < v.len() {
            v.remove(i);
            assert(before[i as int] == id);
        } else {
            assert(!before.contains(id));
        }
        let ghost mid = *self;
        self.lists.insert(p, v);
        assert forall|q: u64| q != p implies #[trigger] self.list(q) == old(self).list(q) by {
            assert(self.list(q) == mid.list(q));
        }
    }

    /// A copy of the list of `p`.
    pub fn ids(&self, p: u64) -> (r: Vec<u32>)
        ensures
            r@ == self.list(p),
    {
        match self.lists.get(&p) {
            Some(v) => v.clone(),
            None => Vec::new(),
        }
    }
}

/// Taking out the only occurrence of `v` keeps every other entry.
pub proof fn lemma_remove_one(s: Seq<u32>, k: int, v: u32)
    requires
        s.no_duplicates(),
        0 <= k < s.len(),
        s[k] == v,
    ensures
        s.remove(k).no_duplicates(),
        !s.remove(k).contains(v),
        forall|x: u32| x != v ==> (s.contains(x) <==> #[trigger] s.remove(k).contains(x)),
{
    let r = s.remove(k);
    assert forall|x: u32| x != v && s.contains(x) implies r.contains(x) by {
        let j = choose|j: int| 0 <= j < s.len() && s[j] == x;
        if j < k {
            assert(r[j] == x);
        } else {
            assert(r[j - 1] == x);
        }
    }
    assert forall|x: u32| r.contains(x) implies s.contains(x) && x != v by {
        let j = choose|j: int| 0 <= j < r.len() && r[j] == x;
        if j < k {
            assert(s[j] == x);
        } else {
            assert(s[j + 1] == x);
        }
    }
    assert forall|a: int, b: int| 0 <= a < r.len() && 0 <= b < r.len() && a != b implies r[a]
        != r[b] by {
        let a2 = if a < k {
            a
        } else {
            a + 1
        };
        let b2 = if b < k {
            b
        } else {
            b + 1
        };
        assert(r[a] == s[a2]);
        assert(r[b] == s[b2]);
    }
}

/// Appending an entry not yet present keeps the entries distinct.
pub proof fn lemma_push_new(s: Seq<u32>, v: u32)
    requires
        s.no_duplicates(),
        !s.contains(v),
    ensures
        s.push(v).no_duplicates(),
        forall|x: u32| #[trigger] s.push(v).contains(x) <==> (s.contains(x) || x == v),
{
    let r = s.push(v);
    assert forall|x: u32| r.contains(x) implies s.contains(x) || x == v by {
        let j = choose|j: int| 0 <= j < r.len() && r[j] == x;
        if j < s.len() {
            assert(s[j] == x);
        }
    }
    assert forall|x: u32| s.contains(x) implies r.contains(x) by {
        let j = choose|j: int| 0 <= j < s.len() && s[j] == x;
        assert(r[j] == x);
    }
    assert(r[s.len() as int] == v);
    assert forall|a: int, b: int| 0 <= a < r.len() && 0 <= b < r.len() && a != b implies r[a]
        != r[b] by {
        if a < s.len() && b < s.len() {
            assert(r[a] == s[a] && r[b] == s[b]);
        } else if a < s.len() {
            assert(s.contains(s[a]));
        } else {
            assert(s.contains(s[b]));
        }
    }
}

} // verus!
