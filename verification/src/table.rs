//! Tables keyed by a PipeWire object id.
//!
//! A table keeps its entries in the order of their arrival, so that what is read off it does
//! not depend on a hasher.

use vstd::prelude::*;

verus! {

/// The value under an id.
pub open spec fn lookup<W>(s: Seq<(u32, W)>, id: u32) -> Option<W>
    decreases s.len(),
{
    if s.len() == 0 {
        None
    } else if s.last().0 == id {
        Some(s.last().1)
    } else {
        lookup(s.drop_last(), id)
    }
}

/// Replaces the value of an entry with the given id.
pub open spec fn replacing<W>(id: u32, w: W) -> spec_fn((u32, W)) -> (u32, W) {
    |e: (u32, W)|
        if e.0 == id {
            (id, w)
        } else {
            e
        }
}

/// Tells the entries of all other ids.
pub open spec fn other_than<W>(id: u32) -> spec_fn((u32, W)) -> bool {
    |e: (u32, W)| e.0 != id
}

/// The table with a value put under an id: in the place of the old value where there is one,
/// at the end where there is none.
pub open spec fn with_entry<W>(s: Seq<(u32, W)>, id: u32, w: W) -> Seq<(u32, W)> {
    if lookup(s, id) is Some {
        s.map_values(replacing(id, w))
    } else {
        s.push((id, w))
    }
}

/// The table without what stands under an id.
pub open spec fn without<W>(s: Seq<(u32, W)>, id: u32) -> Seq<(u32, W)> {
    s.filter(other_than(id))
}

/// No id stands in the table twice.
pub open spec fn distinct<W>(s: Seq<(u32, W)>) -> bool {
    forall|i: int, j: int| 0 <= i < j < s.len() ==> (#[trigger] s[i]).0 != (#[trigger] s[j]).0
}

/// Where an id stands in the table, its value is the one looked up.
pub proof fn lemma_lookup_at<W>(s: Seq<(u32, W)>, i: int)
    requires
        distinct(s),
        0 <= i < s.len(),
    ensures
        lookup(s, s[i].0) == Some(s[i].1),
    decreases s.len(),
{
    if i < s.len() - 1 {
        lemma_lookup_at(s.drop_last(), i);
    }
}

/// An id that stands nowhere in the table has no value.
pub proof fn lemma_lookup_absent<W>(s: Seq<(u32, W)>, id: u32)
    ensures
        lookup(s, id) is None <==> (forall|i: int| 0 <= i < s.len() ==> (#[trigger] s[i]).0 != id),
        lookup(s, id) matches Some(w) ==> s.contains((id, w)),
    decreases s.len(),
{
    if s.len() > 0 {
        lemma_lookup_absent(s.drop_last(), id);
        let t = s.drop_last();
        if s.last().0 == id {
            assert(s[s.len() - 1] == s.last());
        } else if lookup(t, id) is None {
            assert forall|i: int| 0 <= i < s.len() implies (#[trigger] s[i]).0 != id by {
                if i < s.len() - 1 {
                    assert(t[i] == s[i]);
                }
            }
        } else {
            let w = lookup(t, id)->0;
            let i = choose|i: int| 0 <= i < t.len() && t[i] == (id, w);
            assert(s[i] == (id, w));
        }
    }
}

/// A value put under an id is what the id looks up to, and no other id is touched.
pub proof fn lookup_with_entry<W>(s: Seq<(u32, W)>, id: u32, w: W, k: u32)
    ensures
        lookup(with_entry(s, id, w), k) == if k == id {
            Some(w)
        } else {
            lookup(s, k)
        },
{
    if lookup(s, id) is Some {
        lemma_lookup_replaced(s, id, w, k);
    } else {
        assert(s.push((id, w)).drop_last() =~= s);
    }
}

proof fn lemma_lookup_replaced<W>(s: Seq<(u32, W)>, id: u32, w: W, k: u32)
    ensures
        lookup(s.map_values(replacing(id, w)), k) == if k == id
            && lookup(s, id) is Some {
            Some(w)
        } else {
            lookup(s, k)
        },
    decreases s.len(),
{
    let f = replacing(id, w);
    if s.len() > 0 {
        lemma_lookup_replaced(s.drop_last(), id, w, k);
        assert(s.map_values(f).drop_last() =~= s.drop_last().map_values(f));
    }
}

/// What is taken out is gone, and no other id is touched.
pub proof fn lookup_without<W>(s: Seq<(u32, W)>, id: u32, k: u32)
    ensures
        lookup(without(s, id), k) == if k == id {
            None
        } else {
            lookup(s, k)
        },
    decreases s.len(),
{
    reveal(Seq::filter);
    if s.len() > 0 {
        lookup_without(s.drop_last(), id, k);
        let t = without(s.drop_last(), id);
        assert(t.push(s.last()).drop_last() =~= t);
    }
}

/// Putting in and taking out keep ids distinct.
pub proof fn distinct_kept<W>(s: Seq<(u32, W)>, id: u32, w: W)
    requires
        distinct(s),
    ensures
        distinct(with_entry(s, id, w)),
        distinct(without(s, id)),
{
    lemma_lookup_absent(s, id);
    lemma_filter_distinct(s, other_than(id));
}

/// Picking entries keeps ids distinct.
pub proof fn lemma_filter_distinct<W>(s: Seq<(u32, W)>, p: spec_fn((u32, W)) -> bool)
    requires
        distinct(s),
    ensures
        distinct(s.filter(p)),
    decreases s.len(),
{
    reveal(Seq::filter);
    if s.len() > 0 {
        let t = s.drop_last();
        lemma_filter_distinct(t, p);
        if p(s.last()) {
            let f = t.filter(p);
            assert forall|i: int| 0 <= i < f.len() implies (#[trigger] f[i]).0 != s.last().0 by {
                t.lemma_filter_contains_rev(p, f[i]);
                let j = choose|j: int| 0 <= j < t.len() && t[j] == f[i];
                assert(s[j] == f[i]);
            }
        }
    }
}

/// Taking the one entry of an id out by its position leaves what `without` names.
proof fn lemma_remove_at<W>(s: Seq<(u32, W)>, at: int)
    requires
        distinct(s),
        0 <= at < s.len(),
    ensures
        s.remove(at) == without(s, s[at].0),
    decreases s.len(),
{
    reveal(Seq::filter);
    let id = s[at].0;
    let t = s.drop_last();
    if at == s.len() - 1 {
        assert(s.remove(at) =~= t);
        lemma_without_absent(t, id);
    } else {
        lemma_remove_at(t, at);
        assert(t[at] == s[at]);
        assert(s.remove(at) =~= t.remove(at).push(s.last()));
    }
}

/// Taking out an id that is not there changes nothing.
proof fn lemma_without_absent<W>(s: Seq<(u32, W)>, id: u32)
    requires
        forall|i: int| 0 <= i < s.len() ==> (#[trigger] s[i]).0 != id,
    ensures
        without(s, id) == s,
    decreases s.len(),
{
    reveal(Seq::filter);
    if s.len() > 0 {
        let t = s.drop_last();
        assert(forall|i: int| 0 <= i < t.len() ==> t[i] == s[i]);
        lemma_without_absent(t, id);
        assert(s =~= t.push(s.last()));
    }
}

/// A table from object ids to values.
pub struct IdTable<V> {
    entries: Vec<(u32, V)>,
}

impl<V: View> View for IdTable<V> {
    type V = Seq<(u32, V::V)>;

    closed spec fn view(&self) -> Seq<(u32, V::V)> {
        self.entries@.map_values(|e: (u32, V)| (e.0, e.1@))
    }
}

impl<V: View> IdTable<V> {
    /// No id stands in the table twice.
    pub open spec fn wf(&self) -> bool {
        distinct(self@)
    }

    /// An empty table.
    pub fn new() -> (r: Self)
        ensures
            r@ == Seq::<(u32, V::V)>::empty(),
            r.wf(),
    {
        let r = IdTable { entries: Vec::new() };
        assert(r@ =~= Seq::<(u32, V::V)>::empty());
        r
    }

    /// How many entries the table holds.
    pub fn len(&self) -> (n: usize)
        ensures
            n == self@.len(),
    {
        self.entries.len()
    }

    /// The id at a position.
    pub fn id_at(&self, i: usize) -> (id: u32)
        requires
            i < self@.len(),
        ensures
            id == self@[i as int].0,
    {
        self.entries[i].0
    }

    /// The value at a position.
    pub fn value_at(&self, i: usize) -> (v: &V)
        requires
            i < self@.len(),
        ensures
            v@ == self@[i as int].1,
    {
        &self.entries[i].1
    }

    /// The value at a position, to be changed in place.
    pub fn value_mut(&mut self, i: usize) -> (v: &mut V)
        requires
            old(self).wf(),
            i < old(self)@.len(),
        ensures
            (*v)@ == old(self)@[i as int].1,
            final(self)@ == old(self)@.update(i as int, (old(self)@[i as int].0, (*final(v))@)),
            final(self).wf(),
    {
        &mut self.entries[i].1
    }

    /// The position of an id.
    pub fn find(&self, id: u32) -> (r: Option<usize>)
        requires
            self.wf(),
        ensures
            r matches Some(i) ==> i < self@.len() && self@[i as int].0 == id && lookup(self@, id)
                == Some(self@[i as int].1),
            r is None ==> lookup(self@, id) is None && (forall|i: int|
                0 <= i < self@.len() ==> (#[trigger] self@[i]).0 != id),
    {
        let mut i: usize = 0;
        while i < self.entries.len()
            invariant
                i <= self.entries@.len(),
                self.wf(),
                forall|k: int| 0 <= k < i ==> (#[trigger] self@[k]).0 != id,
            decreases self.entries.len() - i,
        {
            if self.entries[i].0 == id {
                proof {
                    assert(self@[i as int].0 == id);
                    lemma_lookup_at(self@, i as int);
                }
                return Some(i);
            }
            i += 1;
        }
        proof {
            lemma_lookup_absent(self@, id);
        }
        None
    }

    /// Whether the id has a value.
    pub fn contains(&self, id: u32) -> (r: bool)
        requires
            self.wf(),
        ensures
            r == (lookup(self@, id) is Some),
    {
        self.find(id).is_some()
    }

    /// The value under the id.
    pub fn get(&self, id: u32) -> (r: Option<&V>)
        requires
            self.wf(),
        ensures
            r is Some <==> lookup(self@, id) is Some,
            r matches Some(v) ==> lookup(self@, id) == Some(v@),
    {
        match self.find(id) {
            Some(i) => Some(&self.entries[i].1),
            None => None,
        }
    }

    /// Puts a value under the id.
    pub fn insert(&mut self, id: u32, v: V)
        requires
            old(self).wf(),
        ensures
            final(self)@ == with_entry(old(self)@, id, v@),
            final(self).wf(),
    {
        proof {
            distinct_kept(self@, id, v@);
        }
        match self.find(id) {
            Some(i) => {
                self.entries.set(i, (id, v));
                proof {
                    let s = old(self)@;
                    assert forall|k: int| 0 <= k < s.len() implies #[trigger] self@[k]
                        == with_entry(s, id, v@)[k] by {
                        if k != i {
                            assert(s[k].0 != s[i as int].0);
                        }
                    }
                    assert(self@ =~= with_entry(s, id, v@));
                }
            },
            None => {
                self.entries.push((id, v));
                assert(self@ =~= with_entry(old(self)@, id, v@));
            },
        }
    }

    /// Takes the value under the id out of the table.
    pub fn remove(&mut self, id: u32) -> (r: Option<V>)
        requires
            old(self).wf(),
        ensures
            final(self)@ == without(old(self)@, id),
            lookup(old(self)@, id) is None ==> final(self)@ == old(self)@,
            final(self).wf(),
            r is Some <==> lookup(old(self)@, id) is Some,
            r matches Some(v) ==> lookup(old(self)@, id) == Some(v@),
    {
        match self.find(id) {
            Some(i) => {
                let e = self.entries.remove(i);
                proof {
                    lemma_remove_at(old(self)@, i as int);
                    assert(self@ =~= old(self)@.remove(i as int));
                    lemma_filter_distinct(old(self)@, other_than(id));
                }
                Some(e.1)
            },
            None => {
                proof {
                    lemma_without_absent(self@, id);
                }
                None
            },
        }
    }

    /// Takes out the entry at a position.
    pub fn remove_at(&mut self, i: usize) -> (r: (u32, V))
        requires
            old(self).wf(),
            i < old(self)@.len(),
        ensures
            final(self)@ == old(self)@.remove(i as int),
            final(self).wf(),
            (r.0, r.1@) == old(self)@[i as int],
    {
        let e = self.entries.remove(i);
        assert(self@ =~= old(self)@.remove(i as int));
        e
    }
}

/// A value that belongs to a node.
pub trait Owned: View {
    /// The node that the value belongs to.
    spec fn owner_of(v: Self::V) -> u32;

    /// The node that the value belongs to.
    fn owner(&self) -> (id: u32)
        ensures
            id == Self::owner_of(self@),
    ;
}

/// Tells the entries that belong to other nodes.
pub open spec fn owned_by_other<V: Owned>(node: u32) -> spec_fn((u32, V::V)) -> bool {
    |e: (u32, V::V)| V::owner_of(e.1) != node
}

impl<V: Owned> IdTable<V> {
    /// Takes out all that belongs to a node.
    pub fn release(&mut self, node: u32)
        requires
            old(self).wf(),
        ensures
            final(self)@ == old(self)@.filter(owned_by_other::<V>(node)),
            final(self).wf(),
    {
        let ghost s = self@;
        let ghost p = owned_by_other::<V>(node);
        let ghost mut k: int = 0;
        let mut i: usize = 0;
        assert(s.take(0).filter(p) =~= self@.take(0)) by {
            reveal(Seq::filter);
        }
        while i < self.len()
            invariant
                0 <= i <= self@.len(),
                0 <= k <= s.len(),
                self@.len() - i == s.len() - k,
                p == owned_by_other::<V>(node),
                self.wf(),
                self@.take(i as int) == s.take(k).filter(p),
                self@.skip(i as int) == s.skip(k),
            decreases self@.len() - i,
        {
            let ghost t = self@;
            proof {
                reveal(Seq::filter);
                assert(t.skip(i as int)[0] == s.skip(k)[0]);
                assert(s.take(k + 1).drop_last() =~= s.take(k));
                assert(s.take(k + 1).last() == t[i as int]);
                assert(s.skip(k + 1) =~= s.skip(k).skip(1));
                assert(t.skip(i as int).skip(1) =~= t.skip(i + 1));
            }
            if self.value_at(i).owner() == node {
                self.remove_at(i);
                assert(self@.take(i as int) =~= t.take(i as int));
                assert(self@.skip(i as int) =~= t.skip(i + 1));
            } else {
                assert(t.take(i + 1) =~= t.take(i as int).push(t[i as int]));
                i += 1;
            }
            proof {
                k = k + 1;
            }
        }
        proof {
            assert(self@.skip(i as int).len() == 0);
            assert(s.take(k) =~= s);
            assert(self@.take(i as int) =~= self@);
        }
    }
}

} // verus!
