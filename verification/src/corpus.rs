//! Corpus — a collection of grains found again by id or by source.
//!
//! Each grain arriving in the corpus is given a fresh id, one more than the
//! last; ids are never reused, so a grain's id names it for as long as it
//! stays. What a grain carries besides its id and source (its time span and
//! features) is up to the caller.

use vstd::prelude::*;
use crate::harmony::text_eq;

verus! {

/// A grain: a stretch of source material with what describes it.
#[derive(Debug, Clone)]
pub struct Grain<T> {
    pub id: usize,
    pub source: String,
    pub data: T,
}

/// A collection of grains, each given a fresh id when it arrives.
#[derive(Debug, Clone)]
pub struct Corpus<T> {
    grains: Vec<Grain<T>>,
    next_id: usize,
}

/// The grains of `gs` whose id is not `id`, in order.
pub open spec fn without_id<T>(gs: Seq<Grain<T>>, id: usize) -> Seq<Grain<T>>
    decreases gs.len(),
{
    if gs.len() == 0 {
        Seq::empty()
    } else {
        let rest = without_id(gs.drop_last(), id);
        if gs.last().id != id { rest.push(gs.last()) } else { rest }
    }
}

/// The grains of `gs` not taken from `source`, in order.
pub open spec fn without_source<T>(gs: Seq<Grain<T>>, source: Seq<char>) -> Seq<Grain<T>>
    decreases gs.len(),
{
    if gs.len() == 0 {
        Seq::empty()
    } else {
        let rest = without_source(gs.drop_last(), source);
        if gs.last().source@ != source { rest.push(gs.last()) } else { rest }
    }
}

/// Ids increase along `gs` and stay below `next`.
pub open spec fn ids_ordered<T>(gs: Seq<Grain<T>>, next: nat) -> bool {
    &&& forall|i: int, j: int| 0 <= i < j < gs.len() ==> (#[trigger] gs[i]).id < (#[trigger] gs[j]).id
    &&& forall|i: int| 0 <= i < gs.len() ==> (#[trigger] gs[i]).id < next
}

impl<T> Corpus<T> {
    /// The grains, in the order they arrived.
    pub closed spec fn grain_seq(self) -> Seq<Grain<T>> {
        self.grains@
    }

    /// The id the next grain will get.
    pub closed spec fn next_id_spec(self) -> nat {
        self.next_id as nat
    }

    /// Ids increase in arrival order and are all below the next id: no two
    /// grains share an id.
    pub open spec fn wf(self) -> bool {
        ids_ordered(self.grain_seq(), self.next_id_spec())
    }

    /// Create an empty corpus.
    pub fn new() -> (c: Self)
        ensures
            c.wf(),
            c.grain_seq() == Seq::<Grain<T>>::empty(),
            c.next_id_spec() == 0,
    {
        Corpus { grains: Vec::new(), next_id: 0 }
    }

    /// Number of grains in the corpus.
    pub fn len(&self) -> (r: usize)
        ensures
            r == self.grain_seq().len(),
    {
        self.grains.len()
    }

    /// Whether the corpus is empty.
    pub fn is_empty(&self) -> (r: bool)
        ensures
            r == (self.grain_seq().len() == 0),
    {
        self.grains.len() == 0
    }

    /// The id the next grain will get.
    pub fn next_id(&self) -> (r: usize)
        ensures
            r == self.next_id_spec(),
    {
        self.next_id
    }

    /// Ingest a new grain into the corpus. Returns the assigned grain ID,
    /// which no other grain has.
    pub fn ingest(&mut self, source: &str, data: T) -> (id: usize)
        requires
            old(self).wf(),
            old(self).next_id_spec() < usize::MAX,
        ensures
            final(self).wf(),
            id == old(self).next_id_spec(),
            final(self).next_id_spec() == old(self).next_id_spec() + 1,
            final(self).grain_seq().len() == old(self).grain_seq().len() + 1,
            final(self).grain_seq().drop_last() == old(self).grain_seq(),
            final(self).grain_seq().last().id == id,
            final(self).grain_seq().last().source@ == source@,
            final(self).grain_seq().last().data == data,
            forall|j: int| 0 <= j < final(self).grain_seq().len() ==>
                ((#[trigger] final(self).grain_seq()[j]).id == id <==> j == final(self).grain_seq().len() - 1),
    {
        let id = self.next_id;
        self.next_id = self.next_id + 1;
        self.grains.push(Grain { id, source: String::from_str(source), data });
        proof {
            assert(self.grains@.drop_last() =~= old(self).grains@);
            assert forall|j: int| 0 <= j < self.grains@.len() - 1 implies #[trigger] self.grains@[j] == old(self).grains@[j] by {
            }
        }
        id
    }

    /// Get a grain by ID: the one grain with that id, if any.
    pub fn get(&self, id: usize) -> (r: Option<&Grain<T>>)
        requires
            self.wf(),
        ensures
            match r {
                Some(g) => g.id == id && exists|j: int| 0 <= j < self.grain_seq().len() && self.grain_seq()[j] == *g,
                None => forall|j: int| 0 <= j < self.grain_seq().len() ==> (#[trigger] self.grain_seq()[j]).id != id,
            },
    {
        let mut k: usize = 0;
        while k < self.grains.len()
            invariant
                0 <= k <= self.grains.len(),
                forall|j: int| 0 <= j < k ==> (#[trigger] self.grains@[j]).id != id,
            decreases self.grains.len() - k,
        {
            if self.grains[k].id == id {
                assert(self.grain_seq()[k as int] == self.grains@[k as int]);
                return Some(&self.grains[k]);
            }
            k += 1;
        }
        None
    }

    /// All grains, in arrival order.
    pub fn grains(&self) -> (r: &[Grain<T>])
        ensures
            r@ == self.grain_seq(),
    {
        self.grains.as_slice()
    }

    /// Remove a grain by ID. Returns true if found and removed.
    pub fn remove(&mut self, id: usize) -> (found: bool)
        requires
            old(self).wf(),
        ensures
            final(self).wf(),
            final(self).grain_seq() == without_id(old(self).grain_seq(), id),
            final(self).next_id_spec() == old(self).next_id_spec(),
            found == exists|j: int| 0 <= j < old(self).grain_seq().len() && (#[trigger] old(self).grain_seq()[j]).id == id,
            forall|j: int| 0 <= j < final(self).grain_seq().len() ==> (#[trigger] final(self).grain_seq()[j]).id != id,
    {
        let mut rest: Vec<Grain<T>> = Vec::new();
        std::mem::swap(&mut rest, &mut self.grains);
        let ghost orig = rest@;
        let ghost next = self.next_id as nat;
        let mut found = false;
        while rest.len() > 0
            invariant
                ids_ordered(orig, next),
                next == self.next_id,
                0 <= rest.len() <= orig.len(),
                rest@ == orig.skip(orig.len() - rest.len()),
                self.grains@ == without_id(orig.take(orig.len() - rest.len()), id),
                ids_ordered(self.grains@, next),
                forall|i: int, m: int| 0 <= i < self.grains@.len() && orig.len() - rest.len() <= m < orig.len()
                    ==> (#[trigger] self.grains@[i]).id < (#[trigger] orig[m]).id,
                forall|i: int| 0 <= i < self.grains@.len() ==> (#[trigger] self.grains@[i]).id != id,
                found == exists|j: int| 0 <= j < orig.len() - rest.len() && (#[trigger] orig[j]).id == id,
            decreases rest.len(),
        {
            let ghost k = orig.len() - rest.len();
            let ghost before = self.grains@;
            let g = rest.remove(0);
            assert(g == orig[k]);
            proof {
                assert(rest@ =~= orig.skip(k + 1));
                assert(orig.take(k + 1).drop_last() =~= orig.take(k));
                assert(orig.take(k + 1).last() == orig[k]);
            }
            if g.id != id {
                self.grains.push(g);
                proof {
                    assert forall|i: int, j: int| 0 <= i < j < self.grains@.len() implies
                        (#[trigger] self.grains@[i]).id < (#[trigger] self.grains@[j]).id by {
                        if j == before.len() {
                            assert(before[i].id < orig[k].id);
                        } else {
                            assert(self.grains@[i] == before[i] && self.grains@[j] == before[j]);
                        }
                    }
                    assert forall|i: int| 0 <= i < self.grains@.len() implies (#[trigger] self.grains@[i]).id < next by {
                        if i < before.len() {
                            assert(self.grains@[i] == before[i]);
                        }
                    }
                    assert forall|i: int, m: int| 0 <= i < self.grains@.len() && k + 1 <= m < orig.len()
                        implies (#[trigger] self.grains@[i]).id < (#[trigger] orig[m]).id by {
                        if i < before.len() {
                            assert(self.grains@[i] == before[i]);
                        } else {
                            assert(orig[k].id < orig[m].id);
                        }
                    }
                    assert forall|i: int| 0 <= i < self.grains@.len() implies (#[trigger] self.grains@[i]).id != id by {
                        if i < before.len() {
                            assert(self.grains@[i] == before[i]);
                        }
                    }
                }
            } else {
                found = true;
            }
            proof {
                if g.id == id {
                    assert(orig[k].id == id);
                }
            }
        }
        proof {
            assert(orig.take(orig.len() as int) =~= orig);
        }
        found
    }

    /// Remove all grains from a given source.
    pub fn remove_source(&mut self, source: &str)
        requires
            old(self).wf(),
        ensures
            final(self).wf(),
            final(self).grain_seq() == without_source(old(self).grain_seq(), source@),
            final(self).next_id_spec() == old(self).next_id_spec(),
    {
        let mut rest: Vec<Grain<T>> = Vec::new();
        std::mem::swap(&mut rest, &mut self.grains);
        let ghost orig = rest@;
        let ghost next = self.next_id as nat;
        while rest.len() > 0
            invariant
                ids_ordered(orig, next),
                next == self.next_id,
                0 <= rest.len() <= orig.len(),
                rest@ == orig.skip(orig.len() - rest.len()),
                self.grains@ == without_source(orig.take(orig.len() - rest.len()), source@),
                ids_ordered(self.grains@, next),
                forall|i: int, m: int| 0 <= i < self.grains@.len() && orig.len() - rest.len() <= m < orig.len()
                    ==> (#[trigger] self.grains@[i]).id < (#[trigger] orig[m]).id,
            decreases rest.len(),
        {
            let ghost k = orig.len() - rest.len();
            let ghost before = self.grains@;
            let g = rest.remove(0);
            assert(g == orig[k]);
            proof {
                assert(rest@ =~= orig.skip(k + 1));
                assert(orig.take(k + 1).drop_last() =~= orig.take(k));
                assert(orig.take(k + 1).last() == orig[k]);
            }
            if !text_eq(g.source.as_str(), source) {
                self.grains.push(g);
                proof {
                    assert forall|i: int, j: int| 0 <= i < j < self.grains@.len() implies
                        (#[trigger] self.grains@[i]).id < (#[trigger] self.grains@[j]).id by {
                        if j == before.len() {
                            assert(before[i].id < orig[k].id);
                        } else {
                            assert(self.grains@[i] == before[i] && self.grains@[j] == before[j]);
                        }
                    }
                    assert forall|i: int| 0 <= i < self.grains@.len() implies (#[trigger] self.grains@[i]).id < next by {
                        if i < before.len() {
                            assert(self.grains@[i] == before[i]);
                        }
                    }
                    assert forall|i: int, m: int| 0 <= i < self.grains@.len() && k + 1 <= m < orig.len()
                        implies (#[trigger] self.grains@[i]).id < (#[trigger] orig[m]).id by {
                        if i < before.len() {
                            assert(self.grains@[i] == before[i]);
                        } else {
                            assert(orig[k].id < orig[m].id);
                        }
                    }
                }
            }
        }
        proof {
            assert(orig.take(orig.len() as int) =~= orig);
        }
    }

    /// Clear the entire corpus. Ids already given are not given again.
    pub fn clear(&mut self)
        requires
            old(self).wf(),
        ensures
            final(self).wf(),
            final(self).grain_seq() == Seq::<Grain<T>>::empty(),
            final(self).next_id_spec() == old(self).next_id_spec(),
    {
        self.grains.clear();
    }
}

} // verus!
