//! A batch of writes that the store applies in one step: for each key the
//! value to set, or nothing where the key is to be removed. The keys are kept
//! in ascending order, each once; a later write to a key replaces an earlier
//! one.

use crate::bytes::{key_eq, key_lt, lex_lt, opt_copy, opt_view};
use crate::entries::{lemma_lower_bound_is, lemma_put_lookup, lemma_put_sorted, lookup, put, sorted};
use vstd::prelude::*;

verus! {

/// The writes of a batch, in ascending order of keys.
#[derive(Debug, Clone)]
pub struct Batch {
    writes: Vec<(Vec<u8>, Option<Vec<u8>>)>,
}

/// The writes of a vector as plain values.
pub open spec fn writes_view(v: Seq<(Vec<u8>, Option<Vec<u8>>)>) -> Seq<
    (Seq<u8>, Option<Seq<u8>>),
> {
    Seq::new(v.len(), |i: int| (v[i].0@, opt_view(v[i].1)))
}

impl View for Batch {
    type V = Seq<(Seq<u8>, Option<Seq<u8>>)>;

    closed spec fn view(&self) -> Seq<(Seq<u8>, Option<Seq<u8>>)> {
        writes_view(self.writes@)
    }
}

impl Batch {
    /// The keys ascend, each once.
    pub open spec fn wf(&self) -> bool {
        sorted(self@)
    }

    /// A batch without writes.
    pub fn new() -> (b: Batch)
        ensures
            b@.len() == 0,
            b.wf(),
    {
        Batch { writes: Vec::new() }
    }

    /// The number of writes.
    pub fn len(&self) -> (n: usize)
        ensures
            n == self@.len(),
    {
        self.writes.len()
    }

    /// The key of write `i`.
    pub fn key(&self, i: usize) -> (k: &Vec<u8>)
        requires
            i < self@.len(),
        ensures
            k@ == self@[i as int].0,
    {
        &self.writes[i].0
    }

    /// The value of write `i`; nothing where it is a removal.
    pub fn value(&self, i: usize) -> (v: &Option<Vec<u8>>)
        requires
            i < self@.len(),
        ensures
            opt_view(*v) == self@[i as int].1,
    {
        &self.writes[i].1
    }

    /// The position that `key` takes, or would take, among the writes.
    fn position(&self, key: &[u8]) -> (i: usize)
        requires
            self.wf(),
        ensures
            i == crate::entries::lower_bound(self@, key@),
            i <= self@.len(),
    {
        let mut i: usize = 0;
        while i < self.writes.len() && key_lt(self.writes[i].0.as_slice(), key)
            invariant
                0 <= i <= self.writes@.len(),
                forall|j: int| 0 <= j < i ==> lex_lt(#[trigger] self@[j].0, key@),
            decreases self.writes@.len() - i,
        {
            i += 1;
        }
        proof {
            lemma_lower_bound_is(self@, key@, i as int);
        }
        i
    }

    fn write(&mut self, key: Vec<u8>, value: Option<Vec<u8>>)
        requires
            old(self).wf(),
        ensures
            final(self).wf(),
            final(self)@ == put(old(self)@, key@, opt_view(value)),
    {
        let i = self.position(key.as_slice());
        proof {
            lemma_put_sorted(old(self)@, key@, opt_view(value));
        }
        if i < self.writes.len() && key_eq(self.writes[i].0.as_slice(), key.as_slice()) {
            self.writes.remove(i);
            self.writes.insert(i, (key, value));
            proof {
                assert(self@ =~= old(self)@.update(i as int, (key@, opt_view(value))));
            }
        } else {
            self.writes.insert(i, (key, value));
            proof {
                assert(self@ =~= old(self)@.insert(i as int, (key@, opt_view(value))));
            }
        }
    }

    /// Sets `key` to `value` when the batch is applied.
    pub fn insert(&mut self, key: Vec<u8>, value: Vec<u8>)
        requires
            old(self).wf(),
        ensures
            final(self).wf(),
            final(self)@ == put(old(self)@, key@, Some(value@)),
            forall|q: Seq<u8>|
                lookup(final(self)@, q) == (if q == key@ {
                    Some(Some(value@))
                } else {
                    lookup(old(self)@, q)
                }),
    {
        proof {
            assert forall|q: Seq<u8>|
                lookup(put(self@, key@, Some(value@)), q) == (if q == key@ {
                    Some(Some(value@))
                } else {
                    lookup(self@, q)
                }) by {
                lemma_put_lookup(self@, key@, Some(value@), q);
            }
        }
        self.write(key, Some(value));
    }

    /// Removes `key` when the batch is applied.
    pub fn remove(&mut self, key: Vec<u8>)
        requires
            old(self).wf(),
        ensures
            final(self).wf(),
            final(self)@ == put(old(self)@, key@, None::<Seq<u8>>),
            forall|q: Seq<u8>|
                lookup(final(self)@, q) == (if q == key@ {
                    Some(None::<Seq<u8>>)
                } else {
                    lookup(old(self)@, q)
                }),
    {
        proof {
            assert forall|q: Seq<u8>|
                lookup(put(self@, key@, None::<Seq<u8>>), q) == (if q == key@ {
                    Some(None::<Seq<u8>>)
                } else {
                    lookup(self@, q)
                }) by {
                lemma_put_lookup(self@, key@, None::<Seq<u8>>, q);
            }
        }
        self.write(key, None);
    }

    /// What the batch does to `key`: nothing, a removal, or a value to set.
    pub fn get(&self, key: &[u8]) -> (r: Option<Option<Vec<u8>>>)
        requires
            self.wf(),
        ensures
            (match r {
                Some(w) => lookup(self@, key@) == Some(opt_view(w)),
                None => lookup(self@, key@).is_none(),
            }),
    {
        let i = self.position(key);
        if i < self.writes.len() && key_eq(self.writes[i].0.as_slice(), key) {
            Some(opt_copy(&self.writes[i].1))
        } else {
            None
        }
    }
}

impl Default for Batch {
    fn default() -> (b: Batch)
        ensures
            b@.len() == 0,
            b.wf(),
    {
        Batch::new()
    }
}

} // verus!
