//! The column index: a transient mapping from character column to the handle
//! of the node most recently registered at that column. It exists only while
//! one parse runs and is discarded afterwards.

use vstd::prelude::*;

verus! {

/// Association list from column to node handle with pairwise-distinct keys;
/// its mathematical form is a `Map<int, int>`.
pub struct ColumnIndex {
    keys: Vec<usize>,
    vals: Vec<usize>,
}

impl View for ColumnIndex {
    type V = Map<int, int>;

    closed spec fn view(&self) -> Map<int, int> {
        Map::new(
            |k: int| exists|j: int| 0 <= j < self.keys@.len() && self.keys@[j] == k,
            |k: int|
                self.vals@[choose|j: int| 0 <= j < self.keys@.len() && self.keys@[j] == k] as int,
        )
    }
}

impl ColumnIndex {
    /// Internal soundness: one value per key, keys pairwise distinct.
    pub closed spec fn wf(&self) -> bool {
        &&& self.keys@.len() == self.vals@.len()
        &&& forall|i: int, j: int|
            0 <= i < j < self.keys@.len() ==> self.keys@[i] != self.keys@[j]
    }

    /// An empty index.
    pub fn new() -> (r: ColumnIndex)
        ensures
            r.wf(),
            r@ == Map::<int, int>::empty(),
    {
        let r = ColumnIndex { keys: Vec::new(), vals: Vec::new() };
        proof {
            assert(r@ =~= Map::<int, int>::empty());
        }
        r
    }

    /// The handle registered at `column`, if any.
    pub fn get(&self, column: usize) -> (r: Option<usize>)
        requires
            self.wf(),
        ensures
            match r {
                Some(v) => self@.contains_key(column as int) && self@[column as int] == v as int,
                None => !self@.contains_key(column as int),
            },
    {
        let n = self.keys.len();
        let mut i: usize = 0;
        while i < n
            invariant
                n == self.keys@.len(),
                self.wf(),
                i <= n,
                forall|j: int| 0 <= j < i ==> self.keys@[j] != column,
            decreases n - i,
        {
            if self.keys[i] == column {
                proof {
                    let w = choose|j: int|
                        0 <= j < self.keys@.len() && self.keys@[j] == column as int;
                    assert(self.keys@[i as int] == column as int);
                    assert(w == i as int);
                }
                return Some(self.vals[i]);
            }
            i += 1;
        }
        proof {
            assert(forall|j: int| 0 <= j < self.keys@.len() ==> self.keys@[j] != column as int);
        }
        None
    }

    /// Registers `handle` at `column`, superseding whatever was there.
    pub fn set(&mut self, column: usize, handle: usize)
        requires
            old(self).wf(),
        ensures
            final(self).wf(),
            final(self)@ == old(self)@.insert(column as int, handle as int),
    {
        let n = self.keys.len();
        let mut i: usize = 0;
        while i < n
            invariant
                n == self.keys@.len(),
                self.wf(),
                *self == *old(self),
                i <= n,
                forall|j: int| 0 <= j < i ==> self.keys@[j] != column,
            decreases n - i,
        {
            if self.keys[i] == column {
                self.vals.set(i, handle);
                proof {
                    assert(self.wf());
                    assert forall|k: int| #[trigger] self@.contains_key(k) implies old(
                        self,
                    )@.insert(column as int, handle as int).contains_key(k) by {}
                    assert forall|k: int|
                        old(self)@.insert(column as int, handle as int).contains_key(
                            k,
                        ) implies #[trigger] self@.contains_key(k) && self@[k] == old(self)@.insert(
                        column as int,
                        handle as int,
                    )[k] by {
                        let w = choose|j: int|
                            0 <= j < self.keys@.len() && self.keys@[j] == k;
                        if k == column as int {
                            assert(self.keys@[i as int] == column as int);
                            assert(w == i as int);
                        } else {
                            assert(old(self).keys@[w] == k);
                        }
                    }
                    assert(self@ =~= old(self)@.insert(column as int, handle as int));
                }
                return ;
            }
            i += 1;
        }
        self.keys.push(column);
        self.vals.push(handle);
        proof {
            let m = old(self)@.insert(column as int, handle as int);
            let len = self.keys@.len();
            assert(self.keys@[len - 1] == column as int);
            assert forall|k: int| #[trigger] self@.contains_key(k) implies m.contains_key(k)
                && self@[k] == m[k] by {
                let w = choose|j: int| 0 <= j < self.keys@.len() && self.keys@[j] == k;
                if w == len - 1 {
                    assert(k == column as int);
                } else {
                    assert(old(self).keys@[w] == k);
                    if k != column as int {
                        let w0 = choose|j: int|
                            0 <= j < old(self).keys@.len() && old(self).keys@[j] == k;
                        assert(old(self).keys@[w0] == k);
                        assert(w0 == w);
                    }
                }
            }
            assert forall|k: int| m.contains_key(k) implies #[trigger] self@.contains_key(k) by {
                if k == column as int {
                    assert(self.keys@[len - 1] == k);
                } else {
                    let w0 = choose|j: int|
                        0 <= j < old(self).keys@.len() && old(self).keys@[j] == k;
                    assert(self.keys@[w0] == k);
                }
            }
            assert(self@ =~= m);
        }
    }
}

} // verus!
