//! The generic linked-cell engine: maps integer cell keys to chains of item
//! identifiers, stored as one flat array of predecessor links plus a
//! key-to-chain-head map.

use std::collections::HashMap;
use vstd::prelude::*;

verus! {

broadcast use vstd::std_specs::hash::group_hash_axioms;

/// Error returned when an inserted identifier is so large that the backing
/// storage it would need cannot be addressed.
#[derive(Debug, Clone, Copy, PartialEq, Eq, Structural)]
pub struct CapacityError;

/// A bucket index over non-negative integer identifiers.
///
/// Identifiers pushed to the same cell key form a chain encoded inside one
/// growable array: the slot at position `id + 1` holds the chain position of
/// the identifier pushed to that cell just before `id`, and position `0` is
/// the reserved "end of chain" sentinel. A separate map takes each cell key
/// to the chain position of its most recently pushed identifier.
///
/// The structure is an index, not a container: it stores only identifiers,
/// and each identifier may be recorded at most once over all cells, since
/// its chain slot is its own (shifted) value.
pub struct CellList {
    head: HashMap<usize, usize>,
    list: Vec<usize>,
    keys: Vec<usize>,
    cells: Ghost<Map<usize, Seq<usize>>>,
}

/// One chain is well encoded in the link array `l`: `ids` lists the chain's
/// identifiers in push order, `head` is the slot of the most recent one, and
/// each slot holds the slot of its predecessor, with `0` closing the chain.
pub open spec fn chain_ok(l: Seq<usize>, ids: Seq<usize>, head: usize) -> bool {
    &&& ids.len() > 0
    &&& head == ids.last() + 1
    &&& forall|i: int| 0 <= i < ids.len() ==> #[trigger] ids[i] + 2 <= l.len()
    &&& l[ids[0] + 1] == 0
    &&& forall|i: int| 1 <= i < ids.len() ==> l[#[trigger] ids[i] + 1] == ids[i - 1] + 1
}

impl View for CellList {
    type V = Map<usize, Seq<usize>>;

    /// The abstract value of the index: each cell key that has been pushed to,
    /// taken to the sequence of identifiers pushed to it, in push order.
    closed spec fn view(&self) -> Map<usize, Seq<usize>> {
        self.cells@
    }
}

impl CellList {
    /// The identifiers recorded under `cell`, in push order; empty if the
    /// cell was never pushed to.
    pub open spec fn cell_ids(self, cell: usize) -> Seq<usize> {
        if self@.dom().contains(cell) {
            self@[cell]
        } else {
            Seq::empty()
        }
    }

    /// Whether `id` is recorded under any cell.
    pub open spec fn contains_id(self, id: usize) -> bool {
        exists|c: usize| #[trigger] self@.dom().contains(c) && self@[c].contains(id)
    }

    /// What iterating a cell yields: absent for a cell never pushed to, and
    /// otherwise the cell's identifiers in reverse push order.
    pub open spec fn cell_iteration(self, cell: usize) -> Option<Seq<usize>> {
        if self@.dom().contains(cell) {
            Some(self@[cell].reverse())
        } else {
            None
        }
    }

    /// The internal invariant: the concrete head map, link array and key
    /// list all encode exactly the abstract cell map.
    pub closed spec fn wf(self) -> bool {
        let m = self.cells@;
        &&& self.head@.dom() =~= m.dom()
        &&& forall|c: usize| #[trigger] m.dom().contains(c)
            ==> chain_ok(self.list@, m[c], self.head@[c])
        &&& forall|c1: usize, c2: usize, i: int, j: int|
                m.dom().contains(c1) && m.dom().contains(c2)
                && 0 <= i < m[c1].len() && 0 <= j < m[c2].len()
                && (c1 != c2 || i != j)
                ==> #[trigger] m[c1][i] != #[trigger] m[c2][j]
        &&& self.keys@.no_duplicates()
        &&& forall|c: usize| #[trigger] self.keys@.contains(c) <==> m.dom().contains(c)
    }

    /// Create an empty cell list: no cells, zero-length storage.
    pub fn new() -> (r: Self)
        ensures
            r.wf(),
            r@ == Map::<usize, Seq<usize>>::empty(),
    {
        let r = Self {
            head: HashMap::new(),
            list: Vec::new(),
            keys: Vec::new(),
            cells: Ghost(Map::empty()),
        };
        proof {
            assert(r.head@.dom() =~= r.cells@.dom());
        }
        r
    }

    /// Record that the identifier `value` belongs to the cell `cell`.
    ///
    /// The backing link array grows on demand to at least `value + 2` slots;
    /// when that length does not fit the platform's integer range the push
    /// fails with [`CapacityError`] and the index is left unchanged. The
    /// identifier must be fresh: its chain slot is its own shifted value, so
    /// recording it twice would overwrite a live link.
    pub fn push(&mut self, cell: usize, value: usize) -> (r: Result<(), CapacityError>)
        requires
            old(self).wf(),
            !old(self).contains_id(value),
        ensures
            final(self).wf(),
            value <= usize::MAX - 2 ==> r is Ok,
            r is Ok ==> final(self)@ == old(self)@.insert(
                cell,
                old(self).cell_ids(cell).push(value),
            ),
            r is Ok ==> forall|id: usize|
                final(self).contains_id(id) <==> old(self).contains_id(id) || id == value,
            r is Err ==> value > usize::MAX - 2 && *final(self) == *old(self),
    {
        if value > usize::MAX - 2 {
            return Err(CapacityError);
        }
        let slot = value + 1;
        let needed = slot + 1;
        while self.list.len() < needed
            invariant
                old(self).list@.len() <= self.list@.len(),
                forall|i: int| 0 <= i < old(self).list@.len()
                    ==> self.list@[i] == old(self).list@[i],
                forall|i: int| old(self).list@.len() <= i < self.list@.len()
                    ==> self.list@[i] == 0,
                self.head == old(self).head,
                self.keys == old(self).keys,
                self.cells == old(self).cells,
            decreases needed - self.list@.len(),
        {
            self.list.push(0);
        }
        let prev: usize = match self.head.get(&cell) {
            Some(p) => *p,
            None => 0,
        };
        let ghost m0 = self.cells@;
        let ghost l1 = self.list@;
        let ghost old_ids = old(self).cell_ids(cell);
        let is_new_cell = !self.head.contains_key(&cell);
        if is_new_cell {
            self.keys.push(cell);
        }
        self.list.set(slot, prev);
        self.head.insert(cell, slot);
        proof {
            self.cells@ = m0.insert(cell, old_ids.push(value));
        }
        proof {
            let m1 = self.cells@;
            let l2 = self.list@;
            assert(self.head@.dom() =~= m1.dom());
            assert forall|c: usize| #[trigger] m1.dom().contains(c)
                implies chain_ok(l2, m1[c], self.head@[c]) by {
                if c == cell {
                    let ids = m1[c];
                    assert(ids == old_ids.push(value));
                    assert(ids.last() == value);
                    assert(self.head@[c] == slot);
                    assert forall|i: int| 0 <= i < ids.len()
                        implies #[trigger] ids[i] + 2 <= l2.len() by {
                        if i < old_ids.len() {
                            assert(chain_ok(old(self).list@, m0[c], old(self).head@[c]));
                            assert(old_ids[i] + 2 <= old(self).list@.len());
                        }
                    }
                    if old_ids.len() == 0 {
                        assert(!m0.dom().contains(cell));
                        assert(prev == 0);
                        assert(l2[ids[0] + 1] == 0);
                    } else {
                        assert(m0.dom().contains(cell));
                        assert(chain_ok(old(self).list@, m0[cell], old(self).head@[cell]));
                        // The old chain's slots are untouched: none of its
                        // identifiers equals the fresh `value`.
                        assert forall|i: int| 0 <= i < old_ids.len()
                            implies old_ids[i] != value by {
                            if old_ids[i] == value {
                                assert(m0[cell].contains(value));
                                assert(old(self).contains_id(value));
                            }
                        }
                        assert(l2[ids[0] + 1] == l1[old_ids[0] + 1]);
                        assert(l1[old_ids[0] + 1] == old(self).list@[old_ids[0] + 1]);
                        assert(l2[ids[0] + 1] == 0);
                        assert(prev == old(self).head@[cell]);
                        assert forall|i: int| 1 <= i < ids.len()
                            implies l2[#[trigger] ids[i] + 1] == ids[i - 1] + 1 by {
                            if i < old_ids.len() {
                                assert(ids[i] == old_ids[i] && ids[i - 1] == old_ids[i - 1]);
                                assert(old_ids[i] != value);
                                assert(l2[old_ids[i] + 1]
                                    == old(self).list@[old_ids[i] + 1]);
                            } else {
                                assert(i == ids.len() - 1);
                                assert(ids[i] == value);
                                assert(l2[value + 1] == prev);
                                assert(ids[i - 1] == old_ids.last());
                            }
                        }
                    }
                } else {
                    assert(m0.dom().contains(c));
                    assert(m1[c] == m0[c]);
                    let ids = m0[c];
                    assert(chain_ok(old(self).list@, ids, old(self).head@[c]));
                    assert forall|i: int| 0 <= i < ids.len()
                        implies ids[i] != value by {
                        if ids[i] == value {
                            assert(m0[c].contains(value));
                            assert(old(self).contains_id(value));
                        }
                    }
                    assert(self.head@[c] == old(self).head@[c]);
                    assert(ids[0] != value);
                    assert(l2[ids[0] + 1] == old(self).list@[ids[0] + 1]);
                    assert forall|i: int| 1 <= i < ids.len()
                        implies l2[#[trigger] ids[i] + 1] == ids[i - 1] + 1 by {
                        assert(ids[i] != value);
                        assert(l2[ids[i] + 1] == old(self).list@[ids[i] + 1]);
                    }
                }
            }
            assert forall|c1: usize, c2: usize, i: int, j: int|
                    m1.dom().contains(c1) && m1.dom().contains(c2)
                    && 0 <= i < m1[c1].len() && 0 <= j < m1[c2].len()
                    && (c1 != c2 || i != j)
                    implies #[trigger] m1[c1][i] != #[trigger] m1[c2][j] by {
                if m1[c1][i] == value && !(c1 == cell && i == old_ids.len()) {
                    assert(m0.dom().contains(c1) && m0[c1][i] == value);
                    assert(m0[c1].contains(value));
                    assert(old(self).contains_id(value));
                }
                if m1[c2][j] == value && !(c2 == cell && j == old_ids.len()) {
                    assert(m0.dom().contains(c2) && m0[c2][j] == value);
                    assert(m0[c2].contains(value));
                    assert(old(self).contains_id(value));
                }
            }
            assert forall|c: usize| #[trigger] self.keys@.contains(c)
                    <==> m1.dom().contains(c) by {
                if is_new_cell {
                    assert(self.keys@ == old(self).keys@.push(cell));
                    if self.keys@.contains(c) {
                        let i = choose|i: int|
                            0 <= i < self.keys@.len() && self.keys@[i] == c;
                        if i < old(self).keys@.len() {
                            assert(old(self).keys@.contains(c));
                        }
                    }
                    if m1.dom().contains(c) && c != cell {
                        assert(old(self).keys@.contains(c));
                        let i = choose|i: int|
                            0 <= i < old(self).keys@.len() && old(self).keys@[i] == c;
                        assert(self.keys@[i] == c);
                    }
                    if c == cell {
                        assert(self.keys@.last() == cell);
                    }
                } else {
                    assert(self.keys@ == old(self).keys@);
                    if m1.dom().contains(c) {
                        assert(m0.dom().contains(c));
                    }
                }
            }
            if is_new_cell {
                assert(!old(self).keys@.contains(cell));
                assert(self.keys@.no_duplicates()) by {
                    assert forall|i: int, j: int|
                            0 <= i < self.keys@.len() && 0 <= j < self.keys@.len() && i != j
                            implies self.keys@[i] != self.keys@[j] by {
                        if i < old(self).keys@.len() && j < old(self).keys@.len() {
                            assert(old(self).keys@[i] != old(self).keys@[j]);
                        } else if i < old(self).keys@.len() {
                            assert(self.keys@[j] == cell);
                            if self.keys@[i] == cell {
                                assert(old(self).keys@.contains(cell));
                            }
                        } else if j < old(self).keys@.len() {
                            assert(self.keys@[i] == cell);
                            if self.keys@[j] == cell {
                                assert(old(self).keys@.contains(cell));
                            }
                        }
                    }
                }
            }
            assert forall|id: usize|
                    self.contains_id(id)
                    <==> old(self).contains_id(id) || id == value by {
                if self.contains_id(id) {
                    let c = choose|c: usize| #[trigger] self@.dom().contains(c)
                        && self@[c].contains(id);
                    if c == cell {
                        let i = choose|i: int| 0 <= i < self@[c].len()
                            && self@[c][i] == id;
                        if i < old_ids.len() {
                            assert(old(self)@.dom().contains(cell));
                            assert(old(self)@[cell][i] == id);
                            assert(old(self)@[cell].contains(id));
                            assert(old(self).contains_id(id));
                        } else {
                            assert(id == value);
                        }
                    } else {
                        assert(old(self)@.dom().contains(c));
                        assert(old(self)@[c].contains(id));
                        assert(old(self).contains_id(id));
                    }
                }
                if old(self).contains_id(id) {
                    let c = choose|c: usize| #[trigger] old(self)@.dom().contains(c)
                        && old(self)@[c].contains(id);
                    if c == cell {
                        let i = choose|i: int| 0 <= i < old(self)@[c].len()
                            && old(self)@[c][i] == id;
                        assert(old_ids == old(self)@[cell]);
                        assert(self@[cell][i] == id);
                        assert(self@[cell].contains(id));
                        assert(self@.dom().contains(cell));
                        assert(self.contains_id(id));
                    } else {
                        assert(self@.dom().contains(c));
                        assert(self@[c].contains(id));
                        assert(self.contains_id(id));
                    }
                }
                if id == value {
                    assert(self@[cell].last() == value);
                    assert(self@[cell].contains(value));
                    assert(self@.dom().contains(cell));
                    assert(self.contains_id(value));
                }
            }
        }
        Ok(())
    }

    /// Return a cursor over the identifiers stored in the cell with
    /// `cell_index`, most recently pushed first, or `None` if that cell was
    /// never pushed to.
    pub fn iter_cell_items<'a>(&'a self, cell_index: usize) -> (r: Option<CellItemsIter<'a>>)
        requires
            self.wf(),
        ensures
            match r {
                None => self.cell_iteration(cell_index) is None,
                Some(it) => {
                    &&& self.cell_iteration(cell_index) == Some(it.remaining())
                    &&& it.wf()
                    &&& it.clist() == self
                    &&& it.remaining() == self@[cell_index].reverse()
                },
            },
            r is Some <==> self@.dom().contains(cell_index),
    {
        match self.head.get(&cell_index) {
            Some(p) => {
                let pos = *p;
                let it = CellItemsIter {
                    clist: self,
                    pos,
                    cell: Ghost(cell_index),
                    rem: Ghost(self@[cell_index].reverse()),
                };
                proof {
                    let ids = self@[cell_index];
                    assert(chain_ok(self.list@, ids, self.head@[cell_index]));
                    assert(ids.reverse().skip(0) =~= ids.reverse());
                    assert(ids.reverse()[0] == ids[ids.len() - 1]);
                    assert(pos == ids.last() + 1);
                }
                Some(it)
            },
            None => None,
        }
    }

    /// The distinct cell keys that have been pushed to, in first-push order.
    pub fn cell_keys(&self) -> (r: &Vec<usize>)
        requires
            self.wf(),
        ensures
            r@.no_duplicates(),
            forall|c: usize| #[trigger] r@.contains(c) <==> self@.dom().contains(c),
    {
        &self.keys
    }
}

impl Default for CellList {
    /// An empty cell list, as [`CellList::new`] returns.
    fn default() -> (r: Self)
        ensures
            r.wf(),
            r@ == Map::<usize, Seq<usize>>::empty(),
    {
        Self::new()
    }
}

/// A cell key exists in the index only once something has been pushed to
/// it: an empty-but-present cell cannot occur.
pub proof fn lemma_present_cells_nonempty(cl: CellList)
    requires
        cl.wf(),
    ensures
        forall|k: usize| #[trigger] cl@.dom().contains(k) ==> cl@[k].len() > 0,
{
}

/// Distinct cell keys hold disjoint identifier sets: no identifier is
/// recorded under two different cells.
pub proof fn lemma_cells_disjoint(cl: CellList, k1: usize, k2: usize)
    requires
        cl.wf(),
        k1 != k2,
    ensures
        forall|id: usize| !(cl.cell_ids(k1).contains(id) && cl.cell_ids(k2).contains(id)),
{
    assert forall|id: usize|
            !(cl.cell_ids(k1).contains(id) && cl.cell_ids(k2).contains(id)) by {
        if cl.cell_ids(k1).contains(id) && cl.cell_ids(k2).contains(id) {
            let i = choose|i: int| 0 <= i < cl.cell_ids(k1).len() && cl.cell_ids(k1)[i] == id;
            let j = choose|j: int| 0 <= j < cl.cell_ids(k2).len() && cl.cell_ids(k2)[j] == id;
            assert(cl@.dom().contains(k1) && cl@.dom().contains(k2));
            assert(cl@[k1][i] != cl@[k2][j]);
        }
    }
}

/// Within one cell no identifier is recorded twice: together with
/// [`lemma_cells_disjoint`] and the push contract, the cells partition the
/// set of all pushed identifiers, with no loss and no duplication.
pub proof fn lemma_cell_ids_no_duplicates(cl: CellList, k: usize)
    requires
        cl.wf(),
    ensures
        cl.cell_ids(k).no_duplicates(),
{
    if cl@.dom().contains(k) {
        assert forall|i: int, j: int|
                0 <= i < cl.cell_ids(k).len() && 0 <= j < cl.cell_ids(k).len() && i != j
                implies cl.cell_ids(k)[i] != cl.cell_ids(k)[j] by {
            assert(cl@[k][i] != cl@[k][j]);
        }
    }
}

/// Iterating a cell yields exactly the identifiers pushed to it, in strict
/// reverse push order: the element yielded at step `i` is the one pushed
/// `i + 1` steps from the end.
pub proof fn lemma_iteration_reverses_push_order(cl: CellList, k: usize)
    requires
        cl.wf(),
        cl@.dom().contains(k),
    ensures
        cl.cell_iteration(k) == Some(cl@[k].reverse()),
        cl.cell_iteration(k)->Some_0.len() == cl@[k].len(),
        forall|i: int| 0 <= i < cl@[k].len()
            ==> cl.cell_iteration(k)->Some_0[i] == cl@[k][cl@[k].len() - 1 - i],
{
}

/// Reading a cell twice on an unmodified index yields identical sequences:
/// two fresh cursors over the same cell of the same index have the same
/// pending identifiers.
pub proof fn lemma_iterate_idempotent(it1: CellItemsIter, it2: CellItemsIter)
    requires
        it1.wf(),
        it2.wf(),
        it1.clist() == it2.clist(),
        it1.cell_key() == it2.cell_key(),
        it1.remaining().len() == it1.clist()@[it1.cell_key()].len(),
        it2.remaining().len() == it2.clist()@[it2.cell_key()].len(),
    ensures
        it1.remaining() == it2.remaining(),
{
    let full = it1.clist()@[it1.cell_key()].reverse();
    assert(it1.remaining() =~= full.skip(0));
    assert(it2.remaining() =~= full.skip(0));
}

/// A cursor over the identifiers stored in one cell, yielding them in
/// reverse push order, one per call of [`CellItemsIter::next`].
pub struct CellItemsIter<'a> {
    clist: &'a CellList,
    pos: usize,
    cell: Ghost<usize>,
    rem: Ghost<Seq<usize>>,
}

impl<'a> CellItemsIter<'a> {
    /// The cell list this cursor reads.
    pub closed spec fn clist(self) -> CellList {
        *self.clist
    }

    /// The cell key this cursor walks.
    pub closed spec fn cell_key(self) -> usize {
        self.cell@
    }

    /// The identifiers this cursor has yet to yield, front first.
    pub closed spec fn remaining(self) -> Seq<usize> {
        self.rem@
    }

    /// The cursor's invariant: what remains to be yielded is a suffix of the
    /// cell's reversed chain, and the concrete position is the shifted front
    /// identifier, or the sentinel once the chain is exhausted.
    pub closed spec fn wf(self) -> bool {
        let m = self.clist@;
        let c = self.cell@;
        &&& self.clist.wf()
        &&& m.dom().contains(c)
        &&& self.rem@.len() <= m[c].len()
        &&& self.rem@ == m[c].reverse().skip(m[c].len() - self.rem@.len())
        &&& if self.rem@.len() == 0 {
                self.pos == 0
            } else {
                self.pos == self.rem@[0] + 1
            }
    }

    /// Yield the next identifier of the cell's chain, or `None` once the
    /// chain is exhausted; one step costs one array read.
    pub fn next(&mut self) -> (r: Option<usize>)
        requires
            old(self).wf(),
        ensures
            final(self).wf(),
            final(self).clist() == old(self).clist(),
            final(self).cell_key() == old(self).cell_key(),
            match r {
                None => {
                    &&& old(self).remaining().len() == 0
                    &&& final(self).remaining() == old(self).remaining()
                },
                Some(v) => {
                    &&& old(self).remaining().len() > 0
                    &&& v == old(self).remaining()[0]
                    &&& final(self).remaining() == old(self).remaining().skip(1)
                },
            },
    {
        let pos = self.pos;
        if pos == 0 {
            return None;
        }
        proof {
            let m = self.clist@;
            let c = self.cell@;
            let ids = m[c];
            let k = ids.len() - self.rem@.len();
            assert(chain_ok(self.clist.list@, ids, self.clist.head@[c]));
            assert(self.rem@[0] == ids.reverse()[k]);
            assert(ids.reverse()[k] == ids[ids.len() - 1 - k]);
            assert(ids[ids.len() - 1 - k] + 2 <= self.clist.list@.len());
        }
        self.pos = self.clist.list[pos];
        proof {
            let m = self.clist@;
            let c = self.cell@;
            let ids = m[c];
            let k = ids.len() - self.rem@.len();
            let i = ids.len() - 1 - k;
            assert(pos == ids[i] + 1);
            if i >= 1 {
                assert(self.clist.list@[ids[i] + 1] == ids[i - 1] + 1);
            } else {
                assert(self.clist.list@[ids[0] + 1] == 0);
            }
            self.rem@ = self.rem@.skip(1);
            assert(self.rem@ =~= ids.reverse().skip(k + 1));
            if self.rem@.len() > 0 {
                assert(self.rem@[0] == ids.reverse()[k + 1]);
                assert(ids.reverse()[k + 1] == ids[ids.len() - 2 - k]);
            }
        }
        Some(pos - 1)
    }
}

} // verus!
