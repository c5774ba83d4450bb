use vstd::prelude::*;

verus! {

/// One cell of a list: a payload and the slots of its neighbours.
#[allow(non_camel_case_types)]
#[derive(Clone, Copy)]
pub struct clistcell<T> {
    pub data: T,
    pub previous: Option<usize>,
    pub next: Option<usize>,
}

/// A cursor: the slot of a cell and the generation of that slot when the
/// cell was created. Freeing a slot raises its generation (a slot whose
/// generation is at its largest is never used again), so the cursor of a
/// deleted cell does not match a later cell in the same slot.
#[allow(non_camel_case_types)]
#[derive(Clone, Copy, Debug, PartialEq, Eq, Structural)]
pub struct clistiter {
    pub index: usize,
    pub generation: u64,
}

/// What a list operation can fail with.
#[derive(Clone, Copy, Debug, PartialEq, Eq, Structural)]
pub enum ClistError {
    /// The arena has no free slot left and cannot grow.
    AllocationError,
    /// The cursor does not denote a cell of this list.
    PreconditionViolation,
}

/// A slot of the arena: its generation, and the cell it holds, if any.
#[derive(Clone, Copy)]
struct Slot<T> {
    generation: u64,
    cell: Option<clistcell<T>>,
}

/// A list of payloads, with the cells held in an arena of slots.
#[allow(non_camel_case_types)]
pub struct clist<T> {
    slots: Vec<Slot<T>>,
    free: Vec<usize>,
    first: Option<usize>,
    last: Option<usize>,
    count: usize,
    /// The slots of the cells, in list order.
    order: Ghost<Seq<usize>>,
}

impl<T> View for clist<T> {
    type V = Seq<T>;

    /// The payloads, from first to last.
    closed spec fn view(&self) -> Seq<T> {
        self.order@.map_values(|i: usize| self.slots@[i as int].cell->Some_0.data)
    }
}

impl<T> clist<T> {
    /// The cell held in slot `i`.
    spec fn cell_at(&self, i: usize) -> clistcell<T> {
        self.slots@[i as int].cell->Some_0
    }

    /// The cursor of the cell in slot `i`.
    spec fn cursor_of(&self, i: usize) -> clistiter {
        clistiter { index: i, generation: self.slots@[i as int].generation }
    }

    /// The cursors of the cells, from first to last.
    pub closed spec fn cursors(&self) -> Seq<clistiter> {
        self.order@.map_values(|i: usize| self.cursor_of(i))
    }

    /// The slot at position `k`, or none outside the list: what the cell at
    /// position `k + 1` links back to and the one at `k - 1` links forward to.
    spec fn neighbour(&self, k: int) -> Option<usize> {
        if 0 <= k < self.order@.len() {
            Some(self.order@[k])
        } else {
            None
        }
    }

    /// The arena and the links agree with the order of the cells:
    /// `count` is the number of cells, `first` and `last` are the ends (none
    /// when empty), the first cell has no predecessor, the last no successor,
    /// and each cell's neighbours link back to it. A slot holds a cell
    /// exactly when it is in the order, and the free slots hold none.
    pub closed spec fn wf(&self) -> bool {
        let o = self.order@;
        &&& self.count == o.len()
        &&& self.slots@.len() <= usize::MAX
        &&& o.no_duplicates()
        &&& forall|k: int| 0 <= k < o.len() ==> (#[trigger] o[k]) < self.slots@.len()
        &&& forall|j: int|
            0 <= j < self.slots@.len() ==> ((#[trigger] self.slots@[j]).cell is Some
                <==> o.contains(j as usize))
        &&& self.free@.no_duplicates()
        &&& forall|k: int|
            0 <= k < self.free@.len() ==> {
                let f = #[trigger] self.free@[k];
                &&& f < self.slots@.len()
                &&& self.slots@[f as int].cell is None
            }
        &&& self.first == self.neighbour(0)
        &&& self.last == self.neighbour(o.len() - 1)
        &&& forall|k: int|
            0 <= k < o.len() ==> {
                let c = #[trigger] self.cell_at(o[k]);
                &&& c.previous == self.neighbour(k - 1)
                &&& c.next == self.neighbour(k + 1)
            }
    }

    /// How many more cells the arena can take: its free slots and the room
    /// it has left to grow.
    pub closed spec fn room(&self) -> nat {
        (self.free@.len() + (usize::MAX - self.slots@.len())) as nat
    }

    /// No cell can be added: the arena has no slot to give, or the count
    /// is at its largest.
    pub open spec fn full(&self) -> bool {
        self.room() == 0 || self@.len() == usize::MAX
    }

    /// The cursor denotes a cell of this list.
    pub open spec fn valid(&self, c: clistiter) -> bool {
        self.cursors().contains(c)
    }

    /// The position of the cell that a valid cursor denotes.
    pub open spec fn position(&self, c: clistiter) -> int {
        self.cursors().index_of(c)
    }

    /// The cursor is absent, or denotes a cell of this list.
    pub open spec fn accepts(&self, iter: Option<clistiter>) -> bool {
        match iter {
            Some(c) => self.valid(c),
            None => true,
        }
    }

    /// Where a cell inserted after `iter` goes: right after its cell, or at
    /// the tail when there is no cursor.
    pub open spec fn after_position(&self, iter: Option<clistiter>) -> int {
        match iter {
            Some(c) => self.position(c) + 1,
            None => self@.len() as int,
        }
    }

    /// Where a cell inserted before `iter` goes: right before its cell, or at
    /// the tail when there is no cursor.
    pub open spec fn before_position(&self, iter: Option<clistiter>) -> int {
        match iter {
            Some(c) => self.position(c),
            None => self@.len() as int,
        }
    }

    /// The cursor of the cell at position `i` denotes that cell, and no other.
    pub proof fn lemma_nth_position(&self, i: int)
        requires
            self.wf(),
            0 <= i < self@.len(),
        ensures
            self.cursors().len() == self@.len(),
            self.valid(self.cursors()[i]),
            self.position(self.cursors()[i]) == i,
    {
        let cs = self.cursors();
        assert(cs[i] == self.cursor_of(self.order@[i]));
        let k = self.position(cs[i]);
        assert(0 <= k < cs.len() && cs[k] == cs[i]);
        assert(self.order@[k] == self.order@[i]);
    }

    /// There are as many cursors as payloads.
    pub proof fn lemma_len(&self)
        requires
            self.wf(),
        ensures
            self.cursors().len() == self@.len(),
    {
    }

    /// The payloads and the cursors are as many as the cells, and a valid
    /// cursor denotes the cell at its position.
    proof fn lemma_cursor(&self, c: clistiter)
        requires
            self.wf(),
        ensures
            self@.len() == self.order@.len(),
            self.cursors().len() == self.order@.len(),
            self.valid(c) ==> {
                let k = self.position(c);
                &&& 0 <= k < self.order@.len()
                &&& self.cursors()[k] == c
                &&& self.order@[k] == c.index
                &&& c.index < self.slots@.len()
                &&& self.slots@[c.index as int].cell is Some
            },
    {
        if self.valid(c) {
            let k = self.position(c);
            assert(self.cursors()[k] == c);
            assert(self.order@[k] < self.slots@.len());
            assert(self.order@.contains(self.order@[k]));
        }
    }
}

impl<T: Copy> clist<T> {
    /// Whether `c` denotes a cell of this list.
    fn check_cursor(&self, c: clistiter) -> (r: bool)
        requires
            self.wf(),
        ensures
            r == self.valid(c),
    {
        if c.index < self.slots.len() {
            let s = self.slots[c.index];
            if s.cell.is_some() && s.generation == c.generation {
                proof {
                    assert(self.slots@[c.index as int].cell is Some);
                    let k = choose|k: int| 0 <= k < self.order@.len() && self.order@[k] == c.index;
                    assert(self.cursors()[k] == c);
                }
                true
            } else {
                proof {
                    if self.valid(c) {
                        let k = choose|k: int| 0 <= k < self.cursors().len() && self.cursors()[k] == c;
                        assert(self.order@[k] == c.index);
                        assert(self.order@.contains(c.index));
                    }
                }
                false
            }
        } else {
            proof {
                if self.valid(c) {
                    let k = choose|k: int| 0 <= k < self.cursors().len() && self.cursors()[k] == c;
                    assert(self.order@[k] < self.slots@.len());
                }
            }
            false
        }
    }

    /// Takes a slot with no cell, from the free slots or by growing the arena.
    fn alloc_slot(&mut self) -> (r: Option<usize>)
        requires
            old(self).wf(),
        ensures
            final(self).wf(),
            final(self)@ == old(self)@,
            final(self).cursors() == old(self).cursors(),
            final(self).first == old(self).first,
            final(self).last == old(self).last,
            final(self).count == old(self).count,
            final(self).order == old(self).order,
            old(self).room() == 0 ==> r is None && *final(self) == *old(self),
            old(self).room() > 0 ==> r is Some && final(self).room() == old(self).room() - 1,
            r matches Some(f) ==> f < final(self).slots@.len() && final(self).slots@[f as int].cell is None
                && final(self).slots@.len() >= old(self).slots@.len()
                && forall|j: int| 0 <= j < old(self).slots@.len() ==> final(self).slots@[j] == old(self).slots@[j],
            r is None ==> *final(self) == *old(self),
            r matches Some(f) ==> !final(self).free@.contains(f),
    {
        let nslots = self.slots.len();
        if self.free.len() > 0 {
            let ghost old_free = self.free@;
            let f = self.free.pop().unwrap();
            proof {
                assert(old_free[old_free.len() - 1] == f);
                assert forall|k: int| 0 <= k < self.free@.len() implies self.free@[k] == old_free[k] by {}
                assert(self.free@ =~= old_free.drop_last());
                assert(self.free@.no_duplicates());
                assert forall|k: int| 0 <= k < self.order@.len() implies #[trigger] self.cell_at(self.order@[k])
                    == old(self).cell_at(old(self).order@[k]) by {}
                assert(self.wf());
                if self.free@.contains(f) {
                    let k = choose|k: int| 0 <= k < self.free@.len() && self.free@[k] == f;
                    assert(old_free[k] == old_free[old_free.len() - 1]);
                }
            }
            Some(f)
        } else if self.slots.len() < usize::MAX {
            let f = self.slots.len();
            self.slots.push(Slot { generation: 0, cell: None });
            proof {
                let o = self.order@;
                assert forall|j: int| 0 <= j < self.slots@.len() implies ((#[trigger] self.slots@[j]).cell is Some
                    <==> o.contains(j as usize)) by {
                    if j == f {
                        if o.contains(j as usize) {
                            let k = choose|k: int| 0 <= k < o.len() && o[k] == j as usize;
                            assert(o[k] < f);
                        }
                    }
                }
                assert forall|k: int| 0 <= k < o.len() implies #[trigger] self.cell_at(o[k]) == old(self).cell_at(o[k]) by {
                    assert(o[k] < f);
                }
                assert(self@ =~= old(self)@);
                assert(self.cursors() =~= old(self).cursors());
                assert(self.wf());
                if self.free@.contains(f) {
                    let k = choose|k: int| 0 <= k < self.free@.len() && self.free@[k] == f;
                    assert(self.free@[k] < f);
                }
            }
            Some(f)
        } else {
            None
        }
    }

    /// The links of the cell in slot `i`.
    fn links(&self, i: usize) -> (r: (Option<usize>, Option<usize>))
        requires
            i < self.slots@.len(),
            self.slots@[i as int].cell is Some,
        ensures
            r == (self.cell_at(i).previous, self.cell_at(i).next),
    {
        match self.slots[i].cell {
            Some(c) => (c.previous, c.next),
            None => (None, None),
        }
    }

    /// Puts a cell holding `data` into the free slot `f` and links it in at
    /// position `p`, between the slots `previous` and `next`.
    fn splice_in(&mut self, f: usize, data: T, previous: Option<usize>, next: Option<usize>, Ghost(p): Ghost<int>)
        requires
            old(self).wf(),
            old(self).count < usize::MAX,
            0 <= p <= old(self).order@.len(),
            f < old(self).slots@.len(),
            old(self).slots@[f as int].cell is None,
            !old(self).free@.contains(f),
            previous == old(self).neighbour(p - 1),
            next == old(self).neighbour(p),
        ensures
            final(self).wf(),
            final(self)@ == old(self)@.insert(p, data),
            final(self).cursors() == old(self).cursors().insert(p, old(self).cursor_of(f)),
            final(self).room() == old(self).room(),
    {
        let ghost o2 = self.order@.insert(p, f);
        let generation = self.slots[f].generation;
        self.slots.set(f, Slot { generation, cell: Some(clistcell { data, previous, next }) });
        match previous {
            Some(pi) => {
                let (pp, _) = self.links(pi);
                self.relink(pi, pp, Some(f));
            },
            None => {
                self.first = Some(f);
            },
        }
        match next {
            Some(ni) => {
                let (_, nn) = self.links(ni);
                self.relink(ni, Some(f), nn);
            },
            None => {
                self.last = Some(f);
            },
        }
        self.count = self.count + 1;
        self.order = Ghost(o2);
        proof {
            lemma_splice_in(*old(self), *self, p, f, data, previous, next);
        }
    }

    /// Rewrites the links of the cell in slot `i`, keeping its payload.
    fn relink(&mut self, i: usize, previous: Option<usize>, next: Option<usize>)
        requires
            i < old(self).slots@.len(),
            old(self).slots@[i as int].cell is Some,
        ensures
            final(self).slots@ == old(self).slots@.update(i as int, Slot {
                generation: old(self).slots@[i as int].generation,
                cell: Some(clistcell { data: old(self).cell_at(i).data, previous, next }),
            }),
            final(self).free == old(self).free,
            final(self).first == old(self).first,
            final(self).last == old(self).last,
            final(self).count == old(self).count,
            final(self).order == old(self).order,
    {
        let s = self.slots[i];
        if let Some(c) = s.cell {
            self.slots.set(i, Slot { generation: s.generation, cell: Some(clistcell { data: c.data, previous, next }) });
        }
    }
}

/// Makes an empty list.
pub fn clist_new<T>() -> (r: clist<T>)
    ensures
        r.wf(),
        r@ == Seq::<T>::empty(),
        r.room() == usize::MAX,
{
    let r = clist {
        slots: Vec::new(),
        free: Vec::new(),
        first: None,
        last: None,
        count: 0,
        order: Ghost(Seq::empty()),
    };
    assert(r@ =~= Seq::<T>::empty());
    r
}

/// Inserts `data` immediately after the cell that `iter` denotes, or at the
/// tail when `iter` is none, and returns the cursor of the new cell.
pub fn clist_insert_after<T: Copy>(lst: &mut clist<T>, iter: Option<clistiter>, data: T) -> (r: Result<clistiter, ClistError>)
    requires
        old(lst).wf(),
    ensures
        final(lst).wf(),
        !old(lst).accepts(iter) ==> r == Err::<clistiter, ClistError>(ClistError::PreconditionViolation) && *final(lst) == *old(lst),
        old(lst).accepts(iter) && old(lst).full() ==> r == Err::<clistiter, ClistError>(ClistError::AllocationError) && *final(lst) == *old(lst),
        old(lst).accepts(iter) && !old(lst).full() ==> {
            let p = old(lst).after_position(iter);
            &&& r is Ok
            &&& final(lst)@ == old(lst)@.insert(p, data)
            &&& final(lst).cursors() == old(lst).cursors().insert(p, r->Ok_0)
            &&& final(lst).room() == old(lst).room() - 1
        },
{
    if let Some(c) = iter {
        if !lst.check_cursor(c) {
            return Err(ClistError::PreconditionViolation);
        }
    }
    if lst.count == usize::MAX {
        return Err(ClistError::AllocationError);
    }
    let ghost p = lst.after_position(iter);
    proof {
        if let Some(c) = iter {
            lst.lemma_cursor(c);
        } else {
            lst.lemma_cursor(clistiter { index: 0, generation: 0 });
        }
    }
    let f = match lst.alloc_slot() {
        Some(f) => f,
        None => {
            return Err(ClistError::AllocationError);
        },
    };
    let (previous, next) = match iter {
        Some(c) => {
            let (_, n) = lst.links(c.index);
            (Some(c.index), n)
        },
        None => (lst.last, None),
    };
    let generation = lst.slots[f].generation;
    lst.splice_in(f, data, previous, next, Ghost(p));
    Ok(clistiter { index: f, generation })
}

/// Inserts `data` immediately before the cell that `iter` denotes, or at the
/// tail when `iter` is none, and returns the cursor of the new cell.
pub fn clist_insert_before<T: Copy>(lst: &mut clist<T>, iter: Option<clistiter>, data: T) -> (r: Result<clistiter, ClistError>)
    requires
        old(lst).wf(),
    ensures
        final(lst).wf(),
        !old(lst).accepts(iter) ==> r == Err::<clistiter, ClistError>(ClistError::PreconditionViolation) && *final(lst) == *old(lst),
        old(lst).accepts(iter) && old(lst).full() ==> r == Err::<clistiter, ClistError>(ClistError::AllocationError) && *final(lst) == *old(lst),
        old(lst).accepts(iter) && !old(lst).full() ==> {
            let p = old(lst).before_position(iter);
            &&& r is Ok
            &&& final(lst)@ == old(lst)@.insert(p, data)
            &&& final(lst).cursors() == old(lst).cursors().insert(p, r->Ok_0)
            &&& final(lst).room() == old(lst).room() - 1
        },
{
    if let Some(c) = iter {
        if !lst.check_cursor(c) {
            return Err(ClistError::PreconditionViolation);
        }
    }
    if lst.count == usize::MAX {
        return Err(ClistError::AllocationError);
    }
    let ghost p = lst.before_position(iter);
    proof {
        if let Some(c) = iter {
            lst.lemma_cursor(c);
        } else {
            lst.lemma_cursor(clistiter { index: 0, generation: 0 });
        }
    }
    let f = match lst.alloc_slot() {
        Some(f) => f,
        None => {
            return Err(ClistError::AllocationError);
        },
    };
    let (previous, next) = match iter {
        Some(c) => {
            let (pr, _) = lst.links(c.index);
            (pr, Some(c.index))
        },
        None => (lst.last, None),
    };
    let generation = lst.slots[f].generation;
    lst.splice_in(f, data, previous, next, Ghost(p));
    Ok(clistiter { index: f, generation })
}

/// Removes the cell that `iter` denotes and returns the cursor of the cell
/// that followed it, or none when it was the tail. No cursor is a no-op.
pub fn clist_delete<T: Copy>(lst: &mut clist<T>, iter: Option<clistiter>) -> (r: Result<Option<clistiter>, ClistError>)
    requires
        old(lst).wf(),
    ensures
        final(lst).wf(),
        iter is None ==> r == Ok::<Option<clistiter>, ClistError>(None) && *final(lst) == *old(lst),
        !old(lst).accepts(iter) ==> r == Err::<Option<clistiter>, ClistError>(ClistError::PreconditionViolation) && *final(lst) == *old(lst),
        match iter {
            Some(c) => old(lst).valid(c) ==> {
                let p = old(lst).position(c);
                &&& final(lst)@ == old(lst)@.remove(p)
                &&& final(lst).cursors() == old(lst).cursors().remove(p)
                &&& r == Ok::<Option<clistiter>, ClistError>(
                    if p + 1 < old(lst)@.len() { Some(old(lst).cursors()[p + 1]) } else { None })
                &&& final(lst).room() >= old(lst).room()
            },
            None => true,
        },
{
    let c = match iter {
        Some(c) => c,
        None => {
            return Ok(None);
        },
    };
    if !lst.check_cursor(c) {
        return Err(ClistError::PreconditionViolation);
    }
    let ghost p = lst.position(c);
    proof {
        lst.lemma_cursor(c);
    }
    let ci = c.index;
    let (previous, next) = lst.links(ci);
    match previous {
        Some(pi) => {
            let (pp, _) = lst.links(pi);
            lst.relink(pi, pp, next);
        },
        None => {
            lst.first = next;
        },
    }
    match next {
        Some(ni) => {
            let (_, nn) = lst.links(ni);
            lst.relink(ni, previous, nn);
        },
        None => {
            lst.last = previous;
        },
    }
    let generation = lst.slots[ci].generation;
    if generation < u64::MAX {
        lst.slots.set(ci, Slot { generation: generation + 1, cell: None });
        lst.free.push(ci);
    } else {
        lst.slots.set(ci, Slot { generation, cell: None });
    }
    lst.count = lst.count - 1;
    lst.order = Ghost(lst.order@.remove(p));
    proof {
        lemma_splice_out(*old(lst), *lst, p, previous, next);
    }
    match next {
        Some(ni) => Ok(Some(clistiter { index: ni, generation: lst.slots[ni].generation })),
        None => Ok(None),
    }
}

/// Walks `indx` steps from the first cell and returns the cursor of the cell
/// reached, or none when `indx` is not below the count.
pub fn clist_nth<T: Copy>(lst: &clist<T>, indx: usize) -> (r: Option<clistiter>)
    requires
        lst.wf(),
    ensures
        r == (if indx < lst@.len() { Some(lst.cursors()[indx as int]) } else { None }),
{
    proof {
        lst.lemma_cursor(clistiter { index: 0, generation: 0 });
    }
    let mut cur = lst.first;
    let mut i: usize = 0;
    while i < indx && cur.is_some()
        invariant
            lst.wf(),
            i <= indx,
            cur == lst.neighbour(i as int),
        decreases indx - i,
    {
        let ci = cur.unwrap();
        let (_, n) = lst.links(ci);
        cur = n;
        i = i + 1;
    }
    match cur {
        Some(ci) => Some(clistiter { index: ci, generation: lst.slots[ci].generation }),
        None => None,
    }
}

/// The payload at position `indx`, or none when `indx` is not below the count.
pub fn clist_nth_data<T: Copy>(lst: &clist<T>, indx: usize) -> (r: Option<T>)
    requires
        lst.wf(),
    ensures
        r == (if indx < lst@.len() { Some(lst@[indx as int]) } else { None }),
{
    proof {
        lst.lemma_cursor(clistiter { index: 0, generation: 0 });
    }
    match clist_nth(lst, indx) {
        Some(c) => {
            proof {
                assert(lst.cursors()[indx as int] == c);
                assert(lst.order@[indx as int] < lst.slots@.len());
            }
            match lst.slots[c.index].cell {
                Some(cell) => Some(cell.data),
                None => None,
            }
        },
        None => None,
    }
}

/// Calls `func` on each payload from first to last, threading a context
/// value through the calls, and returns the last context.
pub fn clist_foreach<T: Copy, C, F: Fn(T, C) -> C>(lst: &clist<T>, func: F, context: C) -> (r: C)
    requires
        lst.wf(),
        forall|i: int, c: C| 0 <= i < lst@.len() ==> func.requires((lst@[i], c)),
    ensures
        exists|cs: Seq<C>| {
            &&& cs.len() == lst@.len() + 1
            &&& cs[0] == context
            &&& cs[lst@.len() as int] == r
            &&& forall|i: int| 0 <= i < lst@.len() ==> func.ensures((lst@[i], #[trigger] cs[i]), cs[i + 1])
        },
{
    proof {
        lst.lemma_cursor(clistiter { index: 0, generation: 0 });
    }
    let mut acc = context;
    let mut cur = lst.first;
    let ghost mut i: int = 0;
    let ghost mut cs: Seq<C> = seq![acc];
    while cur.is_some()
        invariant
            lst.wf(),
            0 <= i <= lst@.len(),
            cur == lst.neighbour(i),
            cs.len() == i + 1,
            cs[0] == context,
            cs[i] == acc,
            forall|k: int| 0 <= k < i ==> func.ensures((lst@[k], #[trigger] cs[k]), cs[k + 1]),
            forall|k: int, c: C| 0 <= k < lst@.len() ==> func.requires((lst@[k], c)),
        decreases lst@.len() - i,
    {
        let ci = cur.unwrap();
        let (_, n) = lst.links(ci);
        proof {
            assert(lst.order@[i] < lst.slots@.len());
            assert(lst.order@.contains(ci));
        }
        let data = lst.slots[ci].cell.unwrap().data;
        proof {
            assert(lst@[i] == data);
        }
        acc = func(data, acc);
        proof {
            cs = cs.push(acc);
            i = i + 1;
        }
        cur = n;
    }
    proof {
        assert(cs[lst@.len() as int] == acc);
    }
    acc
}

/// Moves every cell of `src`, in order, to the tail of `dest`, and leaves
/// `src` empty. When `dest` is empty the two lists trade their cells, and
/// the cursors of `src` go on denoting the same cells, now in `dest`;
/// otherwise the payloads are appended one by one, in time linear in the
/// length of `src`, and the cursors of `src` no longer denote any cell.
pub fn clist_concat<T: Copy>(dest: &mut clist<T>, src: &mut clist<T>)
    requires
        old(dest).wf(),
        old(src).wf(),
        old(dest)@.len() > 0 ==> old(src)@.len() <= old(dest).room() && old(dest)@.len() + old(src)@.len() <= usize::MAX,
    ensures
        final(dest).wf(),
        final(src).wf(),
        final(dest)@ == old(dest)@ + old(src)@,
        final(src)@ == Seq::<T>::empty(),
        final(dest).cursors().subrange(0, old(dest)@.len() as int) == old(dest).cursors(),
        old(dest)@.len() == 0 ==> final(dest).cursors() == old(src).cursors(),
{
    proof {
        dest.lemma_cursor(clistiter { index: 0, generation: 0 });
        src.lemma_cursor(clistiter { index: 0, generation: 0 });
    }
    if dest.count == 0 {
        std::mem::swap(dest, src);
        proof {
            assert(old(dest)@ + old(src)@ =~= old(src)@);
            assert(src@ =~= Seq::<T>::empty());
            assert(dest.cursors().subrange(0, 0) =~= old(dest).cursors());
        }
        return;
    }
    let ghost n0 = dest@.len();
    let mut cur = src.first;
    let ghost mut i: int = 0;
    while cur.is_some()
        invariant
            src.wf(),
            dest.wf(),
            *src == *old(src),
            0 <= i <= src@.len(),
            cur == src.neighbour(i),
            dest@ == old(dest)@ + src@.subrange(0, i),
            dest.cursors().subrange(0, n0 as int) == old(dest).cursors(),
            dest.room() == old(dest).room() - i,
            n0 == old(dest)@.len(),
            dest@.len() == n0 + i,
            n0 + src@.len() <= usize::MAX,
            src@.len() <= old(dest).room(),
        decreases src@.len() - i,
    {
        let ci = cur.unwrap();
        let (_, n) = src.links(ci);
        proof {
            assert(src.order@[i] < src.slots@.len());
            assert(src.order@.contains(ci));
        }
        let data = src.slots[ci].cell.unwrap().data;
        proof {
            assert(src@[i] == data);
            dest.lemma_cursor(clistiter { index: 0, generation: 0 });
        }
        let ghost before = *dest;
        let _ = clist_insert_after(dest, None, data);
        proof {
            assert(dest.cursors().subrange(0, n0 as int) =~= before.cursors().subrange(0, n0 as int));
            assert(dest@ =~= old(dest)@ + src@.subrange(0, i + 1));
            i = i + 1;
        }
        cur = n;
    }
    proof {
        assert(src@.subrange(0, i) =~= src@);
    }
    *src = clist_new();
}

/// Destroys a list, releasing every cell it holds. The payloads are the
/// caller's: nothing is done to them.
/// The list is taken by value, and its arena goes when it leaves scope here.
pub fn clist_free<T>(_lst: clist<T>) {
}

/// The number of cells.
pub fn clist_count<T>(lst: &clist<T>) -> (r: usize)
    requires
        lst.wf(),
    ensures
        r == lst@.len(),
{
    lst.count
}

/// Whether the list has no cell.
pub fn clist_isempty<T>(lst: &clist<T>) -> (r: bool)
    requires
        lst.wf(),
    ensures
        r == (lst@.len() == 0),
{
    lst.count == 0
}

/// The cursor of the first cell, or none when the list is empty.
pub fn clist_begin<T: Copy>(lst: &clist<T>) -> (r: Option<clistiter>)
    requires
        lst.wf(),
    ensures
        r == (if lst@.len() > 0 { Some(lst.cursors()[0]) } else { None }),
{
    proof {
        lst.lemma_cursor(clistiter { index: 0, generation: 0 });
    }
    match lst.first {
        Some(i) => Some(clistiter { index: i, generation: lst.slots[i].generation }),
        None => None,
    }
}

/// The cursor of the last cell, or none when the list is empty.
pub fn clist_end<T: Copy>(lst: &clist<T>) -> (r: Option<clistiter>)
    requires
        lst.wf(),
    ensures
        r == (if lst@.len() > 0 { Some(lst.cursors()[lst@.len() - 1]) } else { None }),
{
    proof {
        lst.lemma_cursor(clistiter { index: 0, generation: 0 });
    }
    match lst.last {
        Some(i) => Some(clistiter { index: i, generation: lst.slots[i].generation }),
        None => None,
    }
}

/// The cursor of the cell after the one `iter` denotes; none when that cell
/// is the tail or `iter` denotes no cell of the list.
pub fn clist_next<T: Copy>(lst: &clist<T>, iter: clistiter) -> (r: Option<clistiter>)
    requires
        lst.wf(),
    ensures
        r == (if lst.valid(iter) && lst.position(iter) + 1 < lst@.len() {
            Some(lst.cursors()[lst.position(iter) + 1])
        } else {
            None
        }),
{
    proof {
        lst.lemma_cursor(iter);
    }
    if !lst.check_cursor(iter) {
        return None;
    }
    let (_, n) = lst.links(iter.index);
    match n {
        Some(i) => Some(clistiter { index: i, generation: lst.slots[i].generation }),
        None => None,
    }
}

/// The cursor of the cell before the one `iter` denotes; none when that
/// cell is the head or `iter` denotes no cell of the list.
pub fn clist_previous<T: Copy>(lst: &clist<T>, iter: clistiter) -> (r: Option<clistiter>)
    requires
        lst.wf(),
    ensures
        r == (if lst.valid(iter) && lst.position(iter) > 0 {
            Some(lst.cursors()[lst.position(iter) - 1])
        } else {
            None
        }),
{
    proof {
        lst.lemma_cursor(iter);
    }
    if !lst.check_cursor(iter) {
        return None;
    }
    let (p, _) = lst.links(iter.index);
    match p {
        Some(i) => Some(clistiter { index: i, generation: lst.slots[i].generation }),
        None => None,
    }
}

/// The payload of the cell that `iter` denotes, or none when it denotes no
/// cell of the list.
pub fn clist_content<T: Copy>(lst: &clist<T>, iter: clistiter) -> (r: Option<T>)
    requires
        lst.wf(),
    ensures
        r == (if lst.valid(iter) { Some(lst@[lst.position(iter)]) } else { None }),
{
    proof {
        lst.lemma_cursor(iter);
    }
    if !lst.check_cursor(iter) {
        return None;
    }
    Some(lst.slots[iter.index].cell.unwrap().data)
}

/// Removing position `p` from a sequence without duplicates keeps it without
/// duplicates, and takes exactly the element at `p` from what it contains.
proof fn lemma_remove_present(o: Seq<usize>, p: int)
    requires
        o.no_duplicates(),
        0 <= p < o.len(),
    ensures
        o.remove(p).no_duplicates(),
        forall|j: usize| o.remove(p).contains(j) <==> (o.contains(j) && j != o[p]),
        forall|k: int| 0 <= k < o.len() - 1 ==> #[trigger] o.remove(p)[k] == (if k < p { o[k] } else { o[k + 1] }),
{
    let o2 = o.remove(p);
    assert forall|k: int| 0 <= k < o2.len() implies #[trigger] o2[k] == (if k < p { o[k] } else { o[k + 1] }) by {}
    assert forall|j: usize| o2.contains(j) <==> (o.contains(j) && j != o[p]) by {
        if o.contains(j) && j != o[p] {
            let k = choose|k: int| 0 <= k < o.len() && o[k] == j;
            if k < p { assert(o2[k] == o[k]); } else { assert(o2[k - 1] == o[k]); }
        }
        if o2.contains(j) {
            let k = choose|k: int| 0 <= k < o2.len() && o2[k] == j;
            if k < p { assert(o2[k] == o[k]); } else { assert(o2[k] == o[k + 1]); }
        }
    }
}

/// Inserting `f` at `p` into a sequence without duplicates that lacks `f`
/// keeps it without duplicates, and adds exactly `f` to what it contains.
proof fn lemma_insert_fresh(o: Seq<usize>, p: int, f: usize)
    requires
        o.no_duplicates(),
        !o.contains(f),
        0 <= p <= o.len(),
    ensures
        o.insert(p, f).no_duplicates(),
        forall|j: usize| o.insert(p, f).contains(j) <==> (o.contains(j) || j == f),
{
    let o2 = o.insert(p, f);
    assert forall|a: int, b: int| 0 <= a < o2.len() && 0 <= b < o2.len() && a != b implies o2[a] != o2[b] by {
        if a == p && b != p {
            let bb = if b < p { b } else { b - 1 };
            assert(o2[b] == o[bb]);
        } else if b == p && a != p {
            let aa = if a < p { a } else { a - 1 };
            assert(o2[a] == o[aa]);
        }
    }
    assert forall|j: usize| o2.contains(j) <==> (o.contains(j) || j == f) by {
        if j == f {
            assert(o2[p] == f);
        }
        if o.contains(j) {
            let k = choose|k: int| 0 <= k < o.len() && o[k] == j;
            if k < p { assert(o2[k] == o[k]); } else { assert(o2[k + 1] == o[k]); }
        }
        if o2.contains(j) && j != f {
            let k = choose|k: int| 0 <= k < o2.len() && o2[k] == j;
            assert(o2[p] == f);
            if k < p { assert(o2[k] == o[k]); } else { assert(o2[k] == o[k - 1]); }
        }
    }
}

/// The new state of `splice_in` is well formed, and holds `data` and the
/// cursor of `f` at position `p`.
#[verifier::rlimit(30)]
proof fn lemma_splice_in<T>(s: clist<T>, t: clist<T>, p: int, f: usize, data: T, previous: Option<usize>, next: Option<usize>)
    requires
        s.wf(),
        0 <= p <= s.order@.len(),
        f < s.slots@.len(),
        s.slots@[f as int].cell is None,
        !s.free@.contains(f),
        previous == s.neighbour(p - 1),
        next == s.neighbour(p),
        t.order@ == s.order@.insert(p, f),
        t.count == s.count + 1,
        t.free == s.free,
        t.slots@.len() == s.slots@.len(),
        t.first == (if previous is None { Some(f) } else { s.first }),
        t.last == (if next is None { Some(f) } else { s.last }),
        forall|j: int| 0 <= j < s.slots@.len() && j != f && Some(j as usize) != previous && Some(j as usize) != next
            ==> t.slots@[j] == s.slots@[j],
        t.slots@[f as int] == (Slot { generation: s.slots@[f as int].generation, cell: Some(clistcell { data, previous, next }) }),
        previous matches Some(pi) ==> t.slots@[pi as int] == (Slot { generation: s.slots@[pi as int].generation,
            cell: Some(clistcell { data: s.cell_at(pi).data, previous: s.cell_at(pi).previous, next: Some(f) }) }),
        next matches Some(ni) ==> t.slots@[ni as int] == (Slot { generation: s.slots@[ni as int].generation,
            cell: Some(clistcell { data: s.cell_at(ni).data, previous: Some(f), next: s.cell_at(ni).next }) }),
    ensures
        t.wf(),
        t@ == s@.insert(p, data),
        t.cursors() == s.cursors().insert(p, s.cursor_of(f)),
        t.room() == s.room(),
{
    let o = s.order@;
    let o2 = t.order@;
    assert(!o.contains(f)) by {
        if o.contains(f) {
            let k = choose|k: int| 0 <= k < o.len() && o[k] == f;
            assert(s.slots@[f as int].cell is Some);
        }
    }
    lemma_insert_fresh(o, p, f);
    assert(o2[p] == f);
    assert forall|k: int| 0 <= k < o2.len() implies (#[trigger] o2[k]) < t.slots@.len() by {
        if k < p { assert(o2[k] == o[k]); } else if k > p { assert(o2[k] == o[k - 1]); }
    }
    assert forall|j: int| 0 <= j < t.slots@.len() implies ((#[trigger] t.slots@[j]).cell is Some <==> o2.contains(j as usize)) by {
        if j != f {
            if previous == Some(j as usize) {
                assert(o[p - 1] == j);
                assert(o.contains(j as usize));
            }
            if next == Some(j as usize) {
                assert(o[p] == j);
                assert(o.contains(j as usize));
            }
            assert(t.slots@[j].cell is Some <==> s.slots@[j].cell is Some);
            assert(s.slots@[j].cell is Some <==> o.contains(j as usize));
        }
    }
    assert forall|k: int| 0 <= k < t.free@.len() implies #[trigger] t.free@[k] != f by {}
    assert forall|k: int| 0 <= k < o2.len() implies {
        let c = #[trigger] t.cell_at(o2[k]);
        &&& c.previous == t.neighbour(k - 1)
        &&& c.next == t.neighbour(k + 1)
        &&& c.data == (if k == p { data } else if k < p { s.cell_at(o[k]).data } else { s.cell_at(o[k - 1]).data })
        &&& t.slots@[o2[k] as int].generation == s.slots@[o2[k] as int].generation
    } by {
        if k < p {
            assert(o2[k] == o[k]);
            assert(s.cell_at(o[k]).previous == s.neighbour(k - 1));
            if k > 0 { assert(o2[k - 1] == o[k - 1]); }
            if k + 1 < p { assert(o2[k + 1] == o[k + 1]); }
        } else if k == p {
            if p > 0 { assert(o2[k - 1] == o[k - 1]); }
            if p < o.len() { assert(o2[k + 1] == o[k]); }
        } else {
            assert(o2[k] == o[k - 1]);
            assert(s.cell_at(o[k - 1]).next == s.neighbour(k));
            if k - 1 > p { assert(o2[k - 1] == o[k - 2]); }
            if k + 1 < o2.len() { assert(o2[k + 1] == o[k]); }
        }
    }
    assert(t.wf());
    assert(t@ =~= s@.insert(p, data));
    assert(t.cursors() =~= s.cursors().insert(p, s.cursor_of(f)));
}

/// The new state of `clist_delete` is well formed, and lacks the cell at
/// position `p`.
proof fn lemma_splice_out<T>(s: clist<T>, t: clist<T>, p: int, previous: Option<usize>, next: Option<usize>)
    requires
        s.wf(),
        0 <= p < s.order@.len(),
        previous == s.neighbour(p - 1),
        next == s.neighbour(p + 1),
        t.order@ == s.order@.remove(p),
        t.count == s.count - 1,
        t.free@ == s.free@ || t.free@ == s.free@.push(s.order@[p]),
        t.slots@.len() == s.slots@.len(),
        t.first == (if previous is None { next } else { s.first }),
        t.last == (if next is None { previous } else { s.last }),
        forall|j: int| 0 <= j < s.slots@.len() && j != s.order@[p] && Some(j as usize) != previous && Some(j as usize) != next
            ==> t.slots@[j] == s.slots@[j],
        t.slots@[s.order@[p] as int].cell is None,
        previous matches Some(pi) ==> t.slots@[pi as int] == (Slot { generation: s.slots@[pi as int].generation,
            cell: Some(clistcell { data: s.cell_at(pi).data, previous: s.cell_at(pi).previous, next }) }),
        next matches Some(ni) ==> t.slots@[ni as int] == (Slot { generation: s.slots@[ni as int].generation,
            cell: Some(clistcell { data: s.cell_at(ni).data, previous, next: s.cell_at(ni).next }) }),
    ensures
        t.wf(),
        t@ == s@.remove(p),
        t.cursors() == s.cursors().remove(p),
        t.room() >= s.room(),
{
    let o = s.order@;
    let o2 = t.order@;
    let ci = o[p];
    assert(o.contains(ci));
    lemma_remove_present(o, p);
    assert forall|j: int| 0 <= j < t.slots@.len() implies ((#[trigger] t.slots@[j]).cell is Some <==> o2.contains(j as usize)) by {
        if j != ci {
            if previous == Some(j as usize) {
                assert(o[p - 1] == j);
            }
            if next == Some(j as usize) {
                assert(o[p + 1] == j);
            }
            assert(t.slots@[j].cell is Some <==> s.slots@[j].cell is Some);
            assert(s.slots@[j].cell is Some <==> o.contains(j as usize));
        }
    }
    assert(!s.free@.contains(ci)) by {
        if s.free@.contains(ci) {
            let k = choose|k: int| 0 <= k < s.free@.len() && s.free@[k] == ci;
            assert(s.slots@[ci as int].cell is None);
        }
    }
    assert(t.free@.no_duplicates());
    assert forall|k: int| 0 <= k < o2.len() implies {
        let c = #[trigger] t.cell_at(o2[k]);
        &&& c.previous == t.neighbour(k - 1)
        &&& c.next == t.neighbour(k + 1)
        &&& c.data == (if k < p { s.cell_at(o[k]).data } else { s.cell_at(o[k + 1]).data })
        &&& t.slots@[o2[k] as int].generation == s.slots@[o2[k] as int].generation
    } by {
        if k < p {
            assert(s.cell_at(o[k]).previous == s.neighbour(k - 1));
            assert(s.cell_at(o[k]).next == s.neighbour(k + 1));
            if k > 0 { assert(o2[k - 1] == o[k - 1]); }
        } else {
            assert(s.cell_at(o[k + 1]).previous == s.neighbour(k));
            assert(s.cell_at(o[k + 1]).next == s.neighbour(k + 2));
            if k > p { assert(o2[k - 1] == o[k]); }
        }
    }
    assert(t.wf());
    assert(t@ =~= s@.remove(p));
    assert(t.cursors() =~= s.cursors().remove(p));
}

} // verus!
