//! Word-addressable storage with explicit memory orderings.
//!
//! The snapshot log lives in a region of fixed-width words that a single
//! writer mutates and that any number of observers may read. Everything in
//! this crate reaches the region through [`WordStore`], so the same protocol
//! code runs on a private buffer and on a shared mapping.
use vstd::prelude::*;

verus! {

/// The orderings the protocol asks of a word access.
///
/// `Relaxed` is used for fields the writer already synchronises through its
/// private cache and for enumeration; `Release` publishes a descriptor or the
/// layout magic; `Acquire` is used by readers that must observe what a
/// release published.
#[derive(Clone, Copy, Debug, PartialEq, Eq, Structural)]
pub enum MemoryOrder {
    Relaxed,
    Acquire,
    Release,
}

/// One write to a region: which word was written, what was written to
/// it, and with which ordering.
pub struct Store<W> {
    pub index: int,
    pub value: W,
    pub order: MemoryOrder,
}

/// Whether `after` is `before` with more writes behind it.
pub open spec fn extends<W>(before: Seq<Store<W>>, after: Seq<Store<W>>) -> bool {
    before.len() <= after.len() && after.take(before.len() as int) == before
}

/// Whether `after` is `before` with more writes behind it, all of them
/// with the ordering `order`.
pub open spec fn extends_with<W>(
    before: Seq<Store<W>>,
    after: Seq<Store<W>>,
    order: MemoryOrder,
) -> bool {
    &&& extends(before, after)
    &&& forall|i: int| before.len() <= i < after.len() ==> (#[trigger] after[i]).order == order
}

/// A history extends itself.
pub proof fn lemma_extends_self<W>(history: Seq<Store<W>>)
    ensures
        extends(history, history),
        forall|order: MemoryOrder| extends_with(history, history, order),
{
    assert(history.take(history.len() as int) =~= history);
}

/// One more write extends a history further.
pub proof fn lemma_extends_push<W>(before: Seq<Store<W>>, after: Seq<Store<W>>, next: Store<W>)
    requires
        extends(before, after),
    ensures
        extends(before, after.push(next)),
        extends(after, after.push(next)),
        forall|order: MemoryOrder|
            extends_with(before, after, order) && next.order == order ==> extends_with(
                before,
                after.push(next),
                order,
            ),
{
    assert(after.push(next).take(before.len() as int) =~= before);
    assert(after.push(next).take(after.len() as int) =~= after);
}

/// A history with writes of one ordering behind it is extended with that
/// ordering.
pub proof fn lemma_extends_by<W>(before: Seq<Store<W>>, added: Seq<Store<W>>, order: MemoryOrder)
    requires
        forall|i: int| 0 <= i < added.len() ==> (#[trigger] added[i]).order == order,
    ensures
        extends_with(before, before + added, order),
{
    assert((before + added).take(before.len() as int) =~= before);
    assert forall|i: int| before.len() <= i < (before + added).len() implies (#[trigger] (before
        + added)[i]).order == order by {
        assert((before + added)[i] == added[i - before.len()]);
    }
}

/// A region of words of type `W`, addressed by index.
///
/// The contents are modelled as a sequence of words, and the writes made
/// through the store as a history. The contract describes the region as
/// seen by its one writer: a load returns the word last stored at that
/// index. An implementation over memory shared with other processes meets
/// it as long as those processes only read.
pub trait WordStore<W: Copy> {
    /// The words currently held, in index order.
    ///
    /// A store that is implemented outside verified code does not say what
    /// it holds; nothing is known of its contents then.
    open spec fn words(&self) -> Seq<W> {
        arbitrary()
    }

    /// Every write made through this store, in the order they were made.
    open spec fn stores(&self) -> Seq<Store<W>> {
        arbitrary()
    }

    /// Number of addressable words.
    fn len(&self) -> (n: usize)
        ensures
            n == self.words().len(),
    ;

    /// Read the word at `idx`.
    fn load(&self, idx: usize, order: MemoryOrder) -> (word: W)
        requires
            idx < self.words().len(),
        ensures
            word == self.words()[idx as int],
    ;

    /// Overwrite the word at `idx`.
    fn store(&mut self, idx: usize, value: W, order: MemoryOrder)
        requires
            idx < old(self).words().len(),
        ensures
            final(self).words() == old(self).words().update(idx as int, value),
            final(self).stores() == old(self).stores().push(
                Store { index: idx as int, value, order },
            ),
    ;

    /// Overwrite the word at `idx` and return the word it held before, in
    /// one step.
    fn swap(&mut self, idx: usize, value: W, order: MemoryOrder) -> (previous: W)
        requires
            idx < old(self).words().len(),
        ensures
            previous == old(self).words()[idx as int],
            final(self).words() == old(self).words().update(idx as int, value),
            final(self).stores() == old(self).stores().push(
                Store { index: idx as int, value, order },
            ),
    ;

    /// Order the accesses before this call against those after it.
    fn fence(&self, order: MemoryOrder);
}

/// A [`WordStore`] over words owned on the heap.
pub struct HeapWords<W> {
    cells: Vec<W>,
    written: Ghost<Seq<Store<W>>>,
}

impl<W: Copy> HeapWords<W> {
    /// A region of `len` words, each holding `fill`.
    pub fn filled(len: usize, fill: W) -> (region: Self)
        ensures
            region.words() == Seq::new(len as nat, |i: int| fill),
            region.stores() == Seq::<Store<W>>::empty(),
    {
        let mut cells: Vec<W> = Vec::new();
        let mut i: usize = 0;
        while i < len
            invariant
                i <= len,
                cells@ == Seq::new(i as nat, |j: int| fill),
            decreases len - i,
        {
            cells.push(fill);
            i += 1;
            assert(cells@ =~= Seq::new(i as nat, |j: int| fill));
        }
        HeapWords { cells, written: Ghost(Seq::empty()) }
    }

    /// A region holding exactly the given words.
    pub fn from_vec(cells: Vec<W>) -> (region: Self)
        ensures
            region.words() == cells@,
            region.stores() == Seq::<Store<W>>::empty(),
    {
        HeapWords { cells, written: Ghost(Seq::empty()) }
    }

    /// Give up the region and return its words.
    pub fn into_vec(self) -> (cells: Vec<W>)
        ensures
            cells@ == self.words(),
    {
        self.cells
    }
}

impl<W: Copy> WordStore<W> for HeapWords<W> {
    closed spec fn words(&self) -> Seq<W> {
        self.cells@
    }

    closed spec fn stores(&self) -> Seq<Store<W>> {
        self.written@
    }

    fn len(&self) -> (n: usize) {
        self.cells.len()
    }

    fn load(&self, idx: usize, order: MemoryOrder) -> (word: W) {
        self.cells[idx]
    }

    fn store(&mut self, idx: usize, value: W, order: MemoryOrder) {
        self.cells[idx] = value;
        self.written = Ghost(self.written@.push(Store { index: idx as int, value, order }));
    }

    fn swap(&mut self, idx: usize, value: W, order: MemoryOrder) -> (previous: W) {
        let previous = self.cells[idx];
        self.cells[idx] = value;
        self.written = Ghost(self.written@.push(Store { index: idx as int, value, order }));
        previous
    }

    fn fence(&self, order: MemoryOrder) {
    }
}

} // verus!
