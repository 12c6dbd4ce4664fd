//! Reference-counted cells kept in a heap of slots.
//!
//! A cell holds a strong count, a weak count and a payload. The payload is
//! present exactly while the strong count is positive, and the cell counts as
//! reclaimed once both counts are zero. Handles are plain indices into the
//! heap; every operation on a handle goes through the heap that made it.
use vstd::prelude::*;

verus! {

/// A cell in the model: its two counters and its payload.
pub struct CellView<T> {
    pub strong: nat,
    pub weak: nat,
    pub payload: Option<T>,
}

/// The payload is present exactly while some strong handle exists.
pub open spec fn cell_ok<T>(c: CellView<T>) -> bool {
    c.payload.is_some() == (c.strong > 0)
}

/// Every cell of the heap keeps its payload exactly while it is strongly held.
pub open spec fn heap_ok<T>(h: Seq<CellView<T>>) -> bool {
    forall|i: int| 0 <= i < h.len() ==> #[trigger] cell_ok(h[i])
}

/// A cell's storage is reclaimed once neither kind of handle to it is left.
pub open spec fn reclaimed<T>(c: CellView<T>) -> bool {
    c.strong == 0 && c.weak == 0
}

/// One operation on a heap of cells.
pub enum Op<T> {
    Create(T),
    CloneStrong(nat),
    Downgrade(nat),
    ReleaseStrong(nat),
    ReleaseWeak(nat),
}

/// Whether `op` may be applied to `h`: the handle it uses must be live.
pub open spec fn enabled<T>(h: Seq<CellView<T>>, op: Op<T>) -> bool {
    match op {
        Op::Create(_) => true,
        Op::CloneStrong(i) => i < h.len() && h[i as int].strong > 0,
        Op::Downgrade(i) => i < h.len() && h[i as int].strong > 0,
        Op::ReleaseStrong(i) => i < h.len() && h[i as int].strong > 0,
        Op::ReleaseWeak(i) => i < h.len() && h[i as int].weak > 0,
    }
}

/// The heap after applying `op` to `h`.
pub open spec fn step<T>(h: Seq<CellView<T>>, op: Op<T>) -> Seq<CellView<T>> {
    match op {
        Op::Create(v) => h.push(CellView { strong: 1, weak: 0, payload: Some(v) }),
        Op::CloneStrong(i) => h.update(
            i as int,
            CellView { strong: h[i as int].strong + 1, ..h[i as int] },
        ),
        Op::Downgrade(i) => h.update(
            i as int,
            CellView { weak: h[i as int].weak + 1, ..h[i as int] },
        ),
        Op::ReleaseStrong(i) => {
            let c = h[i as int];
            let s = (c.strong - 1) as nat;
            h.update(
                i as int,
                CellView { strong: s, weak: c.weak, payload: if s == 0 { None } else { c.payload } },
            )
        },
        Op::ReleaseWeak(i) => h.update(
            i as int,
            CellView { weak: (h[i as int].weak - 1) as nat, ..h[i as int] },
        ),
    }
}

/// Every enabled operation keeps the payload present exactly while the cell
/// is strongly held.
pub proof fn lemma_step_keeps_ok<T>(h: Seq<CellView<T>>, op: Op<T>)
    requires
        heap_ok(h),
        enabled(h, op),
    ensures
        heap_ok(step(h, op)),
{
    let h2 = step(h, op);
    assert forall|j: int| 0 <= j < h2.len() implies #[trigger] cell_ok(h2[j]) by {
        if j < h.len() {
            assert(cell_ok(h[j]));
        }
    }
}

/// The heap after applying `ops` to `h` in order.
pub open spec fn run<T>(h: Seq<CellView<T>>, ops: Seq<Op<T>>) -> Seq<CellView<T>>
    decreases ops.len(),
{
    if ops.len() == 0 {
        h
    } else {
        step(run(h, ops.drop_last()), ops.last())
    }
}

/// Each operation of `ops` is enabled when its turn comes.
pub open spec fn runs<T>(h: Seq<CellView<T>>, ops: Seq<Op<T>>) -> bool
    decreases ops.len(),
{
    if ops.len() == 0 {
        true
    } else {
        runs(h, ops.drop_last()) && enabled(run(h, ops.drop_last()), ops.last())
    }
}

/// How many strong handles to cell `i` the operations made: the creation of
/// the cell and each clone of a handle to it.
pub open spec fn strong_made<T>(h: Seq<CellView<T>>, ops: Seq<Op<T>>, i: nat) -> nat
    decreases ops.len(),
{
    if ops.len() == 0 {
        0
    } else {
        strong_made(h, ops.drop_last(), i) + match ops.last() {
            Op::Create(_) => if run(h, ops.drop_last()).len() == i {
                1nat
            } else {
                0nat
            },
            Op::CloneStrong(j) => if j == i {
                1nat
            } else {
                0nat
            },
            _ => 0nat,
        }
    }
}

/// How many times `ops` holds `op`.
pub open spec fn occurrences<T>(ops: Seq<Op<T>>, op: Op<T>) -> nat
    decreases ops.len(),
{
    if ops.len() == 0 {
        0
    } else {
        occurrences(ops.drop_last(), op) + if ops.last() == op {
            1nat
        } else {
            0nat
        }
    }
}

/// The counts of a cell before any operation: zero for one not yet created.
pub open spec fn initial_strong<T>(h: Seq<CellView<T>>, i: nat) -> nat {
    if i < h.len() {
        h[i as int].strong
    } else {
        0
    }
}

pub open spec fn initial_weak<T>(h: Seq<CellView<T>>, i: nat) -> nat {
    if i < h.len() {
        h[i as int].weak
    } else {
        0
    }
}

/// Counter accounting: after any run of enabled operations, a cell's strong
/// count is what it started at, plus the strong handles made to it (its
/// creation and each clone), minus the strong handles released; its weak
/// count likewise is its start plus the downgrades minus the weak releases.
/// Neither ever goes below zero, and nothing is counted for a cell that does
/// not exist yet.
pub proof fn lemma_count_accounting<T>(h: Seq<CellView<T>>, ops: Seq<Op<T>>, i: nat)
    requires
        runs(h, ops),
    ensures
        run(h, ops).len() >= h.len(),
        i < run(h, ops).len() ==> run(h, ops)[i as int].strong == initial_strong(h, i)
            + strong_made(h, ops, i) - occurrences(ops, Op::ReleaseStrong(i)),
        i < run(h, ops).len() ==> run(h, ops)[i as int].weak == initial_weak(h, i)
            + occurrences(ops, Op::Downgrade(i)) - occurrences(ops, Op::ReleaseWeak(i)),
        occurrences(ops, Op::ReleaseStrong(i)) <= initial_strong(h, i) + strong_made(h, ops, i),
        occurrences(ops, Op::ReleaseWeak(i)) <= initial_weak(h, i) + occurrences(
            ops,
            Op::Downgrade(i),
        ),
        i >= run(h, ops).len() ==> strong_made(h, ops, i) == 0 && occurrences(
            ops,
            Op::ReleaseStrong(i),
        ) == 0 && occurrences(ops, Op::Downgrade(i)) == 0 && occurrences(
            ops,
            Op::ReleaseWeak(i),
        ) == 0,
    decreases ops.len(),
{
    if ops.len() > 0 {
        lemma_count_accounting(h, ops.drop_last(), i);
    }
}

/// Payload lifetime: along any run of enabled operations, every cell keeps
/// its payload exactly while it has strong handles. A cell whose strong
/// count is zero never gets one again, so its payload, once cleared, is never
/// restored and no strong handle can reach it; its weak count can then only
/// fall, so a reclaimed cell stays reclaimed.
pub proof fn lemma_payload_lifetime<T>(h: Seq<CellView<T>>, ops: Seq<Op<T>>, i: nat)
    requires
        heap_ok(h),
        runs(h, ops),
        i < h.len(),
    ensures
        heap_ok(run(h, ops)),
        run(h, ops).len() >= h.len(),
        h[i as int].strong == 0 ==> run(h, ops)[i as int].strong == 0 && run(
            h,
            ops,
        )[i as int].payload is None && run(h, ops)[i as int].weak <= h[i as int].weak,
        reclaimed(h[i as int]) ==> reclaimed(run(h, ops)[i as int]),
    decreases ops.len(),
{
    assert(cell_ok(h[i as int]));
    if ops.len() > 0 {
        let prev = run(h, ops.drop_last());
        lemma_payload_lifetime(h, ops.drop_last(), i);
        lemma_step_keeps_ok(prev, ops.last());
    }
}

/// The releases that take down a cycle of two cells: the outside strong
/// handles to `a` and `b` in either order, then what each payload held when it
/// left its cell: the strong handle to `a` that `b` held, and the weak handle
/// to `b` that `a` held.
pub open spec fn cycle_releases<T>(a: nat, b: nat, b_first: bool) -> Seq<Op<T>> {
    if b_first {
        seq![Op::ReleaseStrong(b), Op::ReleaseStrong(a), Op::ReleaseStrong(a), Op::ReleaseWeak(b)]
    } else {
        seq![Op::ReleaseStrong(a), Op::ReleaseStrong(b), Op::ReleaseStrong(a), Op::ReleaseWeak(b)]
    }
}

/// No leak or double reclamation under cycles: take cell `a`, strongly held
/// from outside and from the payload of `b`, and cell `b`, strongly held from
/// outside and weakly from the payload of `a`. Releasing the two outside
/// handles in either order, and with them what each payload held as it left
/// its cell, is a valid run. At its end both cells are reclaimed, with no
/// strong handle and no payload left. Each becomes reclaimed at exactly one
/// step: it is not reclaimed at the start and, once reclaimed, stays so.
pub proof fn lemma_cycle_reclaimed<T>(h: Seq<CellView<T>>, a: nat, b: nat, b_first: bool)
    requires
        heap_ok(h),
        a < h.len(),
        b < h.len(),
        a != b,
        h[a as int].strong == 2,
        h[a as int].weak == 0,
        h[b as int].strong == 1,
        h[b as int].weak == 1,
    ensures
        runs(h, cycle_releases::<T>(a, b, b_first)),
        !reclaimed(h[a as int]),
        !reclaimed(h[b as int]),
        reclaimed(run(h, cycle_releases::<T>(a, b, b_first))[a as int]),
        reclaimed(run(h, cycle_releases::<T>(a, b, b_first))[b as int]),
        run(h, cycle_releases::<T>(a, b, b_first))[a as int].payload is None,
        run(h, cycle_releases::<T>(a, b, b_first))[b as int].payload is None,
        forall|k: int|
            0 <= k < 4 ==> (reclaimed(
                #[trigger] run(h, cycle_releases::<T>(a, b, b_first).take(k))[a as int],
            ) ==> reclaimed(run(h, cycle_releases::<T>(a, b, b_first).take(k + 1))[a as int])),
        forall|k: int|
            0 <= k < 4 ==> (reclaimed(
                #[trigger] run(h, cycle_releases::<T>(a, b, b_first).take(k))[b as int],
            ) ==> reclaimed(run(h, cycle_releases::<T>(a, b, b_first).take(k + 1))[b as int])),
{
    let ops = cycle_releases::<T>(a, b, b_first);
    assert(ops.take(0) =~= Seq::<Op<T>>::empty());
    assert(run(h, ops.take(0)) == h);
    assert(runs(h, ops.take(0)));
    assert(ops.take(1).drop_last() =~= ops.take(0));
    assert(ops.take(2).drop_last() =~= ops.take(1));
    assert(ops.take(3).drop_last() =~= ops.take(2));
    assert(ops.take(4).drop_last() =~= ops.take(3));
    assert(ops.take(4) =~= ops);
    let h1 = run(h, ops.take(1));
    let h2 = run(h, ops.take(2));
    let h3 = run(h, ops.take(3));
    let h4 = run(h, ops.take(4));
    assert(h1 == step(h, ops[0]));
    assert(h2 == step(h1, ops[1]));
    assert(h3 == step(h2, ops[2]));
    assert(h4 == step(h3, ops[3]));
    assert(runs(h, ops.take(1)));
    assert(runs(h, ops.take(2)));
    assert(runs(h, ops.take(3)));
    assert(runs(h, ops.take(4)));
    assert(cell_ok(h[a as int]));
    assert(cell_ok(h[b as int]));
}

/// Storage of one cell.
struct Slot<T> {
    strong_count: u32,
    weak_count: u32,
    inner: Option<T>,
}

impl<T> Slot<T> {
    closed spec fn view(&self) -> CellView<T> {
        CellView {
            strong: self.strong_count as nat,
            weak: self.weak_count as nat,
            payload: self.inner,
        }
    }
}

/// The store that all cells of one payload type live in.
pub struct Heap<T> {
    slots: Vec<Slot<T>>,
}

impl<T> View for Heap<T> {
    type V = Seq<CellView<T>>;

    closed spec fn view(&self) -> Seq<CellView<T>> {
        Seq::new(self.slots@.len(), |i: int| self.slots@[i].view())
    }
}

impl<T> Heap<T> {
    pub open spec fn wf(&self) -> bool {
        heap_ok(self@)
    }

    /// An empty heap.
    pub fn new() -> (r: Heap<T>)
        ensures
            r@ == Seq::<CellView<T>>::empty(),
            r.wf(),
    {
        let r = Heap { slots: Vec::new() };
        assert(r@ =~= Seq::<CellView<T>>::empty());
        r
    }

    /// Whether cell `i` has been reclaimed: no handle of either kind is left.
    pub fn is_reclaimed(&self, i: usize) -> (r: bool)
        requires
            i < self@.len(),
        ensures
            r == reclaimed(self@[i as int]),
    {
        let slot = &self.slots[i];
        slot.strong_count == 0 && slot.weak_count == 0
    }

    /// Number of cells ever created in this heap.
    pub fn len(&self) -> (r: usize)
        ensures
            r == self@.len(),
    {
        self.slots.len()
    }
}

/// A strong handle: keeps its cell's payload alive.
pub struct Rc<T> {
    index: usize,
    marker: std::marker::PhantomData<T>,
}

/// A weak handle: keeps its cell's storage, not its payload.
pub struct Weak<T> {
    index: usize,
    marker: std::marker::PhantomData<T>,
}

impl<T> Rc<T> {
    /// The cell this handle refers to.
    pub closed spec fn id(&self) -> nat {
        self.index as nat
    }

    /// The index of this handle's cell in its heap.
    pub fn index(&self) -> (r: usize)
        ensures
            r == self.id(),
    {
        self.index
    }

    /// Makes a new cell holding `inner`, with one strong and no weak handle.
    pub fn new(heap: &mut Heap<T>, inner: T) -> (r: Rc<T>)
        requires
            old(heap).wf(),
        ensures
            final(heap).wf(),
            final(heap)@ == step(old(heap)@, Op::Create(inner)),
            r.id() == old(heap)@.len(),
    {
        let index = heap.slots.len();
        heap.slots.push(Slot { strong_count: 1, weak_count: 0, inner: Some(inner) });
        assert(heap@ =~= step(old(heap)@, Op::Create(inner)));
        Rc { index, marker: std::marker::PhantomData }
    }

    /// A second strong handle to the same cell.
    pub fn clone(&self, heap: &mut Heap<T>) -> (r: Rc<T>)
        requires
            old(heap).wf(),
            enabled(old(heap)@, Op::CloneStrong(self.id())),
            old(heap)@[self.id() as int].strong < u32::MAX,
        ensures
            final(heap).wf(),
            final(heap)@ == step(old(heap)@, Op::CloneStrong(self.id())),
            r.id() == self.id(),
    {
        let slot = &mut heap.slots[self.index];
        slot.strong_count = slot.strong_count + 1;
        assert(heap@ =~= step(old(heap)@, Op::CloneStrong(self.id())));
        proof {
            lemma_step_keeps_ok(old(heap)@, Op::CloneStrong(self.id()));
        }
        Rc { index: self.index, marker: std::marker::PhantomData }
    }

    /// A weak handle to the same cell.
    pub fn weak(&self, heap: &mut Heap<T>) -> (r: Weak<T>)
        requires
            old(heap).wf(),
            enabled(old(heap)@, Op::Downgrade(self.id())),
            old(heap)@[self.id() as int].weak < u32::MAX,
        ensures
            final(heap).wf(),
            final(heap)@ == step(old(heap)@, Op::Downgrade(self.id())),
            r.id() == self.id(),
    {
        let slot = &mut heap.slots[self.index];
        slot.weak_count = slot.weak_count + 1;
        assert(heap@ =~= step(old(heap)@, Op::Downgrade(self.id())));
        proof {
            lemma_step_keeps_ok(old(heap)@, Op::Downgrade(self.id()));
        }
        Weak { index: self.index, marker: std::marker::PhantomData }
    }

    /// Gives this handle up. When it was the last strong one, the payload
    /// leaves the cell and is handed back, so that the caller disposes of it
    /// (and of any handles it holds).
    pub fn release(self, heap: &mut Heap<T>) -> (r: Option<T>)
        requires
            old(heap).wf(),
            enabled(old(heap)@, Op::ReleaseStrong(self.id())),
        ensures
            final(heap).wf(),
            final(heap)@ == step(old(heap)@, Op::ReleaseStrong(self.id())),
            r == (if old(heap)@[self.id() as int].strong == 1 {
                old(heap)@[self.id() as int].payload
            } else {
                None
            }),
    {
        let ghost h = heap@;
        assert(cell_ok(h[self.id() as int]));
        let slot = &mut heap.slots[self.index];
        slot.strong_count = slot.strong_count - 1;
        let r = if slot.strong_count == 0 {
            slot.inner.take()
        } else {
            None
        };
        assert(heap@ =~= step(h, Op::ReleaseStrong(self.id())));
        proof {
            lemma_step_keeps_ok(h, Op::ReleaseStrong(self.id()));
        }
        r
    }

    /// The payload; present for as long as this strong handle is live.
    pub fn deref<'a>(&self, heap: &'a Heap<T>) -> (r: &'a T)
        requires
            heap.wf(),
            self.id() < heap@.len(),
            heap@[self.id() as int].strong > 0,
        ensures
            heap@[self.id() as int].payload == Some(*r),
    {
        assert(cell_ok(heap@[self.id() as int]));
        heap.slots[self.index].inner.as_ref().unwrap()
    }

    /// The number of strong handles to this cell.
    pub fn strong_count(&self, heap: &Heap<T>) -> (r: u32)
        requires
            self.id() < heap@.len(),
        ensures
            r == heap@[self.id() as int].strong,
    {
        heap.slots[self.index].strong_count
    }

    /// The number of weak handles to this cell.
    pub fn weak_count(&self, heap: &Heap<T>) -> (r: u32)
        requires
            self.id() < heap@.len(),
        ensures
            r == heap@[self.id() as int].weak,
    {
        heap.slots[self.index].weak_count
    }
}

impl<T> Weak<T> {
    /// The cell this handle refers to.
    pub closed spec fn id(&self) -> nat {
        self.index as nat
    }

    /// Gives this weak handle up.
    pub fn release(self, heap: &mut Heap<T>)
        requires
            old(heap).wf(),
            enabled(old(heap)@, Op::ReleaseWeak(self.id())),
        ensures
            final(heap).wf(),
            final(heap)@ == step(old(heap)@, Op::ReleaseWeak(self.id())),
    {
        let ghost h = heap@;
        assert(cell_ok(h[self.id() as int]));
        let slot = &mut heap.slots[self.index];
        slot.weak_count = slot.weak_count - 1;
        assert(heap@ =~= step(h, Op::ReleaseWeak(self.id())));
        proof {
            lemma_step_keeps_ok(h, Op::ReleaseWeak(self.id()));
        }
    }

    /// The number of strong handles to this cell.
    pub fn strong_count(&self, heap: &Heap<T>) -> (r: u32)
        requires
            self.id() < heap@.len(),
        ensures
            r == heap@[self.id() as int].strong,
    {
        heap.slots[self.index].strong_count
    }

    /// The number of weak handles to this cell.
    pub fn weak_count(&self, heap: &Heap<T>) -> (r: u32)
        requires
            self.id() < heap@.len(),
        ensures
            r == heap@[self.id() as int].weak,
    {
        heap.slots[self.index].weak_count
    }
}

} // verus!
