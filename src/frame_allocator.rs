//! The physical frame allocator: a bump pointer over a range of frame numbers
//! plus a stack of returned frames that are handed out again first.

use vstd::prelude::*;
use crate::address::{PhysAddr, PhysPageNum, ENTRIES_PER_NODE, PAGE_SIZE};
use crate::memory::PhysMemory;

verus! {

/// What the allocator knows: the range `[start, end)` it manages, the next
/// never-issued frame `current`, and the stack of returned frames.
pub ghost struct AllocState {
    pub start: nat,
    pub current: nat,
    pub end: nat,
    pub recycled: Seq<usize>,
}

impl AllocState {
    pub open spec fn wf(self) -> bool {
        &&& self.start <= self.current <= self.end <= usize::MAX
        &&& self.recycled.no_duplicates()
        &&& forall|i: int|
            0 <= i < self.recycled.len() ==> self.start <= #[trigger] self.recycled[i]
                < self.current
    }

    /// The frames issued and not yet returned.
    pub open spec fn outstanding(self) -> Set<nat> {
        Set::new(
            |p: nat| self.start <= p < self.current && !self.recycled.contains(p as usize),
        )
    }

    /// How many frames can still be handed out.
    pub open spec fn remaining(self) -> nat {
        (self.end - self.current) as nat + self.recycled.len()
    }

    /// The frame the next allocation hands out, if any.
    pub open spec fn alloc_result(self) -> Option<nat> {
        if self.recycled.len() > 0 {
            Some(self.recycled.last() as nat)
        } else if self.current == self.end {
            None
        } else {
            Some(self.current)
        }
    }

    /// The state after one allocation.
    pub open spec fn after_alloc(self) -> AllocState {
        if self.recycled.len() > 0 {
            AllocState { recycled: self.recycled.drop_last(), ..self }
        } else if self.current == self.end {
            self
        } else {
            AllocState { current: self.current + 1, ..self }
        }
    }

    /// The state after frame `p` is returned.
    pub open spec fn after_dealloc(self, p: usize) -> AllocState {
        AllocState { recycled: self.recycled.push(p), ..self }
    }

    /// The state after each frame of `freed` is returned, in order.
    pub open spec fn dealloc_all(self, freed: Seq<usize>) -> AllocState
        decreases freed.len(),
    {
        if freed.len() == 0 {
            self
        } else {
            self.dealloc_all(freed.drop_last()).after_dealloc(freed.last())
        }
    }

    /// The frames handed out by `n` allocations in a row.
    pub open spec fn alloc_results(self, n: nat) -> Seq<Option<nat>>
        decreases n,
    {
        if n == 0 {
            Seq::empty()
        } else {
            seq![self.alloc_result()] + self.after_alloc().alloc_results((n - 1) as nat)
        }
    }

    /// The state after `n` allocations in a row.
    pub open spec fn after_allocs(self, n: nat) -> AllocState
        decreases n,
    {
        if n == 0 {
            self
        } else {
            self.after_alloc().after_allocs((n - 1) as nat)
        }
    }
}

/// An allocation keeps the allocator well formed, hands out a frame that was
/// not outstanding, adds exactly that frame to the outstanding set, and lowers
/// the remaining count by one; when nothing is left it changes nothing.
pub proof fn lemma_alloc_step(s: AllocState)
    requires
        s.wf(),
    ensures
        s.after_alloc().wf(),
        s.alloc_result() is None <==> s.remaining() == 0,
        s.alloc_result() is None ==> s.after_alloc() == s,
        s.alloc_result() matches Some(p) ==> {
            &&& s.start <= p < s.end
            &&& !s.outstanding().contains(p)
            &&& s.after_alloc().outstanding() == s.outstanding().insert(p)
            &&& s.after_alloc().remaining() + 1 == s.remaining()
        },
{
    if s.recycled.len() > 0 {
        let p = s.recycled.last();
        let t = s.after_alloc();
        assert(s.recycled =~= t.recycled.push(p));
        assert forall|q: nat| t.outstanding().contains(q) <==> s.outstanding().insert(
            p as nat,
        ).contains(q) by {
            if q == p as nat {
                assert(!t.recycled.contains(p)) by {
                    if t.recycled.contains(p) {
                        let j = choose|j: int| 0 <= j < t.recycled.len() && t.recycled[j] == p;
                        assert(t.recycled[j] == s.recycled[j]);
                        assert(s.recycled[j] != s.recycled[s.recycled.len() - 1]);
                    }
                }
            } else {
                if s.start <= q < s.current {
                    if t.recycled.contains(q as usize) {
                        let j = choose|j: int| 0 <= j < t.recycled.len() && t.recycled[j] == q as usize;
                        assert(s.recycled[j] == q as usize);
                    }
                    if s.recycled.contains(q as usize) {
                        let j = choose|j: int| 0 <= j < s.recycled.len() && s.recycled[j] == q as usize;
                        assert(j != s.recycled.len() - 1);
                        assert(t.recycled[j] == q as usize);
                    }
                }
            }
        }
        assert(t.outstanding() =~= s.outstanding().insert(p as nat));
        assert(s.recycled.contains(p));
    } else if s.current < s.end {
        let t = s.after_alloc();
        assert(t.outstanding() =~= s.outstanding().insert(s.current));
    }
}

/// Returning an outstanding frame keeps the allocator well formed, removes the
/// frame from the outstanding set, and raises the remaining count by one.
pub proof fn lemma_dealloc_step(s: AllocState, p: usize)
    requires
        s.wf(),
        s.outstanding().contains(p as nat),
    ensures
        s.after_dealloc(p).wf(),
        s.after_dealloc(p).outstanding() == s.outstanding().remove(p as nat),
        s.after_dealloc(p).remaining() == s.remaining() + 1,
{
    let t = s.after_dealloc(p);
    assert forall|q: nat| t.outstanding().contains(q) <==> s.outstanding().remove(p as nat).contains(q) by {
        if s.start <= q < s.current {
            if t.recycled.contains(q as usize) {
                let j = choose|j: int| 0 <= j < t.recycled.len() && t.recycled[j] == q as usize;
                if j < s.recycled.len() {
                    assert(s.recycled[j] == q as usize);
                }
            }
            if s.recycled.contains(q as usize) {
                let j = choose|j: int| 0 <= j < s.recycled.len() && s.recycled[j] == q as usize;
                assert(t.recycled[j] == q as usize);
            }
            if q == p {
                assert(t.recycled[s.recycled.len() as int] == p);
            }
        }
    }
    assert(t.outstanding() =~= s.outstanding().remove(p as nat));
}

/// Allocating a frame and at once returning it leaves the remaining count
/// where it was.
pub proof fn lemma_alloc_then_dealloc(s: AllocState)
    requires
        s.wf(),
        s.alloc_result() is Some,
    ensures
        s.after_alloc().after_dealloc(s.alloc_result()->0 as usize).wf(),
        s.after_alloc().after_dealloc(s.alloc_result()->0 as usize).remaining() == s.remaining(),
{
    lemma_alloc_step(s);
    lemma_dealloc_step(s.after_alloc(), s.alloc_result()->0 as usize);
}

/// One call: `None` allocates, `Some(p)` returns frame `p`.
pub open spec fn step(s: AllocState, op: Option<usize>) -> AllocState {
    match op {
        None => s.after_alloc(),
        Some(p) => s.after_dealloc(p),
    }
}

/// The state after the calls `ops`, in order.
pub open spec fn run(s: AllocState, ops: Seq<Option<usize>>) -> AllocState
    decreases ops.len(),
{
    if ops.len() == 0 {
        s
    } else {
        step(run(s, ops.drop_last()), ops.last())
    }
}

/// Whether every frame that `ops` returns is outstanding when it is returned.
pub open spec fn legal_run(s: AllocState, ops: Seq<Option<usize>>) -> bool
    decreases ops.len(),
{
    if ops.len() == 0 {
        true
    } else {
        &&& legal_run(s, ops.drop_last())
        &&& ops.last() matches Some(p) ==> run(s, ops.drop_last()).outstanding().contains(p as nat)
    }
}

/// After any run of allocations and returns without a double or stray
/// return, the allocator is well formed, manages the same range, and its
/// outstanding frames lie in `[start, current)` apart from the returned pool.
pub proof fn lemma_runs_keep_pool_apart(s: AllocState, ops: Seq<Option<usize>>)
    requires
        s.wf(),
        legal_run(s, ops),
    ensures
        run(s, ops).wf(),
        run(s, ops).start == s.start,
        run(s, ops).end == s.end,
        forall|p: nat| #[trigger]
            run(s, ops).outstanding().contains(p) ==> run(s, ops).start <= p < run(s, ops).current
                && !run(s, ops).recycled.contains(p as usize),
    decreases ops.len(),
{
    if ops.len() > 0 {
        lemma_runs_keep_pool_apart(s, ops.drop_last());
        let t = run(s, ops.drop_last());
        match ops.last() {
            None => lemma_alloc_step(t),
            Some(p) => lemma_dealloc_step(t, p),
        }
    }
}

/// The frames outstanding are never in the returned pool and always lie in
/// `[start, current)`.
pub proof fn lemma_outstanding_apart_from_pool(s: AllocState)
    requires
        s.wf(),
    ensures
        forall|p: nat| #[trigger]
            s.outstanding().contains(p) ==> s.start <= p < s.current && !s.recycled.contains(
                p as usize,
            ),
        forall|i: int|
            0 <= i < s.recycled.len() ==> !s.outstanding().contains(#[trigger] s.recycled[i] as nat),
{
}

/// Returning a run of distinct outstanding frames and then allocating as many
/// frames hands back exactly those frames, last returned first, and leaves the
/// allocator as it was before they were returned.
pub proof fn lemma_free_then_realloc(s: AllocState, freed: Seq<usize>)
    requires
        s.wf(),
        freed.no_duplicates(),
        forall|i: int| 0 <= i < freed.len() ==> s.outstanding().contains(#[trigger] freed[i] as nat),
    ensures
        s.dealloc_all(freed).alloc_results(freed.len()) == Seq::new(
            freed.len(),
            |i: int| Some(freed[freed.len() - 1 - i] as nat),
        ),
        s.dealloc_all(freed).after_allocs(freed.len()) == s,
    decreases freed.len(),
{
    if freed.len() > 0 {
        let rest = freed.drop_last();
        assert forall|i: int| 0 <= i < rest.len() implies s.outstanding().contains(#[trigger] rest[i] as nat) by {
            assert(rest[i] == freed[i]);
        }
        lemma_free_then_realloc(s, rest);
        let t = s.dealloc_all(freed);
        let u = s.dealloc_all(rest);
        assert(t.recycled.drop_last() =~= u.recycled);
        assert(t.after_alloc() == u);
        assert(t.alloc_results(freed.len()) =~= Seq::new(
            freed.len(),
            |i: int| Some(freed[freed.len() - 1 - i] as nat),
        ));
    }
}

/// A bump pointer over `[start, end)` with a stack of returned frames.
pub struct StackFrameAllocator {
    start: usize,
    current: usize,
    end: usize,
    recycled: Vec<usize>,
}

impl View for StackFrameAllocator {
    type V = AllocState;

    closed spec fn view(&self) -> AllocState {
        AllocState {
            start: self.start as nat,
            current: self.current as nat,
            end: self.end as nat,
            recycled: self.recycled@,
        }
    }
}

impl StackFrameAllocator {
    /// An allocator over the empty range.
    pub fn new() -> (r: Self)
        ensures
            r@.wf(),
            r@.start == 0,
            r@.current == 0,
            r@.end == 0,
            r@.recycled.len() == 0,
    {
        StackFrameAllocator { start: 0, current: 0, end: 0, recycled: Vec::new() }
    }

    /// Manages the frames `[l, r)` from now on, all of them free.
    pub fn init(&mut self, l: PhysPageNum, r: PhysPageNum)
        requires
            l.0 <= r.0,
        ensures
            final(self)@.wf(),
            final(self)@.start == l.0,
            final(self)@.current == l.0,
            final(self)@.end == r.0,
            final(self)@.recycled.len() == 0,
    {
        self.start = l.0;
        self.current = l.0;
        self.end = r.0;
        self.recycled = Vec::new();
    }

    /// How many frames can still be handed out.
    pub fn remain_num(&self) -> (r: usize)
        requires
            self@.wf(),
        ensures
            r == self@.remaining(),
    {
        proof {
            lemma_pool_len_bound(self@);
        }
        self.end - self.current + self.recycled.len()
    }

    /// Whether frame `ppn` is issued and not yet returned.
    pub fn is_allocated(&self, ppn: PhysPageNum) -> (r: bool)
        requires
            self@.wf(),
        ensures
            r == self@.outstanding().contains(ppn.0 as nat),
    {
        if ppn.0 < self.start || ppn.0 >= self.current {
            return false;
        }
        let mut i: usize = 0;
        while i < self.recycled.len()
            invariant
                i <= self.recycled@.len(),
                forall|j: int| 0 <= j < i ==> self.recycled@[j] != ppn.0,
            decreases self.recycled@.len() - i,
        {
            if self.recycled[i] == ppn.0 {
                return false;
            }
            i = i + 1;
        }
        true
    }

    /// Hands out the most recently returned frame, or else the next
    /// never-issued one; `None` when the range is used up.
    pub fn allocate(&mut self) -> (r: Option<PhysPageNum>)
        requires
            old(self)@.wf(),
        ensures
            final(self)@ == old(self)@.after_alloc(),
            final(self)@.wf(),
            (r is Some) <==> (old(self)@.remaining() > 0),
            r matches Some(p) ==> old(self)@.alloc_result() == Some(p.0 as nat),
            r is None ==> old(self)@.alloc_result() is None,
    {
        proof {
            lemma_alloc_step(self@);
        }
        match self.recycled.pop() {
            Some(ppn) => Some(PhysPageNum(ppn)),
            None => {
                if self.current == self.end {
                    None
                } else {
                    self.current = self.current + 1;
                    Some(PhysPageNum(self.current - 1))
                }
            },
        }
    }

    /// Takes back frame `ppn`, which must be outstanding.
    pub fn dealloc(&mut self, ppn: PhysPageNum)
        requires
            old(self)@.wf(),
            old(self)@.outstanding().contains(ppn.0 as nat),
        ensures
            final(self)@ == old(self)@.after_dealloc(ppn.0),
            final(self)@.wf(),
    {
        proof {
            lemma_dealloc_step(self@, ppn.0);
        }
        self.recycled.push(ppn.0);
    }
}

/// The contents of a freshly zeroed frame.
pub open spec fn zero_page() -> Seq<u8> {
    Seq::new(PAGE_SIZE as nat, |o: int| 0u8)
}

/// Whether `mem` holds every frame that allocator state `a` manages.
pub open spec fn covers(mem: PhysMemory, a: AllocState) -> bool {
    mem.base() <= a.start && a.end <= mem.end()
}

/// Ownership of one allocated frame, whose contents were zeroed when it was
/// taken. Its frame number never changes; `release` gives the frame back.
pub struct FrameTracker {
    ppn: PhysPageNum,
}

impl FrameTracker {
    /// The frame owned.
    pub closed spec fn frame(self) -> nat {
        self.ppn.0 as nat
    }

    /// Takes frame `ppn`, zeroing its contents.
    pub fn new(ppn: PhysPageNum, mem: &mut PhysMemory) -> (r: Self)
        requires
            old(mem).wf(),
            old(mem).backed(ppn.0 as nat),
        ensures
            r.frame() == ppn.0,
            final(mem).wf(),
            final(mem).frame(ppn.0 as nat) == zero_page(),
            final(mem).same_except(*old(mem), ppn.0 as nat),
            forall|i: nat| i < ENTRIES_PER_NODE ==> #[trigger] final(mem).word(ppn.0 as nat, i) == 0,
            forall|p: nat, i: nat|
                p != ppn.0 && i < ENTRIES_PER_NODE ==> #[trigger] final(mem).word(p, i) == old(
                    mem,
                ).word(p, i),
    {
        mem.zero_frame(ppn.0);
        FrameTracker { ppn }
    }

    /// The frame owned.
    pub fn ppn(&self) -> (r: PhysPageNum)
        ensures
            r.0 == self.frame(),
    {
        self.ppn
    }

    /// Gives the frame back to `allocator`.
    pub fn release(self, allocator: &mut StackFrameAllocator)
        requires
            old(allocator)@.wf(),
            old(allocator)@.outstanding().contains(self.frame()),
        ensures
            final(allocator)@ == old(allocator)@.after_dealloc(self.frame() as usize),
            final(allocator)@.wf(),
    {
        allocator.dealloc(self.ppn);
    }
}

/// Makes `allocator` manage the whole frames between the end of the kernel
/// image and the end of memory.
pub fn init_frame_allocator(
    allocator: &mut StackFrameAllocator,
    kernel_end: PhysAddr,
    memory_end: PhysAddr,
)
    requires
        (kernel_end.0 + PAGE_SIZE - 1) / PAGE_SIZE as int <= (memory_end.0 / PAGE_SIZE) as int,
    ensures
        final(allocator)@.wf(),
        final(allocator)@.start == (kernel_end.0 + PAGE_SIZE - 1) / PAGE_SIZE as int,
        final(allocator)@.current == final(allocator)@.start,
        final(allocator)@.end == (memory_end.0 / PAGE_SIZE) as int,
        final(allocator)@.recycled.len() == 0,
{
    allocator.init(kernel_end.ceil(), memory_end.floor());
}

/// Allocates a frame and zeroes it; `None` when no frame is left.
pub fn frame_alloc(allocator: &mut StackFrameAllocator, mem: &mut PhysMemory) -> (r: Option<
    FrameTracker,
>)
    requires
        old(allocator)@.wf(),
        old(mem).wf(),
        covers(*old(mem), old(allocator)@),
    ensures
        final(allocator)@ == old(allocator)@.after_alloc(),
        final(allocator)@.wf(),
        final(mem).wf(),
        final(mem).base() == old(mem).base(),
        final(mem).end() == old(mem).end(),
        (r is Some) <==> (old(allocator)@.remaining() > 0),
        match r {
            Some(t) => {
                &&& old(allocator)@.alloc_result() == Some(t.frame())
                &&& final(mem).frame(t.frame()) == zero_page()
                &&& final(mem).same_except(*old(mem), t.frame())
                &&& forall|i: nat|
                    i < ENTRIES_PER_NODE ==> #[trigger] final(mem).word(t.frame(), i) == 0
                &&& forall|p: nat, i: nat|
                    p != t.frame() && i < ENTRIES_PER_NODE ==> #[trigger] final(mem).word(p, i)
                        == old(mem).word(p, i)
            },
            None => old(allocator)@.alloc_result() is None && *final(mem) == *old(mem),
        },
{
    proof {
        lemma_alloc_step(allocator@);
    }
    match allocator.allocate() {
        Some(ppn) => Some(FrameTracker::new(ppn, mem)),
        None => None,
    }
}

/// Gives frame `ppn` back to `allocator`.
pub fn frame_dealloc(allocator: &mut StackFrameAllocator, ppn: PhysPageNum)
    requires
        old(allocator)@.wf(),
        old(allocator)@.outstanding().contains(ppn.0 as nat),
    ensures
        final(allocator)@ == old(allocator)@.after_dealloc(ppn.0),
        final(allocator)@.wf(),
{
    allocator.dealloc(ppn);
}

/// How many frames can still be allocated.
pub fn frame_remain_num(allocator: &StackFrameAllocator) -> (r: usize)
    requires
        allocator@.wf(),
    ensures
        r == allocator@.remaining(),
{
    allocator.remain_num()
}

proof fn lemma_allocs_unfold(s: AllocState, k: nat)
    ensures
        s.after_allocs(k + 1) == s.after_allocs(k).after_alloc(),
        s.alloc_results(k + 1) == s.alloc_results(k).push(s.after_allocs(k).alloc_result()),
        s.alloc_results(k).len() == k,
        s.alloc_results(k + 1).len() == k + 1,
    decreases k,
{
    let s1 = s.after_alloc();
    assert(s.after_allocs(k + 1) == s1.after_allocs(k));
    assert(s.alloc_results(k + 1) == seq![s.alloc_result()] + s1.alloc_results(k));
    if k > 0 {
        lemma_allocs_unfold(s1, (k - 1) as nat);
        assert(s.after_allocs(k) == s1.after_allocs((k - 1) as nat));
        assert(s.alloc_results(k) == seq![s.alloc_result()] + s1.alloc_results((k - 1) as nat));
        assert(s.alloc_results(k + 1) =~= s.alloc_results(k).push(s.after_allocs(k).alloc_result()));
    } else {
        assert(s1.after_allocs(0) == s1);
        assert(s.after_allocs(0) == s);
        assert(s1.alloc_results(0) == Seq::<Option<nat>>::empty());
        assert(s.alloc_results(0) == Seq::<Option<nat>>::empty());
        assert(s.alloc_results(1) =~= seq![s.alloc_result()]);
    }
}

/// Takes five frames, returns them in the order taken, and takes five again,
/// then returns those too. Gives the two batches of frame numbers.
pub fn frame_allocator_test(allocator: &mut StackFrameAllocator, mem: &mut PhysMemory) -> (r: (
    Vec<usize>,
    Vec<usize>,
))
    requires
        old(allocator)@.wf(),
        old(mem).wf(),
        covers(*old(mem), old(allocator)@),
        old(allocator)@.remaining() >= 5,
    ensures
        final(allocator)@.wf(),
        final(allocator)@.remaining() == old(allocator)@.remaining(),
        final(allocator)@.start == old(allocator)@.start,
        final(allocator)@.end == old(allocator)@.end,
        r.0@.len() == 5,
        r.0@.no_duplicates(),
        forall|k: int| 0 <= k < 5 ==> !old(allocator)@.outstanding().contains(#[trigger] r.0@[k] as nat),
        r.1@ == r.0@.reverse(),
        forall|k: int| 0 <= k < 5 ==> #[trigger] old(allocator)@.alloc_results(5)[k] == Some(r.0@[k] as nat),
        final(allocator)@ == old(allocator)@.after_allocs(5).dealloc_all(r.1@),
{
    let ghost s0 = allocator@;
    let mut v: Vec<FrameTracker> = Vec::new();
    let mut first: Vec<usize> = Vec::new();
    let mut i: usize = 0;
    while i < 5
        invariant
            i <= 5,
            allocator@.wf(),
            mem.wf(),
            covers(*mem, allocator@),
            allocator@.start == s0.start,
            allocator@.end == s0.end,
            v@.len() == i,
            first@.len() == i,
            forall|k: int| 0 <= k < i ==> #[trigger] v@[k].frame() == first@[k],
            first@.no_duplicates(),
            forall|k: int| 0 <= k < i ==> allocator@.outstanding().contains(#[trigger] first@[k] as nat),
            forall|k: int| 0 <= k < i ==> !s0.outstanding().contains(#[trigger] first@[k] as nat),
            forall|p: nat| #[trigger] s0.outstanding().contains(p) ==> allocator@.outstanding().contains(p),
            allocator@.remaining() + i == s0.remaining(),
            s0.remaining() >= 5,
            allocator@ == s0.after_allocs(i as nat),
            forall|k: int| 0 <= k < i ==> #[trigger] s0.alloc_results(i as nat)[k] == Some(first@[k] as nat),
        decreases 5 - i,
    {
        proof {
            lemma_alloc_step(allocator@);
            lemma_allocs_unfold(s0, i as nat);
        }
        let ghost prev = allocator@;
        let got = frame_alloc(allocator, mem);
        assert(got is Some);
        let t = got.unwrap();
        let ghost before = first@;
        first.push(t.ppn().0);
        v.push(t);
        assert forall|a: int, b: int| 0 <= a < first@.len() && 0 <= b < first@.len() && a != b implies first@[a] != first@[b] by {
            if a == i as int {
                assert(first@[b] == before[b]);
                assert(prev.outstanding().contains(first@[b] as nat));
            } else if b == i as int {
                assert(first@[a] == before[a]);
                assert(prev.outstanding().contains(first@[a] as nat));
            } else {
                assert(first@[a] == before[a] && first@[b] == before[b]);
            }
        }
        i = i + 1;
    }
    let ghost s1 = allocator@;
    let ghost fs = first@;
    proof {
        assert(s0.after_allocs(0) == s0);
        lemma_allocs_unfold(s0, 4);
    }
    let mut j: usize = 0;
    while j < 5
        invariant
            j <= 5,
            s1.wf(),
            fs == first@,
            fs.len() == 5,
            fs.no_duplicates(),
            forall|k: int| 0 <= k < 5 ==> s1.outstanding().contains(#[trigger] fs[k] as nat),
            allocator@ == s1.dealloc_all(fs.subrange(0, j as int)),
            allocator@.wf(),
            mem.wf(),
            covers(*mem, allocator@),
            v@.len() == 5 - j,
            forall|k: int| 0 <= k < 5 - j ==> #[trigger] v@[k].frame() == fs[k + j],
            forall|k: int| j <= k < 5 ==> allocator@.outstanding().contains(#[trigger] fs[k] as nat),
        decreases 5 - j,
    {
        let t = v.remove(0);
        assert(t.frame() == fs[j as int]);
        proof {
            lemma_dealloc_step(allocator@, fs[j as int]);
        }
        t.release(allocator);
        proof {
            assert(fs.subrange(0, j + 1).drop_last() =~= fs.subrange(0, j as int));
            assert forall|k: int| j + 1 <= k < 5 implies allocator@.outstanding().contains(#[trigger] fs[k] as nat) by {
                assert(fs[k] != fs[j as int]);
            }
        }
        j = j + 1;
    }
    assert(fs.subrange(0, 5) =~= fs);
    proof {
        lemma_free_then_realloc(s1, fs);
        let rs = s1.dealloc_all(fs).alloc_results(fs.len());
        assert forall|m: int| 0 <= m < 5 implies #[trigger] rs[m] == Some(fs[4 - m] as nat) by {}
    }
    let ghost t0 = allocator@;
    let mut second: Vec<usize> = Vec::new();
    let mut w: Vec<FrameTracker> = Vec::new();
    let mut k: usize = 0;
    while k < 5
        invariant
            k <= 5,
            s1.wf(),
            t0 == s1.dealloc_all(fs),
            fs.len() == 5,
            forall|m: int| 0 <= m < 5 ==> #[trigger] t0.alloc_results(5)[m] == Some(fs[4 - m] as nat),
            t0.after_allocs(5) == s1,
            allocator@ == t0.after_allocs(k as nat),
            allocator@.wf(),
            mem.wf(),
            covers(*mem, allocator@),
            second@.len() == k,
            w@.len() == k,
            forall|m: int| 0 <= m < k ==> #[trigger] second@[m] == fs[4 - m],
            forall|m: int| 0 <= m < k ==> #[trigger] w@[m].frame() == fs[4 - m],
        decreases 5 - k,
    {
        proof {
            lemma_allocs_unfold(t0, k as nat);
            lemma_alloc_step(allocator@);
            assert(t0.alloc_results(5)[k as int] == t0.alloc_results((k + 1) as nat)[k as int]) by {
                lemma_results_prefix(t0, (k + 1) as nat, 5);
            }
        }
        let t = frame_alloc(allocator, mem).unwrap();
        second.push(t.ppn().0);
        w.push(t);
        k = k + 1;
    }
    let mut m: usize = 0;
    while m < 5
        invariant
            m <= 5,
            s1.wf(),
            allocator@.wf(),
            allocator@ == s1.dealloc_all(second@.subrange(0, m as int)),
            allocator@.start == s0.start,
            allocator@.end == s0.end,
            w@.len() == 5 - m,
            fs.len() == 5,
            fs.no_duplicates(),
            second@.len() == 5,
            forall|q: int| 0 <= q < 5 ==> #[trigger] second@[q] == fs[4 - q],
            forall|q: int| 0 <= q < 5 - m ==> #[trigger] w@[q].frame() == fs[4 - (q + m)],
            forall|q: int| m <= q < 5 ==> allocator@.outstanding().contains(#[trigger] fs[4 - q] as nat),
            allocator@.remaining() == s1.remaining() + m,
            s1.remaining() + 5 == s0.remaining(),
        decreases 5 - m,
    {
        let t = w.remove(0);
        assert(t.frame() == fs[4 - m]);
        proof {
            lemma_dealloc_step(allocator@, fs[4 - m]);
        }
        t.release(allocator);
        proof {
            assert forall|q: int| m + 1 <= q < 5 implies allocator@.outstanding().contains(#[trigger] fs[4 - q] as nat) by {
                assert(fs[4 - q] != fs[4 - m]);
            }
            assert(second@.subrange(0, m + 1).drop_last() =~= second@.subrange(0, m as int));
        }
        m = m + 1;
    }
    assert(second@.subrange(0, 5) =~= second@);
    assert(second@ =~= first@.reverse());
    (first, second)
}

proof fn lemma_results_prefix(s: AllocState, a: nat, b: nat)
    requires
        a <= b,
    ensures
        forall|i: int| 0 <= i < a ==> #[trigger] s.alloc_results(a)[i] == s.alloc_results(b)[i],
    decreases b,
{
    if a < b {
        lemma_results_prefix(s, a, (b - 1) as nat);
        lemma_allocs_unfold(s, (b - 1) as nat);
        assert forall|i: int| 0 <= i < a implies #[trigger] s.alloc_results(a)[i] == s.alloc_results(b)[i] by {
            assert(s.alloc_results(a)[i] == s.alloc_results((b - 1) as nat)[i]);
        }
    }
}

proof fn lemma_pool_len_bound(s: AllocState)
    requires
        s.wf(),
    ensures
        s.recycled.len() <= s.current - s.start,
{
    let f = |x: usize| x as int - s.start;
    let img = s.recycled.map_values(f);
    assert forall|i: int, j: int| 0 <= i < img.len() && 0 <= j < img.len() && i != j implies img[i] != img[j] by {
        assert(s.recycled[i] != s.recycled[j]);
    }
    assert(img.no_duplicates());
    let range = Set::new(|v: int| 0 <= v < s.current - s.start);
    assert(range =~= vstd::set_lib::set_int_range(0, s.current - s.start));
    vstd::set_lib::lemma_int_range(0, s.current - s.start);
    assert(img.to_set().subset_of(range));
    img.unique_seq_to_set();
    vstd::set_lib::lemma_len_subset(img.to_set(), range);
}

} // verus!
