//! A window of physical memory: a run of consecutive frames, each 4 KiB of
//! bytes, read and written by frame number.

use vstd::prelude::*;
use crate::address::{PAGE_SIZE, ENTRIES_PER_NODE};

verus! {

/// The eight bytes `b0..b7` read as a little-endian 64-bit word.
pub open spec fn le_word(b0: u8, b1: u8, b2: u8, b3: u8, b4: u8, b5: u8, b6: u8, b7: u8) -> u64 {
    (b0 as u64) | ((b1 as u64) << 8u64) | ((b2 as u64) << 16u64) | ((b3 as u64) << 24u64)
        | ((b4 as u64) << 32u64) | ((b5 as u64) << 40u64) | ((b6 as u64) << 48u64) | ((b7 as u64)
        << 56u64)
}

proof fn lemma_le_word_bytes(v: u64)
    ensures
        le_word(
            v as u8,
            (v >> 8u64) as u8,
            (v >> 16u64) as u8,
            (v >> 24u64) as u8,
            (v >> 32u64) as u8,
            (v >> 40u64) as u8,
            (v >> 48u64) as u8,
            (v >> 56u64) as u8,
        ) == v,
{
    assert(((v as u8) as u64) | ((((v >> 8u64) as u8) as u64) << 8u64) | ((((v >> 16u64) as u8) as u64)
        << 16u64) | ((((v >> 24u64) as u8) as u64) << 24u64) | ((((v >> 32u64) as u8) as u64)
        << 32u64) | ((((v >> 40u64) as u8) as u64) << 40u64) | ((((v >> 48u64) as u8) as u64)
        << 48u64) | ((((v >> 56u64) as u8) as u64) << 56u64) == v) by (bit_vector);
}

proof fn lemma_le_word_zero()
    ensures
        le_word(0, 0, 0, 0, 0, 0, 0, 0) == 0,
{
    assert(((0u8 as u64) | ((0u8 as u64) << 8u64) | ((0u8 as u64) << 16u64) | ((0u8 as u64)
        << 24u64) | ((0u8 as u64) << 32u64) | ((0u8 as u64) << 40u64) | ((0u8 as u64)
        << 48u64) | ((0u8 as u64) << 56u64)) == 0u64) by (bit_vector);
}

proof fn lemma_frame_start_bound(k: nat, n: nat)
    requires
        k < n,
    ensures
        k * PAGE_SIZE + PAGE_SIZE <= n * PAGE_SIZE,
{
    assert(k * 4096 + 4096 <= n * 4096) by (nonlinear_arith)
        requires
            k < n,
    ;
}

proof fn lemma_word_from_bytes(m1: PhysMemory, m2: PhysMemory, p: nat, i: nat)
    requires
        m1.backed(p) == m2.backed(p),
        forall|k: nat| k < 8 ==> #[trigger] m1.byte(p, 8 * i + k) == m2.byte(p, 8 * i + k),
    ensures
        m1.word(p, i) == m2.word(p, i),
{
    assert(m1.byte(p, 8 * i + 0) == m2.byte(p, 8 * i + 0));
}

/// Physical memory holding the frames `[base, base + frames)`.
pub struct PhysMemory {
    base: usize,
    frames: usize,
    bytes: Vec<u8>,
}

impl PhysMemory {
    /// The first frame held.
    pub closed spec fn base(self) -> nat {
        self.base as nat
    }

    /// One past the last frame held.
    pub closed spec fn end(self) -> nat {
        (self.base + self.frames) as nat
    }

    pub closed spec fn wf(self) -> bool {
        &&& self.bytes@.len() == self.frames * PAGE_SIZE
        &&& self.frames * PAGE_SIZE <= usize::MAX
        &&& self.base + self.frames <= usize::MAX
    }

    /// Whether frame `ppn` lies in this memory.
    pub open spec fn backed(self, ppn: nat) -> bool {
        self.base() <= ppn < self.end()
    }

    /// Byte `off` of frame `ppn`.
    pub closed spec fn byte(self, ppn: nat, off: nat) -> u8 {
        self.bytes@[(ppn - self.base) * PAGE_SIZE + off]
    }

    /// The 4096 bytes of frame `ppn`.
    pub open spec fn frame(self, ppn: nat) -> Seq<u8> {
        Seq::new(PAGE_SIZE as nat, |o: int| self.byte(ppn, o as nat))
    }

    /// Word `idx` of frame `ppn`; a frame outside this memory reads as zeros.
    pub open spec fn word(self, ppn: nat, idx: nat) -> u64 {
        if self.backed(ppn) {
            le_word(
                self.byte(ppn, 8 * idx),
                self.byte(ppn, 8 * idx + 1),
                self.byte(ppn, 8 * idx + 2),
                self.byte(ppn, 8 * idx + 3),
                self.byte(ppn, 8 * idx + 4),
                self.byte(ppn, 8 * idx + 5),
                self.byte(ppn, 8 * idx + 6),
                self.byte(ppn, 8 * idx + 7),
            )
        } else {
            0
        }
    }

    /// Whether every frame but `ppn` holds the same bytes in `self` and `other`.
    pub open spec fn same_except(self, other: Self, ppn: nat) -> bool {
        &&& self.base() == other.base()
        &&& self.end() == other.end()
        &&& forall|p: nat| #[trigger] self.backed(p) && p != ppn ==> self.frame(p) == other.frame(p)
    }

    /// The frames held are numbered below `usize::MAX`.
    pub proof fn lemma_end_bound(self)
        requires
            self.wf(),
        ensures
            self.end() <= usize::MAX,
    {
    }

    /// Memory over the frames `[base, base + frames)`, all zero.
    pub fn new(base: usize, frames: usize) -> (r: Self)
        requires
            frames * PAGE_SIZE <= usize::MAX,
            base + frames <= usize::MAX,
        ensures
            r.wf(),
            r.base() == base,
            r.end() == base + frames,
            forall|p: nat| #[trigger] r.backed(p) ==> r.frame(p) == Seq::new(PAGE_SIZE as nat, |o: int| 0u8),
    {
        let n: usize = frames * PAGE_SIZE;
        let mut bytes: Vec<u8> = Vec::new();
        let mut i: usize = 0;
        while i < n
            invariant
                i <= n,
                bytes@.len() == i,
                forall|j: int| 0 <= j < i ==> bytes@[j] == 0u8,
            decreases n - i,
        {
            bytes.push(0u8);
            i = i + 1;
        }
        let r = PhysMemory { base, frames, bytes };
        assert forall|p: nat| #[trigger] r.backed(p) implies r.frame(p) == Seq::new(PAGE_SIZE as nat, |o: int| 0u8) by {
            assert(r.frame(p) =~= Seq::new(PAGE_SIZE as nat, |o: int| 0u8));
        }
        r
    }

    /// Whether frame `ppn` lies in this memory.
    pub fn is_backed(&self, ppn: usize) -> (r: bool)
        requires
            self.wf(),
        ensures
            r == self.backed(ppn as nat),
    {
        self.base <= ppn && ppn - self.base < self.frames
    }

    /// Sets every byte of frame `ppn` to zero.
    pub fn zero_frame(&mut self, ppn: usize)
        requires
            old(self).wf(),
            old(self).backed(ppn as nat),
        ensures
            final(self).wf(),
            final(self).frame(ppn as nat) == Seq::new(PAGE_SIZE as nat, |o: int| 0u8),
            final(self).same_except(*old(self), ppn as nat),
            forall|i: nat| i < ENTRIES_PER_NODE ==> #[trigger] final(self).word(ppn as nat, i) == 0,
            forall|p: nat, i: nat|
                p != ppn && i < ENTRIES_PER_NODE ==> #[trigger] final(self).word(p, i) == old(
                    self,
                ).word(p, i),
    {
        proof {
            lemma_frame_start_bound((ppn - self.base) as nat, self.frames as nat);
        }
        let start: usize = (ppn - self.base) * PAGE_SIZE;
        let mut o: usize = 0;
        while o < PAGE_SIZE
            invariant
                self.wf(),
                self.base == old(self).base,
                self.frames == old(self).frames,
                start == (ppn - self.base) * PAGE_SIZE,
                self.backed(ppn as nat),
                o <= PAGE_SIZE,
                forall|j: int| start <= j < start + o ==> self.bytes@[j] == 0u8,
                forall|j: int|
                    0 <= j < self.bytes@.len() && !(start <= j < start + PAGE_SIZE) ==> self.bytes@[j]
                        == old(self).bytes@[j],
            decreases PAGE_SIZE - o,
        {
            self.bytes.set(start + o, 0u8);
            o = o + 1;
        }
        assert(self.frame(ppn as nat) =~= Seq::new(PAGE_SIZE as nat, |o: int| 0u8));
        assert forall|p: nat| #[trigger] self.backed(p) && p != ppn implies self.frame(p) == old(self).frame(p) by {
            assert(self.frame(p) =~= old(self).frame(p));
        }
        assert forall|i: nat| i < ENTRIES_PER_NODE implies #[trigger] self.word(ppn as nat, i) == 0 by {
            lemma_le_word_zero();
        }
        assert forall|p: nat, i: nat|
            p != ppn && i < ENTRIES_PER_NODE implies #[trigger] self.word(p, i) == old(self).word(p, i) by {
            if self.backed(p) {
                lemma_frame_start_bound((p - self.base) as nat, self.frames as nat);
                assert forall|k: nat| k < 8 implies #[trigger] self.byte(p, 8 * i + k) == old(self).byte(p, 8 * i + k) by {
                    assert(self.frame(p)[(8 * i + k) as int] == old(self).frame(p)[(8 * i + k) as int]);
                }
                lemma_word_from_bytes(*self, *old(self), p, i);
            }
        }
    }

    /// Word `idx` of frame `ppn`.
    pub fn read_word(&self, ppn: usize, idx: usize) -> (r: u64)
        requires
            self.wf(),
            self.backed(ppn as nat),
            idx < ENTRIES_PER_NODE,
        ensures
            r == self.word(ppn as nat, idx as nat),
    {
        proof {
            lemma_frame_start_bound((ppn - self.base) as nat, self.frames as nat);
        }
        let a: usize = (ppn - self.base) * PAGE_SIZE + 8 * idx;
        let b0 = self.bytes[a] as u64;
        let b1 = self.bytes[a + 1] as u64;
        let b2 = self.bytes[a + 2] as u64;
        let b3 = self.bytes[a + 3] as u64;
        let b4 = self.bytes[a + 4] as u64;
        let b5 = self.bytes[a + 5] as u64;
        let b6 = self.bytes[a + 6] as u64;
        let b7 = self.bytes[a + 7] as u64;
        b0 | (b1 << 8u64) | (b2 << 16u64) | (b3 << 24u64) | (b4 << 32u64) | (b5 << 40u64) | (b6
            << 48u64) | (b7 << 56u64)
    }

    /// Stores `v` as word `idx` of frame `ppn`.
    #[verifier::rlimit(40)]
    pub fn write_word(&mut self, ppn: usize, idx: usize, v: u64)
        requires
            old(self).wf(),
            old(self).backed(ppn as nat),
            idx < ENTRIES_PER_NODE,
        ensures
            final(self).wf(),
            final(self).base() == old(self).base(),
            final(self).end() == old(self).end(),
            final(self).word(ppn as nat, idx as nat) == v,
            forall|p: nat, i: nat|
                i < ENTRIES_PER_NODE && (p != ppn || i != idx) ==> #[trigger] final(self).word(p, i)
                    == old(self).word(p, i),
    {
        proof {
            lemma_frame_start_bound((ppn - self.base) as nat, self.frames as nat);
            lemma_le_word_bytes(v);
        }
        let a: usize = (ppn - self.base) * PAGE_SIZE + 8 * idx;
        let ghost before = self.bytes@;
        self.bytes.set(a, #[verifier::truncate] (v as u8));
        self.bytes.set(a + 1, #[verifier::truncate] ((v >> 8u64) as u8));
        self.bytes.set(a + 2, #[verifier::truncate] ((v >> 16u64) as u8));
        self.bytes.set(a + 3, #[verifier::truncate] ((v >> 24u64) as u8));
        self.bytes.set(a + 4, #[verifier::truncate] ((v >> 32u64) as u8));
        self.bytes.set(a + 5, #[verifier::truncate] ((v >> 40u64) as u8));
        self.bytes.set(a + 6, #[verifier::truncate] ((v >> 48u64) as u8));
        self.bytes.set(a + 7, #[verifier::truncate] ((v >> 56u64) as u8));
        assert(forall|j: int| 0 <= j < before.len() && !(a <= j < a + 8) ==> self.bytes@[j] == before[j]);
        assert(self.word(ppn as nat, idx as nat) == v);
        assert forall|p: nat, i: nat|
            i < ENTRIES_PER_NODE && (p != ppn || i != idx) implies #[trigger] self.word(p, i)
                == old(self).word(p, i) by {
            if self.backed(p) {
                let q = (p - self.base) * PAGE_SIZE + 8 * i;
                lemma_frame_start_bound((p - self.base) as nat, self.frames as nat);
                assert(q + 8 <= a || a + 8 <= q);
                lemma_word_from_bytes(*self, *old(self), p, i);
            }
        }
    }

    /// Bytes `[start, end)` of frame `ppn`.
    pub fn read_bytes(&self, ppn: usize, start: usize, end: usize) -> (r: Vec<u8>)
        requires
            self.wf(),
            self.backed(ppn as nat),
            start <= end <= PAGE_SIZE,
        ensures
            r@ == self.frame(ppn as nat).subrange(start as int, end as int),
    {
        proof {
            lemma_frame_start_bound((ppn - self.base) as nat, self.frames as nat);
        }
        let a: usize = (ppn - self.base) * PAGE_SIZE;
        let mut r: Vec<u8> = Vec::new();
        let mut o: usize = start;
        while o < end
            invariant
                start <= o <= end <= PAGE_SIZE,
                a == (ppn - self.base) * PAGE_SIZE,
                a + PAGE_SIZE <= self.bytes@.len(),
                self.wf(),
                self.backed(ppn as nat),
                r@ == self.frame(ppn as nat).subrange(start as int, o as int),
            decreases end - o,
        {
            r.push(self.bytes[a + o]);
            o = o + 1;
            assert(r@ =~= self.frame(ppn as nat).subrange(start as int, o as int));
        }
        r
    }

    /// Copies `data` into frame `ppn` from byte `off` on.
    pub fn write_bytes(&mut self, ppn: usize, off: usize, data: &[u8])
        requires
            old(self).wf(),
            old(self).backed(ppn as nat),
            off + data@.len() <= PAGE_SIZE,
        ensures
            final(self).wf(),
            final(self).same_except(*old(self), ppn as nat),
            final(self).frame(ppn as nat) == old(self).frame(ppn as nat).subrange(0, off as int)
                + data@ + old(self).frame(ppn as nat).subrange(
                off + data@.len(),
                PAGE_SIZE as int,
            ),
    {
        proof {
            lemma_frame_start_bound((ppn - self.base) as nat, self.frames as nat);
        }
        let a: usize = (ppn - self.base) * PAGE_SIZE;
        let mut k: usize = 0;
        while k < data.len()
            invariant
                off + data@.len() <= PAGE_SIZE,
                a == (ppn - self.base) * PAGE_SIZE,
                a + PAGE_SIZE <= self.bytes@.len(),
                self.wf(),
                self.base == old(self).base,
                self.frames == old(self).frames,
                self.backed(ppn as nat),
                k <= data@.len(),
                forall|j: int| a + off <= j < a + off + k ==> self.bytes@[j] == data@[j - a - off],
                forall|j: int|
                    0 <= j < self.bytes@.len() && !(a + off <= j < a + off + k) ==> self.bytes@[j]
                        == old(self).bytes@[j],
            decreases data@.len() - k,
        {
            self.bytes.set(a + off + k, data[k]);
            k = k + 1;
        }
        assert(self.frame(ppn as nat) =~= old(self).frame(ppn as nat).subrange(0, off as int)
            + data@ + old(self).frame(ppn as nat).subrange(off + data@.len(), PAGE_SIZE as int));
        assert forall|p: nat| #[trigger] self.backed(p) && p != ppn implies self.frame(p) == old(self).frame(p) by {
            assert(self.frame(p) =~= old(self).frame(p));
        }
    }

    /// Memories that agree on every frame but `ppn` agree on every word
    /// outside it.
    pub proof fn lemma_same_except_words(self, other: Self, ppn: nat)
        requires
            self.same_except(other, ppn),
        ensures
            forall|p: nat, i: nat|
                p != ppn && i < ENTRIES_PER_NODE ==> #[trigger] self.word(p, i) == other.word(p, i),
    {
        assert forall|p: nat, i: nat|
            p != ppn && i < ENTRIES_PER_NODE implies #[trigger] self.word(p, i) == other.word(p, i) by {
            if self.backed(p) {
                assert forall|k: nat| k < 8 implies #[trigger] self.byte(p, 8 * i + k) == other.byte(p, 8 * i + k) by {
                    assert(self.frame(p)[(8 * i + k) as int] == other.frame(p)[(8 * i + k) as int]);
                }
                lemma_word_from_bytes(self, other, p, i);
            }
        }
    }
}

} // verus!
