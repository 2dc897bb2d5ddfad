//! Page-table entries and the three-level page table that maps virtual page
//! numbers to physical frames.

use vstd::prelude::*;
use crate::address::{vpn_index, PhysPageNum, VirtPageNum, ENTRIES_PER_NODE};
use crate::frame_allocator::{
    covers, frame_alloc, lemma_alloc_step, lemma_dealloc_step, AllocState, FrameTracker,
    StackFrameAllocator,
};
use crate::memory::PhysMemory;

verus! {

/// Entry is valid.
pub const FLAG_V: u8 = 1;
/// Page may be read.
pub const FLAG_R: u8 = 2;
/// Page may be written.
pub const FLAG_W: u8 = 4;
/// Page may be executed.
pub const FLAG_X: u8 = 8;
/// Page is reachable from user mode.
pub const FLAG_U: u8 = 16;
/// Mapping is global.
pub const FLAG_G: u8 = 32;
/// Page was accessed.
pub const FLAG_A: u8 = 64;
/// Page was written.
pub const FLAG_D: u8 = 128;

/// Mask of the 44 bits of a physical frame number.
pub const PPN_MASK: u64 = 0xfff_ffff_ffff;
/// The first frame number that does not fit in 44 bits.
pub const PPN_LIMIT: u64 = 0x1000_0000_0000;
/// Translation-mode tag of the three-level scheme, in the top four bits of a token.
pub const MODE_SV39: u64 = 8;

/// Bits of an entry that points at frame `ppn` with `flags`.
pub open spec fn pte_bits(ppn: u64, flags: u8) -> u64 {
    (ppn << 10u64) | (flags as u64)
}

/// Whether an entry has its valid bit set.
pub open spec fn pte_valid(bits: u64) -> bool {
    bits & 1u64 == 1u64
}

/// The frame an entry points at.
pub open spec fn pte_frame(bits: u64) -> nat {
    ((bits >> 10u64) & PPN_MASK) as nat
}

/// The flag bits of an entry.
pub open spec fn pte_flags(bits: u64) -> u8 {
    bits as u8
}

/// An entry built from a 44-bit frame number and a flag set decodes to that
/// frame and those flags, and is valid exactly when the flags hold the valid bit.
pub proof fn lemma_pte_bits(ppn: u64, flags: u8)
    requires
        ppn < PPN_LIMIT,
    ensures
        pte_frame(pte_bits(ppn, flags)) == ppn,
        pte_flags(pte_bits(ppn, flags)) == flags,
        pte_valid(pte_bits(ppn, flags)) <==> flags & 1u8 == 1u8,
{
    assert((((ppn << 10u64) | (flags as u64)) >> 10u64) & 0xfff_ffff_ffffu64 == ppn) by (bit_vector)
        requires
            ppn < 0x1000_0000_0000u64,
    ;
    assert(((ppn << 10u64) | (flags as u64)) as u8 == flags) by (bit_vector);
    assert((((ppn << 10u64) | (flags as u64)) & 1u64 == 1u64) <==> (flags & 1u8 == 1u8))
        by (bit_vector);
}

proof fn lemma_zero_invalid()
    ensures
        !pte_valid(0),
{
    assert(0u64 & 1u64 != 1u64) by (bit_vector);
}

/// A set of the eight entry flags; every bit pattern is a valid set.
#[derive(Clone, Copy, Debug, PartialEq, Eq, Structural)]
pub struct PTEFlags {
    pub bits: u8,
}

impl PTEFlags {
    /// The set with the given bits.
    pub fn from_bits(bits: u8) -> (r: Self)
        ensures
            r.bits == bits,
    {
        PTEFlags { bits }
    }

    /// The empty set.
    pub fn empty() -> (r: Self)
        ensures
            r.bits == 0,
    {
        PTEFlags { bits: 0 }
    }

    /// The flags in either set.
    pub fn union(self, other: Self) -> (r: Self)
        ensures
            r.bits == self.bits | other.bits,
    {
        PTEFlags { bits: self.bits | other.bits }
    }

    /// The flags in both sets.
    pub fn intersection(self, other: Self) -> (r: Self)
        ensures
            r.bits == self.bits & other.bits,
    {
        PTEFlags { bits: self.bits & other.bits }
    }

    /// Whether every flag of `other` is in this set.
    pub fn contains(self, other: Self) -> (r: bool)
        ensures
            r == (self.bits & other.bits == other.bits),
    {
        self.bits & other.bits == other.bits
    }
}

/// One slot of a radix node: a frame number and eight flags.
#[derive(Clone, Copy, Debug, PartialEq, Eq, Structural)]
pub struct PageTableEntry {
    pub bits: u64,
}

impl PageTableEntry {
    /// An entry pointing at `ppn` with `flags`.
    pub fn new(ppn: PhysPageNum, flags: PTEFlags) -> (r: Self)
        requires
            ppn.0 < PPN_LIMIT,
        ensures
            r.bits == pte_bits(ppn.0 as u64, flags.bits),
            pte_frame(r.bits) == ppn.0,
            pte_flags(r.bits) == flags.bits,
            pte_valid(r.bits) <==> flags.bits & 1u8 == 1u8,
    {
        proof {
            lemma_pte_bits(ppn.0 as u64, flags.bits);
        }
        PageTableEntry { bits: ((ppn.0 as u64) << 10u64) | (flags.bits as u64) }
    }

    /// The all-zero entry, which is not valid.
    pub fn empty() -> (r: Self)
        ensures
            r.bits == 0,
            !pte_valid(r.bits),
    {
        proof {
            lemma_zero_invalid();
        }
        PageTableEntry { bits: 0 }
    }

    /// The frame this entry points at.
    pub fn ppn(&self) -> (r: PhysPageNum)
        ensures
            pte_frame(self.bits) <= usize::MAX ==> r.0 == pte_frame(self.bits),
    {
        PhysPageNum(#[verifier::truncate] (((self.bits >> 10u64) & PPN_MASK) as usize))
    }

    /// The flags of this entry.
    pub fn flags(&self) -> (r: PTEFlags)
        ensures
            r.bits == pte_flags(self.bits),
    {
        PTEFlags { bits: #[verifier::truncate] (self.bits as u8) }
    }

    /// Whether the valid flag is set.
    pub fn is_valid(&self) -> (r: bool)
        ensures
            r == pte_valid(self.bits),
    {
        self.bits & 1u64 == 1u64
    }

    /// Whether the readable flag is set.
    pub fn readable(&self) -> (r: bool)
        ensures
            r == (self.bits & 2u64 == 2u64),
    {
        self.bits & 2u64 == 2u64
    }

    /// Whether the writable flag is set.
    pub fn writable(&self) -> (r: bool)
        ensures
            r == (self.bits & 4u64 == 4u64),
    {
        self.bits & 4u64 == 4u64
    }

    /// Whether the executable flag is set.
    pub fn executable(&self) -> (r: bool)
        ensures
            r == (self.bits & 8u64 == 8u64),
    {
        self.bits & 8u64 == 8u64
    }
}

/// The leaf slot that a walk from `root` reaches for page `vpn`; `None` when
/// an entry of the first two levels is not valid.
pub open spec fn find_spec(mem: PhysMemory, root: nat, vpn: nat) -> Option<u64> {
    let e0 = mem.word(root, vpn_index(vpn, 0));
    if !pte_valid(e0) {
        None
    } else {
        let e1 = mem.word(pte_frame(e0), vpn_index(vpn, 1));
        if !pte_valid(e1) {
            None
        } else {
            Some(mem.word(pte_frame(e1), vpn_index(vpn, 2)))
        }
    }
}

/// The valid leaf entry for page `vpn`, if there is one.
pub open spec fn translate_spec(mem: PhysMemory, root: nat, vpn: nat) -> Option<u64> {
    match find_spec(mem, root, vpn) {
        Some(e) => if pte_valid(e) {
            Some(e)
        } else {
            None
        },
        None => None,
    }
}

/// How many radix nodes a walk for `vpn` still lacks.
pub open spec fn missing_nodes(mem: PhysMemory, root: nat, vpn: nat) -> nat {
    let e0 = mem.word(root, vpn_index(vpn, 0));
    if !pte_valid(e0) {
        2
    } else if !pte_valid(mem.word(pte_frame(e0), vpn_index(vpn, 1))) {
        1
    } else {
        0
    }
}

/// Whether two pages have the same three radix indices.
pub open spec fn same_indices(v: nat, w: nat) -> bool {
    &&& vpn_index(v, 0) == vpn_index(w, 0)
    &&& vpn_index(v, 1) == vpn_index(w, 1)
    &&& vpn_index(v, 2) == vpn_index(w, 2)
}

/// Two pages that share their first two radix indices share the nodes on the
/// way to their leaves: once one of them has all its nodes, so has the other,
/// and mapping it allocates nothing.
pub proof fn lemma_shared_prefix(mem: PhysMemory, root: nat, v1: nat, v2: nat)
    requires
        missing_nodes(mem, root, v1) == 0,
        vpn_index(v1, 0) == vpn_index(v2, 0),
        vpn_index(v1, 1) == vpn_index(v2, 1),
    ensures
        missing_nodes(mem, root, v2) == 0,
{
}

/// The token that names a table rooted at frame `root`.
pub open spec fn token_spec(root: u64) -> u64 {
    (MODE_SV39 << 60u64) | root
}

/// The root frame that a token names.
pub open spec fn token_root(satp: u64) -> nat {
    ((satp & PPN_MASK) as usize) as nat
}

/// Word `idx` of the radix node in frame `frame`.
fn node_word(mem: &PhysMemory, frame: u64, idx: usize) -> (r: u64)
    requires
        mem.wf(),
        idx < ENTRIES_PER_NODE,
    ensures
        r == mem.word(frame as nat, idx as nat),
{
    proof {
        mem.lemma_end_bound();
    }
    if frame <= usize::MAX as u64 && mem.is_backed(frame as usize) {
        mem.read_word(frame as usize, idx)
    } else {
        0
    }
}

/// A three-level page table rooted at one frame. It owns the frames of its
/// radix nodes; the data frames that its leaves point at belong to the caller.
pub struct PageTable {
    root_ppn: PhysPageNum,
    frames: Vec<FrameTracker>,
    level1: Ghost<Set<nat>>,
    level2: Ghost<Set<nat>>,
}

impl PageTable {
    /// The frame of the root node.
    pub closed spec fn root(self) -> nat {
        self.root_ppn.0 as nat
    }

    /// The frames this table owns, in the order they were taken.
    pub closed spec fn owned(self) -> Seq<nat> {
        self.frames@.map_values(|t: FrameTracker| t.frame())
    }

    /// The valid leaf entry for page `vpn`, if there is one.
    pub open spec fn translation(self, mem: PhysMemory, vpn: nat) -> Option<u64> {
        translate_spec(mem, self.root(), vpn)
    }

    closed spec fn owns(self, f: nat) -> bool {
        self.owned().contains(f)
    }

    closed spec fn nodes_ok(self, mem: PhysMemory) -> bool {
        let root = self.root();
        let l1 = self.level1@;
        let l2 = self.level2@;
        &&& forall|i: nat|
            i < ENTRIES_PER_NODE && pte_valid(#[trigger] mem.word(root, i)) ==> l1.contains(
                pte_frame(mem.word(root, i)),
            )
        &&& forall|n: nat, i: nat|
            l1.contains(n) && i < ENTRIES_PER_NODE && pte_valid(#[trigger] mem.word(n, i))
                ==> l2.contains(pte_frame(mem.word(n, i)))
        &&& forall|i: nat, j: nat|
            i < ENTRIES_PER_NODE && j < ENTRIES_PER_NODE && pte_valid(#[trigger] mem.word(root, i))
                && pte_valid(#[trigger] mem.word(root, j)) && pte_frame(mem.word(root, i))
                == pte_frame(mem.word(root, j)) ==> i == j
        &&& forall|n: nat, i: nat, m: nat, j: nat|
            l1.contains(n) && l1.contains(m) && i < ENTRIES_PER_NODE && j < ENTRIES_PER_NODE
                && pte_valid(#[trigger] mem.word(n, i)) && pte_valid(#[trigger] mem.word(m, j))
                && pte_frame(mem.word(n, i)) == pte_frame(mem.word(m, j)) ==> n == m && i == j
    }

    /// The table is well formed in `mem` and its frames are outstanding in `a`.
    pub closed spec fn wf(self, mem: PhysMemory, a: AllocState) -> bool {
        let l1 = self.level1@;
        let l2 = self.level2@;
        &&& mem.wf()
        &&& a.wf()
        &&& self.owned().no_duplicates()
        &&& forall|k: int|
            0 <= k < self.owned().len() ==> {
                &&& a.outstanding().contains(#[trigger] self.owned()[k])
                &&& mem.backed(self.owned()[k])
                &&& self.owned()[k] < PPN_LIMIT
            }
        &&& self.owns(self.root())
        &&& forall|f: nat| #[trigger] l1.contains(f) ==> self.owns(f) && f != self.root()
        &&& forall|f: nat|
            #[trigger] l2.contains(f) ==> self.owns(f) && f != self.root() && !l1.contains(f)
        &&& self.nodes_ok(mem)
    }

    /// A well-formed table lives in well-formed memory, draws on a
    /// well-formed allocator, and has a 44-bit root frame held by that memory.
    pub proof fn lemma_wf_parts(self, mem: PhysMemory, a: AllocState)
        requires
            self.wf(mem, a),
        ensures
            mem.wf(),
            a.wf(),
            mem.backed(self.root()),
            self.root() < PPN_LIMIT,
            a.outstanding().contains(self.root()),
    {
        let k = choose|k: int| 0 <= k < self.owned().len() && self.owned()[k] == self.root();
        assert(a.outstanding().contains(self.owned()[k]));
    }

    /// How many frames this table owns.
    pub fn frame_count(&self) -> (r: usize)
        ensures
            r == self.owned().len(),
    {
        self.frames.len()
    }

    /// A table with an empty root node in a freshly allocated frame.
    pub fn new(allocator: &mut StackFrameAllocator, mem: &mut PhysMemory) -> (r: Self)
        requires
            old(allocator)@.wf(),
            old(mem).wf(),
            covers(*old(mem), old(allocator)@),
            old(allocator)@.end <= PPN_LIMIT,
            old(allocator)@.remaining() >= 1,
        ensures
            r.wf(*final(mem), final(allocator)@),
            final(mem).wf(),
            final(allocator)@.wf(),
            final(allocator)@ == old(allocator)@.after_alloc(),
            final(allocator)@.remaining() + 1 == old(allocator)@.remaining(),
            r.owned() == seq![old(allocator)@.alloc_result()->0],
            forall|i: nat| i < ENTRIES_PER_NODE ==> #[trigger] final(mem).word(r.root(), i) == 0,
            forall|vpn: nat| #[trigger] missing_nodes(*final(mem), r.root(), vpn) == 2,
            r.root() == old(allocator)@.alloc_result()->0,
            final(mem).base() == old(mem).base(),
            final(mem).end() == old(mem).end(),
            forall|vpn: nat| find_spec(*final(mem), r.root(), vpn) is None,
            forall|vpn: nat| #[trigger] r.translation(*final(mem), vpn) is None,
    {
        proof {
            lemma_alloc_step(allocator@);
            lemma_zero_invalid();
        }
        let frame = frame_alloc(allocator, mem).unwrap();
        let root_ppn = frame.ppn();
        let mut frames: Vec<FrameTracker> = Vec::new();
        frames.push(frame);
        let r = PageTable {
            root_ppn,
            frames,
            level1: Ghost(Set::empty()),
            level2: Ghost(Set::empty()),
        };
        assert(r.owned() =~= seq![root_ppn.0 as nat]);
        assert(r.owns(r.root())) by {
            assert(r.owned()[0] == r.root());
        }
        r
    }

    /// A view of the table whose root is named by `satp`; it owns no frame.
    pub fn from_token(satp: u64) -> (r: Self)
        ensures
            r.root() == token_root(satp),
            r.owned().len() == 0,
    {
        let ppn: usize = #[verifier::truncate] ((satp & PPN_MASK) as usize);
        let r = PageTable {
            root_ppn: PhysPageNum(ppn),
            frames: Vec::new(),
            level1: Ghost(Set::empty()),
            level2: Ghost(Set::empty()),
        };
        r
    }

    /// The leaf slot for page `vpn`, valid or not; `None` when the walk meets
    /// a level-one or level-two entry that is not valid. Allocates nothing.
    pub fn find_pte(&self, mem: &PhysMemory, vpn: VirtPageNum) -> (r: Option<PageTableEntry>)
        requires
            mem.wf(),
        ensures
            match r {
                Some(e) => find_spec(*mem, self.root(), vpn.0 as nat) == Some(e.bits),
                None => find_spec(*mem, self.root(), vpn.0 as nat) is None,
            },
    {
        let idxs = vpn.indexes();
        let e0 = node_word(mem, self.root_ppn.0 as u64, idxs[0]);
        if e0 & 1u64 != 1u64 {
            return None;
        }
        let e1 = node_word(mem, (e0 >> 10u64) & PPN_MASK, idxs[1]);
        if e1 & 1u64 != 1u64 {
            return None;
        }
        Some(PageTableEntry { bits: node_word(mem, (e1 >> 10u64) & PPN_MASK, idxs[2]) })
    }

    /// How many radix nodes mapping page `vpn` would allocate.
    pub fn nodes_missing(&self, mem: &PhysMemory, vpn: VirtPageNum) -> (r: usize)
        requires
            mem.wf(),
        ensures
            r == missing_nodes(*mem, self.root(), vpn.0 as nat),
    {
        let idxs = vpn.indexes();
        let e0 = node_word(mem, self.root_ppn.0 as u64, idxs[0]);
        if e0 & 1u64 != 1u64 {
            return 2;
        }
        let e1 = node_word(mem, (e0 >> 10u64) & PPN_MASK, idxs[1]);
        if e1 & 1u64 != 1u64 {
            1
        } else {
            0
        }
    }

    /// The valid leaf entry for page `vpn`, if there is one.
    pub fn translate(&self, mem: &PhysMemory, vpn: VirtPageNum) -> (r: Option<PageTableEntry>)
        requires
            mem.wf(),
        ensures
            match r {
                Some(e) => self.translation(*mem, vpn.0 as nat) == Some(e.bits),
                None => self.translation(*mem, vpn.0 as nat) is None,
            },
    {
        match self.find_pte(mem, vpn) {
            Some(e) => if e.is_valid() {
                Some(e)
            } else {
                None
            },
            None => None,
        }
    }

    /// The token that names this table: the mode tag in the top four bits and
    /// the root frame in the low 44.
    pub fn token(&self) -> (r: u64)
        ensures
            r == token_spec(self.root() as u64),
    {
        (MODE_SV39 << 60u64) | (self.root_ppn.0 as u64)
    }

    /// Writes `bits` into leaf slot `i2` of node `n2`, the leaf node of `vpn`.
    fn set_leaf(&self, mem: &mut PhysMemory, Ghost(a): Ghost<AllocState>, vpn: Ghost<nat>, n2: u64, i2: usize, bits: u64)
        requires
            self.wf(*old(mem), a),
            pte_valid(old(mem).word(self.root(), vpn_index(vpn@, 0))),
            pte_valid(old(mem).word(pte_frame(old(mem).word(self.root(), vpn_index(vpn@, 0))), vpn_index(vpn@, 1))),
            n2 == pte_frame(old(mem).word(pte_frame(old(mem).word(self.root(), vpn_index(vpn@, 0))), vpn_index(vpn@, 1))),
            i2 == vpn_index(vpn@, 2),
        ensures
            self.wf(*final(mem), a),
            final(mem).base() == old(mem).base(),
            final(mem).end() == old(mem).end(),
            find_spec(*final(mem), self.root(), vpn@) == Some(bits),
            forall|v: nat| !same_indices(v, vpn@) ==> #[trigger] translate_spec(*final(mem), self.root(), v) == translate_spec(*old(mem), self.root(), v),
            forall|v: nat| #[trigger] missing_nodes(*final(mem), self.root(), v) == missing_nodes(*old(mem), self.root(), v),
    {
        let ghost root = self.root();
        let ghost l1 = self.level1@;
        let ghost l2 = self.level2@;
        let ghost n1 = pte_frame(mem.word(root, vpn_index(vpn@, 0)));
        assert(l1.contains(n1));
        assert(l2.contains(n2 as nat));
        assert(self.owns(n2 as nat));
        let ghost k = choose|k: int| 0 <= k < self.owned().len() && self.owned()[k] == n2 as nat;
        assert(mem.backed(self.owned()[k]));
        proof {
            mem.lemma_end_bound();
        }
        mem.write_word(n2 as usize, i2, bits);
        assert forall|v: nat| !same_indices(v, vpn@) implies #[trigger] translate_spec(*mem, root, v) == translate_spec(*old(mem), root, v) by {
            let e0 = old(mem).word(root, vpn_index(v, 0));
            if pte_valid(e0) {
                let m1 = pte_frame(e0);
                assert(l1.contains(m1));
                let e1 = old(mem).word(m1, vpn_index(v, 1));
                if pte_valid(e1) {
                    let m2 = pte_frame(e1);
                    if m2 == n2 as nat && vpn_index(v, 2) == i2 {
                        assert(m1 == n1 && vpn_index(v, 1) == vpn_index(vpn@, 1));
                        assert(vpn_index(v, 0) == vpn_index(vpn@, 0));
                        assert(false);
                    }
                }
            }
        }
        assert forall|v: nat| #[trigger] missing_nodes(*mem, root, v) == missing_nodes(*old(mem), root, v) by {
            let e0 = old(mem).word(root, vpn_index(v, 0));
            if pte_valid(e0) {
                assert(l1.contains(pte_frame(e0)));
            }
        }
    }

    /// Makes entry `i0` of the root valid, pointing at a fresh zeroed node
    /// when it was not; returns the level-one node it points at.
    fn ensure_root_entry(&mut self, allocator: &mut StackFrameAllocator, mem: &mut PhysMemory, i0: usize) -> (n1: u64)
        requires
            old(self).wf(*old(mem), old(allocator)@),
            covers(*old(mem), old(allocator)@),
            old(allocator)@.end <= PPN_LIMIT,
            i0 < ENTRIES_PER_NODE,
            !pte_valid(old(mem).word(old(self).root(), i0 as nat)) ==> old(allocator)@.remaining() >= 1,
        ensures
            final(self).wf(*final(mem), final(allocator)@),
            final(self).root() == old(self).root(),
            final(self).level1@.contains(n1 as nat),
            final(allocator)@.start == old(allocator)@.start,
            final(allocator)@.end == old(allocator)@.end,
            final(mem).base() == old(mem).base(),
            final(mem).end() == old(mem).end(),
            pte_valid(final(mem).word(final(self).root(), i0 as nat)),
            pte_frame(final(mem).word(final(self).root(), i0 as nat)) == n1,
            final(self).owned().subrange(0, old(self).owned().len() as int) == old(self).owned(),
            pte_valid(old(mem).word(old(self).root(), i0 as nat)) ==> {
                &&& final(self).owned() == old(self).owned()
                &&& *final(mem) == *old(mem)
                &&& final(allocator)@ == old(allocator)@
            },
            !pte_valid(old(mem).word(old(self).root(), i0 as nat)) ==> {
                &&& final(self).owned().len() == old(self).owned().len() + 1
                &&& final(allocator)@.remaining() + 1 == old(allocator)@.remaining()
                &&& pte_flags(final(mem).word(final(self).root(), i0 as nat)) == FLAG_V
                &&& forall|i: nat| i < ENTRIES_PER_NODE ==> #[trigger] final(mem).word(n1 as nat, i) == 0
            },
            forall|v: nat| #[trigger] translate_spec(*final(mem), final(self).root(), v) == translate_spec(*old(mem), old(self).root(), v),
    {
        let ghost root = self.root();
        let ghost l1 = self.level1@;
        let ghost l2 = self.level2@;
        let e0 = mem.read_word(self.root_ppn.0, i0);
        if e0 & 1u64 == 1u64 {
            return (e0 >> 10u64) & PPN_MASK;
        }
        let ghost old_mem = *mem;
        let ghost old_a = allocator@;
        proof {
            lemma_alloc_step(allocator@);
            lemma_zero_invalid();
            mem.lemma_end_bound();
        }
        let frame = frame_alloc(allocator, mem).unwrap();
        let f = frame.ppn();
        let ghost fs = f.0 as nat;
        assert(!self.owns(fs)) by {
            if self.owns(fs) {
                let k = choose|k: int| 0 <= k < self.owned().len() && self.owned()[k] == fs;
                assert(old_a.outstanding().contains(self.owned()[k]));
            }
        }
        let e = PageTableEntry::new(f, PTEFlags::from_bits(FLAG_V));
        assert(FLAG_V & 1u8 == 1u8) by (bit_vector);
        mem.write_word(self.root_ppn.0, i0, e.bits);
        self.frames.push(frame);
        self.level1 = Ghost(l1.insert(fs));
        assert(self.owned() =~= old(self).owned().push(fs));
        assert(forall|p: nat, i: nat| i < ENTRIES_PER_NODE && p != fs && !(p == root && i == i0) ==> #[trigger] mem.word(p, i) == old_mem.word(p, i));
        assert(forall|i: nat| i < ENTRIES_PER_NODE ==> !pte_valid(#[trigger] mem.word(fs, i)));
        assert forall|k: int| 0 <= k < self.owned().len() implies {
            &&& allocator@.outstanding().contains(#[trigger] self.owned()[k])
            &&& mem.backed(self.owned()[k])
            &&& self.owned()[k] < PPN_LIMIT
        } by {
            if k < old(self).owned().len() {
                assert(self.owned()[k] == old(self).owned()[k]);
            }
        }
        assert(self.owned().no_duplicates());
        assert(self.owns(root)) by {
            let k = choose|k: int| 0 <= k < old(self).owned().len() && old(self).owned()[k] == root;
            assert(self.owned()[k] == root);
        }
        assert forall|g: nat| #[trigger] self.level1@.contains(g) implies self.owns(g) && g != root by {
            if g == fs {
                assert(self.owned()[self.owned().len() - 1] == fs);
            } else {
                let k = choose|k: int| 0 <= k < old(self).owned().len() && old(self).owned()[k] == g;
                assert(self.owned()[k] == g);
            }
        }
        assert forall|g: nat| #[trigger] self.level2@.contains(g) implies self.owns(g) && g != root && !self.level1@.contains(g) by {
            let k = choose|k: int| 0 <= k < old(self).owned().len() && old(self).owned()[k] == g;
            assert(self.owned()[k] == g);
        }
        assert(self.nodes_ok(*mem));
        assert forall|v: nat| #[trigger] translate_spec(*mem, root, v) == translate_spec(old_mem, root, v) by {
            if vpn_index(v, 0) != i0 {
                let e0v = old_mem.word(root, vpn_index(v, 0));
                if pte_valid(e0v) {
                    assert(l1.contains(pte_frame(e0v)));
                    let e1v = old_mem.word(pte_frame(e0v), vpn_index(v, 1));
                    if pte_valid(e1v) {
                        assert(l2.contains(pte_frame(e1v)));
                    }
                }
            }
        }
        f.0 as u64
    }

    /// Makes entry `i1` of level-one node `n1` valid, pointing at a fresh
    /// zeroed node when it was not; returns the level-two node it points at.
    fn ensure_mid_entry(&mut self, allocator: &mut StackFrameAllocator, mem: &mut PhysMemory, n1: u64, i1: usize) -> (n2: u64)
        requires
            old(self).wf(*old(mem), old(allocator)@),
            covers(*old(mem), old(allocator)@),
            old(allocator)@.end <= PPN_LIMIT,
            old(self).level1@.contains(n1 as nat),
            i1 < ENTRIES_PER_NODE,
            !pte_valid(old(mem).word(n1 as nat, i1 as nat)) ==> old(allocator)@.remaining() >= 1,
        ensures
            final(self).wf(*final(mem), final(allocator)@),
            final(self).root() == old(self).root(),
            final(self).level1@ == old(self).level1@,
            final(allocator)@.start == old(allocator)@.start,
            final(allocator)@.end == old(allocator)@.end,
            final(mem).base() == old(mem).base(),
            final(mem).end() == old(mem).end(),
            pte_valid(final(mem).word(n1 as nat, i1 as nat)),
            pte_frame(final(mem).word(n1 as nat, i1 as nat)) == n2,
            final(self).owned().subrange(0, old(self).owned().len() as int) == old(self).owned(),
            forall|i: nat| i < ENTRIES_PER_NODE ==> #[trigger] final(mem).word(final(self).root(), i) == old(mem).word(old(self).root(), i),
            pte_valid(old(mem).word(n1 as nat, i1 as nat)) ==> {
                &&& final(self).owned() == old(self).owned()
                &&& *final(mem) == *old(mem)
                &&& final(allocator)@ == old(allocator)@
            },
            !pte_valid(old(mem).word(n1 as nat, i1 as nat)) ==> {
                &&& final(self).owned().len() == old(self).owned().len() + 1
                &&& final(allocator)@.remaining() + 1 == old(allocator)@.remaining()
                &&& pte_flags(final(mem).word(n1 as nat, i1 as nat)) == FLAG_V
                &&& forall|i: nat| i < ENTRIES_PER_NODE ==> #[trigger] final(mem).word(n2 as nat, i) == 0
            },
            forall|v: nat| #[trigger] translate_spec(*final(mem), final(self).root(), v) == translate_spec(*old(mem), old(self).root(), v),
    {
        let ghost root = self.root();
        let ghost l1 = self.level1@;
        let ghost l2 = self.level2@;
        assert(self.owns(n1 as nat));
        let ghost kn = choose|k: int| 0 <= k < self.owned().len() && self.owned()[k] == n1 as nat;
        assert(mem.backed(self.owned()[kn]));
        proof {
            mem.lemma_end_bound();
        }
        let e1 = mem.read_word(n1 as usize, i1);
        if e1 & 1u64 == 1u64 {
            return (e1 >> 10u64) & PPN_MASK;
        }
        let ghost old_mem = *mem;
        let ghost old_a = allocator@;
        proof {
            lemma_alloc_step(allocator@);
            lemma_zero_invalid();
        }
        let frame = frame_alloc(allocator, mem).unwrap();
        let f = frame.ppn();
        let ghost fs = f.0 as nat;
        assert(!self.owns(fs)) by {
            if self.owns(fs) {
                let k = choose|k: int| 0 <= k < self.owned().len() && self.owned()[k] == fs;
                assert(old_a.outstanding().contains(self.owned()[k]));
            }
        }
        let e = PageTableEntry::new(f, PTEFlags::from_bits(FLAG_V));
        assert(FLAG_V & 1u8 == 1u8) by (bit_vector);
        mem.write_word(n1 as usize, i1, e.bits);
        self.frames.push(frame);
        self.level2 = Ghost(l2.insert(fs));
        assert(self.owned() =~= old(self).owned().push(fs));
        assert(forall|p: nat, i: nat| i < ENTRIES_PER_NODE && p != fs && !(p == n1 as nat && i == i1) ==> #[trigger] mem.word(p, i) == old_mem.word(p, i));
        assert(forall|i: nat| i < ENTRIES_PER_NODE ==> !pte_valid(#[trigger] mem.word(fs, i)));
        assert forall|k: int| 0 <= k < self.owned().len() implies {
            &&& allocator@.outstanding().contains(#[trigger] self.owned()[k])
            &&& mem.backed(self.owned()[k])
            &&& self.owned()[k] < PPN_LIMIT
        } by {
            if k < old(self).owned().len() {
                assert(self.owned()[k] == old(self).owned()[k]);
            }
        }
        assert(self.owned().no_duplicates());
        assert(self.owns(root)) by {
            let k = choose|k: int| 0 <= k < old(self).owned().len() && old(self).owned()[k] == root;
            assert(self.owned()[k] == root);
        }
        assert forall|g: nat| #[trigger] self.level1@.contains(g) implies self.owns(g) && g != root by {
            let k = choose|k: int| 0 <= k < old(self).owned().len() && old(self).owned()[k] == g;
            assert(self.owned()[k] == g);
        }
        assert forall|g: nat| #[trigger] self.level2@.contains(g) implies self.owns(g) && g != root && !self.level1@.contains(g) by {
            if g == fs {
                assert(self.owned()[self.owned().len() - 1] == fs);
            } else {
                let k = choose|k: int| 0 <= k < old(self).owned().len() && old(self).owned()[k] == g;
                assert(self.owned()[k] == g);
            }
        }
        assert(self.nodes_ok(*mem));
        assert forall|v: nat| #[trigger] translate_spec(*mem, root, v) == translate_spec(old_mem, root, v) by {
            let e0v = old_mem.word(root, vpn_index(v, 0));
            if pte_valid(e0v) {
                assert(l1.contains(pte_frame(e0v)));
                let e1v = old_mem.word(pte_frame(e0v), vpn_index(v, 1));
                if pte_valid(e1v) {
                    assert(l2.contains(pte_frame(e1v)));
                }
            }
        }
        f.0 as u64
    }

    /// Maps page `vpn` to frame `ppn` with `flags` and the valid flag,
    /// allocating the radix nodes the walk lacks. The page must not be mapped.
    pub fn map(
        &mut self,
        allocator: &mut StackFrameAllocator,
        mem: &mut PhysMemory,
        vpn: VirtPageNum,
        ppn: PhysPageNum,
        flags: PTEFlags,
    )
        requires
            old(self).wf(*old(mem), old(allocator)@),
            covers(*old(mem), old(allocator)@),
            old(allocator)@.end <= PPN_LIMIT,
            missing_nodes(*old(mem), old(self).root(), vpn.0 as nat) <= old(allocator)@.remaining(),
            old(self).translation(*old(mem), vpn.0 as nat) is None,
            ppn.0 < PPN_LIMIT,
        ensures
            final(self).wf(*final(mem), final(allocator)@),
            final(mem).wf(),
            final(allocator)@.wf(),
            final(self).root() == old(self).root(),
            final(allocator)@.start == old(allocator)@.start,
            final(allocator)@.end == old(allocator)@.end,
            final(mem).base() == old(mem).base(),
            final(mem).end() == old(mem).end(),
            final(self).owned().subrange(0, old(self).owned().len() as int) == old(self).owned(),
            final(self).owned().len() == old(self).owned().len() + missing_nodes(*old(mem), old(self).root(), vpn.0 as nat),
            final(allocator)@.remaining() + missing_nodes(*old(mem), old(self).root(), vpn.0 as nat) == old(allocator)@.remaining(),
            missing_nodes(*final(mem), final(self).root(), vpn.0 as nat) == 0,
            forall|v: nat| #[trigger] final(self).translation(*final(mem), v) == if same_indices(v, vpn.0 as nat) {
                Some(pte_bits(ppn.0 as u64, flags.bits | FLAG_V))
            } else {
                old(self).translation(*old(mem), v)
            },
    {
        let ghost v0 = vpn.0 as nat;
        let idxs = vpn.indexes();
        proof {
            lemma_zero_invalid();
        }
        let n1 = self.ensure_root_entry(allocator, mem, idxs[0]);
        let n2 = self.ensure_mid_entry(allocator, mem, n1, idxs[1]);
        let e = PageTableEntry::new(ppn, flags.union(PTEFlags::from_bits(FLAG_V)));
        let fb = flags.bits;
        assert((fb | FLAG_V) & 1u8 == 1u8) by (bit_vector);
        let ghost mid_mem = *mem;
        self.set_leaf(mem, Ghost(allocator@), Ghost(v0), n2, idxs[2], e.bits);
        assert forall|v: nat| #[trigger] self.translation(*mem, v) == if same_indices(v, v0) {
            Some(pte_bits(ppn.0 as u64, flags.bits | FLAG_V))
        } else {
            old(self).translation(*old(mem), v)
        } by {
            if same_indices(v, v0) {
                assert(find_spec(*mem, self.root(), v) == find_spec(*mem, self.root(), v0));
            } else {
                assert(translate_spec(*mem, self.root(), v) == translate_spec(mid_mem, self.root(), v));
            }
        }
    }

    /// Removes the mapping of page `vpn`, which must be mapped. The radix
    /// nodes on its walk stay.
    pub fn unmap(&mut self, allocator: &StackFrameAllocator, mem: &mut PhysMemory, vpn: VirtPageNum)
        requires
            old(self).wf(*old(mem), allocator@),
            old(self).translation(*old(mem), vpn.0 as nat) is Some,
        ensures
            final(self).wf(*final(mem), allocator@),
            final(mem).wf(),
            allocator@.wf(),
            final(self).root() == old(self).root(),
            final(self).owned() == old(self).owned(),
            final(mem).base() == old(mem).base(),
            final(mem).end() == old(mem).end(),
            find_spec(*final(mem), final(self).root(), vpn.0 as nat) == Some(0u64),
            forall|v: nat| #[trigger] final(self).translation(*final(mem), v) == if same_indices(v, vpn.0 as nat) {
                None
            } else {
                old(self).translation(*old(mem), v)
            },
    {
        let ghost v0 = vpn.0 as nat;
        let idxs = vpn.indexes();
        let e0 = node_word(mem, self.root_ppn.0 as u64, idxs[0]);
        let e1 = node_word(mem, (e0 >> 10u64) & PPN_MASK, idxs[1]);
        let n2 = (e1 >> 10u64) & PPN_MASK;
        self.set_leaf(mem, Ghost(allocator@), Ghost(v0), n2, idxs[2], 0u64);
        proof {
            lemma_zero_invalid();
        }
        assert forall|v: nat| #[trigger] self.translation(*mem, v) == if same_indices(v, v0) {
            None
        } else {
            old(self).translation(*old(mem), v)
        } by {
            if same_indices(v, v0) {
                assert(find_spec(*mem, self.root(), v) == find_spec(*mem, self.root(), v0));
            }
        }
    }

    /// Ends the table, giving every frame it owns back to `allocator`.
    pub fn release(self, allocator: &mut StackFrameAllocator, mem: &PhysMemory)
        requires
            self.wf(*mem, old(allocator)@),
        ensures
            final(allocator)@.wf(),
            final(allocator)@.start == old(allocator)@.start,
            final(allocator)@.end == old(allocator)@.end,
            final(allocator)@.remaining() == old(allocator)@.remaining() + self.owned().len(),
            forall|f: nat| #[trigger] final(allocator)@.outstanding().contains(f) <==> (old(
                allocator,
            )@.outstanding().contains(f) && !self.owned().contains(f)),
    {
        let ghost all = self.owned();
        let mut frames = self.frames;
        while frames.len() > 0
            invariant
                allocator@.wf(),
                allocator@.start == old(allocator)@.start,
                allocator@.end == old(allocator)@.end,
                all.no_duplicates(),
                frames@.len() <= all.len(),
                forall|k: int| 0 <= k < frames@.len() ==> #[trigger] frames@[k].frame() == all[k],
                forall|k: int| 0 <= k < frames@.len() ==> allocator@.outstanding().contains(#[trigger] all[k]),
                allocator@.remaining() == old(allocator)@.remaining() + (all.len() - frames@.len()),
                forall|f: nat| #[trigger] allocator@.outstanding().contains(f) <==> (old(
                    allocator,
                )@.outstanding().contains(f) && !all.subrange(frames@.len() as int, all.len() as int).contains(f)),
            decreases frames@.len(),
        {
            let t = frames.pop().unwrap();
            let ghost n = frames@.len();
            assert(t.frame() == all[n as int]);
            proof {
                lemma_dealloc_step(allocator@, t.frame() as usize);
            }
            t.release(allocator);
            assert forall|k: int| 0 <= k < frames@.len() implies allocator@.outstanding().contains(#[trigger] all[k]) by {
                assert(all[k] != all[n as int]);
            }
            assert forall|f: nat| #[trigger] allocator@.outstanding().contains(f) <==> (old(
                allocator,
            )@.outstanding().contains(f) && !all.subrange(n as int, all.len() as int).contains(f)) by {
                let tail = all.subrange(n as int, all.len() as int);
                let rest = all.subrange(n as int + 1, all.len() as int);
                if tail.contains(f) {
                    let j = choose|j: int| 0 <= j < tail.len() && tail[j] == f;
                    if j > 0 {
                        assert(rest[j - 1] == f);
                    }
                }
                if rest.contains(f) {
                    let j = choose|j: int| 0 <= j < rest.len() && rest[j] == f;
                    assert(tail[j + 1] == f);
                }
                assert(tail[0] == all[n as int]);
            }
        }
        assert(all.subrange(0, all.len() as int) =~= all);
    }

}

/// The table that a token names sees the same entries as the table that made
/// the token: every walk and every translation agrees.
pub proof fn lemma_token_round_trip(t: PageTable, mem: PhysMemory, a: AllocState)
    requires
        t.wf(mem, a),
    ensures
        token_root(token_spec(t.root() as u64)) == t.root(),
        forall|vpn: nat| #[trigger] find_spec(mem, token_root(token_spec(t.root() as u64)), vpn) == find_spec(mem, t.root(), vpn),
        forall|vpn: nat| #[trigger] translate_spec(mem, token_root(token_spec(t.root() as u64)), vpn) == t.translation(mem, vpn),
{
    let k = choose|k: int| 0 <= k < t.owned().len() && t.owned()[k] == t.root();
    assert(t.owned()[k] < PPN_LIMIT);
    let r = t.root() as u64;
    assert(((MODE_SV39 << 60u64) | r) & PPN_MASK == r) by (bit_vector)
        requires
            r < 0x1000_0000_0000u64,
    ;
}

} // verus!
