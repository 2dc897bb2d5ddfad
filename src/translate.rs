//! Reading and writing the memory of an address space named by a token,
//! through its page table rather than through the current address space.

use vstd::prelude::*;
use crate::address::{vpn_index, VirtPageNum, PAGE_SIZE};
use crate::memory::PhysMemory;
use crate::page_table::{pte_frame, token_root, translate_spec, PageTable};
use vstd::slice::slice_subrange;

verus! {

/// The frame that holds virtual address `va` in the space rooted at `root`.
pub open spec fn backing_frame(mem: PhysMemory, root: nat, va: nat) -> nat {
    pte_frame(translate_spec(mem, root, va / PAGE_SIZE as nat)->0)
}

/// Whether virtual address `va` is mapped, in the space rooted at `root`, to a
/// frame that `mem` holds.
pub open spec fn addr_mapped(mem: PhysMemory, root: nat, va: nat) -> bool {
    &&& translate_spec(mem, root, va / PAGE_SIZE as nat) is Some
    &&& mem.backed(backing_frame(mem, root, va))
}

/// The byte at virtual address `va` in the space rooted at `root`.
pub open spec fn virt_byte(mem: PhysMemory, root: nat, va: nat) -> u8 {
    mem.frame(backing_frame(mem, root, va))[(va % PAGE_SIZE as nat) as int]
}

/// The bytes at virtual addresses `[start, end)`.
pub open spec fn virt_bytes(mem: PhysMemory, root: nat, start: nat, end: nat) -> Seq<u8> {
    Seq::new((end - start) as nat, |k: int| virt_byte(mem, root, (start + k) as nat))
}

/// How many pages the virtual range `[ptr, ptr + len)` touches.
pub open spec fn pages_spanned(ptr: nat, len: nat) -> nat {
    if len == 0 {
        0
    } else {
        ((ptr + len - 1) as nat / PAGE_SIZE as nat - ptr / PAGE_SIZE as nat + 1) as nat
    }
}

/// Where piece `i` of the range starting at `ptr` begins.
pub open spec fn piece_start(ptr: nat, i: nat) -> nat {
    if i == 0 {
        ptr
    } else {
        (ptr / PAGE_SIZE as nat + i) * PAGE_SIZE as nat
    }
}

proof fn lemma_piece_step(ptr: nat, i: nat, start: nat, end: nat)
    requires
        start == piece_start(ptr, i),
        start / 4096 == ptr / 4096 + i,
        i > 0 ==> start % 4096 == 0,
        start < end,
    ensures
        start + (4096 - start % 4096) == piece_start(ptr, i + 1),
        (start + (4096 - start % 4096)) / 4096 == ptr / 4096 + i + 1,
        (start + (4096 - start % 4096)) % 4096 == 0,
        end - start <= 4096 - start % 4096 ==> pages_spanned(ptr, (end - ptr) as nat) == i + 1,
        forall|k: int| 0 <= k < 4096 - start % 4096 ==> #[trigger] ((start + k) / 4096) == start / 4096 && (start + k) % 4096 == start % 4096 + k,
{
    let q = start / 4096;
    let r = start % 4096;
    assert(start == 4096 * q + r && r < 4096) by (nonlinear_arith)
        requires
            q == start / 4096,
            r == start % 4096,
    ;
    assert((4096 * q + 4096) / 4096 == q + 1 && (4096 * q + 4096) % 4096 == 0) by (nonlinear_arith);
    if i == 0 {
        assert(ptr == start);
    }
    assert(piece_start(ptr, i + 1) == (ptr / 4096 + i + 1) * 4096);
    if end - start <= 4096 - r {
        assert((end - 1) as nat / 4096 == q) by (nonlinear_arith)
            requires
                start == 4096 * q + r,
                r < 4096,
                start < end,
                end - start <= 4096 - r,
        ;
    }
    assert forall|k: int| 0 <= k < 4096 - r implies #[trigger] ((start + k) / 4096) == q && (start + k) % 4096 == r + k by {
        assert((start + k) / 4096 == q && (start + k) % 4096 == r + k) by (nonlinear_arith)
            requires
                start == 4096 * q + r,
                0 <= k < 4096 - r,
                r < 4096,
        ;
    }
}

/// The bytes of virtual range `[ptr, ptr + len)` of the space that `token`
/// names, as one piece per page touched, in address order.
pub fn translated_byte_buffer(mem: &PhysMemory, token: u64, ptr: usize, len: usize) -> (r: Vec<Vec<u8>>)
    requires
        mem.wf(),
        ptr + len <= usize::MAX,
        forall|va: nat| ptr <= va < ptr + len ==> #[trigger] addr_mapped(*mem, token_root(token), va),
    ensures
        r@.len() == pages_spanned(ptr as nat, len as nat),
        r@.map_values(|c: Vec<u8>| c@).flatten() == virt_bytes(*mem, token_root(token), ptr as nat, (ptr + len) as nat),
        forall|i: int| 0 <= i < r@.len() ==> #[trigger] r@[i]@ == virt_bytes(
            *mem,
            token_root(token),
            piece_start(ptr as nat, i as nat),
            if i + 1 == r@.len() { (ptr + len) as nat } else { piece_start(ptr as nat, (i + 1) as nat) },
        ),
{
    let table = PageTable::from_token(token);
    let ghost root = token_root(token);
    let end: usize = ptr + len;
    let mut start: usize = ptr;
    let mut v: Vec<Vec<u8>> = Vec::new();
    proof {
        mem.lemma_end_bound();
    }
    while start < end
        invariant
            mem.wf(),
            table.root() == root,
            ptr <= start <= end,
            end == ptr + len,
            end <= usize::MAX,
            mem.end() <= usize::MAX,
            forall|va: nat| ptr <= va < ptr + len ==> #[trigger] addr_mapped(*mem, root, va),
            start < end ==> start == piece_start(ptr as nat, v@.len() as nat),
            start < end ==> start / 4096 == ptr / 4096 + v@.len(),
            start < end && v@.len() > 0 ==> start % 4096 == 0,
            start == end ==> v@.len() == pages_spanned(ptr as nat, len as nat),
            v@.len() == 0 ==> start == ptr,
            v@.map_values(|c: Vec<u8>| c@).flatten() == virt_bytes(*mem, root, ptr as nat, start as nat),
            forall|i: int| 0 <= i < v@.len() ==> #[trigger] v@[i]@ == virt_bytes(
                *mem,
                root,
                piece_start(ptr as nat, i as nat),
                if i + 1 == v@.len() { start as nat } else { piece_start(ptr as nat, (i + 1) as nat) },
            ),
        decreases end - start,
    {
        assert(addr_mapped(*mem, root, start as nat));
        let vpn = VirtPageNum(start / PAGE_SIZE);
        let pte = table.translate(mem, vpn).unwrap();
        let ppn = pte.ppn();
        let off: usize = start % PAGE_SIZE;
        let room: usize = PAGE_SIZE - off;
        let stop: usize = if end - start < room { end } else { start + room };
        let piece = mem.read_bytes(ppn.0, off, off + (stop - start));
        let ghost old_v = v@;
        proof {
            lemma_piece_step(ptr as nat, v@.len() as nat, start as nat, end as nat);
        }
        assert forall|k: int| 0 <= k < stop - start implies #[trigger] piece@[k] == virt_byte(*mem, root, (start + k) as nat) by {
            assert(((start + k) / 4096) == start / 4096 && (start + k) % 4096 == start % 4096 + k);
        }
        assert(piece@ =~= virt_bytes(*mem, root, start as nat, stop as nat));
        v.push(piece);
        proof {
            let views = old_v.map_values(|c: Vec<u8>| c@);
            assert(v@.map_values(|c: Vec<u8>| c@) =~= views.push(piece@));
            views.lemma_flatten_push(piece@);
            assert(virt_bytes(*mem, root, ptr as nat, stop as nat) =~= virt_bytes(*mem, root, ptr as nat, start as nat) + piece@);
        }
        start = stop;
    }
    proof {
        if len == 0 {
            assert(v@.map_values(|c: Vec<u8>| c@) =~= Seq::<Seq<u8>>::empty());
        }
    }
    v
}

/// Writes `value` at virtual address `ptr` of the space that `token` names,
/// through the frame that backs it; `value` must fit in that page.
pub fn translated_assign_ptr(mem: &mut PhysMemory, token: u64, ptr: usize, value: &[u8])
    requires
        old(mem).wf(),
        addr_mapped(*old(mem), token_root(token), ptr as nat),
        ptr % PAGE_SIZE + value@.len() <= PAGE_SIZE,
    ensures
        final(mem).wf(),
        final(mem).same_except(*old(mem), backing_frame(*old(mem), token_root(token), ptr as nat)),
        final(mem).frame(backing_frame(*old(mem), token_root(token), ptr as nat)) == old(mem).frame(
            backing_frame(*old(mem), token_root(token), ptr as nat),
        ).subrange(0, (ptr % PAGE_SIZE) as int) + value@ + old(mem).frame(
            backing_frame(*old(mem), token_root(token), ptr as nat),
        ).subrange(ptr % PAGE_SIZE + value@.len(), PAGE_SIZE as int),
{
    proof {
        mem.lemma_end_bound();
    }
    let table = PageTable::from_token(token);
    let pte = table.translate(mem, VirtPageNum(ptr / PAGE_SIZE)).unwrap();
    let ppn = pte.ppn();
    mem.write_bytes(ppn.0, ptr % PAGE_SIZE, value);
}

/// The frames of the radix nodes that the walk for the page holding `va`
/// reads.
pub open spec fn walk_frames(mem: PhysMemory, root: nat, va: nat) -> Set<nat> {
    let vpn = va / PAGE_SIZE as nat;
    let n1 = pte_frame(mem.word(root, vpn_index(vpn, 0)));
    set![root, n1, pte_frame(mem.word(n1, vpn_index(vpn, 1)))]
}

proof fn lemma_walk_kept(m1: PhysMemory, m2: PhysMemory, root: nat, va: nat, f: nat)
    requires
        m2.same_except(m1, f),
        !walk_frames(m1, root, va).contains(f),
    ensures
        translate_spec(m2, root, va / PAGE_SIZE as nat) == translate_spec(m1, root, va / PAGE_SIZE as nat),
        walk_frames(m2, root, va) == walk_frames(m1, root, va),
{
    m2.lemma_same_except_words(m1, f);
    let vpn = va / PAGE_SIZE as nat;
    let n1 = pte_frame(m1.word(root, vpn_index(vpn, 0)));
    assert(walk_frames(m1, root, va).contains(root));
    assert(walk_frames(m1, root, va).contains(n1));
    assert(walk_frames(m1, root, va).contains(pte_frame(m1.word(n1, vpn_index(vpn, 1)))));
    assert(walk_frames(m2, root, va) =~= walk_frames(m1, root, va));
}

proof fn lemma_earlier_page(va: nat, start: nat)
    requires
        va < start,
        start % 4096 == 0,
    ensures
        va / 4096 < start / 4096,
{
    assert(va / 4096 < start / 4096) by (nonlinear_arith)
        requires
            va < start,
            start % 4096 == 0,
    ;
}

/// Whether `data` can be written at `[ptr, end)` of the space rooted at
/// `root`: every page is mapped to a frame of `mem`, no such frame holds a
/// radix node of the walks, and distinct pages use distinct frames.
#[verifier::opaque]
pub open spec fn writable_range(mem: PhysMemory, root: nat, ptr: nat, end: nat) -> bool {
    &&& forall|va: nat| ptr <= va < end ==> #[trigger] addr_mapped(mem, root, va)
    &&& forall|va: nat, wa: nat|
        ptr <= va < end && ptr <= wa < end ==> !#[trigger] walk_frames(mem, root, wa).contains(
            #[trigger] backing_frame(mem, root, va),
        )
    &&& forall|va: nat, wa: nat|
        ptr <= va < end && ptr <= wa < end && va / PAGE_SIZE as nat != wa / PAGE_SIZE as nat
            ==> #[trigger] backing_frame(mem, root, va) != #[trigger] backing_frame(mem, root, wa)
}

/// After writing `data[..start - ptr]`: the walks of the range are as in
/// `m0`, the bytes written read back, and only their frames changed.
#[verifier::opaque]
pub open spec fn written_up_to(m0: PhysMemory, mem: PhysMemory, root: nat, ptr: nat, end: nat, start: nat, data: Seq<u8>) -> bool {
    &&& forall|va: nat| ptr <= va < end ==> #[trigger] walk_frames(mem, root, va) == walk_frames(m0, root, va)
    &&& forall|va: nat| ptr <= va < end ==> #[trigger] translate_spec(mem, root, va / PAGE_SIZE as nat)
        == translate_spec(m0, root, va / PAGE_SIZE as nat)
    &&& forall|va: nat| ptr <= va < start ==> #[trigger] virt_byte(mem, root, va) == data[va - ptr]
    &&& forall|p: nat| mem.backed(p) && #[trigger] mem.frame(p) != m0.frame(p) ==> exists|va: nat|
        ptr <= va < start && backing_frame(m0, root, va) == p
}

proof fn lemma_write_step(
    m0: PhysMemory,
    before: PhysMemory,
    after: PhysMemory,
    root: nat,
    ptr: nat,
    end: nat,
    start: nat,
    stop: nat,
    data: Seq<u8>,
    piece: Seq<u8>,
)
    requires
        ptr <= start < stop <= end,
        end == ptr + data.len(),
        stop - start <= 4096 - start % 4096,
        start != ptr ==> start % 4096 == 0,
        piece == data.subrange(start - ptr, stop - ptr as int),
        before.base() == m0.base(),
        before.end() == m0.end(),
        after.same_except(before, backing_frame(m0, root, start)),
        after.frame(backing_frame(m0, root, start)) == before.frame(backing_frame(m0, root, start)).subrange(0, (start % 4096) as int)
            + piece + before.frame(backing_frame(m0, root, start)).subrange((start % 4096 + piece.len()) as int, 4096int),
        writable_range(m0, root, ptr, end),
        written_up_to(m0, before, root, ptr, end, start, data),
    ensures
        written_up_to(m0, after, root, ptr, end, stop, data),
{
    reveal(writable_range);
    reveal(written_up_to);
    let f = backing_frame(m0, root, start);
    let off = start % 4096;
    assert forall|k: int| 0 <= k < 4096 - start % 4096 implies #[trigger] ((start + k) / 4096) == start / 4096 && (start + k) % 4096 == start % 4096 + k by {
        let q = start / 4096;
        let r = start % 4096;
        assert((start + k) / 4096 == q && (start + k) % 4096 == r + k) by (nonlinear_arith)
            requires
                start == 4096 * q + r,
                0 <= k < 4096 - r,
                r < 4096,
        ;
    }
    assert forall|va: nat| ptr <= va < end implies #[trigger] walk_frames(after, root, va) == walk_frames(m0, root, va)
        && translate_spec(after, root, va / PAGE_SIZE as nat) == translate_spec(m0, root, va / PAGE_SIZE as nat) by {
        assert(!walk_frames(m0, root, va).contains(backing_frame(m0, root, start)));
        lemma_walk_kept(before, after, root, va, f);
    }
    assert forall|va: nat| ptr <= va < end implies #[trigger] translate_spec(after, root, va / PAGE_SIZE as nat) == translate_spec(m0, root, va / PAGE_SIZE as nat) by {
        assert(walk_frames(after, root, va) == walk_frames(m0, root, va));
    }
    assert forall|va: nat| ptr <= va < stop implies #[trigger] virt_byte(after, root, va) == data[va - ptr] by {
        assert(walk_frames(after, root, va) == walk_frames(m0, root, va));
        assert(translate_spec(after, root, va / PAGE_SIZE as nat) == translate_spec(m0, root, va / PAGE_SIZE as nat));
        assert(backing_frame(after, root, va) == backing_frame(m0, root, va));
        assert(addr_mapped(m0, root, va));
        if va < start {
            lemma_earlier_page(va, start);
            assert(backing_frame(m0, root, va) != f);
            assert(after.backed(backing_frame(m0, root, va)));
            assert(after.frame(backing_frame(m0, root, va)) == before.frame(backing_frame(m0, root, va)));
            assert(backing_frame(before, root, va) == backing_frame(m0, root, va));
            assert(virt_byte(before, root, va) == data[va - ptr]);
        } else {
            let k = va - start;
            assert((start + k) / 4096 == start / 4096 && (start + k) % 4096 == start % 4096 + k);
            assert(backing_frame(m0, root, va) == f);
            assert(after.frame(f)[off + k] == piece[k as int]);
            assert(piece[k as int] == data[va - ptr]);
        }
    }
    assert forall|p: nat| after.backed(p) && #[trigger] after.frame(p) != m0.frame(p) implies exists|va: nat|
        ptr <= va < stop && backing_frame(m0, root, va) == p by {
        if p == f {
            assert(ptr <= start < stop && backing_frame(m0, root, start) == p);
        } else {
            assert(after.frame(p) == before.frame(p));
            let va = choose|va: nat| ptr <= va < start && backing_frame(m0, root, va) == p;
            assert(ptr <= va < stop);
        }
    }
}

proof fn lemma_write_start(m0: PhysMemory, mem: PhysMemory, root: nat, ptr: nat, end: nat, start: nat, data: Seq<u8>)
    requires
        ptr <= start < end,
        writable_range(m0, root, ptr, end),
        written_up_to(m0, mem, root, ptr, end, start, data),
    ensures
        addr_mapped(m0, root, start),
        translate_spec(mem, root, start / PAGE_SIZE as nat) == translate_spec(m0, root, start / PAGE_SIZE as nat),
{
    reveal(writable_range);
    reveal(written_up_to);
}

/// Writes `data` at virtual address `ptr` of the space that `token` names,
/// page by page. The pages of the range must be mapped to distinct frames
/// of `mem`, none of which holds a radix node of their walks.
pub fn translated_write_bytes(mem: &mut PhysMemory, token: u64, ptr: usize, data: &[u8])
    requires
        old(mem).wf(),
        ptr + data@.len() <= usize::MAX,
        writable_range(*old(mem), token_root(token), ptr as nat, (ptr + data@.len()) as nat),
    ensures
        final(mem).wf(),
        final(mem).base() == old(mem).base(),
        final(mem).end() == old(mem).end(),
        written_up_to(*old(mem), *final(mem), token_root(token), ptr as nat, (ptr + data@.len()) as nat, (ptr + data@.len()) as nat, data@),
{
    let table = PageTable::from_token(token);
    let ghost root = token_root(token);
    let ghost m0 = *mem;
    let end: usize = ptr + data.len();
    let mut start: usize = ptr;
    proof {
        mem.lemma_end_bound();
        reveal(written_up_to);
    }
    while start < end
        invariant
            mem.wf(),
            mem.base() == m0.base(),
            mem.end() == m0.end(),
            mem.end() <= usize::MAX,
            table.root() == root,
            ptr <= start <= end,
            end == ptr + data@.len(),
            start < end && start != ptr ==> start % 4096 == 0,
            writable_range(m0, root, ptr as nat, end as nat),
            written_up_to(m0, *mem, root, ptr as nat, end as nat, start as nat, data@),
        decreases end - start,
    {
        proof {
            lemma_write_start(m0, *mem, root, ptr as nat, end as nat, start as nat, data@);
        }
        let pte = table.translate(mem, VirtPageNum(start / PAGE_SIZE)).unwrap();
        let ppn = pte.ppn();
        assert(ppn.0 == backing_frame(m0, root, start as nat));
        let off: usize = start % PAGE_SIZE;
        let room: usize = PAGE_SIZE - off;
        let stop: usize = if end - start < room { end } else { start + room };
        let piece = slice_subrange(data, start - ptr, stop - ptr);
        let ghost before = *mem;
        mem.write_bytes(ppn.0, off, piece);
        proof {
            lemma_write_step(m0, before, *mem, root, ptr as nat, end as nat, start as nat, stop as nat, data@, piece@);
            if stop < end && stop != ptr {
                assert((start + (4096 - start % 4096)) % 4096 == 0) by (nonlinear_arith);
            }
        }
        start = stop;
    }
}

} // verus!
