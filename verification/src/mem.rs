//! Model of the physical frames the kernel manages: a pool of 4 KiB frames,
//! each either free, a page table of some level, or a data page. The
//! allocator hands frames out of this pool; page-table walks read it.

use vstd::prelude::*;
use vstd::set_lib::set_int_range;
use crate::entry::{e_addr, e_present, e_small};

verus! {

/// Number of entries in one page table.
pub const ENTRIES: usize = 512;

/// Number of bytes in one data page.
pub const PAGE_BYTES: usize = 4096;

/// Largest number of frames a pool may be created with; keeps every
/// physical address below 2^40 and every index within `usize`.
pub const MAX_FRAMES: usize = 0x1000_0000;

/// One level of the translation hierarchy, 4 (root) down to 1 (terminal).
pub struct TableFrame {
    /// 4 for the root, down to 1 for the terminal level.
    pub level: u64,
    /// The 512 raw entries.
    pub entries: Vec<u64>,
}

/// A 4 KiB frame holding user or kernel data.
pub struct PageFrame {
    /// The 4096 bytes of the page.
    pub bytes: Vec<u8>,
    /// How many address spaces reference the frame.
    pub refcount: u64,
}

/// What one physical frame currently holds.
pub enum FrameSlot {
    /// In the allocator's free pool.
    Free,
    /// A page table.
    Table(TableFrame),
    /// A data page.
    Page(PageFrame),
}

/// The pool of physical frames. Frame number `f` stands for the 4 KiB
/// physical region starting at address `f * 4096`.
pub struct PhysicalMemory {
    /// Slot `f` describes frame `f`. Frames are handed out in order, so the
    /// vector only ever grows, up to `capacity`.
    pub frames: Vec<FrameSlot>,
    /// Frames that were freed and may be handed out again.
    pub free_list: Vec<u64>,
    /// Size of the physical range the pool was seeded with, in frames.
    pub capacity: usize,
}

/// The physical address of the first byte of frame `f`.
pub open spec fn frame_addr(f: u64) -> u64 {
    (f * 4096) as u64
}

/// The frame number an entry's address field points at.
pub open spec fn e_frame(e: u64) -> u64 {
    (e_addr(e) / 4096) as u64
}

/// Frame numbers below `MAX_FRAMES` convert to addresses and back without loss.
pub proof fn lemma_frame_addr(f: u64)
    by (bit_vector)
    requires
        f < 0x1000_0000u64,
    ensures
        ((f * 4096) as u64) & 0x0000_ffff_ffff_f000u64 == (f * 4096) as u64,
        ((f * 4096) as u64) / 4096 == f,
        f * 4096 < 0x1_0000_0000_0000u64,
{
}

/// `f` is a page-table frame.
pub open spec fn is_table(s: Seq<FrameSlot>, f: u64) -> bool {
    f < s.len() && s[f as int] is Table
}

/// `f` is a data-page frame.
pub open spec fn is_page(s: Seq<FrameSlot>, f: u64) -> bool {
    f < s.len() && s[f as int] is Page
}

/// The level recorded for table frame `f`.
pub open spec fn table_level(s: Seq<FrameSlot>, f: u64) -> u64 {
    s[f as int]->Table_0.level
}

/// Entry `i` of table frame `f`; zero when `f` is not a well-formed table,
/// so that walks are total.
pub open spec fn ent(s: Seq<FrameSlot>, f: u64, i: int) -> u64 {
    if is_table(s, f) && 0 <= i < 512 && s[f as int]->Table_0.entries.len() == 512 {
        s[f as int]->Table_0.entries[i]
    } else {
        0
    }
}

/// Bytes of data page `f`.
pub open spec fn page_bytes(s: Seq<FrameSlot>, f: u64) -> Seq<u8> {
    s[f as int]->Page_0.bytes@
}

/// Reference count of data page `f`.
pub open spec fn page_refcount(s: Seq<FrameSlot>, f: u64) -> u64 {
    s[f as int]->Page_0.refcount
}

/// Entry `i` of table `f` points to a next-level table (or, in slot 511 of a
/// root, back at the root itself).
pub open spec fn is_tp(s: Seq<FrameSlot>, f: u64, i: int) -> bool {
    &&& is_table(s, f)
    &&& table_level(s, f) >= 2
    &&& 0 <= i < 512
    &&& e_present(ent(s, f, i))
    &&& e_small(ent(s, f, i))
}

/// A table pointer that is not the self-reference slot of a root.
pub open spec fn tp_real(s: Seq<FrameSlot>, f: u64, i: int) -> bool {
    is_tp(s, f, i) && !(table_level(s, f) == 4 && i == 511)
}

/// The frame a table pointer points at.
pub open spec fn tp_target(s: Seq<FrameSlot>, f: u64, i: int) -> u64 {
    e_frame(ent(s, f, i))
}

/// Entry `i` of table `f` is consistent with the hierarchy: a table pointer
/// leads to a table one level down (or back at `f` itself from a root's
/// slot 511), with an exactly aligned address.
pub open spec fn entry_ok(s: Seq<FrameSlot>, f: u64, i: int) -> bool {
    is_tp(s, f, i) ==> {
        let g = tp_target(s, f, i);
        &&& e_addr(ent(s, f, i)) == frame_addr(g)
        &&& g < s.len()
        &&& if table_level(s, f) == 4 && i == 511 {
            g == f
        } else {
            is_table(s, g) && table_level(s, g) == table_level(s, f) - 1
        }
    }
}

/// Table frame `f` is well formed: 512 entries, a level in 1..=4, and every
/// table-pointer entry consistent.
pub open spec fn table_ok(s: Seq<FrameSlot>, f: u64) -> bool {
    is_table(s, f) ==> {
        &&& s[f as int]->Table_0.entries.len() == 512
        &&& 1 <= table_level(s, f) <= 4
        &&& forall|i: int| 0 <= i < 512 ==> #[trigger] entry_ok(s, f, i)
    }
}

/// No table is reachable through two different table-pointer entries. The
/// self-reference slots of roots are exempt: each points at its own root.
pub open spec fn tp_injective(s: Seq<FrameSlot>) -> bool {
    forall|f1: u64, i1: int, f2: u64, i2: int|
        #[trigger] tp_real(s, f1, i1) && #[trigger] tp_real(s, f2, i2) && tp_target(s, f1, i1)
            == tp_target(s, f2, i2) ==> f1 == f2 && i1 == i2
}

/// Data page `f` is well formed: exactly 4096 bytes.
pub open spec fn frame_page_ok(s: Seq<FrameSlot>, f: u64) -> bool {
    is_page(s, f) ==> s[f as int]->Page_0.bytes.len() == 4096
}

/// The frame-level part of the pool invariant.
pub open spec fn frames_inv(s: Seq<FrameSlot>) -> bool {
    &&& forall|f: u64| f < s.len() ==> #[trigger] table_ok(s, f)
    &&& forall|f: u64| f < s.len() ==> #[trigger] frame_page_ok(s, f)
    &&& tp_injective(s)
}

/// The pool's invariant.
pub open spec fn mem_inv(m: PhysicalMemory) -> bool {
    &&& m.frames.len() <= m.capacity
    &&& m.capacity <= MAX_FRAMES
    &&& frames_inv(m.frames@)
    &&& forall|k: int|
        0 <= k < m.free_list.len() ==> (#[trigger] m.free_list@[k] < m.frames.len()
            && m.frames@[m.free_list@[k] as int] is Free)
    &&& m.free_list@.no_duplicates()
}

/// How many more frames the pool can hand out.
pub open spec fn spec_avail(m: PhysicalMemory) -> int {
    m.capacity - m.frames.len() + m.free_list.len()
}

/// A duplicate-free list of frame numbers below `n` has at most `n` members.
proof fn lemma_distinct_below(list: Seq<u64>, n: int)
    requires
        list.no_duplicates(),
        forall|k: int| 0 <= k < list.len() ==> #[trigger] list[k] < n,
        0 <= n,
    ensures
        list.len() <= n,
{
    let ints = list.map_values(|x: u64| x as int);
    assert(ints.no_duplicates()) by {
        assert forall|j: int, k: int|
            0 <= j < ints.len() && 0 <= k < ints.len() && j != k implies ints[j] != ints[k] by {
            assert(list[j] < n);
            assert(list[k] < n);
        }
    }
    ints.unique_seq_to_set();
    assert(ints.to_set().subset_of(set_int_range(0, n))) by {
        assert forall|x: int| ints.to_set().contains(x) implies set_int_range(0, n).contains(
            x,
        ) by {
            let k = choose|k: int| 0 <= k < ints.len() && ints[k] == x;
            assert(list[k] < n);
        }
    }
    vstd::set_lib::lemma_int_range(0, n);
    vstd::set_lib::lemma_len_subset(ints.to_set(), set_int_range(0, n));
}

/// Frames other than `f` hold in `s1` exactly what they held in `s0`, and
/// any frame beyond `s0`'s length is `f` itself.
pub open spec fn frames_preserved_except(s0: Seq<FrameSlot>, s1: Seq<FrameSlot>, f: u64) -> bool {
    &&& s1.len() >= s0.len()
    &&& forall|g: int| 0 <= g < s0.len() && g != f ==> s1[g] == s0[g]
    &&& (s1.len() == s0.len() || (s1.len() == s0.len() + 1 && f == s0.len()))
}

/// Reads of every frame other than `f` give the same answers in `s0` and `s1`.
pub proof fn lemma_reads_preserved(s0: Seq<FrameSlot>, s1: Seq<FrameSlot>, f: u64)
    requires
        frames_preserved_except(s0, s1, f),
    ensures
        forall|g: u64, i: int| g != f ==> #[trigger] ent(s1, g, i) == ent(s0, g, i),
        forall|g: u64| g != f ==> (#[trigger] is_table(s1, g) <==> is_table(s0, g)),
        forall|g: u64| g != f ==> (#[trigger] is_page(s1, g) <==> is_page(s0, g)),
        forall|g: u64| g != f && is_table(s0, g) ==> #[trigger] table_level(s1, g) == table_level(
            s0,
            g,
        ),
        forall|g: u64| g != f && is_page(s0, g) ==> #[trigger] page_bytes(s1, g) == page_bytes(
            s0,
            g,
        ),
        forall|g: u64| g != f && is_page(s0, g) ==> #[trigger] page_refcount(s1, g)
            == page_refcount(s0, g),
{
}

/// Replacing the content of one non-table frame with other non-table content
/// leaves every table read, and so the frame-level invariant, intact.
pub proof fn lemma_nontable_update(s0: Seq<FrameSlot>, s1: Seq<FrameSlot>, f: u64)
    requires
        frames_inv(s0),
        frames_preserved_except(s0, s1, f),
        f < s1.len(),
        !is_table(s0, f),
        !(s1[f as int] is Table),
        s1[f as int] is Page ==> s1[f as int]->Page_0.bytes.len() == 4096,
    ensures
        frames_inv(s1),
        forall|g: u64, i: int| #[trigger] ent(s1, g, i) == ent(s0, g, i),
        forall|g: u64| #[trigger] is_table(s1, g) <==> is_table(s0, g),
        forall|g: u64| is_table(s0, g) ==> #[trigger] table_level(s1, g) == table_level(s0, g),
        forall|g: u64| g != f ==> (#[trigger] is_page(s1, g) <==> is_page(s0, g)),
        forall|g: u64| g != f && is_page(s0, g) ==> #[trigger] page_bytes(s1, g) == page_bytes(
            s0,
            g,
        ),
        forall|g: u64| g != f && is_page(s0, g) ==> #[trigger] page_refcount(s1, g)
            == page_refcount(s0, g),
{
    assert forall|g: u64, i: int| #[trigger] ent(s1, g, i) == ent(s0, g, i) by {
        if g == f {
            assert(!is_table(s1, g) && !is_table(s0, g));
        }
    }
    assert forall|g: u64| g < s1.len() implies #[trigger] table_ok(s1, g) by {
        assert(table_ok(s0, g));
        if is_table(s1, g) {
            assert(g != f);
            assert forall|i: int| 0 <= i < 512 implies #[trigger] entry_ok(s1, g, i) by {
                assert(entry_ok(s0, g, i));
                if is_tp(s1, g, i) {
                    let t = tp_target(s1, g, i);
                    assert(is_tp(s0, g, i));
                    if !(table_level(s1, g) == 4 && i == 511) {
                        assert(is_table(s0, t));
                        assert(t != f);
                    }
                }
            }
        }
    }
    assert forall|g: u64| g < s1.len() implies #[trigger] frame_page_ok(s1, g) by {
        if g != f {
            assert(frame_page_ok(s0, g));
        }
    }
    assert forall|f1: u64, i1: int, f2: u64, i2: int|
        #[trigger] tp_real(s1, f1, i1) && #[trigger] tp_real(s1, f2, i2) && tp_target(s1, f1, i1)
            == tp_target(s1, f2, i2) implies f1 == f2 && i1 == i2 by {
        assert(ent(s1, f1, i1) == ent(s0, f1, i1));
        assert(ent(s1, f2, i2) == ent(s0, f2, i2));
        assert(tp_real(s0, f1, i1));
        assert(tp_real(s0, f2, i2));
    }
}

impl PhysicalMemory {
    /// A fresh pool seeded with `capacity` frames, none yet handed out.
    pub fn new(capacity: usize) -> (r: PhysicalMemory)
        requires
            capacity <= MAX_FRAMES,
        ensures
            mem_inv(r),
            r.frames.len() == 0,
            r.capacity == capacity,
            spec_avail(r) == capacity,
    {
        PhysicalMemory { frames: Vec::new(), free_list: Vec::new(), capacity }
    }

    /// How many more frames the pool can hand out.
    pub fn avail(&self) -> (r: usize)
        requires
            mem_inv(*self),
        ensures
            r == spec_avail(*self),
    {
        proof {
            lemma_distinct_below(self.free_list@, self.frames.len() as int);
        }
        self.capacity - self.frames.len() + self.free_list.len()
    }

    /// Take one frame out of the pool: a freed frame if one exists, else the
    /// next unseeded one. The slot stays `Free`; the caller gives it content.
    fn take_frame(&mut self) -> (r: Option<u64>)
        requires
            mem_inv(*old(self)),
        ensures
            final(self).capacity == old(self).capacity,
            match r {
                None => *final(self) == *old(self) && spec_avail(*old(self)) == 0,
                Some(f) => {
                    &&& mem_inv(*final(self))
                    &&& spec_avail(*final(self)) == spec_avail(*old(self)) - 1
                    &&& f < final(self).frames.len()
                    &&& final(self).frames@[f as int] is Free
                    &&& !is_table(old(self).frames@, f)
                    &&& !is_page(old(self).frames@, f)
                    &&& frames_preserved_except(old(self).frames@, final(self).frames@, f)
                    &&& forall|k: int|
                        0 <= k < final(self).free_list.len()
                            ==> #[trigger] final(self).free_list@[k] != f
                },
            },
    {
        if self.free_list.len() > 0 {
            let f = self.free_list.pop().unwrap();
            proof {
                assert(self.free_list@ == old(self).free_list@.drop_last());
                assert(old(self).free_list@[old(self).free_list@.len() - 1] == f);
                assert forall|k: int|
                    0 <= k < self.free_list.len() implies #[trigger] self.free_list@[k] != f by {
                    assert(old(self).free_list@[k] == self.free_list@[k]);
                }
            }
            Some(f)
        } else if self.frames.len() < self.capacity {
            let f = self.frames.len() as u64;
            self.frames.push(FrameSlot::Free);
            proof {
                let s0 = old(self).frames@;
                let s1 = self.frames@;
                assert(frames_preserved_except(s0, s1, f));
                lemma_reads_preserved(s0, s1, f);
                assert forall|g: u64| g < s1.len() implies #[trigger] table_ok(s1, g) by {
                    if g != f {
                        assert(table_ok(s0, g));
                        if is_table(s1, g) {
                            assert forall|i: int| 0 <= i < 512 implies #[trigger] entry_ok(
                                s1,
                                g,
                                i,
                            ) by {
                                assert(entry_ok(s0, g, i));
                                if is_tp(s1, g, i) {
                                    let t = tp_target(s1, g, i);
                                    if !(table_level(s1, g) == 4 && i == 511) {
                                        assert(is_table(s0, t));
                                        assert(t != f);
                                    }
                                }
                            }
                        }
                    }
                }
                assert forall|g: u64| g < s1.len() implies #[trigger] frame_page_ok(s1, g) by {
                    if g != f {
                        assert(frame_page_ok(s0, g));
                    }
                }
                assert forall|f1: u64, i1: int, f2: u64, i2: int|
                    #[trigger] tp_real(s1, f1, i1) && #[trigger] tp_real(s1, f2, i2) && tp_target(
                        s1,
                        f1,
                        i1,
                    ) == tp_target(s1, f2, i2) implies f1 == f2 && i1 == i2 by {
                    assert(f1 != f && f2 != f);
                    assert(tp_real(s0, f1, i1));
                    assert(tp_real(s0, f2, i2));
                    assert(ent(s1, f1, i1) == ent(s0, f1, i1));
                    assert(ent(s1, f2, i2) == ent(s0, f2, i2));
                }
            }
            Some(f)
        } else {
            None
        }
    }

    /// Allocate a frame and make it a zeroed page table of `level`.
    pub fn alloc_table(&mut self, level: u64) -> (r: Option<u64>)
        requires
            mem_inv(*old(self)),
            1 <= level <= 4,
        ensures
            final(self).capacity == old(self).capacity,
            match r {
                None => *final(self) == *old(self) && spec_avail(*old(self)) == 0,
                Some(f) => {
                    &&& mem_inv(*final(self))
                    &&& spec_avail(*final(self)) == spec_avail(*old(self)) - 1
                    &&& f < final(self).frames.len()
                    &&& f < 0x1000_0000
                    &&& !is_table(old(self).frames@, f)
                    &&& !is_page(old(self).frames@, f)
                    &&& is_table(final(self).frames@, f)
                    &&& table_level(final(self).frames@, f) == level
                    &&& forall|i: int| 0 <= i < 512 ==> #[trigger] ent(final(self).frames@, f, i) == 0
                    &&& frames_preserved_except(old(self).frames@, final(self).frames@, f)
                },
            },
    {
        let f = match self.take_frame() {
            Some(f) => f,
            None => {
                return None;
            },
        };
        let mut entries: Vec<u64> = Vec::new();
        while entries.len() < 512
            invariant
                entries.len() <= 512,
                forall|i: int| 0 <= i < entries.len() ==> #[trigger] entries@[i] == 0,
            decreases 512 - entries.len(),
        {
            entries.push(0);
        }
        let mid = Ghost(*self);
        self.frames.set(f as usize, FrameSlot::Table(TableFrame { level, entries }));
        proof {
            let s0 = old(self).frames@;
            let sm = mid@.frames@;
            let s1 = self.frames@;
            assert(frames_preserved_except(sm, s1, f));
            lemma_reads_preserved(sm, s1, f);
            lemma_reads_preserved(s0, sm, f);
            assert(frames_preserved_except(s0, s1, f));
            assert(!e_present(0u64)) by (bit_vector);
            assert forall|i: int| 0 <= i < 512 implies #[trigger] ent(s1, f, i) == 0 by {}
            assert forall|g: u64| g < s1.len() implies #[trigger] table_ok(s1, g) by {
                if g == f {
                    assert forall|i: int| 0 <= i < 512 implies #[trigger] entry_ok(s1, f, i) by {
                        assert(ent(s1, f, i) == 0);
                    }
                } else {
                    assert(table_ok(sm, g));
                    if is_table(s1, g) {
                        assert forall|i: int| 0 <= i < 512 implies #[trigger] entry_ok(
                            s1,
                            g,
                            i,
                        ) by {
                            assert(entry_ok(sm, g, i));
                            if is_tp(s1, g, i) {
                                let t = tp_target(s1, g, i);
                                assert(is_tp(sm, g, i));
                                if !(table_level(s1, g) == 4 && i == 511) {
                                    assert(is_table(sm, t));
                                    assert(t != f);
                                }
                            }
                        }
                    }
                }
            }
            assert forall|g: u64| g < s1.len() implies #[trigger] frame_page_ok(s1, g) by {
                if g != f {
                    assert(frame_page_ok(sm, g));
                }
            }
            assert forall|f1: u64, i1: int, f2: u64, i2: int|
                #[trigger] tp_real(s1, f1, i1) && #[trigger] tp_real(s1, f2, i2) && tp_target(
                    s1,
                    f1,
                    i1,
                ) == tp_target(s1, f2, i2) implies f1 == f2 && i1 == i2 by {
                assert(f1 != f && f2 != f);
                assert(tp_real(sm, f1, i1));
                assert(tp_real(sm, f2, i2));
                assert(ent(s1, f1, i1) == ent(sm, f1, i1));
                assert(ent(s1, f2, i2) == ent(sm, f2, i2));
            }
        }
        Some(f)
    }

    /// Allocate a frame and make it a zero-filled data page with a reference
    /// count of one.
    pub fn alloc_page(&mut self) -> (r: Option<u64>)
        requires
            mem_inv(*old(self)),
        ensures
            final(self).capacity == old(self).capacity,
            match r {
                None => *final(self) == *old(self) && spec_avail(*old(self)) == 0,
                Some(f) => {
                    &&& mem_inv(*final(self))
                    &&& spec_avail(*final(self)) == spec_avail(*old(self)) - 1
                    &&& f < final(self).frames.len()
                    &&& f < 0x1000_0000
                    &&& !is_table(old(self).frames@, f)
                    &&& !is_page(old(self).frames@, f)
                    &&& is_page(final(self).frames@, f)
                    &&& page_bytes(final(self).frames@, f) == Seq::new(4096nat, |i: int| 0u8)
                    &&& page_refcount(final(self).frames@, f) == 1
                    &&& frames_preserved_except(old(self).frames@, final(self).frames@, f)
                },
            },
    {
        let f = match self.take_frame() {
            Some(f) => f,
            None => {
                return None;
            },
        };
        let mut bytes: Vec<u8> = Vec::new();
        while bytes.len() < 4096
            invariant
                bytes.len() <= 4096,
                forall|i: int| 0 <= i < bytes.len() ==> #[trigger] bytes@[i] == 0,
            decreases 4096 - bytes.len(),
        {
            bytes.push(0);
        }
        let mid = Ghost(*self);
        self.frames.set(f as usize, FrameSlot::Page(PageFrame { bytes, refcount: 1 }));
        proof {
            let s0 = old(self).frames@;
            let sm = mid@.frames@;
            let s1 = self.frames@;
            assert(frames_preserved_except(sm, s1, f));
            lemma_reads_preserved(sm, s1, f);
            lemma_reads_preserved(s0, sm, f);
            assert(frames_preserved_except(s0, s1, f));
            assert(page_bytes(s1, f) =~= Seq::new(4096nat, |i: int| 0u8));
            assert forall|g: u64| g < s1.len() implies #[trigger] table_ok(s1, g) by {
                if g != f {
                    assert(table_ok(sm, g));
                    if is_table(s1, g) {
                        assert forall|i: int| 0 <= i < 512 implies #[trigger] entry_ok(
                            s1,
                            g,
                            i,
                        ) by {
                            assert(entry_ok(sm, g, i));
                            if is_tp(s1, g, i) {
                                let t = tp_target(s1, g, i);
                                assert(is_tp(sm, g, i));
                                if !(table_level(s1, g) == 4 && i == 511) {
                                    assert(is_table(sm, t));
                                    assert(t != f);
                                }
                            }
                        }
                    }
                }
            }
            assert forall|g: u64| g < s1.len() implies #[trigger] frame_page_ok(s1, g) by {
                if g != f {
                    assert(frame_page_ok(sm, g));
                }
            }
            assert forall|f1: u64, i1: int, f2: u64, i2: int|
                #[trigger] tp_real(s1, f1, i1) && #[trigger] tp_real(s1, f2, i2) && tp_target(
                    s1,
                    f1,
                    i1,
                ) == tp_target(s1, f2, i2) implies f1 == f2 && i1 == i2 by {
                assert(f1 != f && f2 != f);
                assert(tp_real(sm, f1, i1));
                assert(tp_real(sm, f2, i2));
                assert(ent(s1, f1, i1) == ent(sm, f1, i1));
                assert(ent(s1, f2, i2) == ent(sm, f2, i2));
            }
        }
        Some(f)
    }

    /// Read entry `i` of table frame `f`.
    pub fn read_entry(&self, f: u64, i: usize) -> (r: u64)
        requires
            mem_inv(*self),
            is_table(self.frames@, f),
            i < 512,
        ensures
            r == ent(self.frames@, f, i as int),
    {
        assert(table_ok(self.frames@, f));
        match &self.frames[f as usize] {
            FrameSlot::Table(t) => t.entries[i],
            _ => 0,
        }
    }

    /// Overwrite entry `i` of table frame `f` with the raw word `e`. This is
    /// the one way table contents change; callers re-establish the pool
    /// invariant.
    pub(crate) fn write_entry(&mut self, f: u64, i: usize, e: u64)
        requires
            frames_inv(old(self).frames@),
            old(self).frames.len() <= MAX_FRAMES,
            is_table(old(self).frames@, f),
            i < 512,
        ensures
            final(self).frames@.len() == old(self).frames@.len(),
            frames_preserved_except(old(self).frames@, final(self).frames@, f),
            is_table(final(self).frames@, f),
            table_level(final(self).frames@, f) == table_level(old(self).frames@, f),
            final(self).frames@[f as int]->Table_0.entries.len() == 512,
            forall|j: int|
                0 <= j < 512 && j != i ==> #[trigger] ent(final(self).frames@, f, j) == ent(
                    old(self).frames@,
                    f,
                    j,
                ),
            ent(final(self).frames@, f, i as int) == e,
            final(self).free_list == old(self).free_list,
            final(self).capacity == old(self).capacity,
    {
        assert(table_ok(self.frames@, f));
        let fu: usize = f as usize;
        assert(fu as int == f as int);
        let mut slot = FrameSlot::Free;
        self.frames.set_and_swap(fu, &mut slot);
        assert(slot == old(self).frames@[f as int]);
        let new_slot = match slot {
            FrameSlot::Table(t) => {
                let TableFrame { level, mut entries } = t;
                assert(entries@.len() == 512);
                entries.set(i, e);
                FrameSlot::Table(TableFrame { level, entries })
            },
            other => other,
        };
        self.frames.set(f as usize, new_slot);
    }

    /// Read byte `off` of data page `f`.
    pub fn read_byte(&self, f: u64, off: usize) -> (r: u8)
        requires
            mem_inv(*self),
            is_page(self.frames@, f),
            off < 4096,
        ensures
            r == page_bytes(self.frames@, f)[off as int],
    {
        assert(frame_page_ok(self.frames@, f));
        match &self.frames[f as usize] {
            FrameSlot::Page(p) => p.bytes[off],
            _ => 0,
        }
    }

    /// Overwrite byte `off` of data page `f`.
    pub fn write_byte(&mut self, f: u64, off: usize, b: u8)
        requires
            mem_inv(*old(self)),
            is_page(old(self).frames@, f),
            off < 4096,
        ensures
            mem_inv(*final(self)),
            final(self).frames@.len() == old(self).frames@.len(),
            frames_preserved_except(old(self).frames@, final(self).frames@, f),
            is_page(final(self).frames@, f),
            page_bytes(final(self).frames@, f) == page_bytes(old(self).frames@, f).update(
                off as int,
                b,
            ),
            page_refcount(final(self).frames@, f) == page_refcount(old(self).frames@, f),
            spec_avail(*final(self)) == spec_avail(*old(self)),
            final(self).capacity == old(self).capacity,
    {
        assert(frame_page_ok(self.frames@, f));
        let mut slot = FrameSlot::Free;
        self.frames.set_and_swap(f as usize, &mut slot);
        let new_slot = match slot {
            FrameSlot::Page(p) => {
                let PageFrame { mut bytes, refcount } = p;
                assert(bytes@.len() == 4096);
                bytes.set(off, b);
                FrameSlot::Page(PageFrame { bytes, refcount })
            },
            other => other,
        };
        self.frames.set(f as usize, new_slot);
        proof {
            lemma_nontable_update(old(self).frames@, self.frames@, f);
        }
    }

    /// The 4096 bytes of data page `f`, as a fresh vector.
    pub fn page_contents(&self, f: u64) -> (r: Vec<u8>)
        requires
            mem_inv(*self),
            is_page(self.frames@, f),
        ensures
            r@ == page_bytes(self.frames@, f),
    {
        assert(frame_page_ok(self.frames@, f));
        let mut out: Vec<u8> = Vec::new();
        let mut off: usize = 0;
        while off < 4096
            invariant
                mem_inv(*self),
                is_page(self.frames@, f),
                off <= 4096,
                out@.len() == off,
                forall|i: int| 0 <= i < off ==> #[trigger] out@[i] == page_bytes(self.frames@, f)[i],
            decreases 4096 - off,
        {
            out.push(self.read_byte(f, off));
            off = off + 1;
        }
        proof {
            assert(out@ =~= page_bytes(self.frames@, f));
        }
        out
    }

    /// Replace the 4096 bytes of data page `f`, keeping its reference count.
    pub fn set_page_contents(&mut self, f: u64, bytes: Vec<u8>)
        requires
            mem_inv(*old(self)),
            is_page(old(self).frames@, f),
            bytes@.len() == 4096,
        ensures
            mem_inv(*final(self)),
            final(self).frames@.len() == old(self).frames@.len(),
            frames_preserved_except(old(self).frames@, final(self).frames@, f),
            is_page(final(self).frames@, f),
            page_bytes(final(self).frames@, f) == bytes@,
            page_refcount(final(self).frames@, f) == page_refcount(old(self).frames@, f),
            spec_avail(*final(self)) == spec_avail(*old(self)),
            final(self).capacity == old(self).capacity,
            forall|g: u64, i: int| #[trigger] ent(final(self).frames@, g, i) == ent(
                old(self).frames@,
                g,
                i,
            ),
    {
        assert(frame_page_ok(self.frames@, f));
        let fu: usize = f as usize;
        let mut slot = FrameSlot::Free;
        self.frames.set_and_swap(fu, &mut slot);
        let new_slot = match slot {
            FrameSlot::Page(p) => FrameSlot::Page(PageFrame { bytes, refcount: p.refcount }),
            other => other,
        };
        self.frames.set(fu, new_slot);
        proof {
            lemma_nontable_update(old(self).frames@, self.frames@, f);
        }
    }

    /// Whether frame `f` is a data page of the pool.
    pub fn is_data_page(&self, f: u64) -> (r: bool)
        ensures
            r == is_page(self.frames@, f),
    {
        if f < self.frames.len() as u64 {
            match &self.frames[f as usize] {
                FrameSlot::Page(_) => true,
                _ => false,
            }
        } else {
            false
        }
    }

    /// The reference count of data page `f`.
    pub fn refcount(&self, f: u64) -> (r: u64)
        requires
            mem_inv(*self),
            is_page(self.frames@, f),
        ensures
            r == page_refcount(self.frames@, f),
    {
        match &self.frames[f as usize] {
            FrameSlot::Page(p) => p.refcount,
            _ => 0,
        }
    }

    /// Add one sharer to data page `f`.
    pub fn refcount_inc(&mut self, f: u64)
        requires
            mem_inv(*old(self)),
            is_page(old(self).frames@, f),
            page_refcount(old(self).frames@, f) < 0xffff_ffff_ffff_ffff,
        ensures
            mem_inv(*final(self)),
            final(self).frames@.len() == old(self).frames@.len(),
            frames_preserved_except(old(self).frames@, final(self).frames@, f),
            is_page(final(self).frames@, f),
            page_bytes(final(self).frames@, f) == page_bytes(old(self).frames@, f),
            page_refcount(final(self).frames@, f) == page_refcount(old(self).frames@, f) + 1,
            spec_avail(*final(self)) == spec_avail(*old(self)),
            final(self).capacity == old(self).capacity,
            forall|g: u64, i: int| #[trigger] ent(final(self).frames@, g, i) == ent(
                old(self).frames@,
                g,
                i,
            ),
    {
        assert(frame_page_ok(self.frames@, f));
        let fu: usize = f as usize;
        let mut slot = FrameSlot::Free;
        self.frames.set_and_swap(fu, &mut slot);
        let new_slot = match slot {
            FrameSlot::Page(p) => {
                let PageFrame { bytes, refcount } = p;
                FrameSlot::Page(PageFrame { bytes, refcount: refcount + 1 })
            },
            other => other,
        };
        self.frames.set(fu, new_slot);
        proof {
            lemma_nontable_update(old(self).frames@, self.frames@, f);
        }
    }

    /// Remove one sharer from data page `f`.
    pub fn refcount_dec(&mut self, f: u64) -> (r: u64)
        requires
            mem_inv(*old(self)),
            is_page(old(self).frames@, f),
            page_refcount(old(self).frames@, f) > 0,
        ensures
            mem_inv(*final(self)),
            r == page_refcount(old(self).frames@, f) - 1,
            final(self).frames@.len() == old(self).frames@.len(),
            frames_preserved_except(old(self).frames@, final(self).frames@, f),
            is_page(final(self).frames@, f),
            page_bytes(final(self).frames@, f) == page_bytes(old(self).frames@, f),
            page_refcount(final(self).frames@, f) == page_refcount(old(self).frames@, f) - 1,
            spec_avail(*final(self)) == spec_avail(*old(self)),
            final(self).capacity == old(self).capacity,
            forall|g: u64, i: int| #[trigger] ent(final(self).frames@, g, i) == ent(
                old(self).frames@,
                g,
                i,
            ),
    {
        assert(frame_page_ok(self.frames@, f));
        let fu: usize = f as usize;
        let mut slot = FrameSlot::Free;
        self.frames.set_and_swap(fu, &mut slot);
        let (new_slot, r) = match slot {
            FrameSlot::Page(p) => {
                let PageFrame { bytes, refcount } = p;
                let r = refcount - 1;
                (FrameSlot::Page(PageFrame { bytes, refcount: r }), r)
            },
            other => (other, 0),
        };
        self.frames.set(fu, new_slot);
        proof {
            lemma_nontable_update(old(self).frames@, self.frames@, f);
        }
        r
    }

    /// Return data page `f` to the free pool.
    pub fn free_page(&mut self, f: u64)
        requires
            mem_inv(*old(self)),
            is_page(old(self).frames@, f),
        ensures
            mem_inv(*final(self)),
            final(self).frames@.len() == old(self).frames@.len(),
            frames_preserved_except(old(self).frames@, final(self).frames@, f),
            !is_page(final(self).frames@, f),
            !is_table(final(self).frames@, f),
            spec_avail(*final(self)) == spec_avail(*old(self)) + 1,
            final(self).capacity == old(self).capacity,
            forall|g: u64, i: int| #[trigger] ent(final(self).frames@, g, i) == ent(
                old(self).frames@,
                g,
                i,
            ),
    {
        let fu: usize = f as usize;
        self.frames.set(fu, FrameSlot::Free);
        self.free_list.push(f);
        proof {
            lemma_nontable_update(old(self).frames@, self.frames@, f);
            assert forall|k: int|
                0 <= k < self.free_list.len() implies (#[trigger] self.free_list@[k]
                < self.frames.len() && self.frames@[self.free_list@[k] as int] is Free) by {
                if k < old(self).free_list.len() {
                    assert(old(self).free_list@[k] < old(self).frames.len());
                    assert(old(self).frames@[old(self).free_list@[k] as int] is Free);
                    assert(old(self).free_list@[k] != f);
                }
            }
            assert forall|j: int, k: int|
                0 <= j < self.free_list@.len() && 0 <= k < self.free_list@.len() && j
                    != k implies self.free_list@[j] != self.free_list@[k] by {
                if j < old(self).free_list.len() && k < old(self).free_list.len() {
                    assert(old(self).free_list@.no_duplicates());
                } else if j == old(self).free_list@.len() as int {
                    assert(old(self).free_list@[k] != f);
                } else if k == old(self).free_list@.len() as int {
                    assert(old(self).free_list@[j] != f);
                }
            }
        }
    }
}

} // verus!
