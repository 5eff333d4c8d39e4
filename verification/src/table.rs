//! The four-level page-table engine: translation walks, mapping and
//! unmapping with on-demand creation of intermediate tables, and the
//! recursive self-reference that makes every table addressable.

use vstd::prelude::*;
use crate::entry::{
    e_addr, e_flags, e_present, e_small, addr_field_ok, flags_field_ok, has_flag,
    lemma_entry_encode, lemma_entry_decompose, lemma_flag_bits, PageTableEntry, FLAG_PRESENT, FLAG_SMALL_PAGE,
    PAGE_TABLE_FLAGS, ADDRESS_MASK,
};
use crate::mem::{
    ent, e_frame, frame_addr, frames_inv, frames_preserved_except, is_table, is_page, is_tp,
    lemma_frame_addr, lemma_reads_preserved, mem_inv, page_bytes, page_refcount, spec_avail,
    table_level, table_ok, entry_ok,
    tp_real, tp_target, tp_injective, frame_page_ok, PhysicalMemory, FrameSlot, MAX_FRAMES,
};

verus! {

/// The two mapping granularities the engine supports.
#[derive(Clone, Copy, PartialEq, Eq, Structural, Debug)]
pub enum PageSize {
    /// A 4 KiB page, terminal at level 1.
    Size4K,
    /// A 2 MiB block, terminal at level 2.
    Size2M,
}

/// Index into the level-4 table: bits 39..48 of the virtual address.
pub open spec fn idx4(v: u64) -> int {
    ((v >> 39) & 0x1ff) as int
}

/// Index into the level-3 table: bits 30..39.
pub open spec fn idx3(v: u64) -> int {
    ((v >> 30) & 0x1ff) as int
}

/// Index into the level-2 table: bits 21..30.
pub open spec fn idx2(v: u64) -> int {
    ((v >> 21) & 0x1ff) as int
}

/// Index into the level-1 table: bits 12..21.
pub open spec fn idx1(v: u64) -> int {
    ((v >> 12) & 0x1ff) as int
}

/// The page number of `v`: bits 12..48.
pub open spec fn vpn(v: u64) -> u64 {
    (v >> 12) & 0xf_ffff_ffff
}

/// `a` and `b` lie in the same 4 KiB page.
pub open spec fn same_page_4k(a: u64, b: u64) -> bool {
    vpn(a) == vpn(b)
}

/// `a` and `b` lie in the same 2 MiB block.
pub open spec fn same_page_2m(a: u64, b: u64) -> bool {
    (a >> 21) & 0x7ff_ffff == (b >> 21) & 0x7ff_ffff
}

/// `a` and `b` lie in the same page of size `sz`.
pub open spec fn same_page(sz: PageSize, a: u64, b: u64) -> bool {
    match sz {
        PageSize::Size4K => same_page_4k(a, b),
        PageSize::Size2M => same_page_2m(a, b),
    }
}

/// A virtual address whose walk does not pass through the self-reference
/// slot of the root.
pub open spec fn vaddr_ok(v: u64) -> bool {
    idx4(v) != 511
}

/// Indices are nine-bit fields.
pub proof fn lemma_idx_bounds(v: u64)
    by (bit_vector)
    ensures
        0 <= ((v >> 39) & 0x1ff) < 512,
        0 <= ((v >> 30) & 0x1ff) < 512,
        0 <= ((v >> 21) & 0x1ff) < 512,
        0 <= ((v >> 12) & 0x1ff) < 512,
{
}

/// Two addresses share a 4 KiB page exactly when all four indices agree,
/// and a 2 MiB block exactly when the top three agree.
proof fn lemma_same_page_indices(a: u64, b: u64)
    by (bit_vector)
    ensures
        ((a >> 12) & 0xf_ffff_ffff == (b >> 12) & 0xf_ffff_ffff) <==> ((a >> 39) & 0x1ff == (b
            >> 39) & 0x1ff && (a >> 30) & 0x1ff == (b >> 30) & 0x1ff && (a >> 21) & 0x1ff == (b
            >> 21) & 0x1ff && (a >> 12) & 0x1ff == (b >> 12) & 0x1ff),
        ((a >> 21) & 0x7ff_ffff == (b >> 21) & 0x7ff_ffff) <==> ((a >> 39) & 0x1ff == (b >> 39)
            & 0x1ff && (a >> 30) & 0x1ff == (b >> 30) & 0x1ff && (a >> 21) & 0x1ff == (b >> 21)
            & 0x1ff),
{
}

/// Follow entry `i` of table `f` down one level, when it is a table pointer
/// or a page of the next level down.
pub open spec fn down(s: Seq<FrameSlot>, f: u64, i: int) -> Option<u64> {
    let e = ent(s, f, i);
    if e_present(e) && e_small(e) {
        Option::Some(e_frame(e))
    } else {
        Option::None
    }
}

/// The four-level walk of `v` from the level-4 table `root`: the terminal
/// entry's address field and flags, `None` where translation stops early.
/// A present level-2 entry without SMALL_PAGE is a 2 MiB block and is
/// terminal there.
pub open spec fn walk(s: Seq<FrameSlot>, root: u64, v: u64) -> Option<(u64, u64)> {
    match down(s, root, idx4(v)) {
        Option::None => Option::None,
        Option::Some(t3) => match down(s, t3, idx3(v)) {
            Option::None => Option::None,
            Option::Some(t2) => {
                let e2 = ent(s, t2, idx2(v));
                if !e_present(e2) {
                    Option::None
                } else if !e_small(e2) {
                    Option::Some((e_addr(e2), e_flags(e2)))
                } else {
                    let e1 = ent(s, e_frame(e2), idx1(v));
                    if e_present(e1) {
                        Option::Some((e_addr(e1), e_flags(e1)))
                    } else {
                        Option::None
                    }
                }
            },
        },
    }
}

/// What `translate` returns for `v`: the terminal physical address plus the
/// low twelve bits of `v`, and the entry's flags.
pub open spec fn spec_translate(s: Seq<FrameSlot>, root: u64, v: u64) -> Option<(u64, u64)> {
    match walk(s, root, v) {
        Option::Some((a, fl)) => Option::Some(((a + (v & 0xfff)) as u64, fl)),
        Option::None => Option::None,
    }
}

/// A frame that may serve as the root of a walk.
pub open spec fn is_root(s: Seq<FrameSlot>, r: u64) -> bool {
    is_table(s, r) && table_level(s, r) == 4
}

/// The level-3 table on `v`'s path, when the walk reaches one.
pub open spec fn path3(s: Seq<FrameSlot>, root: u64, v: u64) -> Option<u64> {
    down(s, root, idx4(v))
}

/// The level-2 table on `v`'s path.
pub open spec fn path2(s: Seq<FrameSlot>, root: u64, v: u64) -> Option<u64> {
    match path3(s, root, v) {
        Option::Some(t3) => down(s, t3, idx3(v)),
        Option::None => Option::None,
    }
}

/// The level-1 table on `v`'s path.
pub open spec fn path1(s: Seq<FrameSlot>, root: u64, v: u64) -> Option<u64> {
    match path2(s, root, v) {
        Option::Some(t2) => down(s, t2, idx2(v)),
        Option::None => Option::None,
    }
}

/// Under the pool invariant the tables on a walk's path have the expected
/// levels, and distinct paths own distinct tables: two addresses reach the
/// same level-3, level-2 or level-1 table only when their leading indices
/// agree (self-referencing walks excepted).
pub proof fn lemma_path_levels(s: Seq<FrameSlot>, root: u64, v: u64)
    requires
        frames_inv(s),
        is_root(s, root),
        vaddr_ok(v),
    ensures
        match path3(s, root, v) {
            Option::Some(t3) => is_table(s, t3) && table_level(s, t3) == 3 && t3 != root
                && tp_real(s, root, idx4(v)) && tp_target(s, root, idx4(v)) == t3,
            Option::None => true,
        },
        match path2(s, root, v) {
            Option::Some(t2) => is_table(s, t2) && table_level(s, t2) == 2 && t2 != root,
            Option::None => true,
        },
        match path1(s, root, v) {
            Option::Some(t1) => is_table(s, t1) && table_level(s, t1) == 1 && t1 != root,
            Option::None => true,
        },
{
    lemma_idx_bounds(v);
    assert(table_ok(s, root));
    if path3(s, root, v) is Some {
        let t3 = path3(s, root, v)->Some_0;
        assert(entry_ok(s, root, idx4(v)));
        assert(is_tp(s, root, idx4(v)));
        if path2(s, root, v) is Some {
            let t2 = path2(s, root, v)->Some_0;
            assert(table_ok(s, t3));
            assert(entry_ok(s, t3, idx3(v)));
            if path1(s, root, v) is Some {
                let t1 = path1(s, root, v)->Some_0;
                assert(table_ok(s, t2));
                assert(entry_ok(s, t2, idx2(v)));
            }
        }
    }
}

/// Distinct paths own distinct tables, across address spaces too: two walks
/// reach the same level-3, level-2 or level-1 table only from the same root
/// with the same leading indices.
pub proof fn lemma_path_disjoint(s: Seq<FrameSlot>, ra: u64, a: u64, rb: u64, b: u64)
    requires
        frames_inv(s),
        is_root(s, ra),
        is_root(s, rb),
        vaddr_ok(a),
        vaddr_ok(b),
    ensures
        path3(s, ra, a) is Some && path3(s, rb, b) is Some && !(ra == rb && idx4(a) == idx4(b))
            ==> path3(s, ra, a)->Some_0 != path3(s, rb, b)->Some_0,
        path2(s, ra, a) is Some && path2(s, rb, b) is Some && !(ra == rb && idx4(a) == idx4(b)
            && idx3(a) == idx3(b)) ==> path2(s, ra, a)->Some_0 != path2(s, rb, b)->Some_0,
        path1(s, ra, a) is Some && path1(s, rb, b) is Some && !(ra == rb && idx4(a) == idx4(b)
            && idx3(a) == idx3(b) && idx2(a) == idx2(b)) ==> path1(s, ra, a)->Some_0 != path1(
            s,
            rb,
            b,
        )->Some_0,
{
    lemma_idx_bounds(a);
    lemma_idx_bounds(b);
    lemma_path_levels(s, ra, a);
    lemma_path_levels(s, rb, b);
    if path3(s, ra, a) is Some && path3(s, rb, b) is Some {
        let ta = path3(s, ra, a)->Some_0;
        let tb = path3(s, rb, b)->Some_0;
        if !(ra == rb && idx4(a) == idx4(b)) && ta == tb {
            assert(tp_real(s, ra, idx4(a)));
            assert(tp_real(s, rb, idx4(b)));
            assert(tp_target(s, ra, idx4(a)) == tp_target(s, rb, idx4(b)));
            assert(false);
        }
    }
    if path2(s, ra, a) is Some && path2(s, rb, b) is Some {
        let ta3 = path3(s, ra, a)->Some_0;
        let tb3 = path3(s, rb, b)->Some_0;
        let ta = path2(s, ra, a)->Some_0;
        let tb = path2(s, rb, b)->Some_0;
        assert(is_tp(s, ta3, idx3(a)));
        assert(is_tp(s, tb3, idx3(b)));
        assert(tp_real(s, ta3, idx3(a)));
        assert(tp_real(s, tb3, idx3(b)));
        if !(ra == rb && idx4(a) == idx4(b) && idx3(a) == idx3(b)) && ta == tb {
            assert(tp_target(s, ta3, idx3(a)) == tp_target(s, tb3, idx3(b)));
            assert(ta3 == tb3 && idx3(a) == idx3(b));
            assert(false);
        }
    }
    if path1(s, ra, a) is Some && path1(s, rb, b) is Some {
        let ta2 = path2(s, ra, a)->Some_0;
        let tb2 = path2(s, rb, b)->Some_0;
        let ta = path1(s, ra, a)->Some_0;
        let tb = path1(s, rb, b)->Some_0;
        assert(is_tp(s, ta2, idx2(a)));
        assert(is_tp(s, tb2, idx2(b)));
        assert(tp_real(s, ta2, idx2(a)));
        assert(tp_real(s, tb2, idx2(b)));
        if !(ra == rb && idx4(a) == idx4(b) && idx3(a) == idx3(b) && idx2(a) == idx2(b)) && ta
            == tb {
            assert(tp_target(s, ta2, idx2(a)) == tp_target(s, tb2, idx2(b)));
            assert(ta2 == tb2 && idx2(a) == idx2(b));
            assert(false);
        }
    }
}

/// No table-pointer entry leads to `g`.
pub open spec fn untargeted(s: Seq<FrameSlot>, g: u64) -> bool {
    forall|h: u64, j: int| #[trigger] tp_real(s, h, j) ==> tp_target(s, h, j) != g
}

/// A frame that just became a table, with all entries zero, is not yet the
/// target of any table pointer.
pub proof fn lemma_fresh_untargeted(s0: Seq<FrameSlot>, s1: Seq<FrameSlot>, g: u64)
    requires
        frames_inv(s0),
        frames_inv(s1),
        !is_table(s0, g),
        frames_preserved_except(s0, s1, g),
        forall|i: int| 0 <= i < 512 ==> #[trigger] ent(s1, g, i) == 0,
    ensures
        untargeted(s1, g),
{
    lemma_reads_preserved(s0, s1, g);
    assert forall|h: u64, j: int| #[trigger] tp_real(s1, h, j) implies tp_target(s1, h, j) != g by {
        if h == g {
            assert(ent(s1, g, j) == if 0 <= j < 512 {
                0u64
            } else {
                ent(s1, g, j)
            });
            lemma_flag_bits();
        } else {
            assert(ent(s1, h, j) == ent(s0, h, j));
            assert(is_table(s0, h));
            assert(tp_real(s0, h, j));
            assert(table_ok(s0, h));
            assert(entry_ok(s0, h, j));
            assert(is_table(s0, tp_target(s0, h, j)));
        }
    }
}

/// Writing one entry changes no read of any other entry; this packages what
/// a single `write_entry` did for the framing proofs below.
pub open spec fn single_entry_change(
    s0: Seq<FrameSlot>,
    s1: Seq<FrameSlot>,
    f: u64,
    i: int,
) -> bool {
    &&& s1.len() == s0.len()
    &&& forall|g: u64, j: int| !(g == f && j == i) ==> #[trigger] ent(s1, g, j) == ent(s0, g, j)
    &&& forall|g: u64| #[trigger] is_table(s1, g) <==> is_table(s0, g)
    &&& forall|g: u64| is_table(s0, g) ==> #[trigger] table_level(s1, g) == table_level(s0, g)
}

/// A `write_entry` call gives exactly a `single_entry_change`.
pub proof fn lemma_write_is_single_change(m0: PhysicalMemory, m1: PhysicalMemory, f: u64, i: int)
    requires
        frames_inv(m0.frames@),
        is_table(m0.frames@, f),
        0 <= i < 512,
        m1.frames@.len() == m0.frames@.len(),
        frames_preserved_except(m0.frames@, m1.frames@, f),
        is_table(m1.frames@, f),
        table_level(m1.frames@, f) == table_level(m0.frames@, f),
        m1.frames@[f as int]->Table_0.entries.len() == 512,
        forall|j: int|
            0 <= j < 512 && j != i ==> #[trigger] ent(m1.frames@, f, j) == ent(m0.frames@, f, j),
    ensures
        single_entry_change(m0.frames@, m1.frames@, f, i),
{
    let s0 = m0.frames@;
    let s1 = m1.frames@;
    lemma_reads_preserved(s0, s1, f);
    assert(table_ok(s0, f));
    assert forall|g: u64, j: int| !(g == f && j == i) implies #[trigger] ent(s1, g, j) == ent(
        s0,
        g,
        j,
    ) by {
        if g == f {
            if 0 <= j < 512 {
            } else {
                assert(ent(s1, g, j) == 0 && ent(s0, g, j) == 0);
            }
        }
    }
    assert forall|g: u64| #[trigger] is_table(s1, g) <==> is_table(s0, g) by {
        if g != f {
            assert(is_table(s1, g) <==> is_table(s0, g));
        }
    }
}

/// After a single-entry change away from `v`'s path, the walk of `v` and
/// every table on its path read exactly as before.
pub proof fn lemma_walk_after_write(
    s0: Seq<FrameSlot>,
    s1: Seq<FrameSlot>,
    root: u64,
    v: u64,
    f: u64,
    i: int,
)
    requires
        frames_inv(s0),
        is_root(s0, root),
        vaddr_ok(v),
        forall|g: u64, j: int| !(g == f && j == i) ==> #[trigger] ent(s1, g, j) == ent(s0, g, j),
        !(f == root && i == idx4(v)),
        match path3(s0, root, v) {
            Option::Some(t3) => !(f == t3 && i == idx3(v)),
            Option::None => true,
        },
        match path2(s0, root, v) {
            Option::Some(t2) => !(f == t2 && i == idx2(v)),
            Option::None => true,
        },
        match path1(s0, root, v) {
            Option::Some(t1) => !(f == t1 && i == idx1(v)),
            Option::None => true,
        },
    ensures
        walk(s1, root, v) == walk(s0, root, v),
        path3(s1, root, v) == path3(s0, root, v),
        path2(s1, root, v) == path2(s0, root, v),
        path1(s1, root, v) == path1(s0, root, v),
{
    assert(ent(s1, root, idx4(v)) == ent(s0, root, idx4(v)));
    match path3(s0, root, v) {
        Option::None => {},
        Option::Some(t3) => {
            assert(ent(s1, t3, idx3(v)) == ent(s0, t3, idx3(v)));
            match path2(s0, root, v) {
                Option::None => {},
                Option::Some(t2) => {
                    assert(ent(s1, t2, idx2(v)) == ent(s0, t2, idx2(v)));
                    match path1(s0, root, v) {
                        Option::None => {},
                        Option::Some(t1) => {
                            assert(ent(s1, t1, idx1(v)) == ent(s0, t1, idx1(v)));
                        },
                    }
                },
            }
        },
    }
}

/// Installing a table pointer to an untargeted fresh table preserves the
/// frame-level invariant.
pub proof fn lemma_link_inv(s0: Seq<FrameSlot>, s1: Seq<FrameSlot>, f: u64, i: int, g: u64)
    requires
        frames_inv(s0),
        is_table(s0, f),
        table_level(s0, f) >= 2,
        0 <= i < 512,
        single_entry_change(s0, s1, f, i),
        is_table(s1, f),
        s1[f as int]->Table_0.entries.len() == 512,
        e_present(ent(s1, f, i)),
        e_small(ent(s1, f, i)),
        e_addr(ent(s1, f, i)) == frame_addr(g),
        e_frame(ent(s1, f, i)) == g,
        g < s0.len(),
        is_table(s0, g),
        table_level(s0, g) == table_level(s0, f) - 1,
        untargeted(s0, g),
        !(table_level(s0, f) == 4 && i == 511),
        forall|h: u64| #[trigger] is_page(s1, h) <==> is_page(s0, h),
        forall|h: u64| is_page(s0, h) ==> page_bytes(s1, h) == page_bytes(s0, h),
        s1.len() == s0.len(),
        forall|h: int| 0 <= h < s0.len() && h != f ==> s1[h] == s0[h],
    ensures
        frames_inv(s1),
{
    assert forall|h: u64| h < s1.len() implies #[trigger] table_ok(s1, h) by {
        assert(table_ok(s0, h));
        if is_table(s1, h) {
            assert(is_table(s0, h));
            assert forall|j: int| 0 <= j < 512 implies #[trigger] entry_ok(s1, h, j) by {
                assert(entry_ok(s0, h, j));
                if is_tp(s1, h, j) {
                    if h == f && j == i {
                        assert(entry_ok(s1, f, i));
                    } else {
                        assert(ent(s1, h, j) == ent(s0, h, j));
                        assert(is_tp(s0, h, j));
                        let t = tp_target(s0, h, j);
                        if !(table_level(s0, h) == 4 && j == 511) {
                            assert(is_table(s0, t));
                        }
                    }
                }
            }
        }
    }
    assert forall|h: u64| h < s1.len() implies #[trigger] frame_page_ok(s1, h) by {
        assert(frame_page_ok(s0, h));
        if is_page(s1, h) {
            assert(is_page(s0, h));
            assert(h != f);
        }
    }
    assert forall|f1: u64, i1: int, f2: u64, i2: int|
        #[trigger] tp_real(s1, f1, i1) && #[trigger] tp_real(s1, f2, i2) && tp_target(s1, f1, i1)
            == tp_target(s1, f2, i2) implies f1 == f2 && i1 == i2 by {
        let new1 = f1 == f && i1 == i;
        let new2 = f2 == f && i2 == i;
        if new1 && new2 {
        } else if new1 {
            assert(ent(s1, f2, i2) == ent(s0, f2, i2));
            assert(tp_real(s0, f2, i2));
            assert(tp_target(s0, f2, i2) != g);
            assert(tp_target(s1, f2, i2) == tp_target(s0, f2, i2));
            assert(tp_target(s1, f1, i1) == g);
            assert(false);
        } else if new2 {
            assert(ent(s1, f1, i1) == ent(s0, f1, i1));
            assert(tp_real(s0, f1, i1));
            assert(tp_target(s0, f1, i1) != g);
            assert(false);
        } else {
            assert(ent(s1, f1, i1) == ent(s0, f1, i1));
            assert(ent(s1, f2, i2) == ent(s0, f2, i2));
            assert(tp_real(s0, f1, i1));
            assert(tp_real(s0, f2, i2));
        }
    }
}

/// Writing a non-table-pointer word (a terminal page, a block, or zero)
/// preserves the frame-level invariant.
pub proof fn lemma_terminal_write_inv(s0: Seq<FrameSlot>, s1: Seq<FrameSlot>, f: u64, i: int)
    requires
        frames_inv(s0),
        is_table(s0, f),
        0 <= i < 512,
        single_entry_change(s0, s1, f, i),
        is_table(s1, f),
        s1[f as int]->Table_0.entries.len() == 512,
        table_level(s0, f) == 1 || !(e_present(ent(s1, f, i)) && e_small(ent(s1, f, i))),
        forall|h: u64| #[trigger] is_page(s1, h) <==> is_page(s0, h),
        s1.len() == s0.len(),
        forall|h: int| 0 <= h < s0.len() && h != f ==> s1[h] == s0[h],
    ensures
        frames_inv(s1),
{
    assert(!is_tp(s1, f, i));
    assert forall|h: u64| h < s1.len() implies #[trigger] table_ok(s1, h) by {
        assert(table_ok(s0, h));
        if is_table(s1, h) {
            assert(is_table(s0, h));
            assert forall|j: int| 0 <= j < 512 implies #[trigger] entry_ok(s1, h, j) by {
                assert(entry_ok(s0, h, j));
                if is_tp(s1, h, j) {
                    assert(!(h == f && j == i));
                    assert(ent(s1, h, j) == ent(s0, h, j));
                    assert(is_tp(s0, h, j));
                    let t = tp_target(s0, h, j);
                    if !(table_level(s0, h) == 4 && j == 511) {
                        assert(is_table(s0, t));
                    }
                }
            }
        }
    }
    assert forall|h: u64| h < s1.len() implies #[trigger] frame_page_ok(s1, h) by {
        assert(frame_page_ok(s0, h));
        if is_page(s1, h) {
            assert(is_page(s0, h));
            assert(h != f);
        }
    }
    assert forall|f1: u64, i1: int, f2: u64, i2: int|
        #[trigger] tp_real(s1, f1, i1) && #[trigger] tp_real(s1, f2, i2) && tp_target(s1, f1, i1)
            == tp_target(s1, f2, i2) implies f1 == f2 && i1 == i2 by {
        assert(!(f1 == f && i1 == i) && !(f2 == f && i2 == i));
        assert(ent(s1, f1, i1) == ent(s0, f1, i1));
        assert(ent(s1, f2, i2) == ent(s0, f2, i2));
        assert(tp_real(s0, f1, i1));
        assert(tp_real(s0, f2, i2));
    }
}

/// The free list and capacity survive a table write: the written frame is a
/// table, never a free slot.
pub proof fn lemma_mem_inv_after_write(m0: PhysicalMemory, m1: PhysicalMemory, f: u64)
    requires
        mem_inv(m0),
        is_table(m0.frames@, f),
        frames_inv(m1.frames@),
        m1.frames@.len() == m0.frames@.len(),
        forall|h: int| 0 <= h < m0.frames@.len() && h != f ==> m1.frames@[h] == m0.frames@[h],
        is_table(m1.frames@, f),
        m1.free_list == m0.free_list,
        m1.capacity == m0.capacity,
    ensures
        mem_inv(m1),
        spec_avail(m1) == spec_avail(m0),
{
    assert forall|k: int|
        0 <= k < m1.free_list.len() implies (#[trigger] m1.free_list@[k] < m1.frames.len()
        && m1.frames@[m1.free_list@[k] as int] is Free) by {
        assert(m0.free_list@[k] < m0.frames.len());
        assert(m0.frames@[m0.free_list@[k] as int] is Free);
        assert(m0.free_list@[k] != f);
    }
}

/// For any sequence of `map`, `remap` and `unmap` operations, `translate`
/// answers with the most recent operation on `v`'s page and nothing else.
/// This is the induction step for a map: between `s1` and `s2` a map of
/// `page` to `frame` happened (the two hypotheses are exactly what
/// `PageTable::map` ensures); afterwards `v` translates to the new frame
/// when it shares the page, and exactly as before when it does not.
pub proof fn lemma_translate_after_map(
    s1: Seq<FrameSlot>,
    s2: Seq<FrameSlot>,
    root: u64,
    sz: PageSize,
    page: u64,
    frame: u64,
    flags: u64,
    v: u64,
)
    requires
        is_root(s1, root),
        vaddr_ok(v),
        forall|v2: u64|
            same_page(sz, v2, page) ==> #[trigger] walk(s2, root, v2) == Option::Some(
                (frame, flags | FLAG_PRESENT),
            ),
        forall|r2: u64, v2: u64|
            is_root(s1, r2) && vaddr_ok(v2) && !(r2 == root && same_page(sz, v2, page))
                ==> #[trigger] walk(s2, r2, v2) == walk(s1, r2, v2),
    ensures
        walk(s2, root, v) == if same_page(sz, v, page) {
            Option::Some((frame, flags | FLAG_PRESENT))
        } else {
            walk(s1, root, v)
        },
{
}

/// The induction step for an unmap: afterwards `v` translates to nothing
/// when it shares the unmapped page, and exactly as before when it does
/// not. The hypotheses are what `PageTable::unmap` ensures.
pub proof fn lemma_translate_after_unmap(
    s1: Seq<FrameSlot>,
    s2: Seq<FrameSlot>,
    root: u64,
    sz: PageSize,
    page: u64,
    v: u64,
)
    requires
        is_root(s1, root),
        vaddr_ok(v),
        forall|v2: u64| same_page(sz, v2, page) ==> #[trigger] walk(s2, root, v2) is None,
        forall|r2: u64, v2: u64|
            is_root(s1, r2) && vaddr_ok(v2) && !(r2 == root && same_page(sz, v2, page))
                ==> #[trigger] walk(s2, r2, v2) == walk(s1, r2, v2),
    ensures
        walk(s2, root, v) == if same_page(sz, v, page) {
            Option::None::<(u64, u64)>
        } else {
            walk(s1, root, v)
        },
{
}

/// The virtual address through which the recursive self-mapping exposes
/// the child table under entry `index` of the table visible at `table`:
/// shift the table's own index bits up one level and pack the child index
/// into bits 12..21, so that a walk of the result reaches the child table
/// as data. A low-half table address is masked back to 48 bits. The
/// shifting property is the contract: the result's level-4..2 indices are
/// the argument's level-3..1 indices, and its level-1 index is `index`.
pub fn next_table_address(table: u64, index: u64) -> (r: u64)
    requires
        index < 512,
        table % 4096 == 0,
    ensures
        r == if table & 0xffff_0000_0000_0000 == 0 {
            (((table << 9) | (index << 12)) & 0x0000_ffff_ffff_ffff) as u64
        } else {
            ((table << 9) | (index << 12)) as u64
        },
        idx1(r) == index,
        idx2(r) == idx1(table),
        idx3(r) == idx2(table),
        idx4(r) == idx3(table),
{
    let a = (table << 9) | (index << 12);
    let r = if table & 0xffff_0000_0000_0000 == 0 {
        a & 0x0000_ffff_ffff_ffff
    } else {
        a
    };
    proof {
        lemma_next_table_shift(table, index, r);
    }
    r
}

/// The recursive-mapping shift: the composed address carries the table's
/// index bits one level up and the child index at the bottom.
proof fn lemma_next_table_shift(table: u64, index: u64, r: u64)
    by (bit_vector)
    requires
        index < 512,
        table % 4096 == 0,
        r == if table & 0xffff_0000_0000_0000 == 0 {
            ((table << 9) | (index << 12)) & 0x0000_ffff_ffff_ffff
        } else {
            (table << 9) | (index << 12)
        },
    ensures
        (r >> 12) & 0x1ff == index,
        (r >> 21) & 0x1ff == (table >> 12) & 0x1ff,
        (r >> 30) & 0x1ff == (table >> 21) & 0x1ff,
        (r >> 39) & 0x1ff == (table >> 30) & 0x1ff,
{
}

/// Compute the level-4 index of `v`.
pub fn index4(v: u64) -> (r: usize)
    ensures
        r == idx4(v),
        r < 512,
{
    proof {
        lemma_idx_bounds(v);
    }
    ((v >> 39) & 0x1ff) as usize
}

/// Compute the level-3 index of `v`.
pub fn index3(v: u64) -> (r: usize)
    ensures
        r == idx3(v),
        r < 512,
{
    proof {
        lemma_idx_bounds(v);
    }
    ((v >> 30) & 0x1ff) as usize
}

/// Compute the level-2 index of `v`.
pub fn index2(v: u64) -> (r: usize)
    ensures
        r == idx2(v),
        r < 512,
{
    proof {
        lemma_idx_bounds(v);
    }
    ((v >> 21) & 0x1ff) as usize
}

/// Compute the level-1 index of `v`.
pub fn index1(v: u64) -> (r: usize)
    ensures
        r == idx1(v),
        r < 512,
{
    proof {
        lemma_idx_bounds(v);
    }
    ((v >> 12) & 0x1ff) as usize
}

/// Follow entry `i` of table `f` down one level, as the walk does.
fn descend(mem: &PhysicalMemory, f: u64, i: usize) -> (r: Option<u64>)
    requires
        mem_inv(*mem),
        is_table(mem.frames@, f),
        table_level(mem.frames@, f) >= 2,
        i < 512,
    ensures
        r == down(mem.frames@, f, i as int),
        match r {
            Option::Some(g) => is_table(mem.frames@, g) && 1 <= table_level(mem.frames@, g) <= 4
                && g < mem.frames@.len() && ((g == f && table_level(mem.frames@, f) == 4 && i
                == 511) || table_level(mem.frames@, g) == table_level(mem.frames@, f) - 1),
            Option::None => true,
        },
{
    let e = mem.read_entry(f, i);
    proof {
        assert(table_ok(mem.frames@, f));
        assert(entry_ok(mem.frames@, f, i as int));
    }
    if e & FLAG_PRESENT == FLAG_PRESENT && e & FLAG_SMALL_PAGE == FLAG_SMALL_PAGE {
        let g = (e & ADDRESS_MASK) / 4096;
        proof {
            assert(is_tp(mem.frames@, f, i as int));
            assert(g == tp_target(mem.frames@, f, i as int));
            let t = tp_target(mem.frames@, f, i as int);
            if table_level(mem.frames@, f) == 4 && i == 511 {
                assert(is_table(mem.frames@, t));
            } else {
                assert(is_table(mem.frames@, t));
            }
            assert(table_ok(mem.frames@, g));
        }
        Some(g)
    } else {
        None
    }
}

/// Structure preserved by mapping operations: existing tables keep their
/// levels, data pages keep their contents and counts, nothing is freed.
pub open spec fn preserved_structure(s0: Seq<FrameSlot>, s1: Seq<FrameSlot>) -> bool {
    &&& s1.len() >= s0.len()
    &&& forall|g: u64|
        #[trigger] is_table(s0, g) ==> is_table(s1, g) && table_level(s1, g) == table_level(s0, g)
    &&& forall|g: u64| (#[trigger] is_page(s1, g)) <==> is_page(s0, g)
    &&& forall|g: u64| #[trigger] is_page(s0, g) ==> page_bytes(s1, g) == page_bytes(s0, g)
        && page_refcount(s1, g) == page_refcount(s0, g)
}

/// The table and index of the terminal entry a mapping of `page` at
/// `size` writes, read off the tables in `s`.
pub open spec fn terminal_slot(
    s: Seq<FrameSlot>,
    root: u64,
    size: PageSize,
    page: u64,
) -> Option<(u64, int)> {
    match size {
        PageSize::Size4K => match path1(s, root, page) {
            Option::Some(t) => Option::Some((t, idx1(page))),
            Option::None => Option::None,
        },
        PageSize::Size2M => match path2(s, root, page) {
            Option::Some(t) => Option::Some((t, idx2(page))),
            Option::None => Option::None,
        },
    }
}

/// Every entry the operation wrote, other than the terminal one for
/// `page`, links a freshly created intermediate table and carries
/// exactly `PAGE_TABLE_FLAGS`.
pub open spec fn fresh_links_flagged(
    s0: Seq<FrameSlot>,
    s1: Seq<FrameSlot>,
    root: u64,
    size: PageSize,
    page: u64,
) -> bool {
    forall|g: u64, j: int|
        #[trigger] ent(s1, g, j) != ent(s0, g, j) && terminal_slot(s1, root, size, page)
            != Option::Some((g, j)) ==> e_flags(ent(s1, g, j)) == PAGE_TABLE_FLAGS
}

/// Structure preservation composes.
pub proof fn lemma_preserved_trans(s0: Seq<FrameSlot>, s1: Seq<FrameSlot>, s2: Seq<FrameSlot>)
    requires
        preserved_structure(s0, s1),
        preserved_structure(s1, s2),
    ensures
        preserved_structure(s0, s2),
{
    assert forall|g: u64|
        is_table(s0, g) implies #[trigger] is_table(s2, g) && table_level(s2, g) == table_level(
        s0,
        g,
    ) by {
        assert(is_table(s1, g) && table_level(s1, g) == table_level(s0, g));
    }
    assert forall|g: u64| #[trigger] is_page(s2, g) <==> is_page(s0, g) by {
        assert(is_page(s2, g) <==> is_page(s1, g));
    }
    assert forall|g: u64| is_page(s0, g) implies #[trigger] page_bytes(s2, g) == page_bytes(
        s0,
        g,
    ) by {
        assert(is_page(s1, g) && page_bytes(s1, g) == page_bytes(s0, g));
    }
    assert forall|g: u64| is_page(s0, g) implies #[trigger] page_refcount(s2, g) == page_refcount(
        s0,
        g,
    ) by {
        assert(is_page(s1, g) && page_refcount(s1, g) == page_refcount(s0, g));
    }
}

/// Rewriting one entry of one table preserves structure.
pub proof fn lemma_preserved_write(s0: Seq<FrameSlot>, s1: Seq<FrameSlot>, f: u64)
    requires
        is_table(s0, f),
        is_table(s1, f),
        table_level(s1, f) == table_level(s0, f),
        s1.len() == s0.len(),
        forall|h: int| 0 <= h < s0.len() && h != f ==> s1[h] == s0[h],
    ensures
        preserved_structure(s0, s1),
{
    assert forall|g: u64|
        is_table(s0, g) implies #[trigger] is_table(s1, g) && table_level(s1, g) == table_level(
        s0,
        g,
    ) by {
        if g != f {
            assert(s1[g as int] == s0[g as int]);
        }
    }
    assert forall|g: u64| #[trigger] is_page(s1, g) <==> is_page(s0, g) by {
        if g != f {
            assert(g < s0.len() ==> s1[g as int] == s0[g as int]);
        }
    }
    assert forall|g: u64| is_page(s0, g) implies #[trigger] page_bytes(s1, g) == page_bytes(
        s0,
        g,
    ) by {
        assert(g != f);
        assert(s1[g as int] == s0[g as int]);
    }
    assert forall|g: u64| is_page(s0, g) implies #[trigger] page_refcount(s1, g) == page_refcount(
        s0,
        g,
    ) by {
        assert(g != f);
        assert(s1[g as int] == s0[g as int]);
    }
}

/// A root keeps its self-reference when its slot 511 reads unchanged.
pub proof fn lemma_pt_inv_preserved(s0: Seq<FrameSlot>, s1: Seq<FrameSlot>, g: u64)
    requires
        pt_inv(s0, g),
        preserved_structure(s0, s1),
        ent(s1, g, 511) == ent(s0, g, 511),
    ensures
        pt_inv(s1, g),
{
    assert(is_table(s1, g) && table_level(s1, g) == table_level(s0, g));
}

/// Every walk from every root reads the same in `s1` as in `s0`.
pub open spec fn walks_preserved(s0: Seq<FrameSlot>, s1: Seq<FrameSlot>) -> bool {
    forall|r2: u64, v2: u64|
        is_root(s0, r2) && vaddr_ok(v2) ==> #[trigger] walk(s1, r2, v2) == walk(s0, r2, v2)
}

/// No present 2 MiB block stands at the level-2 slot of `v`'s path; a 4 KiB
/// mapping cannot pass one.
pub open spec fn no_block_on_path(s: Seq<FrameSlot>, root: u64, v: u64) -> bool {
    match path2(s, root, v) {
        Option::Some(t2) => {
            let e2 = ent(s, t2, idx2(v));
            !(e_present(e2) && !e_small(e2))
        },
        Option::None => true,
    }
}

/// How many intermediate tables a 4 KiB mapping of `v` would have to create.
pub open spec fn spec_tables_missing(s: Seq<FrameSlot>, root: u64, v: u64) -> int {
    if path3(s, root, v) is None {
        3
    } else if path2(s, root, v) is None {
        2
    } else if path1(s, root, v) is None {
        1
    } else {
        0
    }
}

/// How many intermediate tables a mapping of `v` at size `sz` would create.
pub open spec fn spec_map_cost(s: Seq<FrameSlot>, sz: PageSize, root: u64, v: u64) -> int {
    match sz {
        PageSize::Size4K => spec_tables_missing(s, root, v),
        PageSize::Size2M => if path3(s, root, v) is None {
            2
        } else if path2(s, root, v) is None {
            1
        } else {
            0
        },
    }
}

/// The raw terminal entry of `v`'s path, zero when the path is incomplete.
pub open spec fn terminal_entry(s: Seq<FrameSlot>, sz: PageSize, root: u64, v: u64) -> u64 {
    match sz {
        PageSize::Size4K => match path1(s, root, v) {
            Option::Some(t1) => ent(s, t1, idx1(v)),
            Option::None => 0,
        },
        PageSize::Size2M => match path2(s, root, v) {
            Option::Some(t2) => ent(s, t2, idx2(v)),
            Option::None => 0,
        },
    }
}

/// Get or create the child table under entry `i` of `parent`. A present
/// entry that is not a table pointer (a stale block) is overwritten at
/// levels 4 and 3, as the walk treats it as absent there; at level 2 the
/// caller rules blocks out beforehand.
fn ensure_child(mem: &mut PhysicalMemory, parent: u64, i: usize, child_level: u64) -> (r: Result<
    u64,
    crate::KernelError,
>)
    requires
        mem_inv(*old(mem)),
        is_table(old(mem).frames@, parent),
        2 <= table_level(old(mem).frames@, parent) <= 4,
        table_level(old(mem).frames@, parent) == child_level + 1,
        i < 512,
        !(table_level(old(mem).frames@, parent) == 4 && i == 511),
        table_level(old(mem).frames@, parent) == 2 ==> !(e_present(
            ent(old(mem).frames@, parent, i as int),
        ) && !e_small(ent(old(mem).frames@, parent, i as int))),
    ensures
        mem_inv(*final(mem)),
        final(mem).capacity == old(mem).capacity,
        match r {
            Result::Err(e) => e == crate::KernelError::OutOfMemory && *final(mem) == *old(mem)
                && spec_avail(*old(mem)) == 0 && down(old(mem).frames@, parent, i as int) is None,
            Result::Ok(c) => {
                &&& down(final(mem).frames@, parent, i as int) == Option::Some(c)
                &&& is_table(final(mem).frames@, c)
                &&& table_level(final(mem).frames@, c) == child_level
                &&& c < final(mem).frames@.len()
                &&& preserved_structure(old(mem).frames@, final(mem).frames@)
                &&& walks_preserved(old(mem).frames@, final(mem).frames@)
                &&& forall|g: u64, j: int|
                    !(g == parent && j == i) ==> #[trigger] ent(final(mem).frames@, g, j) == ent(
                        old(mem).frames@,
                        g,
                        j,
                    )
                &&& match down(old(mem).frames@, parent, i as int) {
                    Option::Some(c0) => c == c0 && *final(mem) == *old(mem),
                    Option::None => spec_avail(*final(mem)) == spec_avail(*old(mem)) - 1
                        && !is_table(old(mem).frames@, c) && !is_page(old(mem).frames@, c)
                        && ent(final(mem).frames@, parent, i as int) == (frame_addr(c)
                        | PAGE_TABLE_FLAGS) && e_flags(ent(final(mem).frames@, parent, i as int))
                        == PAGE_TABLE_FLAGS && (forall|j: int|
                        0 <= j < 512 ==> #[trigger] ent(final(mem).frames@, c, j) == 0),
                }
            },
        },
{
    let ghost s0 = old(mem).frames@;
    match descend(mem, parent, i) {
        Option::Some(c) => {
            proof {
                assert(table_ok(s0, parent));
                assert(entry_ok(s0, parent, i as int));
            }
            Result::Ok(c)
        },
        Option::None => {
            let c = match mem.alloc_table(child_level) {
                Option::Some(c) => c,
                Option::None => {
                    return Result::Err(crate::KernelError::OutOfMemory);
                },
            };
            let ghost m_alloc = *mem;
            let ghost s_a = mem.frames@;
            proof {
                lemma_frame_addr(c);
                assert((0x703u64 & 0x0000_ffff_ffff_f000u64 == 0 && 0x703u64 & 0x1u64 == 0x1
                    && 0x703u64 & 0x2u64 == 0x2)) by (bit_vector);
                lemma_entry_encode(frame_addr(c), PAGE_TABLE_FLAGS);
                lemma_reads_preserved(s0, s_a, c);
                assert forall|g: u64, j: int| true implies #[trigger] ent(s_a, g, j) == ent(
                    s0,
                    g,
                    j,
                ) by {
                    if g == c {
                        assert(!is_table(s0, c));
                        if 0 <= j < 512 {
                            assert(ent(s_a, c, j) == 0);
                        }
                        assert(ent(s0, c, j) == 0);
                    }
                }
                lemma_fresh_untargeted(s0, s_a, c);
                assert(untargeted(s_a, c));
            }
            let addr = c * 4096;
            let e = addr | PAGE_TABLE_FLAGS;
            proof {
                assert(e_addr(e) == frame_addr(c) && e_flags(e) == PAGE_TABLE_FLAGS);
                assert(e_present(e) && e_small(e)) by {
                    assert(forall|a: u64, fl: u64|
                        fl & 0x1u64 == 0x1 ==> #[trigger] (a | fl) & 0x1u64 == 0x1)
                        by (bit_vector);
                    assert(forall|a: u64, fl: u64|
                        fl & 0x2u64 == 0x2 ==> #[trigger] (a | fl) & 0x2u64 == 0x2)
                        by (bit_vector);
                }
                assert(e_frame(e) == c);
            }
            mem.write_entry(parent, i, e);
            proof {
                let s1 = mem.frames@;
                let pl = table_level(s0, parent);
                lemma_write_is_single_change(m_alloc, *mem, parent, i as int);
                assert(single_entry_change(s_a, s1, parent, i as int));
                // the new link keeps the frame invariant
                lemma_link_inv(s_a, s1, parent, i as int, c);
                lemma_mem_inv_after_write(m_alloc, *mem, parent);
                // reads compose: only (parent, i) differs from the start state
                assert forall|g: u64, j: int| !(g == parent && j == i) implies #[trigger] ent(
                    s1,
                    g,
                    j,
                ) == ent(s0, g, j) by {
                    assert(ent(s1, g, j) == ent(s_a, g, j));
                }
                assert(down(s1, parent, i as int) == Option::Some(c));
                assert forall|j: int| 0 <= j < 512 implies #[trigger] ent(s1, c, j) == 0 by {
                    assert(c != parent);
                    assert(ent(s1, c, j) == ent(s_a, c, j));
                }
                // every walk is preserved
                assert forall|r2: u64, v2: u64|
                    is_root(s0, r2) && vaddr_ok(v2) implies #[trigger] walk(s1, r2, v2) == walk(
                    s0,
                    r2,
                    v2,
                ) by {
                    lemma_idx_bounds(v2);
                    lemma_path_levels(s0, r2, v2);
                    assert(is_root(s_a, r2));
                    // where does v2's path meet the written slot?
                    let visits = if pl == 4 {
                        r2 == parent && idx4(v2) == i
                    } else if pl == 3 {
                        path3(s0, r2, v2) == Option::Some(parent) && idx3(v2) == i
                    } else {
                        path2(s0, r2, v2) == Option::Some(parent) && idx2(v2) == i
                    };
                    if !visits {
                        assert(!(parent == r2 && i == idx4(v2))) by {
                            if parent == r2 {
                                assert(pl == 4);
                            }
                        }
                        assert(match path3(s0, r2, v2) {
                            Option::Some(t3) => !(parent == t3 && i == idx3(v2)),
                            Option::None => true,
                        }) by {
                            if path3(s0, r2, v2) == Option::Some(parent) {
                                assert(table_level(s0, parent) == 3);
                            }
                        }
                        assert(match path2(s0, r2, v2) {
                            Option::Some(t2) => !(parent == t2 && i == idx2(v2)),
                            Option::None => true,
                        }) by {
                            if path2(s0, r2, v2) == Option::Some(parent) {
                                assert(table_level(s0, parent) == 2);
                            }
                        }
                        assert(match path1(s0, r2, v2) {
                            Option::Some(t1) => !(parent == t1 && i == idx1(v2)),
                            Option::None => true,
                        }) by {
                            if path1(s0, r2, v2) is Some {
                                assert(table_level(s0, path1(s0, r2, v2)->Some_0) == 1);
                            }
                        }
                        lemma_walk_after_write(s0, s1, r2, v2, parent, i as int);
                    } else {
                        // the walk used to stop at the written slot and now
                        // descends into an all-zero table: still no mapping
                        lemma_flag_bits();
                        if pl == 4 {
                            assert(walk(s0, r2, v2) is None);
                            assert(down(s1, r2, idx4(v2)) == Option::Some(c));
                            assert(ent(s1, c, idx3(v2)) == 0);
                            assert(walk(s1, r2, v2) is None);
                        } else if pl == 3 {
                            assert(down(s0, parent, i as int) is None);
                            assert(walk(s0, r2, v2) is None);
                            assert(ent(s1, r2, idx4(v2)) == ent(s0, r2, idx4(v2)));
                            assert(path3(s1, r2, v2) == Option::Some(parent));
                            assert(down(s1, parent, idx3(v2)) == Option::Some(c));
                            assert(ent(s1, c, idx2(v2)) == 0);
                            assert(walk(s1, r2, v2) is None);
                        } else {
                            assert(pl == 2);
                            let t3 = path3(s0, r2, v2)->Some_0;
                            assert(ent(s1, r2, idx4(v2)) == ent(s0, r2, idx4(v2)));
                            assert(ent(s1, t3, idx3(v2)) == ent(s0, t3, idx3(v2)));
                            assert(path3(s1, r2, v2) == path3(s0, r2, v2));
                            assert(path2(s1, r2, v2) == Option::Some(parent));
                            let e2old = ent(s0, parent, i as int);
                            assert(!(e_present(e2old) && e_small(e2old)));
                            assert(!(e_present(e2old) && !e_small(e2old)));
                            assert(walk(s0, r2, v2) is None);
                            assert(ent(s1, parent, i as int) == e);
                            assert(ent(s1, c, idx1(v2)) == 0);
                            assert(walk(s1, r2, v2) is None);
                        }
                    }
                }
                assert(preserved_structure(s0, s1)) by {
                    assert forall|g: u64|
                        is_table(s0, g) implies #[trigger] is_table(s1, g) && table_level(s1, g)
                        == table_level(s0, g) by {
                        assert(is_table(s_a, g) && table_level(s_a, g) == table_level(s0, g));
                    }
                    assert forall|g: u64| #[trigger] is_page(s1, g) <==> is_page(s0, g) by {
                        if g == c {
                            assert(!is_page(s0, c) && !is_page(s1, c));
                        } else {
                            assert(is_page(s1, g) <==> is_page(s_a, g));
                        }
                    }
                    assert forall|g: u64| is_page(s0, g) implies #[trigger] page_bytes(s1, g)
                        == page_bytes(s0, g) by {
                        assert(g != c && g != parent);
                        assert(page_bytes(s_a, g) == page_bytes(s0, g));
                    }
                    assert forall|g: u64| is_page(s0, g) implies #[trigger] page_refcount(s1, g)
                        == page_refcount(s0, g) by {
                        assert(g != c && g != parent);
                        assert(page_refcount(s_a, g) == page_refcount(s0, g));
                    }
                }
            }
            Result::Ok(c)
        },
    }
}

/// The walk outcome a terminal entry `e` produces.
pub open spec fn terminal_walk(e: u64) -> Option<(u64, u64)> {
    if e_present(e) {
        Option::Some((e_addr(e), e_flags(e)))
    } else {
        Option::None
    }
}

/// Overwrite the terminal entry for `page` in table `t` (level 1 for 4 KiB
/// pages, level 2 for 2 MiB blocks) with the raw word `e`. Every mapping of
/// every other page, in every address space, reads as before.
fn write_terminal(mem: &mut PhysicalMemory, root: u64, page: u64, t: u64, e: u64, sz: PageSize)
    requires
        mem_inv(*old(mem)),
        is_root(old(mem).frames@, root),
        vaddr_ok(page),
        match sz {
            PageSize::Size4K => path1(old(mem).frames@, root, page) == Option::Some(t),
            PageSize::Size2M => path2(old(mem).frames@, root, page) == Option::Some(t) && !(
            e_present(e) && e_small(e)),
        },
    ensures
        mem_inv(*final(mem)),
        final(mem).capacity == old(mem).capacity,
        spec_avail(*final(mem)) == spec_avail(*old(mem)),
        preserved_structure(old(mem).frames@, final(mem).frames@),
        forall|g: u64| pt_inv(old(mem).frames@, g) ==> #[trigger] pt_inv(final(mem).frames@, g),
        walk(final(mem).frames@, root, page) == terminal_walk(e),
        forall|v2: u64|
            same_page(sz, v2, page) ==> #[trigger] walk(final(mem).frames@, root, v2)
                == terminal_walk(e),
        forall|r2: u64, v2: u64|
            is_root(old(mem).frames@, r2) && vaddr_ok(v2) && !(r2 == root && same_page(
                sz,
                v2,
                page,
            )) ==> #[trigger] walk(final(mem).frames@, r2, v2) == walk(old(mem).frames@, r2, v2),
        forall|g: u64, j: int|
            !(g == t && j == (match sz {
                PageSize::Size4K => idx1(page),
                PageSize::Size2M => idx2(page),
            })) ==> #[trigger] ent(final(mem).frames@, g, j) == ent(old(mem).frames@, g, j),
    {
        let ghost s0 = old(mem).frames@;
        let ghost m0 = *mem;
        let i: usize = match sz {
            PageSize::Size4K => index1(page),
            PageSize::Size2M => index2(page),
        };
        proof {
            lemma_idx_bounds(page);
            lemma_path_levels(s0, root, page);
        }
        mem.write_entry(t, i, e);
        proof {
            let s1 = mem.frames@;
            lemma_write_is_single_change(m0, *mem, t, i as int);
            lemma_preserved_write(s0, s1, t);
            lemma_terminal_write_inv(s0, s1, t, i as int);
            lemma_mem_inv_after_write(m0, *mem, t);
            let tl = table_level(s0, t);
            assert(tl == if sz is Size4K {
                1int
            } else {
                2int
            });
            // the walk of `page`, and of everything in its page, now ends at e
            assert(ent(s1, root, idx4(page)) == ent(s0, root, idx4(page)));
            let t3 = path3(s0, root, page)->Some_0;
            assert(ent(s1, t3, idx3(page)) == ent(s0, t3, idx3(page)));
            assert(path2(s1, root, page) == path2(s0, root, page));
            assert forall|v2: u64| same_page(sz, v2, page) implies #[trigger] walk(s1, root, v2)
                == terminal_walk(e) by {
                lemma_same_page_indices(v2, page);
                match sz {
                    PageSize::Size4K => {
                        assert(idx4(v2) == idx4(page) && idx3(v2) == idx3(page) && idx2(v2)
                            == idx2(page) && idx1(v2) == idx1(page));
                        let t2 = path2(s0, root, page)->Some_0;
                        assert(ent(s1, t2, idx2(page)) == ent(s0, t2, idx2(page)));
                        assert(down(s1, t2, idx2(page)) == Option::Some(t));
                        assert(ent(s1, t, idx1(page)) == e);
                    },
                    PageSize::Size2M => {
                        assert(idx4(v2) == idx4(page) && idx3(v2) == idx3(page) && idx2(v2)
                            == idx2(page));
                        assert(ent(s1, t, idx2(page)) == e);
                        assert(!(e_present(e) && e_small(e)));
                    },
                }
            }
            assert(same_page(sz, page, page)) by {
                lemma_same_page_indices(page, page);
            }
            // all other walks are untouched
            assert forall|r2: u64, v2: u64|
                is_root(s0, r2) && vaddr_ok(v2) && !(r2 == root && same_page(
                    sz,
                    v2,
                    page,
                )) implies #[trigger] walk(s1, r2, v2) == walk(s0, r2, v2) by {
                lemma_path_levels(s0, r2, v2);
                let visits = match sz {
                    PageSize::Size4K => path1(s0, r2, v2) == Option::Some(t) && idx1(v2) == idx1(
                        page,
                    ),
                    PageSize::Size2M => path2(s0, r2, v2) == Option::Some(t) && idx2(v2) == idx2(
                        page,
                    ),
                };
                if visits {
                    lemma_path_disjoint(s0, r2, v2, root, page);
                    lemma_same_page_indices(v2, page);
                    assert(false);
                } else {
                    assert(!(t == r2 && i == idx4(v2))) by {
                        assert(table_level(s0, r2) == 4);
                    }
                    assert(match path3(s0, r2, v2) {
                        Option::Some(x) => !(t == x && i == idx3(v2)),
                        Option::None => true,
                    }) by {
                        if path3(s0, r2, v2) is Some {
                            assert(table_level(s0, path3(s0, r2, v2)->Some_0) == 3);
                        }
                    }
                    assert(match path2(s0, r2, v2) {
                        Option::Some(x) => !(t == x && i == idx2(v2)),
                        Option::None => true,
                    }) by {
                        if path2(s0, r2, v2) == Option::Some(t) {
                            assert(tl == 2);
                            assert(idx2(v2) != idx2(page));
                        }
                    }
                    assert(match path1(s0, r2, v2) {
                        Option::Some(x) => !(t == x && i == idx1(v2)),
                        Option::None => true,
                    }) by {
                        if path1(s0, r2, v2) == Option::Some(t) {
                            assert(tl == 1);
                            assert(idx1(v2) != idx1(page));
                        }
                    }
                    lemma_walk_after_write(s0, s1, r2, v2, t, i as int);
                }
            }
            // self-references survive: the written table is never a root
            assert forall|g: u64| pt_inv(s0, g) implies #[trigger] pt_inv(s1, g) by {
                assert(g != t) by {
                    assert(table_level(s0, g) == 4);
                }
                assert(ent(s1, g, 511) == ent(s0, g, 511));
                lemma_pt_inv_preserved(s0, s1, g);
            }
        }
    }

/// An address space's root: the physical frame of its level-4 table. Entry
/// 511 of an active root points back at the root frame itself, which is how
/// every table of the hierarchy stays addressable.
pub struct PageTable {
    /// Frame number of the level-4 table.
    pub root: u64,
}

/// The root is a level-4 table whose slot 511 refers back to itself.
pub open spec fn pt_inv(s: Seq<FrameSlot>, root: u64) -> bool {
    &&& is_root(s, root)
    &&& e_present(ent(s, root, 511))
    &&& e_small(ent(s, root, 511))
    &&& e_frame(ent(s, root, 511)) == root
}

impl PageTable {
    /// Allocate a fresh level-4 table with all 512 entries clear: nothing
    /// is present, nothing translates. The self-reference in slot 511 is a
    /// separate step, `install_self_reference`, taken when the table is
    /// made an active root, as the context constructor does.
    pub fn new(mem: &mut PhysicalMemory) -> (r: Result<PageTable, crate::KernelError>)
        requires
            mem_inv(*old(mem)),
        ensures
            mem_inv(*final(mem)),
            final(mem).capacity == old(mem).capacity,
            r is Ok <==> spec_avail(*old(mem)) >= 1,
            match r {
                Result::Err(e) => e == crate::KernelError::OutOfMemory && spec_avail(*old(mem))
                    == 0 && *final(mem) == *old(mem),
                Result::Ok(pt) => {
                    &&& is_root(final(mem).frames@, pt.root)
                    &&& !is_table(old(mem).frames@, pt.root)
                    &&& !is_page(old(mem).frames@, pt.root)
                    &&& spec_avail(*final(mem)) == spec_avail(*old(mem)) - 1
                    &&& frames_preserved_except(old(mem).frames@, final(mem).frames@, pt.root)
                    &&& forall|i: int|
                        0 <= i < 512 ==> #[trigger] ent(final(mem).frames@, pt.root, i) == 0
                    &&& forall|v: u64| #[trigger] walk(final(mem).frames@, pt.root, v) is None
                },
            },
    {
        let root = match mem.alloc_table(4) {
            Option::Some(f) => f,
            Option::None => {
                return Result::Err(crate::KernelError::OutOfMemory);
            },
        };
        proof {
            lemma_flag_bits();
            assert forall|v: u64| #[trigger] walk(mem.frames@, root, v) is None by {
                lemma_idx_bounds(v);
                assert(ent(mem.frames@, root, idx4(v)) == 0);
            }
        }
        Result::Ok(PageTable { root })
    }

    /// Point slot 511 of this root back at the root frame itself: the
    /// recursive self-reference that keeps every table of the hierarchy
    /// addressable while the root is active. No translation outside the
    /// self-reference window changes, in this space or any other.
    pub fn install_self_reference(&self, mem: &mut PhysicalMemory)
        requires
            mem_inv(*old(mem)),
            is_root(old(mem).frames@, self.root),
        ensures
            mem_inv(*final(mem)),
            final(mem).capacity == old(mem).capacity,
            spec_avail(*final(mem)) == spec_avail(*old(mem)),
            pt_inv(final(mem).frames@, self.root),
            ent(final(mem).frames@, self.root, 511) == (frame_addr(self.root)
                | PAGE_TABLE_FLAGS),
            forall|g: u64|
                pt_inv(old(mem).frames@, g) ==> #[trigger] pt_inv(final(mem).frames@, g),
            forall|g: u64|
                #[trigger] is_page(final(mem).frames@, g) <==> is_page(old(mem).frames@, g),
            forall|g: u64|
                is_page(old(mem).frames@, g) ==> #[trigger] page_bytes(final(mem).frames@, g)
                    == page_bytes(old(mem).frames@, g),
            forall|r2: u64, v: u64|
                is_root(old(mem).frames@, r2) && vaddr_ok(v) ==> #[trigger] walk(
                    final(mem).frames@,
                    r2,
                    v,
                ) == walk(old(mem).frames@, r2, v),
    {
        let root = self.root;
        let ghost s0 = old(mem).frames@;
        let ghost m0 = *mem;
        proof {
            assert(root < mem.frames.len() && mem.frames.len() <= mem.capacity);
            lemma_frame_addr(root);
            lemma_flag_bits();
            lemma_entry_encode(frame_addr(root), PAGE_TABLE_FLAGS);
        }
        let addr = root * 4096;
        mem.write_entry(root, 511, addr | PAGE_TABLE_FLAGS);
        proof {
            let s1 = mem.frames@;
            lemma_write_is_single_change(m0, *mem, root, 511);
            let e = ent(s1, root, 511);
            assert(e == frame_addr(root) | PAGE_TABLE_FLAGS);
            assert(e_addr(e) == frame_addr(root));
            assert(e_present(e) && e_small(e)) by {
                lemma_flag_bits();
            }
            assert(e_frame(e) == root);
            // the new self-slot keeps the invariant: it is exempt from
            // injectivity and entry_ok only asks that it point at the root
            assert forall|h: u64| h < s1.len() implies #[trigger] table_ok(s1, h) by {
                assert(table_ok(s0, h));
                if is_table(s1, h) {
                    assert forall|j: int| 0 <= j < 512 implies #[trigger] entry_ok(s1, h, j) by {
                        assert(entry_ok(s0, h, j));
                        if is_tp(s1, h, j) {
                            if h == root && j == 511 {
                                assert(entry_ok(s1, root, 511));
                            } else {
                                assert(ent(s1, h, j) == ent(s0, h, j));
                                assert(is_tp(s0, h, j));
                                let t = tp_target(s0, h, j);
                                if !(table_level(s0, h) == 4 && j == 511) {
                                    assert(is_table(s0, t));
                                }
                            }
                        }
                    }
                }
            }
            assert forall|h: u64| h < s1.len() implies #[trigger] frame_page_ok(s1, h) by {
                assert(frame_page_ok(s0, h));
                if is_page(s1, h) {
                    assert(is_page(s0, h));
                    assert(h != root);
                }
            }
            assert forall|f1: u64, i1: int, f2: u64, i2: int|
                #[trigger] tp_real(s1, f1, i1) && #[trigger] tp_real(s1, f2, i2) && tp_target(
                    s1,
                    f1,
                    i1,
                ) == tp_target(s1, f2, i2) implies f1 == f2 && i1 == i2 by {
                assert(!(f1 == root && i1 == 511) && !(f2 == root && i2 == 511));
                assert(ent(s1, f1, i1) == ent(s0, f1, i1));
                assert(ent(s1, f2, i2) == ent(s0, f2, i2));
                assert(tp_real(s0, f1, i1));
                assert(tp_real(s0, f2, i2));
            }
            lemma_mem_inv_after_write(m0, *mem, root);
            // no walk outside the self-reference window reads slot 511
            assert forall|r2: u64, v: u64|
                is_root(s0, r2) && vaddr_ok(v) implies #[trigger] walk(s1, r2, v) == walk(
                s0,
                r2,
                v,
            ) by {
                lemma_path_levels(s0, r2, v);
                assert(!(root == r2 && 511 == idx4(v)));
                assert(match path3(s0, r2, v) {
                    Option::Some(t3) => !(root == t3 && 511 == idx3(v)),
                    Option::None => true,
                }) by {
                    if path3(s0, r2, v) is Some {
                        assert(table_level(s0, path3(s0, r2, v)->Some_0) == 3);
                    }
                }
                assert(match path2(s0, r2, v) {
                    Option::Some(t2) => !(root == t2 && 511 == idx2(v)),
                    Option::None => true,
                }) by {
                    if path2(s0, r2, v) is Some {
                        assert(table_level(s0, path2(s0, r2, v)->Some_0) == 2);
                    }
                }
                assert(match path1(s0, r2, v) {
                    Option::Some(t1) => !(root == t1 && 511 == idx1(v)),
                    Option::None => true,
                }) by {
                    if path1(s0, r2, v) is Some {
                        assert(table_level(s0, path1(s0, r2, v)->Some_0) == 1);
                    }
                }
                lemma_walk_after_write(s0, s1, r2, v, root, 511);
            }
            // self-references already in place elsewhere survive
            assert forall|g: u64| pt_inv(s0, g) implies #[trigger] pt_inv(s1, g) by {
                if g == root {
                } else {
                    assert(ent(s1, g, 511) == ent(s0, g, 511));
                }
            }
        }
    }

    /// Map the 4 KiB page at `page` to the frame at `frame` with `flags`
    /// (which carry SMALL_PAGE), creating intermediate tables as needed.
    /// PRESENT is OR'd in; whatever terminal entry stood there is
    /// overwritten. Every other mapping, in this space and every other,
    /// reads as before.
    fn map_small(&self, mem: &mut PhysicalMemory, page: u64, frame: u64, flags: u64) -> (r: Result<
        u64,
        crate::KernelError,
    >)
        requires
            mem_inv(*old(mem)),
            is_root(old(mem).frames@, self.root),
            vaddr_ok(page),
            addr_field_ok(frame),
            flags_field_ok(flags),
            has_flag(flags, FLAG_SMALL_PAGE),
            no_block_on_path(old(mem).frames@, self.root, page),
        ensures
            mem_inv(*final(mem)),
            final(mem).capacity == old(mem).capacity,
            preserved_structure(old(mem).frames@, final(mem).frames@),
            forall|g: u64|
                pt_inv(old(mem).frames@, g) ==> #[trigger] pt_inv(final(mem).frames@, g),
            match r {
                Result::Err(e) => {
                    &&& e == crate::KernelError::OutOfMemory
                    &&& walks_preserved(old(mem).frames@, final(mem).frames@)
                    &&& spec_avail(*final(mem)) == 0
                    &&& spec_avail(*old(mem)) < spec_tables_missing(
                        old(mem).frames@,
                        self.root,
                        page,
                    )
                },
                Result::Ok(p) => {
                    &&& p == page
                    &&& walk(final(mem).frames@, self.root, page) == Option::Some(
                        (frame, flags | FLAG_PRESENT),
                    )
                    &&& fresh_links_flagged(
                        old(mem).frames@,
                        final(mem).frames@,
                        self.root,
                        PageSize::Size4K,
                        page,
                    )
                    &&& forall|r2: u64, v2: u64|
                        is_root(old(mem).frames@, r2) && vaddr_ok(v2) && !(r2 == self.root
                            && same_page_4k(v2, page)) ==> #[trigger] walk(
                            final(mem).frames@,
                            r2,
                            v2,
                        ) == walk(old(mem).frames@, r2, v2)
                    &&& spec_avail(*final(mem)) == spec_avail(*old(mem)) - spec_tables_missing(
                        old(mem).frames@,
                        self.root,
                        page,
                    )
                },
            },
    {
        let ghost s0 = old(mem).frames@;
        let root = self.root;
        let i4 = index4(page);
        let i3 = index3(page);
        let i2 = index2(page);
        let i1 = index1(page);
        let ghost m0 = *mem;
        let t3 = match ensure_child(mem, root, i4, 3) {
            Result::Ok(t) => t,
            Result::Err(e) => {
                proof {
                    assert(path3(s0, root, page) is None);
                }
                return Result::Err(e);
            },
        };
        let ghost m1 = *mem;
        let ghost s1 = mem.frames@;
        proof {
            assert(is_root(s1, root));
            assert(down(s0, root, i4 as int) is Some ==> s1 == s0 && down(
                s0,
                root,
                i4 as int,
            ) == Option::Some(t3));
        }
        let t2 = match ensure_child(mem, t3, i3, 2) {
            Result::Ok(t) => t,
            Result::Err(e) => {
                proof {
                    assert(spec_avail(m1) == 0);
                    if down(s0, root, i4 as int) is Some {
                        assert(path2(s0, root, page) is None);
                        assert(spec_avail(m0) == 0);
                    } else {
                        assert(spec_avail(m0) == 1);
                        assert(spec_tables_missing(s0, root, page) == 3);
                    }
                    assert forall|g: u64| pt_inv(s0, g) implies #[trigger] pt_inv(s1, g) by {
                        assert(ent(s1, g, 511) == ent(s0, g, 511));
                        lemma_pt_inv_preserved(s0, s1, g);
                    }
                }
                return Result::Err(e);
            },
        };
        let ghost m2 = *mem;
        let ghost s2 = mem.frames@;
        proof {
            // the level-2 slot on the path holds no present block
            if down(s1, t3, i3 as int) is Some {
                assert(s2 == s1);
                if down(s0, root, i4 as int) is Some {
                    assert(path2(s0, root, page) == Option::Some(t2));
                    assert(ent(s2, t2, i2 as int) == ent(s0, t2, i2 as int));
                } else {
                    assert(forall|j: int| 0 <= j < 512 ==> #[trigger] ent(s1, t3, j) == 0);
                    lemma_flag_bits();
                    assert(false);
                }
            } else {
                assert(forall|j: int| 0 <= j < 512 ==> #[trigger] ent(s2, t2, j) == 0);
                lemma_flag_bits();
            }
        }
        let t1 = match ensure_child(mem, t2, i2, 1) {
            Result::Ok(t) => t,
            Result::Err(e) => {
                proof {
                    assert(spec_avail(m2) == 0);
                    if down(s0, root, i4 as int) is None {
                        assert(spec_avail(m0) == 2);
                        assert(spec_tables_missing(s0, root, page) == 3);
                    } else if down(s0, t3, i3 as int) is None {
                        assert(spec_avail(m0) == 1);
                        assert(spec_tables_missing(s0, root, page) == 2);
                    } else {
                        assert(s2 == s0);
                        assert(path1(s0, root, page) is None);
                        assert(spec_avail(m0) == 0);
                    }
                    lemma_preserved_trans(s0, s1, s2);
                    assert forall|g: u64| pt_inv(s0, g) implies #[trigger] pt_inv(s2, g) by {
                        assert(ent(s1, g, 511) == ent(s0, g, 511));
                        lemma_pt_inv_preserved(s0, s1, g);
                        assert(g != t3) by {
                            assert(table_level(s1, g) == 4 && table_level(s1, t3) == 3);
                        }
                        assert(ent(s2, g, 511) == ent(s1, g, 511));
                        lemma_pt_inv_preserved(s1, s2, g);
                    }
                }
                return Result::Err(e);
            },
        };
        let ghost m3 = *mem;
        let ghost s3 = mem.frames@;
        let fl2 = flags | FLAG_PRESENT;
        let e = frame | fl2;
        proof {
            assert((flags | 0x1u64) & 0x0000_ffff_ffff_f000u64 == 0 && (flags | 0x1u64)
                & 0x1u64 == 0x1 && (flags | 0x1u64) & 0x2u64 == 0x2) by (bit_vector)
                requires
                    flags & 0x0000_ffff_ffff_f000u64 == 0,
                    flags & 0x2u64 == 0x2,
            ;
            lemma_entry_encode(frame, fl2);
            assert(e_present(e) && e_small(e)) by {
                lemma_flag_bits();
            }
            // the path to the terminal table stands in s3
            assert(t3 != root && t2 != root && t1 != root && t2 != t3 && t1 != t3 && t1 != t2);
            assert(ent(s3, root, i4 as int) == ent(s2, root, i4 as int));
            assert(ent(s2, root, i4 as int) == ent(s1, root, i4 as int));
            assert(down(s3, root, i4 as int) == Option::Some(t3));
            assert(ent(s3, t3, i3 as int) == ent(s2, t3, i3 as int));
            assert(down(s3, t3, i3 as int) == Option::Some(t2));
            assert(down(s3, t2, i2 as int) == Option::Some(t1));
            assert(path1(s3, root, page) == Option::Some(t1));
        }
        mem.write_entry(t1, i1, e);
        proof {
            let s4 = mem.frames@;
            lemma_write_is_single_change(m3, *mem, t1, i1 as int);
            assert forall|g: u64| #[trigger] is_page(s4, g) <==> is_page(s3, g) by {
                if g != t1 {
                    assert(s4[g as int] == s3[g as int] || g >= s3.len());
                }
            }
            lemma_terminal_write_inv(s3, s4, t1, i1 as int);
            lemma_mem_inv_after_write(m3, *mem, t1);
            // the new mapping reads back
            assert(ent(s4, root, i4 as int) == ent(s3, root, i4 as int));
            assert(ent(s4, t3, i3 as int) == ent(s3, t3, i3 as int));
            assert(ent(s4, t2, i2 as int) == ent(s3, t2, i2 as int));
            assert(ent(s4, t1, i1 as int) == e);
            assert(walk(s4, root, page) == Option::Some((frame, fl2)));
            // every mapping of a different page, in any space, is untouched
            assert forall|r2: u64, v2: u64|
                is_root(s0, r2) && vaddr_ok(v2) && !(r2 == root && same_page_4k(
                    v2,
                    page,
                )) implies #[trigger] walk(s4, r2, v2) == walk(s0, r2, v2) by {
                assert(walk(s1, r2, v2) == walk(s0, r2, v2));
                assert(is_root(s1, r2));
                assert(walk(s2, r2, v2) == walk(s1, r2, v2));
                assert(is_root(s2, r2));
                assert(walk(s3, r2, v2) == walk(s2, r2, v2));
                assert(is_root(s3, r2));
                lemma_path_levels(s3, r2, v2);
                let visits = path1(s3, r2, v2) == Option::Some(t1) && idx1(v2) == i1;
                if visits {
                    lemma_path_disjoint(s3, r2, v2, root, page);
                    assert(r2 == root && idx4(v2) == idx4(page) && idx3(v2) == idx3(page)
                        && idx2(v2) == idx2(page));
                    lemma_same_page_indices(v2, page);
                    assert(same_page_4k(v2, page));
                    assert(false);
                } else {
                    assert(!(t1 == r2 && i1 == idx4(v2))) by {
                        assert(table_level(s3, t1) == 1 && table_level(s3, r2) == 4);
                    }
                    assert(match path3(s3, r2, v2) {
                        Option::Some(t) => !(t1 == t && i1 == idx3(v2)),
                        Option::None => true,
                    });
                    assert(match path2(s3, r2, v2) {
                        Option::Some(t) => !(t1 == t && i1 == idx2(v2)),
                        Option::None => true,
                    });
                    assert(match path1(s3, r2, v2) {
                        Option::Some(t) => !(t1 == t && i1 == idx1(v2)),
                        Option::None => true,
                    }) by {
                        if path1(s3, r2, v2) == Option::Some(t1) {
                            lemma_path_disjoint(s3, r2, v2, root, page);
                            assert(r2 == root && idx4(v2) == idx4(page) && idx3(v2) == idx3(page)
                                && idx2(v2) == idx2(page));
                            lemma_same_page_indices(v2, page);
                        }
                    }
                    lemma_walk_after_write(s3, s4, r2, v2, t1, i1 as int);
                }
            }
            // accounting: exactly the missing tables were created
            assert(spec_avail(*mem) == spec_avail(m0) - spec_tables_missing(s0, root, page)) by {
                if down(s0, root, i4 as int) is None {
                    assert(spec_tables_missing(s0, root, page) == 3);
                } else if down(s0, t3, i3 as int) is None {
                    assert(path3(s0, root, page) == Option::Some(t3));
                    assert(spec_tables_missing(s0, root, page) == 2);
                } else if down(s0, t2, i2 as int) is None {
                    assert(s2 == s0);
                    assert(path2(s0, root, page) == Option::Some(t2));
                    assert(spec_tables_missing(s0, root, page) == 1);
                } else {
                    assert(s3 == s0);
                    assert(path1(s0, root, page) == Option::Some(t1));
                    assert(spec_tables_missing(s0, root, page) == 0);
                }
            }
            lemma_preserved_write(s3, s4, t1);
            lemma_preserved_trans(s0, s1, s2);
            lemma_preserved_trans(s0, s2, s3);
            lemma_preserved_trans(s0, s3, s4);
            // the entries this call wrote, short of the terminal one, are
            // fresh table links and carry exactly PAGE_TABLE_FLAGS
            assert(path1(s4, root, page) == Option::Some(t1)) by {
                assert(down(s4, root, i4 as int) == Option::Some(t3));
                assert(down(s4, t3, i3 as int) == Option::Some(t2));
                assert(down(s4, t2, i2 as int) == Option::Some(t1));
            }
            assert(i1 as int == idx1(page));
            assert forall|g: u64, j: int|
                #[trigger] ent(s4, g, j) != ent(s0, g, j) && terminal_slot(
                s4,
                root,
                PageSize::Size4K,
                page,
            ) != Option::Some((g, j)) implies e_flags(ent(s4, g, j)) == PAGE_TABLE_FLAGS by {
                assert(!(g == t1 && j == i1 as int));
                assert(ent(s4, g, j) == ent(s3, g, j));
                if ent(s3, g, j) != ent(s2, g, j) {
                    assert(g == t2 && j == i2 as int);
                    assert(e_flags(ent(s3, t2, i2 as int)) == PAGE_TABLE_FLAGS);
                } else if ent(s2, g, j) != ent(s1, g, j) {
                    assert(g == t3 && j == i3 as int);
                    assert(e_flags(ent(s2, t3, i3 as int)) == PAGE_TABLE_FLAGS);
                } else {
                    assert(ent(s1, g, j) != ent(s0, g, j));
                    assert(g == root && j == i4 as int);
                    assert(e_flags(ent(s1, root, i4 as int)) == PAGE_TABLE_FLAGS);
                }
            }
            // self-references of every root survive
            assert forall|g: u64| pt_inv(s0, g) implies #[trigger] pt_inv(s4, g) by {
                assert(ent(s1, g, 511) == ent(s0, g, 511));
                lemma_pt_inv_preserved(s0, s1, g);
                assert(g != t3) by {
                    assert(table_level(s1, g) == 4 && table_level(s1, t3) == 3);
                }
                assert(ent(s2, g, 511) == ent(s1, g, 511));
                lemma_pt_inv_preserved(s1, s2, g);
                assert(g != t2) by {
                    assert(table_level(s2, g) == 4 && table_level(s2, t2) == 2);
                }
                assert(ent(s3, g, 511) == ent(s2, g, 511));
                lemma_pt_inv_preserved(s2, s3, g);
                assert(g != t1) by {
                    assert(table_level(s3, g) == 4 && table_level(s3, t1) == 1);
                }
                assert(ent(s4, g, 511) == ent(s3, g, 511));
                lemma_pt_inv_preserved(s3, s4, g);
            }
        }
        Result::Ok(page)
    }

    /// Map the 2 MiB block at `page` to `frame` with `flags` (without
    /// SMALL_PAGE), creating intermediate tables as needed; the level-2
    /// entry becomes a block entry, replacing whatever stood there.
    fn map_large(&self, mem: &mut PhysicalMemory, page: u64, frame: u64, flags: u64) -> (r: Result<
        u64,
        crate::KernelError,
    >)
        requires
            mem_inv(*old(mem)),
            is_root(old(mem).frames@, self.root),
            vaddr_ok(page),
            addr_field_ok(frame),
            flags_field_ok(flags),
            flags & FLAG_SMALL_PAGE == 0,
        ensures
            mem_inv(*final(mem)),
            final(mem).capacity == old(mem).capacity,
            preserved_structure(old(mem).frames@, final(mem).frames@),
            forall|g: u64|
                pt_inv(old(mem).frames@, g) ==> #[trigger] pt_inv(final(mem).frames@, g),
            match r {
                Result::Err(e) => {
                    &&& e == crate::KernelError::OutOfMemory
                    &&& walks_preserved(old(mem).frames@, final(mem).frames@)
                    &&& spec_avail(*final(mem)) == 0
                    &&& spec_avail(*old(mem)) < spec_map_cost(
                        old(mem).frames@,
                        PageSize::Size2M,
                        self.root,
                        page,
                    )
                },
                Result::Ok(p) => {
                    &&& p == page
                    &&& fresh_links_flagged(
                        old(mem).frames@,
                        final(mem).frames@,
                        self.root,
                        PageSize::Size2M,
                        page,
                    )
                    &&& forall|v2: u64|
                        same_page_2m(v2, page) ==> #[trigger] walk(
                            final(mem).frames@,
                            self.root,
                            v2,
                        ) == Option::Some((frame, flags | FLAG_PRESENT))
                    &&& forall|r2: u64, v2: u64|
                        is_root(old(mem).frames@, r2) && vaddr_ok(v2) && !(r2 == self.root
                            && same_page_2m(v2, page)) ==> #[trigger] walk(
                            final(mem).frames@,
                            r2,
                            v2,
                        ) == walk(old(mem).frames@, r2, v2)
                    &&& spec_avail(*final(mem)) == spec_avail(*old(mem)) - spec_map_cost(
                        old(mem).frames@,
                        PageSize::Size2M,
                        self.root,
                        page,
                    )
                },
            },
    {
        let ghost s0 = old(mem).frames@;
        let root = self.root;
        let i4 = index4(page);
        let i3 = index3(page);
        let ghost m0 = *mem;
        let t3 = match ensure_child(mem, root, i4, 3) {
            Result::Ok(t) => t,
            Result::Err(e) => {
                proof {
                    assert(path3(s0, root, page) is None);
                }
                return Result::Err(e);
            },
        };
        let ghost m1 = *mem;
        let ghost s1 = mem.frames@;
        proof {
            assert(down(s0, root, i4 as int) is Some ==> s1 == s0 && down(
                s0,
                root,
                i4 as int,
            ) == Option::Some(t3));
        }
        let t2 = match ensure_child(mem, t3, i3, 2) {
            Result::Ok(t) => t,
            Result::Err(e) => {
                proof {
                    assert(spec_avail(m1) == 0);
                    if down(s0, root, i4 as int) is Some {
                        assert(path2(s0, root, page) is None);
                        assert(spec_avail(m0) == 0);
                    } else {
                        assert(spec_avail(m0) == 1);
                    }
                    assert forall|g: u64| pt_inv(s0, g) implies #[trigger] pt_inv(s1, g) by {
                        assert(ent(s1, g, 511) == ent(s0, g, 511));
                        lemma_pt_inv_preserved(s0, s1, g);
                    }
                }
                return Result::Err(e);
            },
        };
        let ghost m2 = *mem;
        let ghost s2 = mem.frames@;
        let fl2 = flags | FLAG_PRESENT;
        let e = frame | fl2;
        proof {
            assert((flags | 0x1u64) & 0x0000_ffff_ffff_f000u64 == 0 && (flags | 0x1u64)
                & 0x1u64 == 0x1 && (flags | 0x1u64) & 0x2u64 == 0) by (bit_vector)
                requires
                    flags & 0x0000_ffff_ffff_f000u64 == 0,
                    flags & 0x2u64 == 0,
            ;
            lemma_entry_encode(frame, fl2);
            assert(e_present(e) && !e_small(e)) by {
                lemma_flag_bits();
            }
            assert(ent(s2, root, i4 as int) == ent(s1, root, i4 as int));
            assert(down(s2, root, i4 as int) == Option::Some(t3));
            assert(down(s2, t3, i3 as int) == Option::Some(t2));
            assert(path2(s2, root, page) == Option::Some(t2));
        }
        write_terminal(mem, root, page, t2, e, PageSize::Size2M);
        proof {
            let s3 = mem.frames@;
            assert(terminal_walk(e) == Option::Some((frame, fl2)));
            lemma_preserved_trans(s0, s1, s2);
            lemma_preserved_trans(s0, s2, s3);
            // the entries this call wrote, short of the terminal one, are
            // fresh table links and carry exactly PAGE_TABLE_FLAGS
            assert(t2 != root && t2 != t3 && t3 != root) by {
                assert(table_level(s2, root) == 4 && table_level(s2, t3) == 3 && table_level(
                    s2,
                    t2,
                ) == 2);
            }
            assert(path2(s3, root, page) == Option::Some(t2)) by {
                assert(ent(s3, root, i4 as int) == ent(s2, root, i4 as int));
                assert(ent(s3, t3, i3 as int) == ent(s2, t3, i3 as int));
                assert(down(s3, root, i4 as int) == Option::Some(t3));
                assert(down(s3, t3, i3 as int) == Option::Some(t2));
            }
            assert forall|g: u64, j: int|
                #[trigger] ent(s3, g, j) != ent(s0, g, j) && terminal_slot(
                s3,
                root,
                PageSize::Size2M,
                page,
            ) != Option::Some((g, j)) implies e_flags(ent(s3, g, j)) == PAGE_TABLE_FLAGS by {
                assert(!(g == t2 && j == idx2(page)));
                assert(ent(s3, g, j) == ent(s2, g, j));
                if ent(s2, g, j) != ent(s1, g, j) {
                    assert(g == t3 && j == i3 as int);
                    assert(e_flags(ent(s2, t3, i3 as int)) == PAGE_TABLE_FLAGS);
                } else {
                    assert(ent(s1, g, j) != ent(s0, g, j));
                    assert(g == root && j == i4 as int);
                    assert(e_flags(ent(s1, root, i4 as int)) == PAGE_TABLE_FLAGS);
                }
            }
            assert forall|r2: u64, v2: u64|
                is_root(s0, r2) && vaddr_ok(v2) && !(r2 == root && same_page_2m(
                    v2,
                    page,
                )) implies #[trigger] walk(s3, r2, v2) == walk(s0, r2, v2) by {
                assert(walk(s1, r2, v2) == walk(s0, r2, v2));
                assert(is_root(s1, r2));
                assert(walk(s2, r2, v2) == walk(s1, r2, v2));
                assert(is_root(s2, r2));
                assert(walk(s3, r2, v2) == walk(s2, r2, v2));
            }
            assert(spec_avail(*mem) == spec_avail(m0) - spec_map_cost(
                s0,
                PageSize::Size2M,
                root,
                page,
            )) by {
                lemma_flag_bits();
                if down(s0, root, i4 as int) is None {
                    assert(forall|j: int| 0 <= j < 512 ==> #[trigger] ent(s1, t3, j) == 0);
                    assert(down(s1, t3, i3 as int) is None);
                    assert(spec_map_cost(s0, PageSize::Size2M, root, page) == 2);
                } else if down(s0, t3, i3 as int) is None {
                    assert(path3(s0, root, page) == Option::Some(t3));
                    assert(spec_map_cost(s0, PageSize::Size2M, root, page) == 1);
                } else {
                    assert(s2 == s0);
                    assert(path2(s0, root, page) == Option::Some(t2));
                    assert(spec_map_cost(s0, PageSize::Size2M, root, page) == 0);
                }
            }
            assert forall|g: u64| pt_inv(s0, g) implies #[trigger] pt_inv(s3, g) by {
                assert(ent(s1, g, 511) == ent(s0, g, 511));
                lemma_pt_inv_preserved(s0, s1, g);
                assert(g != t3) by {
                    assert(table_level(s1, g) == 4 && table_level(s1, t3) == 3);
                }
                assert(ent(s2, g, 511) == ent(s1, g, 511));
                lemma_pt_inv_preserved(s1, s2, g);
                assert(pt_inv(s3, g));
            }
        }
        Result::Ok(page)
    }

    /// Map the page at `page` (of either size) to the frame at `frame` with
    /// `flags`, creating intermediate tables as needed. PRESENT is OR'd in;
    /// a pre-existing entry at the target is overwritten without checking.
    /// Fails with `OutOfMemory` exactly when fewer frames remain than
    /// intermediate tables are missing.
    pub fn map(
        &self,
        mem: &mut PhysicalMemory,
        size: PageSize,
        page: u64,
        frame: u64,
        flags: u64,
    ) -> (r: Result<u64, crate::KernelError>)
        requires
            mem_inv(*old(mem)),
            is_root(old(mem).frames@, self.root),
            vaddr_ok(page),
            addr_field_ok(frame),
            flags_field_ok(flags),
            match size {
                PageSize::Size4K => has_flag(flags, FLAG_SMALL_PAGE) && no_block_on_path(
                    old(mem).frames@,
                    self.root,
                    page,
                ),
                PageSize::Size2M => flags & FLAG_SMALL_PAGE == 0,
            },
        ensures
            mem_inv(*final(mem)),
            final(mem).capacity == old(mem).capacity,
            preserved_structure(old(mem).frames@, final(mem).frames@),
            forall|g: u64|
                pt_inv(old(mem).frames@, g) ==> #[trigger] pt_inv(final(mem).frames@, g),
            r is Ok <==> spec_avail(*old(mem)) >= spec_map_cost(
                old(mem).frames@,
                size,
                self.root,
                page,
            ),
            match r {
                Result::Err(e) => e == crate::KernelError::OutOfMemory && walks_preserved(
                    old(mem).frames@,
                    final(mem).frames@,
                ) && spec_avail(*final(mem)) == 0,
                Result::Ok(p) => {
                    &&& p == page
                    &&& fresh_links_flagged(
                        old(mem).frames@,
                        final(mem).frames@,
                        self.root,
                        size,
                        page,
                    )
                    &&& forall|v2: u64|
                        same_page(size, v2, page) ==> #[trigger] walk(
                            final(mem).frames@,
                            self.root,
                            v2,
                        ) == Option::Some((frame, flags | FLAG_PRESENT))
                    &&& forall|r2: u64, v2: u64|
                        is_root(old(mem).frames@, r2) && vaddr_ok(v2) && !(r2 == self.root
                            && same_page(size, v2, page)) ==> #[trigger] walk(
                            final(mem).frames@,
                            r2,
                            v2,
                        ) == walk(old(mem).frames@, r2, v2)
                    &&& spec_avail(*final(mem)) == spec_avail(*old(mem)) - spec_map_cost(
                        old(mem).frames@,
                        size,
                        self.root,
                        page,
                    )
                },
            },
    {
        match size {
            PageSize::Size4K => {
                let r = self.map_small(mem, page, frame, flags);
                proof {
                    if r is Ok {
                        assert forall|v2: u64|
                            same_page(size, v2, page) implies #[trigger] walk(
                            mem.frames@,
                            self.root,
                            v2,
                        ) == Option::Some((frame, flags | FLAG_PRESENT)) by {
                            lemma_same_page_indices(v2, page);
                        }
                    }
                }
                r
            },
            PageSize::Size2M => self.map_large(mem, page, frame, flags),
        }
    }

    /// Identical semantics to `map`; the name documents the intent to
    /// replace an existing mapping.
    pub fn remap(
        &self,
        mem: &mut PhysicalMemory,
        size: PageSize,
        page: u64,
        frame: u64,
        flags: u64,
    ) -> (r: Result<u64, crate::KernelError>)
        requires
            mem_inv(*old(mem)),
            is_root(old(mem).frames@, self.root),
            vaddr_ok(page),
            addr_field_ok(frame),
            flags_field_ok(flags),
            match size {
                PageSize::Size4K => has_flag(flags, FLAG_SMALL_PAGE) && no_block_on_path(
                    old(mem).frames@,
                    self.root,
                    page,
                ),
                PageSize::Size2M => flags & FLAG_SMALL_PAGE == 0,
            },
        ensures
            mem_inv(*final(mem)),
            final(mem).capacity == old(mem).capacity,
            preserved_structure(old(mem).frames@, final(mem).frames@),
            forall|g: u64|
                pt_inv(old(mem).frames@, g) ==> #[trigger] pt_inv(final(mem).frames@, g),
            r is Ok <==> spec_avail(*old(mem)) >= spec_map_cost(
                old(mem).frames@,
                size,
                self.root,
                page,
            ),
            match r {
                Result::Err(e) => e == crate::KernelError::OutOfMemory && walks_preserved(
                    old(mem).frames@,
                    final(mem).frames@,
                ) && spec_avail(*final(mem)) == 0,
                Result::Ok(p) => {
                    &&& p == page
                    &&& fresh_links_flagged(
                        old(mem).frames@,
                        final(mem).frames@,
                        self.root,
                        size,
                        page,
                    )
                    &&& forall|v2: u64|
                        same_page(size, v2, page) ==> #[trigger] walk(
                            final(mem).frames@,
                            self.root,
                            v2,
                        ) == Option::Some((frame, flags | FLAG_PRESENT))
                    &&& forall|r2: u64, v2: u64|
                        is_root(old(mem).frames@, r2) && vaddr_ok(v2) && !(r2 == self.root
                            && same_page(size, v2, page)) ==> #[trigger] walk(
                            final(mem).frames@,
                            r2,
                            v2,
                        ) == walk(old(mem).frames@, r2, v2)
                    &&& spec_avail(*final(mem)) == spec_avail(*old(mem)) - spec_map_cost(
                        old(mem).frames@,
                        size,
                        self.root,
                        page,
                    )
                },
            },
    {
        self.map(mem, size, page, frame, flags)
    }

    /// Map the page whose virtual address equals `frame`'s physical address.
    pub fn identity_map(
        &self,
        mem: &mut PhysicalMemory,
        size: PageSize,
        frame: u64,
        flags: u64,
    ) -> (r: Result<u64, crate::KernelError>)
        requires
            mem_inv(*old(mem)),
            is_root(old(mem).frames@, self.root),
            vaddr_ok(frame),
            addr_field_ok(frame),
            flags_field_ok(flags),
            match size {
                PageSize::Size4K => has_flag(flags, FLAG_SMALL_PAGE) && no_block_on_path(
                    old(mem).frames@,
                    self.root,
                    frame,
                ),
                PageSize::Size2M => flags & FLAG_SMALL_PAGE == 0,
            },
        ensures
            mem_inv(*final(mem)),
            final(mem).capacity == old(mem).capacity,
            preserved_structure(old(mem).frames@, final(mem).frames@),
            forall|g: u64|
                pt_inv(old(mem).frames@, g) ==> #[trigger] pt_inv(final(mem).frames@, g),
            r is Ok <==> spec_avail(*old(mem)) >= spec_map_cost(
                old(mem).frames@,
                size,
                self.root,
                frame,
            ),
            match r {
                Result::Err(e) => e == crate::KernelError::OutOfMemory && spec_avail(*final(mem))
                    == 0,
                Result::Ok(p) => p == frame && forall|v2: u64|
                    same_page(size, v2, frame) ==> #[trigger] walk(
                        final(mem).frames@,
                        self.root,
                        v2,
                    ) == Option::Some((frame, flags | FLAG_PRESENT)),
            },
    {
        self.map(mem, size, frame, frame, flags)
    }

    /// Clear the terminal entry for `page`: afterwards nothing in its page
    /// translates, and no other mapping has moved. Intermediate tables are
    /// not freed.
    pub fn unmap(&self, mem: &mut PhysicalMemory, size: PageSize, page: u64)
        requires
            mem_inv(*old(mem)),
            is_root(old(mem).frames@, self.root),
            vaddr_ok(page),
            match size {
                PageSize::Size4K => path1(old(mem).frames@, self.root, page) is Some,
                PageSize::Size2M => path2(old(mem).frames@, self.root, page) is Some && !e_small(
                    ent(
                        old(mem).frames@,
                        path2(old(mem).frames@, self.root, page)->Some_0,
                        idx2(page),
                    ),
                ),
            },
        ensures
            mem_inv(*final(mem)),
            final(mem).capacity == old(mem).capacity,
            spec_avail(*final(mem)) == spec_avail(*old(mem)),
            preserved_structure(old(mem).frames@, final(mem).frames@),
            forall|g: u64|
                pt_inv(old(mem).frames@, g) ==> #[trigger] pt_inv(final(mem).frames@, g),
            forall|v2: u64|
                same_page(size, v2, page) ==> #[trigger] walk(
                    final(mem).frames@,
                    self.root,
                    v2,
                ) is None,
            forall|r2: u64, v2: u64|
                is_root(old(mem).frames@, r2) && vaddr_ok(v2) && !(r2 == self.root && same_page(
                    size,
                    v2,
                    page,
                )) ==> #[trigger] walk(final(mem).frames@, r2, v2) == walk(old(mem).frames@, r2, v2),
    {
        let t = self.terminal_table(mem, size, page);
        proof {
            lemma_flag_bits();
        }
        write_terminal(mem, self.root, page, t, 0, size);
    }

    /// Keep the terminal entry's physical address, replace its flag bits
    /// with `flags | PRESENT`.
    pub fn update_flags(&self, mem: &mut PhysicalMemory, size: PageSize, page: u64, flags: u64) -> (r:
        u64)
        requires
            mem_inv(*old(mem)),
            is_root(old(mem).frames@, self.root),
            vaddr_ok(page),
            flags_field_ok(flags),
            match size {
                PageSize::Size4K => path1(old(mem).frames@, self.root, page) is Some,
                PageSize::Size2M => path2(old(mem).frames@, self.root, page) is Some && flags
                    & FLAG_SMALL_PAGE == 0,
            },
        ensures
            r == page,
            mem_inv(*final(mem)),
            final(mem).capacity == old(mem).capacity,
            spec_avail(*final(mem)) == spec_avail(*old(mem)),
            preserved_structure(old(mem).frames@, final(mem).frames@),
            forall|g: u64|
                pt_inv(old(mem).frames@, g) ==> #[trigger] pt_inv(final(mem).frames@, g),
            forall|v2: u64|
                same_page(size, v2, page) ==> #[trigger] walk(final(mem).frames@, self.root, v2)
                    == Option::Some(
                    (
                        e_addr(terminal_entry(old(mem).frames@, size, self.root, page)),
                        flags | FLAG_PRESENT,
                    ),
                ),
            forall|r2: u64, v2: u64|
                is_root(old(mem).frames@, r2) && vaddr_ok(v2) && !(r2 == self.root && same_page(
                    size,
                    v2,
                    page,
                )) ==> #[trigger] walk(final(mem).frames@, r2, v2) == walk(old(mem).frames@, r2, v2),
    {
        let t = self.terminal_table(mem, size, page);
        let i: usize = match size {
            PageSize::Size4K => index1(page),
            PageSize::Size2M => index2(page),
        };
        let e_old = mem.read_entry(t, i);
        let fl2 = flags | FLAG_PRESENT;
        let a = e_old & ADDRESS_MASK;
        let e = a | fl2;
        proof {
            lemma_entry_decompose(e_old);
            assert((flags | 0x1u64) & 0x0000_ffff_ffff_f000u64 == 0 && (flags | 0x1u64)
                & 0x1u64 == 0x1) by (bit_vector)
                requires
                    flags & 0x0000_ffff_ffff_f000u64 == 0,
            ;
            lemma_entry_encode(a, fl2);
            assert(e_present(e)) by {
                lemma_flag_bits();
            }
            if size is Size2M {
                assert((flags | 0x1u64) & 0x2u64 == 0) by (bit_vector)
                    requires
                        flags & 0x2u64 == 0,
                ;
                assert(!e_small(e)) by {
                    lemma_flag_bits();
                }
            }
            assert(terminal_walk(e) == Option::Some(
                (e_addr(terminal_entry(old(mem).frames@, size, self.root, page)), fl2),
            ));
        }
        write_terminal(mem, self.root, page, t, e, size);
        page
    }

    /// The table holding `page`'s terminal entry: the level-1 table for a
    /// 4 KiB page, the level-2 table for a 2 MiB block.
    fn terminal_table(&self, mem: &PhysicalMemory, size: PageSize, page: u64) -> (t: u64)
        requires
            mem_inv(*mem),
            is_root(mem.frames@, self.root),
            vaddr_ok(page),
            match size {
                PageSize::Size4K => path1(mem.frames@, self.root, page) is Some,
                PageSize::Size2M => path2(mem.frames@, self.root, page) is Some,
            },
        ensures
            match size {
                PageSize::Size4K => path1(mem.frames@, self.root, page) == Option::Some(t),
                PageSize::Size2M => path2(mem.frames@, self.root, page) == Option::Some(t),
            },
            is_table(mem.frames@, t),
    {
        proof {
            lemma_path_levels(mem.frames@, self.root, page);
        }
        let t3 = match descend(mem, self.root, index4(page)) {
            Option::Some(t) => t,
            Option::None => {
                proof {
                    assert(false);
                }
                0
            },
        };
        let t2 = match descend(mem, t3, index3(page)) {
            Option::Some(t) => t,
            Option::None => {
                proof {
                    assert(false);
                }
                0
            },
        };
        match size {
            PageSize::Size4K => match descend(mem, t2, index2(page)) {
                Option::Some(t) => t,
                Option::None => {
                    proof {
                        assert(false);
                    }
                    0
                },
            },
            PageSize::Size2M => t2,
        }
    }

    /// The terminal entry a walk of `v` reaches: its address field and its
    /// flags, without the page offset `translate` adds.
    pub fn entry_of(&self, mem: &PhysicalMemory, v: u64) -> (r: Option<(u64, u64)>)
        requires
            mem_inv(*mem),
            is_root(mem.frames@, self.root),
        ensures
            r == walk(mem.frames@, self.root, v),
    {
        let t3 = match descend(mem, self.root, index4(v)) {
            Option::Some(t) => t,
            Option::None => {
                return Option::None;
            },
        };
        let t2 = match descend(mem, t3, index3(v)) {
            Option::Some(t) => t,
            Option::None => {
                return Option::None;
            },
        };
        let e2 = mem.read_entry(t2, index2(v));
        let mut term = PageTableEntry(e2);
        if !term.present() {
            return Option::None;
        }
        if !term.is_block() {
            let t1 = (e2 & ADDRESS_MASK) / 4096;
            proof {
                assert(table_ok(mem.frames@, t2));
                assert(entry_ok(mem.frames@, t2, idx2(v)));
                assert(is_tp(mem.frames@, t2, idx2(v)));
                assert(is_table(mem.frames@, tp_target(mem.frames@, t2, idx2(v))));
            }
            let e1 = mem.read_entry(t1, index1(v));
            term = PageTableEntry(e1);
            if !term.present() {
                return Option::None;
            }
        }
        Option::Some((term.address(), term.flags()))
    }

    /// Four-level translation of `v`: the physical address it maps to and
    /// the terminal entry's flags, or `None` when no mapping exists. Walks
    /// that pass through the self-reference slot read the tables themselves,
    /// exactly as the hardware walker would.
    pub fn translate(&self, mem: &PhysicalMemory, v: u64) -> (r: Option<(u64, u64)>)
        requires
            mem_inv(*mem),
            is_root(mem.frames@, self.root),
        ensures
            r == spec_translate(mem.frames@, self.root, v),
    {
        let t3 = match descend(mem, self.root, index4(v)) {
            Option::Some(t) => t,
            Option::None => {
                return Option::None;
            },
        };
        let t2 = match descend(mem, t3, index3(v)) {
            Option::Some(t) => t,
            Option::None => {
                return Option::None;
            },
        };
        let e2 = mem.read_entry(t2, index2(v));
        let mut term = PageTableEntry(e2);
        if !term.present() {
            return Option::None;
        }
        if !term.is_block() {
            // small: one more level
            let t1 = (e2 & ADDRESS_MASK) / 4096;
            proof {
                assert(table_ok(mem.frames@, t2));
                assert(entry_ok(mem.frames@, t2, idx2(v)));
                assert(is_tp(mem.frames@, t2, idx2(v)));
                assert(is_table(mem.frames@, tp_target(mem.frames@, t2, idx2(v))));
            }
            let e1 = mem.read_entry(t1, index1(v));
            term = PageTableEntry(e1);
            if !term.present() {
                return Option::None;
            }
        }
        let off = v & 0xfff;
        let a = term.address();
        proof {
            assert(v & 0xfff < 4096) by (bit_vector);
            assert(a <= 0x0000_ffff_ffff_f000u64) by (bit_vector)
                requires
                    a & 0x0000_ffff_ffff_f000u64 == a,
            ;
        }
        Option::Some((a + off, term.flags()))
    }
}

} // verus!
