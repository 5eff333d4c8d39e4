//! Fork of a page-table hierarchy: the child receives a freshly allocated
//! copy of every table; kernel-stack pages are redirected to pre-allocated
//! child frames; every other present page is shared, with COPY_ON_WRITE and
//! NO_WRITE set so that the first write faults and copies.

use vstd::prelude::*;
use crate::entry::{
    e_addr, e_flags, e_present, e_small, addr_field_ok, lemma_entry_encode, FLAG_COPY_ON_WRITE,
    FLAG_NO_WRITE, PAGE_TABLE_FLAGS,
};
use crate::mem::{
    ent, e_frame, frame_addr, frames_inv, is_table, is_page, lemma_frame_addr, mem_inv,
    page_bytes, page_refcount, spec_avail, table_level, table_ok, entry_ok, is_tp, tp_real,
    PhysicalMemory, FrameSlot,
};
use crate::table::{idx1, idx2, idx3, idx4, vaddr_ok, walk, PageTable, pt_inv, is_root};

verus! {

/// COPY_ON_WRITE | NO_WRITE: the bits fork sets on every shared page.
pub const COW_MARK: u64 = 0x20_0000_0000_0080;

/// The index a table of `level` uses for `v`.
pub open spec fn idx_at(level: u64, v: u64) -> int {
    if level >= 4 {
        idx4(v)
    } else if level == 3 {
        idx3(v)
    } else if level == 2 {
        idx2(v)
    } else {
        idx1(v)
    }
}

/// The walk of `v` from a table of the given level down: the terminal
/// entry's address and flags, with `true` for a 2 MiB block terminal.
pub open spec fn walk_at(s: Seq<FrameSlot>, f: u64, level: u64, v: u64) -> Option<(u64, u64, bool)>
    decreases level,
{
    let e = ent(s, f, idx_at(level, v));
    if level <= 1 {
        if e_present(e) {
            Option::Some((e_addr(e), e_flags(e), false))
        } else {
            Option::None
        }
    } else if !e_present(e) {
        Option::None
    } else if !e_small(e) {
        if level == 2 {
            Option::Some((e_addr(e), e_flags(e), true))
        } else {
            Option::None
        }
    } else {
        walk_at(s, e_frame(e), (level - 1) as u64, v)
    }
}

/// The first child frame paired with parent stack frame `a`, if any.
pub open spec fn first_match(stacks: Seq<(u64, u64)>, a: u64) -> Option<u64>
    decreases stacks.len(),
{
    if stacks.len() == 0 {
        Option::None
    } else if stacks[0].0 == a {
        Option::Some(stacks[0].1)
    } else {
        first_match(stacks.drop_first(), a)
    }
}

/// What the child's walk returns where the parent's returned `r`: stack
/// pages are redirected with their flags kept; every other mapping keeps
/// its address and gains COPY_ON_WRITE | NO_WRITE.
pub open spec fn child_image(r: Option<(u64, u64, bool)>, stacks: Seq<(u64, u64)>) -> Option<
    (u64, u64, bool),
> {
    match r {
        Option::None => Option::None,
        Option::Some((a, fl, true)) => Option::Some((a, (fl | COW_MARK) as u64, true)),
        Option::Some((a, fl, false)) => match first_match(stacks, a) {
            Option::Some(c) => Option::Some((c, fl, false)),
            Option::None => Option::Some((a, (fl | COW_MARK) as u64, false)),
        },
    }
}

/// The full walk agrees with the level-4 walk for addresses that avoid the
/// self-reference slot.
pub proof fn lemma_walk_is_walk_at(s: Seq<FrameSlot>, root: u64, v: u64)
    requires
        vaddr_ok(v),
    ensures
        walk(s, root, v) == match walk_at(s, root, 4, v) {
            Option::Some((a, fl, b)) => Option::Some((a, fl)),
            Option::None => Option::None,
        },
{
    reveal_with_fuel(walk_at, 5);
}

/// If every table of `s0` reads the same in `s1`, every walk from a table
/// of `s0` reads the same as well.
pub proof fn lemma_walk_at_tables_preserved(
    s0: Seq<FrameSlot>,
    s1: Seq<FrameSlot>,
    f: u64,
    level: u64,
    v: u64,
)
    requires
        frames_inv(s0),
        is_table(s0, f),
        table_level(s0, f) >= level,
        1 <= level <= 4,
        forall|g: u64, j: int| is_table(s0, g) ==> #[trigger] ent(s1, g, j) == ent(s0, g, j),
    ensures
        walk_at(s1, f, level, v) == walk_at(s0, f, level, v),
    decreases level,
{
    let i = idx_at(level, v);
    assert(ent(s1, f, i) == ent(s0, f, i));
    let e = ent(s0, f, i);
    if level <= 1 {
    } else if e_present(e) && e_small(e) {
        assert(table_ok(s0, f));
        if 0 <= i < 512 {
            assert(entry_ok(s0, f, i));
            assert(is_tp(s0, f, i));
            let t = e_frame(e);
            assert(is_table(s0, t));
            assert(table_level(s0, t) >= level - 1);
            lemma_walk_at_tables_preserved(s0, s1, t, (level - 1) as u64, v);
        } else {
            assert(ent(s0, f, i) == 0);
            assert(!e_present(0u64)) by (bit_vector);
        }
    }
}

/// A walk from a table of level at most 3 never reads a table of a higher
/// level, so a single write into such a higher table leaves it unchanged.
pub proof fn lemma_walk_at_single_except(
    s0: Seq<FrameSlot>,
    s1: Seq<FrameSlot>,
    f: u64,
    level: u64,
    v: u64,
    wf: u64,
    wi: int,
)
    requires
        frames_inv(s0),
        is_table(s0, f),
        table_level(s0, f) == level,
        1 <= level <= 3,
        is_table(s0, wf),
        table_level(s0, wf) > level,
        forall|g: u64, j: int| !(g == wf && j == wi) ==> #[trigger] ent(s1, g, j) == ent(s0, g, j),
    ensures
        walk_at(s1, f, level, v) == walk_at(s0, f, level, v),
    decreases level,
{
    let i = idx_at(level, v);
    assert(f != wf);
    assert(ent(s1, f, i) == ent(s0, f, i));
    let e = ent(s0, f, i);
    if level <= 1 {
    } else if e_present(e) && e_small(e) {
        assert(table_ok(s0, f));
        if 0 <= i < 512 {
            assert(entry_ok(s0, f, i));
            assert(is_tp(s0, f, i));
            let t = e_frame(e);
            assert(is_table(s0, t));
            assert(table_level(s0, t) == level - 1);
            lemma_walk_at_single_except(s0, s1, t, (level - 1) as u64, v, wf, wi);
        } else {
            assert(ent(s0, f, i) == 0);
            assert(!e_present(0u64)) by (bit_vector);
        }
    }
}

/// What a fork pass leaves intact: every table that existed keeps its slot
/// bit for bit; data pages keep their bytes, and their reference counts
/// only grow (shared pages gain sharers).
pub open spec fn fork_frames_ok(s0: Seq<FrameSlot>, s1: Seq<FrameSlot>) -> bool {
    &&& s1.len() >= s0.len()
    &&& forall|g: u64| #[trigger] is_table(s0, g) ==> s1[g as int] == s0[g as int]
    &&& forall|g: u64| #[trigger] is_page(s1, g) <==> is_page(s0, g)
    &&& forall|g: u64|
        #[trigger] is_page(s0, g) ==> page_bytes(s1, g) == page_bytes(s0, g) && page_refcount(
            s1,
            g,
        ) >= page_refcount(s0, g)
}

/// Reads of preserved tables are unchanged.
pub proof fn lemma_fork_frames_reads(s0: Seq<FrameSlot>, s1: Seq<FrameSlot>)
    requires
        fork_frames_ok(s0, s1),
    ensures
        forall|g: u64, j: int| is_table(s0, g) ==> #[trigger] ent(s1, g, j) == ent(s0, g, j),
        forall|g: u64|
            is_table(s0, g) ==> #[trigger] is_table(s1, g) && table_level(s1, g) == table_level(
                s0,
                g,
            ),
{
    assert forall|g: u64, j: int| is_table(s0, g) implies #[trigger] ent(s1, g, j) == ent(
        s0,
        g,
        j,
    ) by {
        assert(s1[g as int] == s0[g as int]);
    }
    assert forall|g: u64|
        is_table(s0, g) implies #[trigger] is_table(s1, g) && table_level(s1, g) == table_level(
        s0,
        g,
    ) by {
        assert(s1[g as int] == s0[g as int]);
    }
}

/// `fork_frames_ok` composes.
pub proof fn lemma_fork_frames_trans(s0: Seq<FrameSlot>, s1: Seq<FrameSlot>, s2: Seq<FrameSlot>)
    requires
        fork_frames_ok(s0, s1),
        fork_frames_ok(s1, s2),
    ensures
        fork_frames_ok(s0, s2),
{
    assert forall|g: u64| #[trigger] is_table(s0, g) implies s2[g as int] == s0[g as int] by {
        assert(s1[g as int] == s0[g as int]);
        assert(is_table(s1, g));
    }
    assert forall|g: u64| #[trigger] is_page(s2, g) <==> is_page(s0, g) by {
        assert(is_page(s2, g) <==> is_page(s1, g));
    }
    assert forall|g: u64|
        #[trigger] is_page(s0, g) implies page_bytes(s2, g) == page_bytes(s0, g) && page_refcount(
        s2,
        g,
    ) >= page_refcount(s0, g) by {
        assert(is_page(s1, g));
        assert(page_bytes(s1, g) == page_bytes(s0, g));
    }
}

/// Flag arithmetic used by the fork: the COW mark keeps the address and the
/// PRESENT and SMALL_PAGE bits; extracted flag words are flag words; an
/// address composed with a flag word keeps the flag word's low bits.
proof fn lemma_fork_bits(e: u64, x: u64)
    by (bit_vector)
    ensures
        (e | 0x20_0000_0000_0080u64) & 0x0000_ffff_ffff_f000u64 == e & 0x0000_ffff_ffff_f000u64,
        (e | 0x20_0000_0000_0080u64) & !0x0000_ffff_ffff_f000u64 == (e
            & !0x0000_ffff_ffff_f000u64) | 0x20_0000_0000_0080u64,
        (e | 0x20_0000_0000_0080u64) & 0x1u64 == e & 0x1u64,
        (e | 0x20_0000_0000_0080u64) & 0x2u64 == e & 0x2u64,
        (e & !0x0000_ffff_ffff_f000u64) & 0x0000_ffff_ffff_f000u64 == 0,
        (e & !0x0000_ffff_ffff_f000u64) & 0x1u64 == e & 0x1u64,
        (e & !0x0000_ffff_ffff_f000u64) & 0x2u64 == e & 0x2u64,
        x & 0x0000_ffff_ffff_f000u64 == x ==> (x | (e & !0x0000_ffff_ffff_f000u64)) & 0x1u64 == e
            & 0x1u64,
        x & 0x0000_ffff_ffff_f000u64 == x ==> (x | (e & !0x0000_ffff_ffff_f000u64)) & 0x2u64 == e
            & 0x2u64,
        e & 0x1u64 == 0x1 || e & 0x1u64 == 0,
        e & 0x2u64 == 0x2 || e & 0x2u64 == 0,
{
}

/// One write inside the fresh table `nf` keeps the fork frame discipline
/// with respect to the base state, in which `nf` was no table.
proof fn lemma_fork_frames_write(s0: Seq<FrameSlot>, sp: Seq<FrameSlot>, sw: Seq<FrameSlot>, nf: u64)
    requires
        fork_frames_ok(s0, sp),
        sw.len() == sp.len(),
        forall|h: int| 0 <= h < sp.len() && h != nf ==> sw[h] == sp[h],
        is_table(sp, nf),
        is_table(sw, nf),
        !is_table(s0, nf),
        !is_page(s0, nf),
    ensures
        fork_frames_ok(s0, sw),
{
    assert forall|g: u64| #[trigger] is_table(s0, g) implies sw[g as int] == s0[g as int] by {
        assert(g != nf);
        assert(sp[g as int] == s0[g as int]);
    }
    assert forall|g: u64| #[trigger] is_page(sw, g) <==> is_page(s0, g) by {
        if g != nf {
            assert(g < sp.len() ==> sw[g as int] == sp[g as int]);
            assert(is_page(sp, g) <==> is_page(s0, g));
        } else {
            assert(!is_page(sw, nf));
        }
    }
    assert forall|g: u64| #[trigger] is_page(s0, g) implies page_bytes(sw, g) == page_bytes(s0, g)
        && page_refcount(sw, g) >= page_refcount(s0, g) by {
        assert(g != nf);
        assert(is_page(sp, g));
        assert(sw[g as int] == sp[g as int]);
    }
}

/// A single write at index `wi` of the level-`level` table `nf` leaves the
/// walk from `nf` unchanged for every address with a different index
/// (self-referencing addresses excepted at level 4).
proof fn lemma_walk_except_index(
    prev: Seq<FrameSlot>,
    next: Seq<FrameSlot>,
    nf: u64,
    level: u64,
    wi: int,
)
    requires
        frames_inv(prev),
        is_table(prev, nf),
        table_level(prev, nf) == level,
        1 <= level <= 4,
        forall|g: u64, j: int| !(g == nf && j == wi) ==> #[trigger] ent(next, g, j) == ent(
            prev,
            g,
            j,
        ),
    ensures
        forall|v: u64|
            idx_at(level, v) != wi && (level == 4 ==> idx4(v) != 511) ==> #[trigger] walk_at(
                next,
                nf,
                level,
                v,
            ) == walk_at(prev, nf, level, v),
{
    assert forall|v: u64|
        idx_at(level, v) != wi && (level == 4 ==> idx4(v) != 511) implies #[trigger] walk_at(
        next,
        nf,
        level,
        v,
    ) == walk_at(prev, nf, level, v) by {
        let i = idx_at(level, v);
        assert(ent(next, nf, i) == ent(prev, nf, i));
        let e = ent(prev, nf, i);
        if level >= 2 && e_present(e) && e_small(e) {
            assert(table_ok(prev, nf));
            if 0 <= i < 512 {
                assert(entry_ok(prev, nf, i));
                assert(is_tp(prev, nf, i));
                let t = e_frame(e);
                assert(!(level == 4 && i == 511));
                assert(is_table(prev, t) && table_level(prev, t) == level - 1);
                lemma_walk_at_single_except(prev, next, t, (level - 1) as u64, v, nf, wi);
            } else {
                assert(ent(prev, nf, i) == 0);
                assert(!e_present(0u64)) by (bit_vector);
            }
        }
    }
}

/// Find the child frame paired with parent stack frame `a`.
fn find_stack(stacks: &Vec<(u64, u64)>, a: u64) -> (r: Option<u64>)
    ensures
        r == first_match(stacks@, a),
{
    let mut k: usize = 0;
    proof {
        assert(stacks@.skip(0) =~= stacks@);
    }
    while k < stacks.len()
        invariant
            k <= stacks.len(),
            first_match(stacks@, a) == first_match(stacks@.skip(k as int), a),
        decreases stacks.len() - k,
    {
        let pair = stacks[k];
        proof {
            assert(stacks@.skip(k as int)[0] == stacks@[k as int]);
            assert(stacks@.skip(k as int).drop_first() =~= stacks@.skip(k as int + 1));
        }
        if pair.0 == a {
            return Option::Some(pair.1);
        }
        k = k + 1;
    }
    Option::None
}

/// A found stack pairing names one of the table's entries.
proof fn lemma_first_match_found(stacks: Seq<(u64, u64)>, a: u64)
    ensures
        first_match(stacks, a) is Some ==> exists|k: int|
            0 <= k < stacks.len() && (#[trigger] stacks[k]).0 == a && stacks[k].1 == first_match(
                stacks,
                a,
            )->Some_0,
    decreases stacks.len(),
{
    if stacks.len() > 0 && stacks[0].0 != a {
        lemma_first_match_found(stacks.drop_first(), a);
        if first_match(stacks, a) is Some {
            let k = choose|k: int|
                0 <= k < stacks.drop_first().len() && (#[trigger] stacks.drop_first()[k]).0 == a
                    && stacks.drop_first()[k].1 == first_match(stacks.drop_first(), a)->Some_0;
            assert(stacks[k + 1] == stacks.drop_first()[k]);
        }
    }
}

/// Copy the table hierarchy under `f` into freshly allocated frames. Tables
/// are duplicated; kernel-stack pages are redirected to their paired child
/// frames with flags kept; every other present page is shared and marked
/// COPY_ON_WRITE | NO_WRITE in the child. Every existing table, in this
/// tree and every other, reads exactly as before.
pub(crate) fn copy_tree(
    mem: &mut PhysicalMemory,
    f: u64,
    level: u64,
    stacks: &Vec<(u64, u64)>,
    bump: bool,
) -> (r: Result<u64, crate::KernelError>)
    requires
        mem_inv(*old(mem)),
        is_table(old(mem).frames@, f),
        table_level(old(mem).frames@, f) == level,
        1 <= level <= 4,
        forall|k: int| 0 <= k < stacks@.len() ==> addr_field_ok((#[trigger] stacks@[k]).1),
    ensures
        mem_inv(*final(mem)),
        final(mem).capacity == old(mem).capacity,
        fork_frames_ok(old(mem).frames@, final(mem).frames@),
        match r {
            Result::Err(e) => e == crate::KernelError::OutOfMemory && spec_avail(*final(mem))
                == 0,
            Result::Ok(nf) => {
                &&& is_table(final(mem).frames@, nf)
                &&& table_level(final(mem).frames@, nf) == level
                &&& !is_table(old(mem).frames@, nf)
                &&& !is_page(old(mem).frames@, nf)
                &&& nf < final(mem).frames@.len()
                &&& spec_avail(*final(mem)) <= spec_avail(*old(mem)) - 1
                &&& forall|g: u64|
                    is_table(final(mem).frames@, g) && !is_table(old(mem).frames@, g) && g != nf
                        ==> #[trigger] table_level(final(mem).frames@, g) < level
                &&& forall|v: u64|
                    (level == 4 ==> idx4(v) != 511) ==> #[trigger] walk_at(
                        final(mem).frames@,
                        nf,
                        level,
                        v,
                    ) == child_image(walk_at(old(mem).frames@, f, level, v), stacks@)
                &&& (level == 4 ==> e_present(ent(final(mem).frames@, nf, 511)) && e_small(
                    ent(final(mem).frames@, nf, 511),
                ) && e_frame(ent(final(mem).frames@, nf, 511)) == nf)
            },
        },
    decreases level,
{
    let ghost s0 = old(mem).frames@;
    let nf = match mem.alloc_table(level) {
        Option::Some(t) => t,
        Option::None => {
            return Result::Err(crate::KernelError::OutOfMemory);
        },
    };
    proof {
        let sa = mem.frames@;
        assert(fork_frames_ok(s0, sa)) by {
            assert forall|g: u64| #[trigger] is_table(s0, g) implies sa[g as int]
                == s0[g as int] by {
                assert(g != nf);
            }
            assert forall|g: u64| #[trigger] is_page(sa, g) <==> is_page(s0, g) by {
                if g != nf {
                    assert(g < s0.len() ==> sa[g as int] == s0[g as int]);
                } else {
                    assert(!is_page(s0, nf) && !is_page(sa, nf));
                }
            }
            assert forall|g: u64| #[trigger] is_page(s0, g) implies page_bytes(sa, g)
                == page_bytes(s0, g) && page_refcount(sa, g) >= page_refcount(s0, g) by {
                assert(g != nf);
                assert(sa[g as int] == s0[g as int]);
            }
        }
        assert forall|g: u64|
            is_table(mem.frames@, g) && !is_table(s0, g) && g != nf implies #[trigger] table_level(
            mem.frames@,
            g,
        ) < level by {
            if g < s0.len() {
                assert(mem.frames@[g as int] == s0[g as int]);
            }
        }
    }
    let limit: usize = if level == 4 {
        511
    } else {
        512
    };
    let mut i: usize = 0;
    while i < limit
        invariant
            mem_inv(*mem),
            mem.capacity == old(mem).capacity,
            mem_inv(*old(mem)),
            is_table(old(mem).frames@, f),
            table_level(old(mem).frames@, f) == level,
            1 <= level <= 4,
            forall|k: int| 0 <= k < stacks@.len() ==> addr_field_ok((#[trigger] stacks@[k]).1),
            limit == if level == 4 {
                511int
            } else {
                512int
            },
            i <= limit,
            s0 == old(mem).frames@,
            fork_frames_ok(old(mem).frames@, mem.frames@),
            is_table(mem.frames@, nf),
            table_level(mem.frames@, nf) == level,
            nf < mem.frames@.len(),
            !is_table(old(mem).frames@, nf),
            !is_page(old(mem).frames@, nf),
            spec_avail(*mem) <= spec_avail(*old(mem)) - 1,
            forall|g: u64|
                is_table(mem.frames@, g) && !is_table(old(mem).frames@, g) && g != nf
                    ==> #[trigger] table_level(mem.frames@, g) < level,
            forall|j: int| i <= j < 512 ==> #[trigger] ent(mem.frames@, nf, j) == 0,
            forall|v: u64|
                0 <= idx_at(level, v) < i ==> #[trigger] walk_at(mem.frames@, nf, level, v)
                    == child_image(walk_at(old(mem).frames@, f, level, v), stacks@),
        decreases limit - i,
    {
        let ghost sp = mem.frames@;
        let ghost mp = *mem;
        proof {
            lemma_fork_frames_reads(s0, sp);
            assert(ent(sp, f, i as int) == ent(s0, f, i as int));
            assert(is_table(sp, f) && table_level(sp, f) == level);
        }
        let e = mem.read_entry(f, i);
        if e & 0x1 == 0x1 {
            let fl = e & !0x0000_ffff_ffff_f000;
            let a = e & 0x0000_ffff_ffff_f000;
            proof {
                lemma_fork_bits(e, a);
                assert(e_present(e));
                assert(table_ok(s0, f));
                assert(entry_ok(s0, f, i as int));
                assert(fl == e_flags(e) && a == e_addr(e));
            }
            if level >= 2 && (e & 0x2 == 0x2) {
                // a child table: duplicate it recursively
                let pf = a / 4096;
                proof {
                    assert(e_small(e));
                    assert(is_tp(s0, f, i as int));
                    assert(!(table_level(s0, f) == 4 && i == 511));
                    assert(is_table(s0, pf) && table_level(s0, pf) == level - 1);
                    lemma_fork_frames_reads(sp, sp);
                    assert(is_table(sp, pf) && table_level(sp, pf) == level - 1);
                }
                let cf = match copy_tree(mem, pf, level - 1, stacks, bump) {
                    Result::Ok(c) => c,
                    Result::Err(err) => {
                        proof {
                            lemma_fork_frames_trans(s0, sp, mem.frames@);
                        }
                        return Result::Err(err);
                    },
                };
                let ghost sc = mem.frames@;
                let ghost mc = *mem;
                proof {
                    lemma_fork_frames_reads(sp, sc);
                    assert(cf < mem.frames.len() && mem.frames.len() <= mem.capacity);
                    lemma_frame_addr(cf);
                    lemma_entry_encode(frame_addr(cf), e_flags(e));
                }
                let caddr = cf * 4096;
                mem.write_entry(nf, i, caddr | fl);
                proof {
                    let sw = mem.frames@;
                    let enew = frame_addr(cf) | e_flags(e);
                    crate::table::lemma_write_is_single_change(mc, *mem, nf, i as int);
                    assert(ent(sw, nf, i as int) == enew);
                    lemma_fork_bits(e, frame_addr(cf));
                    assert(e_present(enew) && e_small(enew));
                    assert(e_addr(enew) == frame_addr(cf));
                    assert(e_frame(enew) == cf);
                    // the fresh child is not yet the target of any pointer
                    assert(crate::table::untargeted(sc, cf)) by {
                        assert forall|g: u64, j: int| #[trigger] tp_real(sc, g, j) implies
                            crate::mem::tp_target(sc, g, j) != cf by {
                            assert(table_ok(sc, g));
                            assert(entry_ok(sc, g, j));
                            if is_table(sp, g) {
                                assert(sc[g as int] == sp[g as int]);
                                assert(tp_real(sp, g, j));
                                assert(table_ok(sp, g));
                                assert(entry_ok(sp, g, j));
                                assert(is_table(sp, crate::mem::tp_target(sp, g, j)));
                                assert(!is_table(sp, cf));
                            } else {
                                assert(g != cf ==> table_level(sc, g) < level - 1 || g == nf);
                                assert(table_level(sc, crate::mem::tp_target(sc, g, j))
                                    == table_level(sc, g) - 1 || (table_level(sc, g) == 4 && j
                                    == 511));
                                assert(table_level(sc, cf) == level - 1);
                                if g == nf {
                                    assert(j < i ==> crate::mem::tp_target(sc, nf, j) != cf) by {
                                        if 0 <= j < i {
                                            assert(ent(sc, nf, j) == ent(sp, nf, j));
                                            if tp_real(sp, nf, j) {
                                                assert(entry_ok(sp, nf, j));
                                                assert(is_table(
                                                    sp,
                                                    crate::mem::tp_target(sp, nf, j),
                                                ));
                                            }
                                        }
                                    }
                                    assert(j >= i ==> ent(sc, nf, j) == 0 || j >= 512);
                                    assert(!e_present(0u64)) by (bit_vector);
                                }
                            }
                        }
                    }
                    crate::table::lemma_link_inv(sc, sw, nf, i as int, cf);
                    crate::table::lemma_mem_inv_after_write(mc, *mem, nf);
                    lemma_fork_frames_trans(s0, sp, sc);
                    lemma_fork_frames_write(s0, sc, sw, nf);
                    // level bound for the new tables
                    assert forall|g: u64|
                        is_table(sw, g) && !is_table(s0, g) && g != nf implies #[trigger]
                    table_level(sw, g) < level by {
                        assert(is_table(sc, g) && table_level(sc, g) == table_level(sw, g));
                        if is_table(sp, g) {
                            assert(table_level(sp, g) == table_level(sc, g));
                        } else {
                            assert(table_level(sc, g) < level - 1 || g == cf);
                        }
                    }
                    // walks recorded so far survive, and the new one appears
                    lemma_walk_except_index(sc, sw, nf, level, i as int);
                    assert forall|v: u64|
                        0 <= idx_at(level, v) < i + 1 implies #[trigger] walk_at(
                        sw,
                        nf,
                        level,
                        v,
                    ) == child_image(walk_at(s0, f, level, v), stacks@) by {
                        if idx_at(level, v) < i {
                            assert(walk_at(sp, nf, level, v) == child_image(
                                walk_at(s0, f, level, v),
                                stacks@,
                            ));
                            lemma_walk_at_tables_preserved(sp, sc, nf, level, v);
                            assert(idx_at(level, v) != i);
                            assert(level == 4 ==> idx4(v) != 511);
                            assert(walk_at(sw, nf, level, v) == walk_at(sc, nf, level, v));
                        } else {
                            // the entry just written: descend into the copy
                            assert(walk_at(sw, nf, level, v) == walk_at(
                                sw,
                                cf,
                                (level - 1) as u64,
                                v,
                            ));
                            lemma_walk_at_single_except(
                                sc,
                                sw,
                                cf,
                                (level - 1) as u64,
                                v,
                                nf,
                                i as int,
                            );
                            assert(walk_at(sc, cf, (level - 1) as u64, v) == child_image(
                                walk_at(sp, pf, (level - 1) as u64, v),
                                stacks@,
                            ));
                            lemma_walk_at_tables_preserved(s0, sp, pf, (level - 1) as u64, v);
                            assert(walk_at(s0, f, level, v) == walk_at(
                                s0,
                                pf,
                                (level - 1) as u64,
                                v,
                            ));
                        }
                    }
                }
                i = i + 1;
            } else {
                // a terminal entry: a page at level 1, a block at level 2,
                // or a stray non-table entry higher up
                let mut share_frame: Option<u64> = None;
                let child_word: u64 = if level == 1 {
                    match find_stack(stacks, a) {
                        Option::Some(c) => c | fl,
                        Option::None => {
                            share_frame = Some(a / 4096);
                            e | COW_MARK
                        },
                    }
                } else {
                    e | COW_MARK
                };
                mem.write_entry(nf, i, child_word);
                proof {
                    let sw = mem.frames@;
                    crate::table::lemma_write_is_single_change(mp, *mem, nf, i as int);
                    lemma_fork_bits(e, 0);
                    assert(table_level(sp, nf) == 1 || !(e_present(child_word) && e_small(
                        child_word,
                    ))) by {
                        if level >= 2 {
                            assert(!e_small(e));
                            assert(child_word == (e | COW_MARK) as u64);
                            assert(!e_small(child_word));
                        }
                    }
                    crate::table::lemma_terminal_write_inv(sp, sw, nf, i as int);
                    crate::table::lemma_mem_inv_after_write(mp, *mem, nf);
                    lemma_fork_frames_write(s0, sp, sw, nf);
                    assert forall|g: u64|
                        is_table(sw, g) && !is_table(s0, g) && g != nf implies #[trigger]
                    table_level(sw, g) < level by {
                        assert(is_table(sp, g) <==> is_table(sw, g));
                        assert(table_level(sp, g) == table_level(sw, g));
                    }
                    lemma_walk_except_index(sp, sw, nf, level, i as int);
                    lemma_first_match_found(stacks@, a);
                    assert forall|v: u64|
                        0 <= idx_at(level, v) < i + 1 implies #[trigger] walk_at(
                        sw,
                        nf,
                        level,
                        v,
                    ) == child_image(walk_at(s0, f, level, v), stacks@) by {
                        if idx_at(level, v) < i {
                            assert(walk_at(sp, nf, level, v) == child_image(
                                walk_at(s0, f, level, v),
                                stacks@,
                            ));
                            assert(walk_at(sw, nf, level, v) == walk_at(sp, nf, level, v));
                        } else {
                            assert(ent(sw, nf, i as int) == child_word);
                            if level == 1 {
                                match first_match(stacks@, a) {
                                    Option::Some(c) => {
                                        assert(addr_field_ok(c));
                                        lemma_entry_encode(c, e_flags(e));
                                        lemma_fork_bits(e, c);
                                        assert(e_present(child_word));
                                        assert(e_addr(child_word) == c);
                                        assert(e_flags(child_word) == e_flags(e));
                                    },
                                    Option::None => {
                                        assert(e_present(child_word));
                                        assert(e_addr(child_word) == e_addr(e));
                                        assert(e_flags(child_word) == (e_flags(e)
                                            | COW_MARK) as u64);
                                    },
                                }
                            } else if level == 2 {
                                assert(e_present(child_word) && !e_small(child_word));
                                assert(e_addr(child_word) == e_addr(e));
                                assert(e_flags(child_word) == (e_flags(e) | COW_MARK) as u64);
                            } else {
                                assert(e_present(child_word) && !e_small(child_word));
                                assert(walk_at(sw, nf, level, v) is None);
                                assert(walk_at(s0, f, level, v) is None);
                            }
                        }
                    }
                }
                // the newly shared page gains a sharer in the child
                if bump {
                    match share_frame {
                        Option::Some(sf) => {
                            let ghost sw = mem.frames@;
                            if mem.is_data_page(sf) {
                                let rc = mem.refcount(sf);
                                if rc < 0xffff_ffff_ffff_ffff {
                                    mem.refcount_inc(sf);
                                    proof {
                                        let sr = mem.frames@;
                                        assert(fork_frames_ok(sw, sr)) by {
                                            assert forall|g: u64| #[trigger] is_table(
                                                sw,
                                                g,
                                            ) implies sr[g as int] == sw[g as int] by {
                                                assert(g != sf);
                                            }
                                            assert forall|g: u64| #[trigger] is_page(sr, g)
                                                <==> is_page(sw, g) by {
                                                if g != sf {
                                                    assert(g < sw.len() ==> sr[g as int]
                                                        == sw[g as int]);
                                                }
                                            }
                                            assert forall|g: u64| #[trigger] is_page(
                                                sw,
                                                g,
                                            ) implies page_bytes(sr, g) == page_bytes(sw, g)
                                                && page_refcount(sr, g) >= page_refcount(
                                                sw,
                                                g,
                                            ) by {
                                                if g != sf {
                                                    assert(sr[g as int] == sw[g as int]);
                                                }
                                            }
                                        }
                                        lemma_fork_frames_trans(s0, sw, sr);
                                        assert forall|g: u64|
                                            is_table(sr, g) && !is_table(s0, g) && g
                                                != nf implies #[trigger] table_level(sr, g)
                                            < level by {
                                            assert(is_table(sw, g) && table_level(sw, g)
                                                == table_level(sr, g));
                                        }
                                        assert forall|v: u64|
                                            0 <= idx_at(level, v) < i + 1 implies #[trigger]
                                        walk_at(sr, nf, level, v) == child_image(
                                            walk_at(s0, f, level, v),
                                            stacks@,
                                        ) by {
                                            lemma_walk_at_tables_preserved(sw, sr, nf, level, v);
                                        }
                                    }
                                }
                            }
                        },
                        Option::None => {},
                    }
                }
                i = i + 1;
            }
        } else {
            proof {
                lemma_fork_bits(e, 0);
                assert(!e_present(ent(sp, f, i as int)));
                assert forall|v: u64|
                    0 <= idx_at(level, v) < i + 1 implies #[trigger] walk_at(
                    mem.frames@,
                    nf,
                    level,
                    v,
                ) == child_image(walk_at(s0, f, level, v), stacks@) by {
                    if idx_at(level, v) == i {
                        assert(ent(mem.frames@, nf, i as int) == 0);
                        assert(!e_present(0u64)) by (bit_vector);
                        assert(walk_at(mem.frames@, nf, level, v) is None);
                        assert(walk_at(s0, f, level, v) is None);
                    }
                }
            }
            i = i + 1;
        }
    }
    if level == 4 {
        let ghost se = mem.frames@;
        let ghost me = *mem;
        proof {
            lemma_frame_addr(nf);
            assert((0x703u64 & 0x0000_ffff_ffff_f000u64 == 0 && 0x703u64 & 0x1u64 == 0x1
                && 0x703u64 & 0x2u64 == 0x2)) by (bit_vector);
            lemma_entry_encode(frame_addr(nf), PAGE_TABLE_FLAGS);
        }
        let naddr = nf * 4096;
        mem.write_entry(nf, 511, naddr | PAGE_TABLE_FLAGS);
        proof {
            let sw = mem.frames@;
            let enew = frame_addr(nf) | PAGE_TABLE_FLAGS;
            crate::table::lemma_write_is_single_change(me, *mem, nf, 511);
            assert(e_present(enew) && e_small(enew)) by {
                assert(forall|x: u64, fl: u64|
                    fl & 0x1u64 == 0x1 ==> #[trigger] (x | fl) & 0x1u64 == 0x1) by (bit_vector);
                assert(forall|x: u64, fl: u64|
                    fl & 0x2u64 == 0x2 ==> #[trigger] (x | fl) & 0x2u64 == 0x2) by (bit_vector);
            }
            assert(e_frame(enew) == nf);
            // the self slot is exempt from injectivity and points home
            assert forall|h: u64| h < sw.len() implies #[trigger] table_ok(sw, h) by {
                assert(table_ok(se, h));
                if is_table(sw, h) {
                    assert forall|j: int| 0 <= j < 512 implies #[trigger] entry_ok(sw, h, j) by {
                        assert(entry_ok(se, h, j));
                        if is_tp(sw, h, j) {
                            if h == nf && j == 511 {
                                assert(entry_ok(sw, nf, 511));
                            } else {
                                assert(ent(sw, h, j) == ent(se, h, j));
                                assert(is_tp(se, h, j));
                                let t = crate::mem::tp_target(se, h, j);
                                if !(table_level(se, h) == 4 && j == 511) {
                                    assert(is_table(se, t));
                                    assert(t != nf || is_table(sw, t));
                                }
                            }
                        }
                    }
                }
            }
            assert forall|h: u64| h < sw.len() implies #[trigger] crate::mem::frame_page_ok(
                sw,
                h,
            ) by {
                assert(crate::mem::frame_page_ok(se, h));
                if is_page(sw, h) {
                    assert(is_page(se, h));
                    assert(h != nf);
                }
            }
            assert forall|f1: u64, i1: int, f2: u64, i2: int|
                #[trigger] tp_real(sw, f1, i1) && #[trigger] tp_real(sw, f2, i2)
                    && crate::mem::tp_target(sw, f1, i1) == crate::mem::tp_target(
                    sw,
                    f2,
                    i2,
                ) implies f1 == f2 && i1 == i2 by {
                assert(!(f1 == nf && i1 == 511) && !(f2 == nf && i2 == 511));
                assert(ent(sw, f1, i1) == ent(se, f1, i1));
                assert(ent(sw, f2, i2) == ent(se, f2, i2));
                assert(tp_real(se, f1, i1));
                assert(tp_real(se, f2, i2));
            }
            crate::table::lemma_mem_inv_after_write(me, *mem, nf);
            lemma_fork_frames_write(s0, se, sw, nf);
            assert forall|g: u64|
                is_table(sw, g) && !is_table(s0, g) && g != nf implies #[trigger] table_level(
                sw,
                g,
            ) < level by {
                assert(is_table(se, g) <==> is_table(sw, g));
                assert(table_level(se, g) == table_level(sw, g));
            }
            lemma_walk_except_index(se, sw, nf, level, 511);
            assert forall|v: u64| idx4(v) != 511 implies #[trigger] walk_at(sw, nf, 4, v)
                == child_image(walk_at(s0, f, 4, v), stacks@) by {
                crate::table::lemma_idx_bounds(v);
                assert(0 <= idx_at(4, v) < 511);
                assert(walk_at(se, nf, 4, v) == child_image(walk_at(s0, f, 4, v), stacks@));
                assert(walk_at(sw, nf, 4, v) == walk_at(se, nf, 4, v));
            }
        }
    } else {
        proof {
            assert forall|v: u64| true implies #[trigger] walk_at(mem.frames@, nf, level, v)
                == child_image(walk_at(s0, f, level, v), stacks@) by {
                crate::table::lemma_idx_bounds(v);
                assert(0 <= idx_at(level, v) < 512);
            }
        }
    }
    Result::Ok(nf)
}

/// The stack table that redirects every parent stack frame to itself.
pub open spec fn ident_pairs(stacks: Seq<(u64, u64)>) -> Seq<(u64, u64)> {
    stacks.map_values(|p: (u64, u64)| (p.0, p.0))
}

/// Matching against the identity table finds the frame itself.
proof fn lemma_first_match_ident(stacks: Seq<(u64, u64)>, a: u64)
    ensures
        first_match(ident_pairs(stacks), a) == match first_match(stacks, a) {
            Option::Some(c) => Option::Some(a),
            Option::None => Option::None::<u64>,
        },
    decreases stacks.len(),
{
    if stacks.len() > 0 {
        assert(ident_pairs(stacks)[0] == (stacks[0].0, stacks[0].0));
        if stacks[0].0 != a {
            lemma_first_match_ident(stacks.drop_first(), a);
            assert(ident_pairs(stacks).drop_first() =~= ident_pairs(stacks.drop_first()));
        }
    }
}

/// What the parent's walk returns after a fork where it returned `r`
/// before: kernel-stack pages are untouched; every other mapping keeps its
/// address and gains COPY_ON_WRITE | NO_WRITE.
pub open spec fn parent_image(r: Option<(u64, u64, bool)>, stacks: Seq<(u64, u64)>) -> Option<
    (u64, u64, bool),
> {
    match r {
        Option::None => Option::None,
        Option::Some((a, fl, true)) => Option::Some((a, (fl | COW_MARK) as u64, true)),
        Option::Some((a, fl, false)) => match first_match(stacks, a) {
            Option::Some(c) => Option::Some((a, fl, false)),
            Option::None => Option::Some((a, (fl | COW_MARK) as u64, false)),
        },
    }
}

/// Drop the block tag from a tagged walk result.
pub open spec fn untag(r: Option<(u64, u64, bool)>) -> Option<(u64, u64)> {
    match r {
        Option::Some((a, fl, b)) => Option::Some((a, fl)),
        Option::None => Option::None,
    }
}

/// A level-4 table is never the target of a real table pointer: targets
/// sit one level below their parent, and no table stands above four.
proof fn lemma_roots_untargeted(s: Seq<FrameSlot>, r: u64)
    requires
        frames_inv(s),
        is_table(s, r),
        table_level(s, r) == 4,
    ensures
        crate::table::untargeted(s, r),
{
    assert forall|h: u64, j: int| #[trigger] tp_real(s, h, j) implies crate::mem::tp_target(
        s,
        h,
        j,
    ) != r by {
        if crate::mem::tp_target(s, h, j) == r {
            assert(crate::mem::table_ok(s, h));
            assert(crate::mem::entry_ok(s, h, j));
            assert(table_level(s, r) == table_level(s, h) - 1);
            assert(table_level(s, h) <= 4);
        }
    }
}

/// A walk from any table never reads a frame no table pointer leads to
/// (other than the walk's own starting table): reads elsewhere unchanged
/// keep every such walk, self-referencing detours included.
proof fn lemma_walk_at_avoid_frame(
    s0: Seq<FrameSlot>,
    s1: Seq<FrameSlot>,
    g: u64,
    lvl: u64,
    v: u64,
    f: u64,
)
    requires
        frames_inv(s0),
        is_table(s0, g),
        table_level(s0, g) >= lvl,
        1 <= lvl <= 4,
        g != f,
        forall|h: u64, j: int|
            #[trigger] tp_real(s0, h, j) ==> crate::mem::tp_target(s0, h, j) != f,
        forall|h: u64, j: int| h != f ==> #[trigger] ent(s1, h, j) == ent(s0, h, j),
    ensures
        walk_at(s1, g, lvl, v) == walk_at(s0, g, lvl, v),
    decreases lvl,
{
    let i = idx_at(lvl, v);
    assert(ent(s1, g, i) == ent(s0, g, i));
    let e = ent(s0, g, i);
    if lvl >= 2 && e_present(e) && e_small(e) {
        assert(crate::mem::table_ok(s0, g));
        if 0 <= i < 512 {
            assert(crate::mem::entry_ok(s0, g, i));
            assert(is_tp(s0, g, i));
            let t = e_frame(e);
            if table_level(s0, g) == 4 && i == 511 {
                assert(t == g);
            } else {
                assert(tp_real(s0, g, i));
                assert(t != f);
            }
            assert(is_table(s0, t) && table_level(s0, t) >= lvl - 1);
            lemma_walk_at_avoid_frame(s0, s1, t, (lvl - 1) as u64, v, f);
        } else {
            assert(ent(s0, g, i) == 0);
            crate::entry::lemma_flag_bits();
        }
    }
}

/// What one row of a table reads after the marking pass: table links are
/// kept (they are cut and restored around the children's own marking),
/// kernel-stack pages are kept, every other present entry gains
/// COPY_ON_WRITE | NO_WRITE.
pub open spec fn marked_word(e: u64, level: u64, stacks: Seq<(u64, u64)>) -> u64 {
    if !e_present(e) {
        e
    } else if level >= 2 && e_small(e) {
        e
    } else if level == 1 && first_match(stacks, e_addr(e)) is Some {
        e
    } else {
        (e | COW_MARK) as u64
    }
}

/// After the cutting pass no row of the table is a real table pointer:
/// links were zeroed, terminals are marked non-table words, and the
/// self-reference slot is exempt by definition.
proof fn lemma_row_not_tp(
    s0: Seq<FrameSlot>,
    sa: Seq<FrameSlot>,
    f: u64,
    level: u64,
    stacks: Seq<(u64, u64)>,
    j: int,
    limit: int,
)
    requires
        frames_inv(s0),
        is_table(s0, f),
        table_level(s0, f) == level,
        1 <= level <= 4,
        is_table(sa, f),
        table_level(sa, f) == level,
        limit == if level == 4 {
            511int
        } else {
            512int
        },
        forall|jj: int|
            0 <= jj < limit ==> #[trigger] ent(sa, f, jj) == (if tp_real(s0, f, jj) {
                0u64
            } else {
                marked_word(ent(s0, f, jj), level, stacks)
            }),
        forall|jj: int| limit <= jj < 512 ==> #[trigger] ent(sa, f, jj) == ent(s0, f, jj),
    ensures
        !tp_real(sa, f, j),
{
    crate::entry::lemma_flag_bits();
    if tp_real(sa, f, j) {
        assert(0 <= j < 512);
        if j < limit {
            if tp_real(s0, f, j) {
                assert(ent(sa, f, j) == 0);
                assert(!e_present(0u64));
            } else {
                let e0 = ent(s0, f, j);
                lemma_fork_bits(e0, 0);
                if !e_present(e0) {
                    assert(ent(sa, f, j) == e0);
                } else if level == 1 {
                    assert(table_level(sa, f) == 1);
                } else if e_small(e0) {
                    assert(is_tp(s0, f, j));
                    assert(tp_real(s0, f, j));
                } else {
                    assert(ent(sa, f, j) == marked_word(e0, level, stacks));
                    assert(!e_small(ent(sa, f, j)));
                }
            }
        } else {
            assert(level == 4 && j == 511);
        }
    }
}

/// Mark an address-space hierarchy in place for copy-on-write sharing:
/// every table keeps its frame and its links, and every present terminal
/// entry that is not a kernel-stack page gains COPY_ON_WRITE | NO_WRITE.
/// The pass works on an inactive hierarchy - no table pointer leads to
/// `f` (a root's own self-reference slot does not count); to keep every
/// write's effect local, each link is cut while the child below it is
/// marked and restored, bit for bit, afterwards. Data pages, every
/// untargeted table elsewhere, and every walk that does not start in
/// this hierarchy read exactly as before.
pub(crate) fn mark_tree(mem: &mut PhysicalMemory, f: u64, level: u64, stacks: &Vec<(u64, u64)>)
    requires
        mem_inv(*old(mem)),
        is_table(old(mem).frames@, f),
        table_level(old(mem).frames@, f) == level,
        1 <= level <= 4,
        crate::table::untargeted(old(mem).frames@, f),
    ensures
        mem_inv(*final(mem)),
        final(mem).capacity == old(mem).capacity,
        final(mem).frames@.len() == old(mem).frames@.len(),
        spec_avail(*final(mem)) == spec_avail(*old(mem)),
        is_table(final(mem).frames@, f),
        table_level(final(mem).frames@, f) == level,
        crate::table::untargeted(final(mem).frames@, f),
        // the hierarchy's linkage is untouched: the same table pointers
        // lead to the same tables
        forall|h: u64, j: int|
            #[trigger] tp_real(final(mem).frames@, h, j) <==> tp_real(old(mem).frames@, h, j),
        forall|h: u64, j: int|
            tp_real(old(mem).frames@, h, j) ==> #[trigger] crate::mem::tp_target(
                final(mem).frames@,
                h,
                j,
            ) == crate::mem::tp_target(old(mem).frames@, h, j),
        // data pages are never read or written
        forall|g: u64|
            #[trigger] is_page(final(mem).frames@, g) <==> is_page(old(mem).frames@, g),
        forall|g: u64|
            is_page(old(mem).frames@, g) ==> #[trigger] page_bytes(final(mem).frames@, g)
                == page_bytes(old(mem).frames@, g) && page_refcount(final(mem).frames@, g)
                == page_refcount(old(mem).frames@, g),
        // tables outside the hierarchy keep their slots, and walks from
        // them read as before
        forall|g: u64|
            is_table(old(mem).frames@, g) && g != f && crate::table::untargeted(
                old(mem).frames@,
                g,
            ) ==> #[trigger] final(mem).frames@[g as int] == old(mem).frames@[g as int],
        forall|g: u64, lv: u64, v: u64|
            is_table(old(mem).frames@, g) && g != f && crate::table::untargeted(
                old(mem).frames@,
                g,
            ) && table_level(old(mem).frames@, g) >= lv && 1 <= lv <= 4 ==> #[trigger] walk_at(
                final(mem).frames@,
                g,
                lv,
                v,
            ) == walk_at(old(mem).frames@, g, lv, v),
        // a root's self-reference slot is never touched
        level == 4 ==> ent(final(mem).frames@, f, 511) == ent(old(mem).frames@, f, 511),
        // the marking itself
        forall|v: u64|
            (level == 4 ==> idx4(v) != 511) ==> #[trigger] walk_at(final(mem).frames@, f, level, v)
                == parent_image(walk_at(old(mem).frames@, f, level, v), stacks@),
    decreases level,
{
    let ghost s0 = old(mem).frames@;
    let limit: usize = if level == 4 {
        511
    } else {
        512
    };
    // cut every link out and mark every terminal
    let mut cut: Vec<(usize, u64)> = Vec::new();
    let mut i: usize = 0;
    while i < limit
        invariant
            mem_inv(*mem),
            mem_inv(*old(mem)),
            s0 == old(mem).frames@,
            is_table(s0, f),
            table_level(s0, f) == level,
            crate::table::untargeted(s0, f),
            1 <= level <= 4,
            limit == if level == 4 {
                511int
            } else {
                512int
            },
            i <= limit,
            mem.capacity == old(mem).capacity,
            mem.frames@.len() == old(mem).frames@.len(),
            spec_avail(*mem) == spec_avail(*old(mem)),
            is_table(mem.frames@, f),
            table_level(mem.frames@, f) == level,
            // only rows of f changed so far
            forall|g: int|
                0 <= g < s0.len() && g != f ==> mem.frames@[g] == s0[g],
            // processed rows: links zeroed, terminals marked
            forall|j: int|
                0 <= j < i ==> #[trigger] ent(mem.frames@, f, j) == (if tp_real(s0, f, j) {
                    0u64
                } else {
                    marked_word(ent(s0, f, j), level, stacks@)
                }),
            forall|j: int| i <= j < 512 ==> #[trigger] ent(mem.frames@, f, j) == ent(s0, f, j),
            // the cut list holds exactly the links below i, in order
            forall|k: int|
                0 <= k < cut@.len() ==> (#[trigger] cut@[k]).0 < i && tp_real(
                    s0,
                    f,
                    cut@[k].0 as int,
                ) && cut@[k].1 == ent(s0, f, cut@[k].0 as int),
            forall|k1: int, k2: int|
                0 <= k1 < k2 < cut@.len() ==> (#[trigger] cut@[k1]).0 < (#[trigger] cut@[k2]).0,
            forall|j: int|
                0 <= j < i && tp_real(s0, f, j) ==> exists|k: int|
                    0 <= k < cut@.len() && (#[trigger] cut@[k]).0 == j,
        decreases limit - i,
    {
        let ghost sp = mem.frames@;
        let ghost mp = *mem;
        let e = mem.read_entry(f, i);
        proof {
            assert(ent(sp, f, i as int) == ent(s0, f, i as int));
            crate::entry::lemma_flag_bits();
        }
        if e & 0x1 == 0x1 {
            let is_link = level >= 2 && (e & 0x2 == 0x2);
            if is_link {
                proof {
                    assert(tp_real(s0, f, i as int));
                }
                let ghost c0 = cut@;
                cut.push((i, e));
                proof {
                    assert(cut@ == c0.push((i, e)));
                    assert forall|j: int|
                        0 <= j < i + 1 && tp_real(s0, f, j) implies exists|kx: int|
                        0 <= kx < cut@.len() && (#[trigger] cut@[kx]).0 == j by {
                        if j == i {
                            assert(cut@[cut@.len() - 1].0 == i);
                        } else {
                            let kx = choose|kx: int|
                                0 <= kx < c0.len() && (#[trigger] c0[kx]).0 == j;
                            assert(cut@[kx].0 == j);
                        }
                    }
                }
                mem.write_entry(f, i, 0);
                proof {
                    let sw = mem.frames@;
                    crate::table::lemma_write_is_single_change(mp, *mem, f, i as int);
                    assert forall|g: u64| #[trigger] is_page(sw, g) <==> is_page(sp, g) by {
                        if g != f {
                            assert(g < sp.len() ==> sw[g as int] == sp[g as int]);
                        }
                    }
                    crate::table::lemma_terminal_write_inv(sp, sw, f, i as int);
                    crate::table::lemma_mem_inv_after_write(mp, *mem, f);
                }
            } else {
                proof {
                    assert(!tp_real(s0, f, i as int)) by {
                        lemma_fork_bits(e, 0);
                    }
                }
                let a = e & 0x0000_ffff_ffff_f000;
                let keep = if level == 1 {
                    match find_stack(stacks, a) {
                        Option::Some(_) => true,
                        Option::None => false,
                    }
                } else {
                    false
                };
                if !keep {
                    let ghost w = (e | COW_MARK) as u64;
                    proof {
                        lemma_fork_bits(e, 0);
                        assert(!(e_present(w) && e_small(w)) || level == 1) by {
                            if level >= 2 {
                                assert(!e_small(e));
                                assert(!e_small(w));
                            }
                        }
                    }
                    mem.write_entry(f, i, e | COW_MARK);
                    proof {
                        let sw = mem.frames@;
                        crate::table::lemma_write_is_single_change(mp, *mem, f, i as int);
                        assert forall|g: u64| #[trigger] is_page(sw, g) <==> is_page(sp, g) by {
                            if g != f {
                                assert(g < sp.len() ==> sw[g as int] == sp[g as int]);
                            }
                        }
                        crate::table::lemma_terminal_write_inv(sp, sw, f, i as int);
                        crate::table::lemma_mem_inv_after_write(mp, *mem, f);
                    }
                }
            }
        }
        proof {
            assert forall|j: int|
                0 <= j < i + 1 implies #[trigger] ent(mem.frames@, f, j) == (if tp_real(
                s0,
                f,
                j,
            ) {
                0u64
            } else {
                marked_word(ent(s0, f, j), level, stacks@)
            }) by {
                if j < i {
                } else {
                    crate::entry::lemma_flag_bits();
                    lemma_fork_bits(ent(s0, f, j), 0);
                }
            }
            assert forall|j: int|
                0 <= j < i + 1 && tp_real(s0, f, j) implies exists|kx: int|
                0 <= kx < cut@.len() && (#[trigger] cut@[kx]).0 == j by {
                if j == i {
                    crate::entry::lemma_flag_bits();
                    lemma_fork_bits(ent(s0, f, j), 0);
                    assert(cut@[cut@.len() - 1].0 == i);
                }
            }
        }
        i = i + 1;
    }
    let ghost sa = mem.frames@;
    proof {
        // after the cuts no row of f is a real table pointer, so nothing
        // leads to any child any more
        assert forall|j: int| !(#[trigger] tp_real(sa, f, j)) by {
            lemma_row_not_tp(s0, sa, f, level, stacks@, j, limit as int);
        }
        assert(crate::table::untargeted(sa, f)) by {
            assert forall|h: u64, j: int| #[trigger] tp_real(
                sa,
                h,
                j,
            ) implies crate::mem::tp_target(sa, h, j) != f by {
                assert(h != f);
                assert(ent(sa, h, j) == ent(s0, h, j));
                assert(tp_real(s0, h, j));
            }
        }
        // everything but f reads as before the cuts
        assert forall|h: u64, j: int|
            h != f implies (#[trigger] tp_real(sa, h, j) <==> tp_real(s0, h, j)) by {
            assert(h < s0.len() ==> sa[h as int] == s0[h as int]);
        }
        assert forall|h: u64, j: int|
            h != f && tp_real(s0, h, j) implies #[trigger] crate::mem::tp_target(sa, h, j)
            == crate::mem::tp_target(s0, h, j) by {
            assert(ent(sa, h, j) == ent(s0, h, j));
        }
        assert forall|g: u64| #[trigger] is_page(sa, g) <==> is_page(s0, g) by {
            if g != f {
                assert(g < s0.len() ==> sa[g as int] == s0[g as int]);
            } else {
                assert(!is_page(s0, f) && !is_page(sa, f));
            }
        }
        assert forall|g: u64|
            is_page(s0, g) implies #[trigger] page_bytes(sa, g) == page_bytes(s0, g)
            && page_refcount(sa, g) == page_refcount(s0, g) by {
            assert(g != f);
            assert(sa[g as int] == s0[g as int]);
        }
        assert forall|g: u64, lv: u64, v: u64|
            is_table(s0, g) && g != f && crate::table::untargeted(s0, g) && table_level(s0, g)
                >= lv && 1 <= lv <= 4 implies #[trigger] walk_at(sa, g, lv, v) == walk_at(
            s0,
            g,
            lv,
            v,
        ) by {
            assert forall|h: u64, j: int| h != f implies #[trigger] ent(sa, h, j) == ent(
                s0,
                h,
                j,
            ) by {}
            lemma_walk_at_avoid_frame(s0, sa, g, lv, v, f);
        }
        assert forall|kk: int, v: u64|
            0 <= kk < cut@.len() implies #[trigger] walk_at(
            sa,
            e_frame(cut@[kk].1),
            (level - 1) as u64,
            v,
        ) == walk_at(s0, e_frame(cut@[kk].1), (level - 1) as u64, v) by {
            let tk = e_frame(cut@[kk].1);
            assert(tp_real(s0, f, cut@[kk].0 as int));
            assert(crate::mem::entry_ok(s0, f, cut@[kk].0 as int)) by {
                assert(crate::mem::table_ok(s0, f));
            }
            assert(is_table(s0, tk) && table_level(s0, tk) == level - 1);
            assert forall|h: u64, j: int| h != f implies #[trigger] ent(sa, h, j) == ent(
                s0,
                h,
                j,
            ) by {}
            lemma_walk_at_avoid_frame(s0, sa, tk, (level - 1) as u64, v, f);
        }
        assert forall|kk: int|
            0 <= kk < cut@.len() implies #[trigger] sa[e_frame(cut@[kk].1) as int] == s0[e_frame(
            cut@[kk].1,
        ) as int] by {
            let tk = e_frame(cut@[kk].1);
            assert(crate::mem::entry_ok(s0, f, cut@[kk].0 as int)) by {
                assert(crate::mem::table_ok(s0, f));
            }
            assert(is_table(s0, tk));
            assert(tk != f) by {
                assert(table_level(s0, tk) == level - 1);
            }
        }
        assert forall|kk: int|
            0 <= kk < cut@.len() implies is_table(sa, #[trigger] e_frame(cut@[kk].1))
            && table_level(sa, e_frame(cut@[kk].1)) == level - 1 by {
            let tk = e_frame(cut@[kk].1);
            assert(crate::mem::entry_ok(s0, f, cut@[kk].0 as int)) by {
                assert(crate::mem::table_ok(s0, f));
            }
            assert(sa[tk as int] == s0[tk as int]);
        }
    }
    // mark each child, unreachable while its link is out
    let mut k: usize = 0;
    while k < cut.len()
        invariant
            mem_inv(*mem),
            mem_inv(*old(mem)),
            s0 == old(mem).frames@,
            is_table(s0, f),
            table_level(s0, f) == level,
            crate::table::untargeted(s0, f),
            1 <= level <= 4,
            limit == if level == 4 {
                511int
            } else {
                512int
            },
            k <= cut@.len(),
            mem.capacity == old(mem).capacity,
            mem.frames@.len() == old(mem).frames@.len(),
            spec_avail(*mem) == spec_avail(*old(mem)),
            is_table(mem.frames@, f),
            table_level(mem.frames@, f) == level,
            crate::table::untargeted(mem.frames@, f),
            // the cut list still holds exactly the links, in order
            forall|kk: int|
                0 <= kk < cut@.len() ==> (#[trigger] cut@[kk]).0 < limit && tp_real(
                    s0,
                    f,
                    cut@[kk].0 as int,
                ) && cut@[kk].1 == ent(s0, f, cut@[kk].0 as int),
            forall|k1: int, k2: int|
                0 <= k1 < k2 < cut@.len() ==> (#[trigger] cut@[k1]).0 < (#[trigger] cut@[k2]).0,
            forall|j: int|
                0 <= j < limit && tp_real(s0, f, j) ==> exists|kk: int|
                    0 <= kk < cut@.len() && (#[trigger] cut@[kk]).0 == j,
            // f's rows keep their phase-one values
            forall|j: int|
                0 <= j < limit ==> #[trigger] ent(mem.frames@, f, j) == (if tp_real(s0, f, j) {
                    0u64
                } else {
                    marked_word(ent(s0, f, j), level, stacks@)
                }),
            forall|j: int| limit <= j < 512 ==> #[trigger] ent(mem.frames@, f, j) == ent(s0, f, j),
            // real pointers outside f are untouched, none lead into the cuts
            forall|h: u64, j: int|
                h != f ==> (#[trigger] tp_real(mem.frames@, h, j) <==> tp_real(s0, h, j)),
            forall|h: u64, j: int|
                h != f && tp_real(s0, h, j) ==> #[trigger] crate::mem::tp_target(
                    mem.frames@,
                    h,
                    j,
                ) == crate::mem::tp_target(s0, h, j),
            forall|j: int| !(#[trigger] tp_real(mem.frames@, f, j)),
            // data pages stay as they were
            forall|g: u64| #[trigger] is_page(mem.frames@, g) <==> is_page(s0, g),
            forall|g: u64|
                is_page(s0, g) ==> #[trigger] page_bytes(mem.frames@, g) == page_bytes(s0, g)
                    && page_refcount(mem.frames@, g) == page_refcount(s0, g),
            // untargeted tables elsewhere keep their slots and walks
            forall|g: u64|
                is_table(s0, g) && g != f && crate::table::untargeted(s0, g)
                    ==> #[trigger] mem.frames@[g as int] == s0[g as int],
            forall|g: u64, lv: u64, v: u64|
                is_table(s0, g) && g != f && crate::table::untargeted(s0, g) && table_level(
                    s0,
                    g,
                ) >= lv && 1 <= lv <= 4 ==> #[trigger] walk_at(mem.frames@, g, lv, v) == walk_at(
                    s0,
                    g,
                    lv,
                    v,
                ),
            // children not yet marked keep their slots and whole walks
            forall|kk: int|
                k <= kk < cut@.len() ==> #[trigger] mem.frames@[e_frame(cut@[kk].1) as int] == s0[
                    e_frame(cut@[kk].1) as int],
            forall|kk: int, v: u64|
                k <= kk < cut@.len() ==> #[trigger] walk_at(
                    mem.frames@,
                    e_frame(cut@[kk].1),
                    (level - 1) as u64,
                    v,
                ) == walk_at(s0, e_frame(cut@[kk].1), (level - 1) as u64, v),
            // children already marked read as the image of their old walks
            forall|kk: int, v: u64|
                0 <= kk < k ==> #[trigger] walk_at(
                    mem.frames@,
                    e_frame(cut@[kk].1),
                    (level - 1) as u64,
                    v,
                ) == parent_image(walk_at(s0, e_frame(cut@[kk].1), (level - 1) as u64, v), stacks@),
            forall|kk: int|
                0 <= kk < cut@.len() ==> is_table(mem.frames@, #[trigger] e_frame(cut@[kk].1))
                    && table_level(mem.frames@, e_frame(cut@[kk].1)) == level - 1,
        decreases cut@.len() - k,
    {
        let ghost sp = mem.frames@;
        let pair = cut[k];
        let t = (pair.1 & 0x0000_ffff_ffff_f000) / 4096;
        proof {
            assert(tp_real(s0, f, pair.0 as int));
            assert(crate::mem::table_ok(s0, f));
            assert(crate::mem::entry_ok(s0, f, pair.0 as int));
            assert(t == crate::mem::tp_target(s0, f, pair.0 as int));
            assert(is_table(s0, t) && table_level(s0, t) == level - 1);
            assert(mem.frames@[t as int] == s0[t as int]);
            assert(is_table(sp, t) && table_level(sp, t) == level - 1);
            // nothing leads to the child while its link is out
            assert(crate::table::untargeted(sp, t)) by {
                assert forall|h: u64, j: int| #[trigger] tp_real(
                    sp,
                    h,
                    j,
                ) implies crate::mem::tp_target(sp, h, j) != t by {
                    assert(h != f);
                    assert(tp_real(s0, h, j));
                    assert(crate::mem::tp_target(sp, h, j) == crate::mem::tp_target(s0, h, j));
                    if crate::mem::tp_target(s0, h, j) == t {
                        assert(h == f && j == pair.0 as int);
                    }
                }
            }
        }
        mark_tree(mem, t, (level - 1) as u64, stacks);
        proof {
            let sc = mem.frames@;
            // f is untargeted at the child's entry, so its slot survived
            assert(sc[f as int] == sp[f as int]);
            assert forall|j: int| 0 <= j < 512 implies #[trigger] ent(sc, f, j) == ent(
                sp,
                f,
                j,
            ) by {}
            // the global pointer structure is unchanged
            assert forall|h: u64, j: int|
                h != f implies (#[trigger] tp_real(sc, h, j) <==> tp_real(s0, h, j)) by {
                assert(tp_real(sc, h, j) <==> tp_real(sp, h, j));
            }
            assert forall|h: u64, j: int|
                h != f && tp_real(s0, h, j) implies #[trigger] crate::mem::tp_target(sc, h, j)
                == crate::mem::tp_target(s0, h, j) by {
                assert(tp_real(sp, h, j));
                assert(crate::mem::tp_target(sc, h, j) == crate::mem::tp_target(sp, h, j));
            }
            assert forall|j: int| !(#[trigger] tp_real(sc, f, j)) by {
                assert(tp_real(sc, f, j) <==> tp_real(sp, f, j));
            }
            assert(crate::table::untargeted(sc, f)) by {
                assert forall|h: u64, j: int| #[trigger] tp_real(
                    sc,
                    h,
                    j,
                ) implies crate::mem::tp_target(sc, h, j) != f by {
                    assert(tp_real(sp, h, j) && crate::mem::tp_target(sc, h, j)
                        == crate::mem::tp_target(sp, h, j));
                }
            }
            // pages
            assert forall|g: u64| #[trigger] is_page(sc, g) <==> is_page(s0, g) by {
                assert(is_page(sc, g) <==> is_page(sp, g));
            }
            assert forall|g: u64|
                is_page(s0, g) implies #[trigger] page_bytes(sc, g) == page_bytes(s0, g)
                && page_refcount(sc, g) == page_refcount(s0, g) by {
                assert(is_page(sp, g));
                assert(page_bytes(sc, g) == page_bytes(sp, g) && page_refcount(sc, g)
                    == page_refcount(sp, g));
            }
            // untargeted tables elsewhere
            assert forall|g: u64|
                is_table(s0, g) && g != f && crate::table::untargeted(
                s0,
                g,
            ) implies #[trigger] sc[g as int] == s0[g as int] by {
                assert(sp[g as int] == s0[g as int]);
                assert(g != t);
                assert(is_table(sp, g));
                assert(crate::table::untargeted(sp, g)) by {
                    assert forall|h: u64, j: int| #[trigger] tp_real(
                        sp,
                        h,
                        j,
                    ) implies crate::mem::tp_target(sp, h, j) != g by {
                        assert(h != f ==> tp_real(s0, h, j) && crate::mem::tp_target(sp, h, j)
                            == crate::mem::tp_target(s0, h, j));
                    }
                }
                assert(sc[g as int] == sp[g as int]);
            }
            assert forall|g: u64, lv: u64, v: u64|
                is_table(s0, g) && g != f && crate::table::untargeted(s0, g) && table_level(
                s0,
                g,
            ) >= lv && 1 <= lv <= 4 implies #[trigger] walk_at(sc, g, lv, v) == walk_at(
                s0,
                g,
                lv,
                v,
            ) by {
                assert(walk_at(sp, g, lv, v) == walk_at(s0, g, lv, v));
                assert(g != t);
                assert(is_table(sp, g) && table_level(sp, g) == table_level(s0, g));
                assert(crate::table::untargeted(sp, g)) by {
                    assert forall|h: u64, j: int| #[trigger] tp_real(
                        sp,
                        h,
                        j,
                    ) implies crate::mem::tp_target(sp, h, j) != g by {
                        assert(h != f ==> tp_real(s0, h, j) && crate::mem::tp_target(sp, h, j)
                            == crate::mem::tp_target(s0, h, j));
                    }
                }
                assert(walk_at(sc, g, lv, v) == walk_at(sp, g, lv, v));
            }
            // sibling children: not yet marked keep everything
            assert forall|kk: int|
                k + 1 <= kk < cut@.len() implies #[trigger] sc[e_frame(cut@[kk].1) as int] == s0[
                e_frame(cut@[kk].1) as int] by {
                let tk = e_frame(cut@[kk].1);
                assert(sp[tk as int] == s0[tk as int]);
                assert(tk != t) by {
                    assert(tp_real(s0, f, cut@[kk].0 as int));
                    assert(crate::mem::entry_ok(s0, f, cut@[kk].0 as int)) by {
                        assert(crate::mem::table_ok(s0, f));
                    }
                    assert(tk == crate::mem::tp_target(s0, f, cut@[kk].0 as int));
                    assert(cut@[kk].0 != pair.0);
                }
                assert(is_table(sp, tk));
                assert(crate::table::untargeted(sp, tk)) by {
                    assert forall|h: u64, j: int| #[trigger] tp_real(
                        sp,
                        h,
                        j,
                    ) implies crate::mem::tp_target(sp, h, j) != tk by {
                        assert(h != f);
                        assert(tp_real(s0, h, j));
                        assert(crate::mem::tp_target(sp, h, j) == crate::mem::tp_target(
                            s0,
                            h,
                            j,
                        ));
                        if crate::mem::tp_target(s0, h, j) == tk {
                            assert(h == f && j == cut@[kk].0 as int);
                        }
                    }
                }
                assert(sc[tk as int] == sp[tk as int]);
            }
            assert forall|kk: int, v: u64|
                k + 1 <= kk < cut@.len() implies #[trigger] walk_at(
                sc,
                e_frame(cut@[kk].1),
                (level - 1) as u64,
                v,
            ) == walk_at(s0, e_frame(cut@[kk].1), (level - 1) as u64, v) by {
                let tk = e_frame(cut@[kk].1);
                assert(walk_at(sp, tk, (level - 1) as u64, v) == walk_at(
                    s0,
                    tk,
                    (level - 1) as u64,
                    v,
                ));
                assert(tk != t) by {
                    assert(crate::mem::entry_ok(s0, f, cut@[kk].0 as int)) by {
                        assert(crate::mem::table_ok(s0, f));
                    }
                    assert(cut@[kk].0 != pair.0);
                }
                assert(is_table(sp, tk) && table_level(sp, tk) == level - 1) by {
                    assert(sp[tk as int] == s0[tk as int]);
                    assert(crate::mem::entry_ok(s0, f, cut@[kk].0 as int)) by {
                        assert(crate::mem::table_ok(s0, f));
                    }
                }
                assert(crate::table::untargeted(sp, tk)) by {
                    assert forall|h: u64, j: int| #[trigger] tp_real(
                        sp,
                        h,
                        j,
                    ) implies crate::mem::tp_target(sp, h, j) != tk by {
                        assert(h != f);
                        assert(tp_real(s0, h, j));
                        assert(crate::mem::tp_target(sp, h, j) == crate::mem::tp_target(
                            s0,
                            h,
                            j,
                        ));
                        if crate::mem::tp_target(s0, h, j) == tk {
                            assert(h == f && j == cut@[kk].0 as int);
                        }
                    }
                }
                assert(walk_at(sc, tk, (level - 1) as u64, v) == walk_at(
                    sp,
                    tk,
                    (level - 1) as u64,
                    v,
                ));
            }
            // children already marked stay marked
            assert forall|kk: int, v: u64|
                0 <= kk < k + 1 implies #[trigger] walk_at(
                sc,
                e_frame(cut@[kk].1),
                (level - 1) as u64,
                v,
            ) == parent_image(
                walk_at(s0, e_frame(cut@[kk].1), (level - 1) as u64, v),
                stacks@,
            ) by {
                let tk = e_frame(cut@[kk].1);
                if kk == k {
                    assert(tk == t);
                    assert(walk_at(sc, t, (level - 1) as u64, v) == parent_image(
                        walk_at(sp, t, (level - 1) as u64, v),
                        stacks@,
                    ));
                    assert(walk_at(sp, t, (level - 1) as u64, v) == walk_at(
                        s0,
                        t,
                        (level - 1) as u64,
                        v,
                    ));
                } else {
                    assert(walk_at(sp, tk, (level - 1) as u64, v) == parent_image(
                        walk_at(s0, tk, (level - 1) as u64, v),
                        stacks@,
                    ));
                    assert(tk != t) by {
                        assert(crate::mem::entry_ok(s0, f, cut@[kk].0 as int)) by {
                            assert(crate::mem::table_ok(s0, f));
                        }
                        assert(cut@[kk].0 != pair.0);
                    }
                    assert(is_table(sp, tk) && table_level(sp, tk) == level - 1) by {
                        assert(crate::mem::entry_ok(s0, f, cut@[kk].0 as int)) by {
                            assert(crate::mem::table_ok(s0, f));
                        }
                        assert(is_table(s0, tk) && table_level(s0, tk) == level - 1);
                        assert(table_level(sp, tk) == table_level(s0, tk));
                    }
                    assert(crate::table::untargeted(sp, tk)) by {
                        assert forall|h: u64, j: int| #[trigger] tp_real(
                            sp,
                            h,
                            j,
                        ) implies crate::mem::tp_target(sp, h, j) != tk by {
                            assert(h != f);
                            assert(tp_real(s0, h, j));
                            assert(crate::mem::tp_target(sp, h, j) == crate::mem::tp_target(
                                s0,
                                h,
                                j,
                            ));
                            if crate::mem::tp_target(s0, h, j) == tk {
                                assert(h == f && j == cut@[kk].0 as int);
                            }
                        }
                    }
                    assert(walk_at(sc, tk, (level - 1) as u64, v) == walk_at(
                        sp,
                        tk,
                        (level - 1) as u64,
                        v,
                    ));
                }
            }
        }
        k = k + 1;
    }
    // restore every link, bit for bit
    let mut k2: usize = 0;
    while k2 < cut.len()
        invariant
            mem_inv(*mem),
            mem_inv(*old(mem)),
            s0 == old(mem).frames@,
            is_table(s0, f),
            table_level(s0, f) == level,
            crate::table::untargeted(s0, f),
            1 <= level <= 4,
            limit == if level == 4 {
                511int
            } else {
                512int
            },
            k2 <= cut@.len(),
            mem.capacity == old(mem).capacity,
            mem.frames@.len() == old(mem).frames@.len(),
            spec_avail(*mem) == spec_avail(*old(mem)),
            is_table(mem.frames@, f),
            table_level(mem.frames@, f) == level,
            crate::table::untargeted(mem.frames@, f),
            forall|kk: int|
                0 <= kk < cut@.len() ==> (#[trigger] cut@[kk]).0 < limit && tp_real(
                    s0,
                    f,
                    cut@[kk].0 as int,
                ) && cut@[kk].1 == ent(s0, f, cut@[kk].0 as int),
            forall|k1: int, kb: int|
                0 <= k1 < kb < cut@.len() ==> (#[trigger] cut@[k1]).0 < (#[trigger] cut@[kb]).0,
            forall|j: int|
                0 <= j < limit && tp_real(s0, f, j) ==> exists|kk: int|
                    0 <= kk < cut@.len() && (#[trigger] cut@[kk]).0 == j,
            // rows: non-links marked, relinked rows restored, the rest cut
            forall|j: int|
                0 <= j < limit && !tp_real(s0, f, j) ==> #[trigger] ent(mem.frames@, f, j)
                    == marked_word(ent(s0, f, j), level, stacks@),
            forall|kk: int|
                0 <= kk < k2 ==> #[trigger] ent(mem.frames@, f, cut@[kk].0 as int) == ent(
                    s0,
                    f,
                    cut@[kk].0 as int,
                ),
            forall|kk: int|
                k2 <= kk < cut@.len() ==> #[trigger] ent(mem.frames@, f, cut@[kk].0 as int)
                    == 0,
            forall|j: int| limit <= j < 512 ==> #[trigger] ent(mem.frames@, f, j) == ent(s0, f, j),
            forall|h: u64, j: int|
                h != f ==> (#[trigger] tp_real(mem.frames@, h, j) <==> tp_real(s0, h, j)),
            forall|h: u64, j: int|
                h != f && tp_real(s0, h, j) ==> #[trigger] crate::mem::tp_target(
                    mem.frames@,
                    h,
                    j,
                ) == crate::mem::tp_target(s0, h, j),
            forall|j: int|
                #[trigger] tp_real(mem.frames@, f, j) ==> exists|kk: int|
                    0 <= kk < k2 && (#[trigger] cut@[kk]).0 == j,
            forall|g: u64| #[trigger] is_page(mem.frames@, g) <==> is_page(s0, g),
            forall|g: u64|
                is_page(s0, g) ==> #[trigger] page_bytes(mem.frames@, g) == page_bytes(s0, g)
                    && page_refcount(mem.frames@, g) == page_refcount(s0, g),
            forall|g: u64|
                is_table(s0, g) && g != f && crate::table::untargeted(s0, g)
                    ==> #[trigger] mem.frames@[g as int] == s0[g as int],
            forall|g: u64, lv: u64, v: u64|
                is_table(s0, g) && g != f && crate::table::untargeted(s0, g) && table_level(
                    s0,
                    g,
                ) >= lv && 1 <= lv <= 4 ==> #[trigger] walk_at(mem.frames@, g, lv, v) == walk_at(
                    s0,
                    g,
                    lv,
                    v,
                ),
            forall|kk: int|
                0 <= kk < cut@.len() ==> is_table(mem.frames@, #[trigger] e_frame(cut@[kk].1))
                    && table_level(mem.frames@, e_frame(cut@[kk].1)) == level - 1,
            forall|kk: int, v: u64|
                0 <= kk < cut@.len() ==> #[trigger] walk_at(
                    mem.frames@,
                    e_frame(cut@[kk].1),
                    (level - 1) as u64,
                    v,
                ) == parent_image(walk_at(s0, e_frame(cut@[kk].1), (level - 1) as u64, v), stacks@),
        decreases cut@.len() - k2,
    {
        let ghost sp = mem.frames@;
        let ghost mp = *mem;
        let pair = cut[k2];
        let ghost t = e_frame(pair.1);
        proof {
            assert(forall|g: u64| #[trigger] is_page(sp, g) <==> is_page(s0, g));
            assert(forall|g: u64|
                is_page(s0, g) ==> #[trigger] page_bytes(sp, g) == page_bytes(s0, g)
                    && page_refcount(sp, g) == page_refcount(s0, g));
            assert(tp_real(s0, f, pair.0 as int));
            assert(crate::mem::entry_ok(s0, f, pair.0 as int)) by {
                assert(crate::mem::table_ok(s0, f));
            }
            assert(e_addr(pair.1) == frame_addr(t));
            assert(is_table(sp, t) && table_level(sp, t) == level - 1);
            crate::entry::lemma_flag_bits();
            // nothing points at the child until this relink
            assert(crate::table::untargeted(sp, t)) by {
                assert forall|h: u64, j: int| #[trigger] tp_real(
                    sp,
                    h,
                    j,
                ) implies crate::mem::tp_target(sp, h, j) != t by {
                    if h == f {
                        let kk = choose|kk: int| 0 <= kk < k2 && (#[trigger] cut@[kk]).0 == j;
                        assert(cut@[kk].0 == j && kk < k2);
                        assert(ent(sp, f, j) == ent(s0, f, j)) by {
                            assert(ent(sp, f, cut@[kk].0 as int) == ent(s0, f, cut@[kk].0 as int));
                        }
                        assert(tp_real(s0, f, j));
                        if crate::mem::tp_target(s0, f, j) == t {
                            assert(j == pair.0 as int);
                            assert(cut@[kk].0 < cut@[k2 as int].0);
                            assert(false);
                        }
                    } else {
                        assert(tp_real(s0, h, j));
                        assert(crate::mem::tp_target(sp, h, j) == crate::mem::tp_target(
                            s0,
                            h,
                            j,
                        ));
                        if crate::mem::tp_target(s0, h, j) == t {
                            assert(h == f && j == pair.0 as int);
                        }
                    }
                }
            }
        }
        mem.write_entry(f, pair.0, pair.1);
        proof {
            let sw = mem.frames@;
            crate::table::lemma_write_is_single_change(mp, *mem, f, pair.0 as int);
            assert(ent(sw, f, pair.0 as int) == pair.1);
            assert(e_present(pair.1) && e_small(pair.1));
            assert(e_frame(pair.1) == t);
            assert forall|g: u64| #[trigger] is_page(sw, g) <==> is_page(sp, g) by {
                if g != f {
                    assert(g < sp.len() ==> sw[g as int] == sp[g as int]);
                }
            }
            crate::table::lemma_link_inv(sp, sw, f, pair.0 as int, t);
            crate::table::lemma_mem_inv_after_write(mp, *mem, f);
            // walks elsewhere never read f
            assert forall|g: u64, lv: u64, v: u64|
                is_table(s0, g) && g != f && crate::table::untargeted(s0, g) && table_level(
                s0,
                g,
            ) >= lv && 1 <= lv <= 4 implies #[trigger] walk_at(sw, g, lv, v) == walk_at(
                s0,
                g,
                lv,
                v,
            ) by {
                assert(walk_at(sp, g, lv, v) == walk_at(s0, g, lv, v));
                assert(is_table(sp, g) && table_level(sp, g) == table_level(s0, g)) by {
                    assert(sp[g as int] == s0[g as int]);
                }
                assert forall|h: u64, j: int| h != f implies #[trigger] ent(sw, h, j) == ent(
                    sp,
                    h,
                    j,
                ) by {}
                lemma_walk_at_avoid_frame(sp, sw, g, lv, v, f);
            }
            assert forall|kk: int, v: u64|
                0 <= kk < cut@.len() implies #[trigger] walk_at(
                sw,
                e_frame(cut@[kk].1),
                (level - 1) as u64,
                v,
            ) == parent_image(
                walk_at(s0, e_frame(cut@[kk].1), (level - 1) as u64, v),
                stacks@,
            ) by {
                let tk = e_frame(cut@[kk].1);
                assert(walk_at(sp, tk, (level - 1) as u64, v) == parent_image(
                    walk_at(s0, tk, (level - 1) as u64, v),
                    stacks@,
                ));
                assert(is_table(sp, tk) && table_level(sp, tk) == level - 1);
                assert forall|h: u64, j: int| h != f implies #[trigger] ent(sw, h, j) == ent(
                    sp,
                    h,
                    j,
                ) by {}
                lemma_walk_at_avoid_frame(sp, sw, tk, (level - 1) as u64, v, f);
            }
            // f stays untargeted: the new pointer leads away from it
            assert(crate::table::untargeted(sw, f)) by {
                assert forall|h: u64, j: int| #[trigger] tp_real(
                    sw,
                    h,
                    j,
                ) implies crate::mem::tp_target(sw, h, j) != f by {
                    if h == f && j == pair.0 as int {
                        assert(crate::mem::tp_target(sw, f, j) == t);
                        assert(table_level(s0, t) == level - 1);
                    } else {
                        assert(ent(sw, h, j) == ent(sp, h, j));
                        assert(tp_real(sp, h, j));
                    }
                }
            }
            // f's new pointers are exactly the relinked rows
            assert forall|j: int| #[trigger] tp_real(sw, f, j) implies exists|kk: int|
                0 <= kk < k2 + 1 && (#[trigger] cut@[kk]).0 == j by {
                if j == pair.0 as int {
                    assert(cut@[k2 as int].0 == j);
                } else {
                    assert(ent(sw, f, j) == ent(sp, f, j));
                    assert(tp_real(sp, f, j));
                    let kk = choose|kk: int| 0 <= kk < k2 && (#[trigger] cut@[kk]).0 == j;
                    assert(0 <= kk < k2 + 1 && cut@[kk].0 == j);
                }
            }
            // everything outside f is untouched by the relink
            assert forall|h: u64, j: int|
                h != f implies (#[trigger] tp_real(sw, h, j) <==> tp_real(s0, h, j)) by {
                assert(ent(sw, h, j) == ent(sp, h, j));
                assert(h < sp.len() ==> sw[h as int] == sp[h as int]);
                assert(tp_real(sp, h, j) <==> tp_real(s0, h, j));
            }
            assert forall|h: u64, j: int|
                h != f && tp_real(s0, h, j) implies #[trigger] crate::mem::tp_target(sw, h, j)
                == crate::mem::tp_target(s0, h, j) by {
                assert(ent(sw, h, j) == ent(sp, h, j));
                assert(crate::mem::tp_target(sp, h, j) == crate::mem::tp_target(s0, h, j));
            }
            assert forall|g: u64| #[trigger] is_page(sw, g) <==> is_page(s0, g) by {
                assert(is_page(sw, g) <==> is_page(sp, g));
                assert(is_page(sp, g) <==> is_page(s0, g));
            }
            assert forall|g: u64|
                is_page(s0, g) implies #[trigger] page_bytes(sw, g) == page_bytes(s0, g)
                && page_refcount(sw, g) == page_refcount(s0, g) by {
                assert(is_page(sp, g)) by {
                    assert(is_page(sp, g) <==> is_page(s0, g));
                }
                assert(g != f);
                assert(sw[g as int] == sp[g as int]);
                assert(page_bytes(sp, g) == page_bytes(s0, g) && page_refcount(sp, g)
                    == page_refcount(s0, g));
            }
            assert forall|g: u64|
                is_table(s0, g) && g != f && crate::table::untargeted(s0, g)
                    implies #[trigger] sw[g as int] == s0[g as int] by {
                assert(sp[g as int] == s0[g as int]);
                assert(sw[g as int] == sp[g as int]);
            }
            assert forall|kk: int|
                0 <= kk < cut@.len() implies is_table(sw, #[trigger] e_frame(cut@[kk].1))
                && table_level(sw, e_frame(cut@[kk].1)) == level - 1 by {
                let tk = e_frame(cut@[kk].1);
                assert(is_table(sp, tk) && table_level(sp, tk) == level - 1);
                assert(tk != f) by {
                    assert(table_level(sp, f) == level);
                }
                assert(sw[tk as int] == sp[tk as int]);
            }
        }
        k2 = k2 + 1;
    }
    proof {
        let s1 = mem.frames@;
        // every link row is restored: the completeness of the cut list
        assert forall|j: int|
            0 <= j < limit && tp_real(s0, f, j) implies #[trigger] ent(s1, f, j) == ent(
            s0,
            f,
            j,
        ) by {
            let kk = choose|kk: int| 0 <= kk < cut@.len() && (#[trigger] cut@[kk]).0 == j;
            assert(ent(s1, f, cut@[kk].0 as int) == ent(s0, f, cut@[kk].0 as int));
        }
        // pointer structure identical to the original
        assert forall|h: u64, j: int|
            #[trigger] tp_real(s1, h, j) <==> tp_real(s0, h, j) by {
            if h == f {
                if tp_real(s1, f, j) {
                    let kk = choose|kk: int|
                        0 <= kk < cut@.len() && (#[trigger] cut@[kk]).0 == j;
                    assert(tp_real(s0, f, j));
                }
                if tp_real(s0, f, j) {
                    if 0 <= j < limit {
                        assert(ent(s1, f, j) == ent(s0, f, j));
                    } else {
                        assert(level == 4 && j == 511);
                    }
                }
            }
        }
        assert forall|h: u64, j: int|
            tp_real(s0, h, j) implies #[trigger] crate::mem::tp_target(s1, h, j)
            == crate::mem::tp_target(s0, h, j) by {
            if h == f {
                assert(ent(s1, f, j) == ent(s0, f, j));
            }
        }
        // the marking, row by row, gives the walk image
        assert forall|v: u64|
            (level == 4 ==> idx4(v) != 511) implies #[trigger] walk_at(s1, f, level, v)
            == parent_image(walk_at(s0, f, level, v), stacks@) by {
            crate::table::lemma_idx_bounds(v);
            let j = idx_at(level, v);
            assert(0 <= j < limit);
            let e0 = ent(s0, f, j);
            crate::entry::lemma_flag_bits();
            lemma_fork_bits(e0, 0);
            if tp_real(s0, f, j) {
                assert(ent(s1, f, j) == e0);
                let tj = e_frame(e0);
                let kk = choose|kk: int|
                    0 <= kk < cut@.len() && (#[trigger] cut@[kk]).0 == j;
                assert(cut@[kk].1 == e0);
                assert(walk_at(s1, tj, (level - 1) as u64, v) == parent_image(
                    walk_at(s0, tj, (level - 1) as u64, v),
                    stacks@,
                ));
                assert(level >= 2);
            } else {
                assert(ent(s1, f, j) == marked_word(e0, level, stacks@));
                if !e_present(e0) {
                } else if level == 1 {
                    if first_match(stacks@, e_addr(e0)) is Some {
                    } else {
                        assert(ent(s1, f, j) == (e0 | COW_MARK) as u64);
                    }
                } else {
                    assert(!e_small(e0));
                    assert(ent(s1, f, j) == (e0 | COW_MARK) as u64);
                    assert(!e_small((e0 | COW_MARK) as u64));
                }
            }
        }
    }
}

impl PageTable {
    /// Fork this address space. The child receives a freshly allocated
    /// copy of the table hierarchy; the parent's own tables are then
    /// marked in place - same frames, same linkage, same root - so that
    /// in both trees every shared page carries COPY_ON_WRITE | NO_WRITE
    /// while kernel-stack pages stay physically distinct: the parent
    /// keeps its own, the child gets the paired frames from
    /// `stack_frames`. Data pages themselves are never read or written.
    pub fn fork(&self, mem: &mut PhysicalMemory, stack_frames: &Vec<(u64, u64)>) -> (r: Result<
        PageTable,
        crate::KernelError,
    >)
        requires
            mem_inv(*old(mem)),
            is_root(old(mem).frames@, self.root),
            forall|k: int|
                0 <= k < stack_frames@.len() ==> addr_field_ok((#[trigger] stack_frames@[k]).0)
                    && addr_field_ok(stack_frames@[k].1),
        ensures
            mem_inv(*final(mem)),
            final(mem).capacity == old(mem).capacity,
            forall|g: u64|
                #[trigger] is_page(final(mem).frames@, g) <==> is_page(old(mem).frames@, g),
            forall|g: u64|
                is_page(old(mem).frames@, g) ==> #[trigger] page_bytes(final(mem).frames@, g)
                    == page_bytes(old(mem).frames@, g),
            match r {
                Result::Err(e) => e == crate::KernelError::OutOfMemory && spec_avail(*final(mem))
                    == 0,
                Result::Ok(child) => {
                    &&& is_root(final(mem).frames@, child.root)
                    &&& pt_inv(final(mem).frames@, child.root)
                    &&& child.root != self.root
                    &&& !is_table(old(mem).frames@, child.root)
                    // the parent keeps its root, its tables and its linkage
                    &&& is_root(final(mem).frames@, self.root)
                    &&& (pt_inv(old(mem).frames@, self.root) ==> pt_inv(
                        final(mem).frames@,
                        self.root,
                    ))
                    &&& forall|h: u64, j: int|
                        is_table(old(mem).frames@, h) ==> (#[trigger] tp_real(
                            final(mem).frames@,
                            h,
                            j,
                        ) <==> tp_real(old(mem).frames@, h, j))
                    &&& forall|h: u64, j: int|
                        is_table(old(mem).frames@, h) && tp_real(old(mem).frames@, h, j)
                            ==> #[trigger] crate::mem::tp_target(final(mem).frames@, h, j)
                            == crate::mem::tp_target(old(mem).frames@, h, j)
                    // the child sees the parent's pre-fork mappings, stack
                    // pages redirected, everything else shared copy-on-write
                    &&& forall|v: u64|
                        vaddr_ok(v) ==> #[trigger] walk(final(mem).frames@, child.root, v)
                            == untag(
                            child_image(
                                walk_at(old(mem).frames@, self.root, 4, v),
                                stack_frames@,
                            ),
                        )
                    // the parent sees the same pages, shares marked, stacks kept
                    &&& forall|v: u64|
                        vaddr_ok(v) ==> #[trigger] walk(final(mem).frames@, self.root, v)
                            == untag(
                            parent_image(
                                walk_at(old(mem).frames@, self.root, 4, v),
                                stack_frames@,
                            ),
                        )
                },
            },
    {
        let ghost s0 = old(mem).frames@;
        let root0 = self.root;
        let child_root = match copy_tree(mem, root0, 4, stack_frames, true) {
            Result::Ok(c) => c,
            Result::Err(e) => {
                return Result::Err(e);
            },
        };
        let ghost s2 = mem.frames@;
        proof {
            lemma_fork_frames_reads(s0, s2);
            assert(is_table(s2, root0) && table_level(s2, root0) == 4) by {
                assert(s2[root0 as int] == s0[root0 as int]);
            }
            lemma_roots_untargeted(s2, root0);
            assert(is_table(s2, child_root) && table_level(s2, child_root) == 4);
            lemma_roots_untargeted(s2, child_root);
            // nothing the copy built changed the parent's reads
            assert forall|v: u64| true implies #[trigger] walk_at(s2, root0, 4, v) == walk_at(
                s0,
                root0,
                4,
                v,
            ) by {
                lemma_walk_at_tables_preserved(s0, s2, root0, 4, v);
            }
        }
        mark_tree(mem, root0, 4, stack_frames);
        proof {
            let s3 = mem.frames@;
            // the child's tree rides through the marking untouched
            assert(s3[child_root as int] == s2[child_root as int]);
            assert(is_root(s3, child_root));
            assert(pt_inv(s3, child_root)) by {
                assert(ent(s2, child_root, 511) == ent(mem.frames@, child_root, 511)) by {
                    assert(s3[child_root as int] == s2[child_root as int]);
                }
            }
            assert forall|v: u64| vaddr_ok(v) implies #[trigger] walk(s3, child_root, v) == untag(
                child_image(walk_at(s0, root0, 4, v), stack_frames@),
            ) by {
                assert(walk_at(s3, child_root, 4, v) == walk_at(s2, child_root, 4, v));
                assert(walk_at(s2, child_root, 4, v) == child_image(
                    walk_at(s0, root0, 4, v),
                    stack_frames@,
                ));
                lemma_walk_is_walk_at(s3, child_root, v);
            }
            // the parent is marked in place
            assert(is_root(s3, root0));
            assert forall|v: u64| vaddr_ok(v) implies #[trigger] walk(s3, root0, v) == untag(
                parent_image(walk_at(s0, root0, 4, v), stack_frames@),
            ) by {
                assert(walk_at(s3, root0, 4, v) == parent_image(
                    walk_at(s2, root0, 4, v),
                    stack_frames@,
                ));
                assert(walk_at(s2, root0, 4, v) == walk_at(s0, root0, 4, v));
                lemma_walk_is_walk_at(s3, root0, v);
            }
            assert(pt_inv(s0, root0) ==> pt_inv(s3, root0)) by {
                if pt_inv(s0, root0) {
                    assert(ent(s3, root0, 511) == ent(s2, root0, 511));
                    assert(ent(s2, root0, 511) == ent(s0, root0, 511));
                }
            }
            // every table of the old space keeps its pointers exactly
            assert forall|h: u64, j: int|
                is_table(s0, h) implies (#[trigger] tp_real(s3, h, j) <==> tp_real(s0, h, j)) by {
                assert(tp_real(s3, h, j) <==> tp_real(s2, h, j));
                assert(s2[h as int] == s0[h as int]);
            }
            assert forall|h: u64, j: int|
                is_table(s0, h) && tp_real(s0, h, j) implies #[trigger] crate::mem::tp_target(
                s3,
                h,
                j,
            ) == crate::mem::tp_target(s0, h, j) by {
                assert(s2[h as int] == s0[h as int]);
                assert(tp_real(s2, h, j));
                assert(crate::mem::tp_target(s3, h, j) == crate::mem::tp_target(s2, h, j));
                assert(crate::mem::tp_target(s2, h, j) == crate::mem::tp_target(s0, h, j)) by {
                    assert(ent(s2, h, j) == ent(s0, h, j));
                }
            }
            // pages
            assert forall|g: u64| #[trigger] is_page(s3, g) <==> is_page(s0, g) by {
                assert(is_page(s3, g) <==> is_page(s2, g));
            }
            assert forall|g: u64| is_page(s0, g) implies #[trigger] page_bytes(s3, g)
                == page_bytes(s0, g) by {
                assert(is_page(s2, g) && page_bytes(s2, g) == page_bytes(s0, g));
                assert(page_bytes(s3, g) == page_bytes(s2, g));
            }
        }
        Result::Ok(PageTable { root: child_root })
    }
}

/// After a fork, every page present in the parent beforehand and not a
/// kernel stack is shared: the parent's and the child's translation give
/// the same physical address, and both entries carry COPY_ON_WRITE and
/// NO_WRITE. `s0` and `root0` are the space before the fork; `rp` and `rc`
/// are the rebuilt parent root and the child root, whose walks
/// `PageTable::fork` ensures to be the parent and child images.
pub proof fn lemma_fork_shares_pages_cow(
    s0: Seq<FrameSlot>,
    s2: Seq<FrameSlot>,
    root0: u64,
    rp: u64,
    rc: u64,
    stacks: Seq<(u64, u64)>,
    v: u64,
)
    requires
        forall|v2: u64|
            vaddr_ok(v2) ==> #[trigger] walk(s2, rc, v2) == untag(
                child_image(walk_at(s0, root0, 4, v2), stacks),
            ),
        forall|v2: u64|
            vaddr_ok(v2) ==> #[trigger] walk(s2, rp, v2) == untag(
                parent_image(walk_at(s0, root0, 4, v2), stacks),
            ),
        vaddr_ok(v),
        walk_at(s0, root0, 4, v) is Some,
        first_match(stacks, walk_at(s0, root0, 4, v)->Some_0.0) is None,
    ensures
        walk(s2, rc, v) is Some,
        walk(s2, rp, v) is Some,
        walk(s2, rc, v)->Some_0.0 == walk_at(s0, root0, 4, v)->Some_0.0,
        walk(s2, rp, v)->Some_0.0 == walk_at(s0, root0, 4, v)->Some_0.0,
        crate::entry::has_flag(walk(s2, rc, v)->Some_0.1, FLAG_COPY_ON_WRITE),
        crate::entry::has_flag(walk(s2, rc, v)->Some_0.1, FLAG_NO_WRITE),
        walk(s2, rp, v) == walk(s2, rc, v),
{
    let (a, fl, blk) = walk_at(s0, root0, 4, v)->Some_0;
    assert(walk(s2, rc, v) == untag(child_image(walk_at(s0, root0, 4, v), stacks)));
    assert(walk(s2, rp, v) == untag(parent_image(walk_at(s0, root0, 4, v), stacks)));
    assert((fl | 0x20_0000_0000_0080u64) & 0x20_0000_0000_0000u64 == 0x20_0000_0000_0000u64
        && (fl | 0x20_0000_0000_0080u64) & 0x80u64 == 0x80u64) by (bit_vector);
}

/// After a fork, the two roots are distinct, and every intermediate table
/// of one tree is distinct from every intermediate table of the other and
/// from either root: the trees share no table frame.
pub proof fn lemma_fork_trees_disjoint(s: Seq<FrameSlot>, ra: u64, rb: u64, a: u64, b: u64)
    requires
        frames_inv(s),
        is_root(s, ra),
        is_root(s, rb),
        ra != rb,
        vaddr_ok(a),
        vaddr_ok(b),
    ensures
        crate::table::path3(s, ra, a) is Some ==> crate::table::path3(s, ra, a)->Some_0 != rb,
        crate::table::path2(s, ra, a) is Some ==> crate::table::path2(s, ra, a)->Some_0 != rb,
        crate::table::path1(s, ra, a) is Some ==> crate::table::path1(s, ra, a)->Some_0 != rb,
        crate::table::path3(s, ra, a) is Some && crate::table::path3(s, rb, b) is Some
            ==> crate::table::path3(s, ra, a)->Some_0 != crate::table::path3(s, rb, b)->Some_0,
        crate::table::path2(s, ra, a) is Some && crate::table::path2(s, rb, b) is Some
            ==> crate::table::path2(s, ra, a)->Some_0 != crate::table::path2(s, rb, b)->Some_0,
        crate::table::path1(s, ra, a) is Some && crate::table::path1(s, rb, b) is Some
            ==> crate::table::path1(s, ra, a)->Some_0 != crate::table::path1(s, rb, b)->Some_0,
        crate::table::path3(s, ra, a) is Some && crate::table::path2(s, rb, b) is Some
            ==> crate::table::path3(s, ra, a)->Some_0 != crate::table::path2(s, rb, b)->Some_0,
        crate::table::path3(s, ra, a) is Some && crate::table::path1(s, rb, b) is Some
            ==> crate::table::path3(s, ra, a)->Some_0 != crate::table::path1(s, rb, b)->Some_0,
        crate::table::path2(s, ra, a) is Some && crate::table::path1(s, rb, b) is Some
            ==> crate::table::path2(s, ra, a)->Some_0 != crate::table::path1(s, rb, b)->Some_0,
    {
        crate::table::lemma_path_levels(s, ra, a);
        crate::table::lemma_path_levels(s, rb, b);
        crate::table::lemma_path_disjoint(s, ra, a, rb, b);
        if crate::table::path3(s, ra, a) is Some {
            let t = crate::table::path3(s, ra, a)->Some_0;
            assert(table_level(s, t) == 3 && table_level(s, rb) == 4);
            if crate::table::path2(s, rb, b) is Some {
                assert(table_level(s, crate::table::path2(s, rb, b)->Some_0) == 2);
            }
            if crate::table::path1(s, rb, b) is Some {
                assert(table_level(s, crate::table::path1(s, rb, b)->Some_0) == 1);
            }
        }
        if crate::table::path2(s, ra, a) is Some {
            assert(table_level(s, crate::table::path2(s, ra, a)->Some_0) == 2);
        }
        if crate::table::path1(s, ra, a) is Some {
            assert(table_level(s, crate::table::path1(s, ra, a)->Some_0) == 1);
        }
    }

} // verus!
