//! The page-table operations followed end to end over a model of the memory
//! the page tables live in.
//!
//! `mem(t, i)` is entry `i` of the table at physical address `t`. Each
//! function here runs one of the step machines of `vmm` to its end, every
//! read seeing `mem`: `map_in` applies the writes the caller makes for
//! `map` (zeroing a created table, then writing the pointer to it, and
//! finally the leaf), taking the frames of created tables from `tables` in
//! the order the frame allocator hands them out; `map_mem` is the memory
//! those writes leave, whether `map` succeeds or fails part way.
//!
//! The laws say what the operations read back of their own writes, and
//! that they leave every other address as it was.
use vstd::prelude::*;

use crate::frame_allocator::IDENTITY_MAP_LIMIT;
use crate::page_table_entry::{address_bits, present_bit, table_pointer_value, PageFlags};
use crate::phys_addr::PhysAddr;
use crate::virt_addr::VirtAddr;
use crate::vmm::{
    descend,
    flags_next,
    lemma_created_table_is_followed,
    lemma_leaf_reads_back,
    lemma_walks_agree,
    level_index,
    map_next_present,
    translate_next,
    unmap_next,
    FlagsStep,
    MapStep,
    TranslateStep,
    UnmapStep,
    Walk,
};

verus! {

/// The entry `mem` holds where `w` reads.
pub open spec fn entry_at(mem: spec_fn(u64, int) -> u64, w: Walk) -> u64 {
    mem(w.table, level_index(w.level as int, w.virt@))
}

/// `mem` with entry `i` of table `t` set to `v`.
pub open spec fn write_entry(mem: spec_fn(u64, int) -> u64, t: u64, i: int, v: u64) -> spec_fn(
    u64,
    int,
) -> u64 {
    |t2: u64, i2: int|
        if t2 == t && i2 == i {
            v
        } else {
            mem(t2, i2)
        }
}

/// `mem` with every entry of table `t` zero.
pub open spec fn zero_table(mem: spec_fn(u64, int) -> u64, t: u64) -> spec_fn(u64, int) -> u64 {
    |t2: u64, i2: int|
        if t2 == t {
            0
        } else {
            mem(t2, i2)
        }
}

/// What `translate` returns, from walk position `w`, reading `mem`.
pub open spec fn translate_in(mem: spec_fn(u64, int) -> u64, w: Walk) -> Option<PhysAddr>
    decreases 3 - w.level,
{
    let e = entry_at(mem, w);
    match translate_next(w, e) {
        TranslateStep::Done(r) => r,
        TranslateStep::Read(_) => if w.level < 3 {
            translate_in(mem, descend(w, address_bits(e) as u64))
        } else {
            None
        },
    }
}

/// What `flags_at` returns, from walk position `w`, reading `mem`.
pub open spec fn flags_in(mem: spec_fn(u64, int) -> u64, w: Walk) -> Option<PageFlags>
    decreases 3 - w.level,
{
    let e = entry_at(mem, w);
    match flags_next(w, e) {
        FlagsStep::Done(r) => r,
        FlagsStep::Read(_) => if w.level < 3 {
            flags_in(mem, descend(w, address_bits(e) as u64))
        } else {
            None
        },
    }
}

/// Where `unmap` ends, from walk position `w`, reading `mem`: the entry to
/// clear and the frame to report, or its failure.
pub open spec fn unmap_in(mem: spec_fn(u64, int) -> u64, w: Walk) -> UnmapStep
    decreases 3 - w.level,
{
    let e = entry_at(mem, w);
    match unmap_next(w, e) {
        UnmapStep::Read(_) => if w.level < 3 {
            unmap_in(mem, descend(w, address_bits(e) as u64))
        } else {
            UnmapStep::Failed(crate::vmm::UnmapError::NotMapped)
        },
        r => r,
    }
}

/// The memory after `map` of `phys` with `flags`, from walk position `w`,
/// when it succeeds; `None` when it fails (or runs out of `tables`).
pub open spec fn map_in(
    mem: spec_fn(u64, int) -> u64,
    w: Walk,
    phys: PhysAddr,
    flags: PageFlags,
    tables: Seq<u64>,
) -> Option<spec_fn(u64, int) -> u64>
    decreases 3 - w.level,
{
    let e = entry_at(mem, w);
    let i = level_index(w.level as int, w.virt@);
    if w.level >= 3 || present_bit(e) {
        match map_next_present(w, e, phys, flags) {
            MapStep::WriteLeaf { at, entry } => Some(write_entry(mem, at.table, i, entry@)),
            MapStep::Read(_) => if w.level < 3 {
                map_in(mem, descend(w, address_bits(e) as u64), phys, flags, tables)
            } else {
                None
            },
            _ => None,
        }
    } else if tables.len() == 0 {
        None
    } else {
        let t = tables[0];
        map_in(
            write_entry(zero_table(mem, t), w.table, i, table_pointer_value(t) as u64),
            descend(w, t),
            phys,
            flags,
            tables.drop_first(),
        )
    }
}

/// The memory after `map` of `phys` with `flags`, from walk position `w`,
/// whether it succeeds or fails: the writes made up to the step that
/// failed, if one did.
pub open spec fn map_mem(
    mem: spec_fn(u64, int) -> u64,
    w: Walk,
    phys: PhysAddr,
    flags: PageFlags,
    tables: Seq<u64>,
) -> spec_fn(u64, int) -> u64
    decreases 3 - w.level,
{
    let e = entry_at(mem, w);
    let i = level_index(w.level as int, w.virt@);
    if w.level >= 3 || present_bit(e) {
        match map_next_present(w, e, phys, flags) {
            MapStep::WriteLeaf { at, entry } => write_entry(mem, at.table, i, entry@),
            MapStep::Read(_) => if w.level < 3 {
                map_mem(mem, descend(w, address_bits(e) as u64), phys, flags, tables)
            } else {
                mem
            },
            _ => mem,
        }
    } else if tables.len() == 0 {
        mem
    } else {
        let t = tables[0];
        map_mem(
            write_entry(zero_table(mem, t), w.table, i, table_pointer_value(t) as u64),
            descend(w, t),
            phys,
            flags,
            tables.drop_first(),
        )
    }
}

/// The tables `map` visits from walk position `w`, in order, the created
/// ones included.
pub open spec fn map_path(
    mem: spec_fn(u64, int) -> u64,
    w: Walk,
    phys: PhysAddr,
    flags: PageFlags,
    tables: Seq<u64>,
) -> Seq<u64>
    decreases 3 - w.level,
{
    let e = entry_at(mem, w);
    let i = level_index(w.level as int, w.virt@);
    if w.level >= 3 {
        seq![w.table]
    } else if present_bit(e) {
        seq![w.table] + map_path(mem, descend(w, address_bits(e) as u64), phys, flags, tables)
    } else if tables.len() == 0 {
        seq![w.table]
    } else {
        let t = tables[0];
        seq![w.table] + map_path(
            write_entry(zero_table(mem, t), w.table, i, table_pointer_value(t) as u64),
            descend(w, t),
            phys,
            flags,
            tables.drop_first(),
        )
    }
}

/// The frames handed out for new tables are page-aligned and reachable
/// through the identity map, as `allocate_below(IDENTITY_MAP_LIMIT)`
/// hands them out.
pub open spec fn table_frames(tables: Seq<u64>) -> bool {
    forall|k: int| 0 <= k < tables.len() ==> #[trigger] tables[k] % 4096 == 0 && tables[k] < IDENTITY_MAP_LIMIT
}

proof fn lemma_map_path_starts_at_table(
    mem: spec_fn(u64, int) -> u64,
    w: Walk,
    phys: PhysAddr,
    flags: PageFlags,
    tables: Seq<u64>,
)
    ensures
        map_path(mem, w, phys, flags, tables).len() >= 1,
        map_path(mem, w, phys, flags, tables)[0] == w.table,
{
}

/// The tail of a path without repeats: it has none either, does not
/// contain the head, and contains exactly the rest of the path.
proof fn lemma_path_tail(path: Seq<u64>, head: u64, sub: Seq<u64>)
    requires
        path == seq![head] + sub,
        path.no_duplicates(),
    ensures
        sub.no_duplicates(),
        !sub.contains(head),
        forall|t: u64| #[trigger] path.contains(t) == (t == head || sub.contains(t)),
{
    assert forall|a: int, b: int| 0 <= a < b < sub.len() implies sub[a] != sub[b] by {
        assert(sub[a] == path[a + 1] && sub[b] == path[b + 1]);
    }
    if sub.contains(head) {
        let k = choose|k: int| 0 <= k < sub.len() && sub[k] == head;
        assert(path[k + 1] == path[0]);
    }
    assert forall|t: u64| #[trigger] path.contains(t) == (t == head || sub.contains(t)) by {
        if sub.contains(t) {
            let k = choose|k: int| 0 <= k < sub.len() && sub[k] == t;
            assert(path[k + 1] == t);
        }
        if t == head {
            assert(path[0] == head);
        }
        if path.contains(t) && t != head {
            let k = choose|k: int| 0 <= k < path.len() && path[k] == t;
            assert(k > 0);
            assert(sub[k - 1] == t);
        }
    }
}

/// What a successful `map` leaves behind, from walk position `w`: reading
/// the new memory, `translate` finds `phys`, `flags_at` finds `flags`,
/// `unmap` would clear an entry of a table on the path and report `phys`,
/// and a second `map` of the same address fails; and no table off the path
/// changed. This holds when the tables on the
/// path are pairwise distinct (a created table is never one the walk
/// already passes through).
#[verifier::spinoff_prover]
pub proof fn lemma_map_reads_back(
    mem: spec_fn(u64, int) -> u64,
    w: Walk,
    phys: PhysAddr,
    flags: PageFlags,
    tables: Seq<u64>,
)
    requires
        w.wf(),
        w.virt@ % 4096 == 0,
        phys@ % 4096 == 0,
        phys@ < 0x10_0000_0000_0000,
        table_frames(tables),
        map_in(mem, w, phys, flags, tables) is Some,
        map_path(mem, w, phys, flags, tables).no_duplicates(),
    ensures
        ({
            let m2 = map_in(mem, w, phys, flags, tables)->0;
            let path = map_path(mem, w, phys, flags, tables);
            &&& translate_in(m2, w) == Some(phys)
            &&& flags_in(m2, w) == Some(flags)
            &&& unmap_in(m2, w) matches UnmapStep::Clear { at, frame } && frame == phys
                && at.level == 3 && at.virt == w.virt && path.contains(at.table)
            &&& forall|p: PhysAddr, f: PageFlags, ts: Seq<u64>|
                #[trigger] map_in(m2, w, p, f, ts) is None
            &&& walk_path(m2, w) == path
            &&& forall|t: u64, j: int| !path.contains(t) ==> #[trigger] m2(t, j) == mem(t, j)
        }),
    decreases 3 - w.level,
{
    let e = entry_at(mem, w);
    let i = level_index(w.level as int, w.virt@);
    let m2 = map_in(mem, w, phys, flags, tables)->0;
    let path = map_path(mem, w, phys, flags, tables);
    if w.level >= 3 {
        lemma_leaf_reads_back(w, phys, flags);
        crate::page_table_entry::PageTableEntry::lemma_from_raw_spec(
            crate::page_table_entry::leaf_value(phys@, flags) as u64,
        );
        assert(entry_at(m2, w) == crate::page_table_entry::leaf_value(phys@, flags) as u64);
        assert(path[0] == w.table);
        assert forall|p: PhysAddr, f: PageFlags, ts: Seq<u64>|
            #[trigger] map_in(m2, w, p, f, ts) is None by {}
    } else if present_bit(e) {
        let n = descend(w, address_bits(e) as u64);
        lemma_walks_agree(w, e, phys, flags);
        let sub = map_path(mem, n, phys, flags, tables);
        lemma_path_tail(path, w.table, sub);
        lemma_map_reads_back(mem, n, phys, flags, tables);
        assert(entry_at(m2, w) == e);
        assert forall|p: PhysAddr, f: PageFlags, ts: Seq<u64>|
            #[trigger] map_in(m2, w, p, f, ts) is None by {
            lemma_walks_agree(w, e, p, f);
            assert(map_in(m2, n, p, f, ts) is None);
        }
    } else {
        let t = tables[0];
        let mem1 = write_entry(zero_table(mem, t), w.table, i, table_pointer_value(t) as u64);
        let n = descend(w, t);
        let rest = tables.drop_first();
        let sub = map_path(mem1, n, phys, flags, rest);
        lemma_path_tail(path, w.table, sub);
        lemma_map_path_starts_at_table(mem1, n, phys, flags, rest);
        assert(table_frames(rest)) by {
            assert forall|k: int| 0 <= k < rest.len() implies #[trigger] rest[k] % 4096 == 0
                && rest[k] < IDENTITY_MAP_LIMIT by {
                assert(rest[k] == tables[k + 1]);
            }
        }
        lemma_map_reads_back(mem1, n, phys, flags, rest);
        lemma_created_table_is_followed(w, t, phys, flags);
        assert(entry_at(m2, w) == table_pointer_value(t) as u64);
        assert(sub.contains(t)) by {
            assert(sub[0] == t);
        }
        assert forall|p: PhysAddr, f: PageFlags, ts: Seq<u64>|
            #[trigger] map_in(m2, w, p, f, ts) is None by {
            lemma_created_table_is_followed(w, t, p, f);
            assert(map_in(m2, n, p, f, ts) is None);
        }
    }
}

/// The tables a walk from `w` reads, in order, reading `mem`: it goes on
/// through every present entry that points at a reachable next table.
pub open spec fn walk_path(mem: spec_fn(u64, int) -> u64, w: Walk) -> Seq<u64>
    decreases 3 - w.level,
{
    let e = entry_at(mem, w);
    match unmap_next(w, e) {
        UnmapStep::Read(_) => if w.level < 3 {
            seq![w.table] + walk_path(mem, descend(w, address_bits(e) as u64))
        } else {
            seq![w.table]
        },
        _ => seq![w.table],
    }
}

/// Clearing the entry `unmap` found leaves no mapping behind, when the
/// walk's tables are pairwise distinct: `translate` and `flags_at` then
/// find nothing, and a second `unmap` reports `NotMapped`.
#[verifier::spinoff_prover]
pub proof fn lemma_unmap_clears(mem: spec_fn(u64, int) -> u64, w: Walk, at: Walk, frame: PhysAddr)
    requires
        w.wf(),
        unmap_in(mem, w) == (UnmapStep::Clear { at, frame }),
        walk_path(mem, w).no_duplicates(),
    ensures
        at.level == 3,
        at.virt == w.virt,
        walk_path(mem, w).contains(at.table),
        ({
            let m2 = write_entry(mem, at.table, level_index(3, at.virt@), 0);
            &&& translate_in(m2, w) == None::<PhysAddr>
            &&& flags_in(m2, w) == None::<PageFlags>
            &&& unmap_in(m2, w) == UnmapStep::Failed(crate::vmm::UnmapError::NotMapped)
        }),
    decreases 3 - w.level,
{
    let e = entry_at(mem, w);
    let path = walk_path(mem, w);
    let m2 = write_entry(mem, at.table, level_index(3, at.virt@), 0);
    assert(path[0] == w.table);
    if w.level >= 3 {
        crate::vmm::lemma_cleared_reads_back(w, frame, PageFlags { writable: false, no_execute: false });
        assert(entry_at(m2, w) == 0);
    } else {
        let n = descend(w, address_bits(e) as u64);
        let sub = walk_path(mem, n);
        assert(translate_next(w, e) == TranslateStep::Read(n));
        assert(flags_next(w, e) == FlagsStep::Read(n));
        lemma_path_tail(path, w.table, sub);
        lemma_unmap_clears(mem, n, at, frame);
        assert(at.table != w.table);
        assert(entry_at(m2, w) == e);
    }
}

/// Unmapping right after a successful `map` undoes it: `unmap` reports
/// the frame that was mapped, and once the entry it found is cleared,
/// `translate` and `flags_at` find nothing and a second `unmap` reports
/// `NotMapped` (the tables `map` created stay in place, empty of this
/// mapping).
pub proof fn lemma_unmap_undoes_map(
    mem: spec_fn(u64, int) -> u64,
    w: Walk,
    phys: PhysAddr,
    flags: PageFlags,
    tables: Seq<u64>,
)
    requires
        w.wf(),
        w.virt@ % 4096 == 0,
        phys@ % 4096 == 0,
        phys@ < 0x10_0000_0000_0000,
        table_frames(tables),
        map_in(mem, w, phys, flags, tables) is Some,
        map_path(mem, w, phys, flags, tables).no_duplicates(),
    ensures
        ({
            let m2 = map_in(mem, w, phys, flags, tables)->0;
            unmap_in(m2, w) matches UnmapStep::Clear { at, frame } && frame == phys && {
                let m3 = write_entry(m2, at.table, level_index(3, at.virt@), 0);
                &&& translate_in(m3, w) == None::<PhysAddr>
                &&& flags_in(m3, w) == None::<PageFlags>
                &&& unmap_in(m3, w) == UnmapStep::Failed(crate::vmm::UnmapError::NotMapped)
            }
        }),
{
    let m2 = map_in(mem, w, phys, flags, tables)->0;
    lemma_map_reads_back(mem, w, phys, flags, tables);
    let at = unmap_in(m2, w)->at;
    let frame = unmap_in(m2, w)->frame;
    lemma_unmap_clears(m2, w, at, frame);
}

/// The walk of `v2` from the same table and level as `w` reads the same
/// entries as `w`'s walk up to the first level (from `w.level` on) at which
/// the indices of the two addresses differ; below that level it reads none
/// of the tables of `path`.
pub open spec fn parted(mem: spec_fn(u64, int) -> u64, w: Walk, v2: VirtAddr, path: Seq<u64>) -> bool
    decreases 3 - w.level,
{
    let w2 = Walk { virt: v2, level: w.level, table: w.table };
    let e = entry_at(mem, w);
    if level_index(w.level as int, w.virt@) != level_index(w.level as int, v2@) {
        forall|t: u64| #[trigger] walk_path(mem, w2).drop_first().contains(t) ==> !path.contains(t)
    } else if w.level < 3 && unmap_next(w, e) is Read {
        parted(mem, descend(w, address_bits(e) as u64), v2, path)
    } else {
        true
    }
}

/// The indices of `v` and `v2` differ at some level from `level` to 3:
/// the two addresses lie in different pages as far as the walk can tell.
pub open spec fn indices_part(v: u64, v2: u64, level: int) -> bool {
    exists|l: int| level <= l <= 3 && #[trigger] level_index(l, v) != level_index(l, v2)
}

/// A walk that reads only tables `m2` leaves as they were in `mem` gives
/// the same results in both.
pub proof fn lemma_walk_reads_unchanged(
    mem: spec_fn(u64, int) -> u64,
    m2: spec_fn(u64, int) -> u64,
    w: Walk,
)
    requires
        w.wf(),
        forall|t: u64, j: int| walk_path(mem, w).contains(t) ==> #[trigger] m2(t, j) == mem(t, j),
    ensures
        translate_in(m2, w) == translate_in(mem, w),
        flags_in(m2, w) == flags_in(mem, w),
        unmap_in(m2, w) == unmap_in(mem, w),
        walk_path(m2, w) == walk_path(mem, w),
    decreases 3 - w.level,
{
    let e = entry_at(mem, w);
    let path = walk_path(mem, w);
    assert(path[0] == w.table);
    assert(m2(w.table, level_index(w.level as int, w.virt@)) == e);
    if w.level < 3 && unmap_next(w, e) is Read {
        let n = descend(w, address_bits(e) as u64);
        let sub = walk_path(mem, n);
        assert(path == seq![w.table] + sub);
        assert forall|t: u64, j: int| sub.contains(t) implies #[trigger] m2(t, j) == mem(t, j) by {
            let k = choose|k: int| 0 <= k < sub.len() && sub[k] == t;
            assert(path[k + 1] == t);
        }
        lemma_walk_reads_unchanged(mem, m2, n);
    }
}

/// `map` run from an all-zero table gives no other address of it a
/// mapping: the tables it creates hold nothing but the entries on its own
/// walk.
proof fn lemma_map_from_empty_table(
    mem: spec_fn(u64, int) -> u64,
    w: Walk,
    phys: PhysAddr,
    flags: PageFlags,
    tables: Seq<u64>,
    v2: VirtAddr,
)
    requires
        w.wf(),
        w.virt@ % 4096 == 0,
        phys@ % 4096 == 0,
        phys@ < 0x10_0000_0000_0000,
        table_frames(tables),
        map_in(mem, w, phys, flags, tables) is Some,
        map_path(mem, w, phys, flags, tables).no_duplicates(),
        forall|j: int| #[trigger] mem(w.table, j) == 0,
        indices_part(w.virt@, v2@, w.level as int),
    ensures
        ({
            let m2 = map_in(mem, w, phys, flags, tables)->0;
            let w2 = Walk { virt: v2, level: w.level, table: w.table };
            &&& translate_in(m2, w2) == None::<PhysAddr>
            &&& flags_in(m2, w2) == None::<PageFlags>
            &&& unmap_in(m2, w2) == UnmapStep::Failed(crate::vmm::UnmapError::NotMapped)
        }),
    decreases 3 - w.level,
{
    let i = level_index(w.level as int, w.virt@);
    let i2 = level_index(w.level as int, v2@);
    let w2 = Walk { virt: v2, level: w.level, table: w.table };
    let m2 = map_in(mem, w, phys, flags, tables)->0;
    let path = map_path(mem, w, phys, flags, tables);
    assert(entry_at(mem, w) == 0);
    if w.level >= 3 {
        assert(i != i2);
        assert(m2(w.table, i2) == 0);
        assert(entry_at(m2, w2) == 0);
    } else {
        let t = tables[0];
        let mem1 = write_entry(zero_table(mem, t), w.table, i, table_pointer_value(t) as u64);
        let n = descend(w, t);
        let rest = tables.drop_first();
        let sub = map_path(mem1, n, phys, flags, rest);
        lemma_path_tail(path, w.table, sub);
        lemma_map_path_starts_at_table(mem1, n, phys, flags, rest);
        assert(sub.contains(t)) by {
            assert(sub[0] == t);
        }
        assert(t != w.table);
        assert(table_frames(rest)) by {
            assert forall|k: int| 0 <= k < rest.len() implies #[trigger] rest[k] % 4096 == 0
                && rest[k] < IDENTITY_MAP_LIMIT by {
                assert(rest[k] == tables[k + 1]);
            }
        }
        assert(m2 == map_in(mem1, n, phys, flags, rest)->0);
        lemma_map_reads_back(mem1, n, phys, flags, rest);
        assert(m2(w.table, i2) == mem1(w.table, i2));
        if i != i2 {
            assert(entry_at(m2, w2) == 0);
        } else {
            assert(forall|j: int| #[trigger] mem1(t, j) == 0);
            assert(indices_part(w.virt@, v2@, w.level + 1)) by {
                let l = choose|l: int|
                    w.level <= l <= 3 && #[trigger] level_index(l, w.virt@) != level_index(l, v2@);
                assert(l != w.level);
            }
            lemma_map_from_empty_table(mem1, n, phys, flags, rest, v2);
            lemma_created_table_is_followed(w2, t, phys, flags);
            assert(entry_at(m2, w2) == table_pointer_value(t) as u64);
            assert(descend(w2, t) == Walk { virt: v2, level: n.level, table: n.table });
            assert(address_bits(table_pointer_value(t) as u64) == t) by {
                lemma_created_table_is_followed(w2, t, phys, flags);
            }
        }
    }
}

/// Parting from a set of tables parts from every subset of it.
proof fn lemma_parted_smaller_path(
    mem: spec_fn(u64, int) -> u64,
    w: Walk,
    v2: VirtAddr,
    path: Seq<u64>,
    sub: Seq<u64>,
)
    requires
        parted(mem, w, v2, path),
        forall|t: u64| #[trigger] sub.contains(t) ==> path.contains(t),
    ensures
        parted(mem, w, v2, sub),
    decreases 3 - w.level,
{
    let e = entry_at(mem, w);
    if level_index(w.level as int, w.virt@) == level_index(w.level as int, v2@) && w.level < 3
        && unmap_next(w, e) is Read {
        lemma_parted_smaller_path(mem, descend(w, address_bits(e) as u64), v2, path, sub);
    }
}

/// `map` leaves every other address as it was: after a successful `map`
/// from walk position `w`, the walk of an address `v2` whose indices from
/// this level on are not all those of `w.virt` gives the same `translate`,
/// `flags_at` and `unmap` results as before. This holds when the tables on
/// `map`'s path are pairwise distinct and, below the level at which the two
/// addresses part, `v2`'s walk reads none of them.
#[verifier::spinoff_prover]
pub proof fn lemma_map_leaves_others(
    mem: spec_fn(u64, int) -> u64,
    w: Walk,
    phys: PhysAddr,
    flags: PageFlags,
    tables: Seq<u64>,
    v2: VirtAddr,
)
    requires
        w.wf(),
        w.virt@ % 4096 == 0,
        phys@ % 4096 == 0,
        phys@ < 0x10_0000_0000_0000,
        table_frames(tables),
        map_in(mem, w, phys, flags, tables) is Some,
        map_path(mem, w, phys, flags, tables).no_duplicates(),
        indices_part(w.virt@, v2@, w.level as int),
        parted(mem, w, v2, map_path(mem, w, phys, flags, tables)),
    ensures
        ({
            let m2 = map_in(mem, w, phys, flags, tables)->0;
            let w2 = Walk { virt: v2, level: w.level, table: w.table };
            &&& translate_in(m2, w2) == translate_in(mem, w2)
            &&& flags_in(m2, w2) == flags_in(mem, w2)
            &&& unmap_in(m2, w2) == unmap_in(mem, w2)
        }),
    decreases 3 - w.level,
{
    let e = entry_at(mem, w);
    let i = level_index(w.level as int, w.virt@);
    let i2 = level_index(w.level as int, v2@);
    let w2 = Walk { virt: v2, level: w.level, table: w.table };
    let m2 = map_in(mem, w, phys, flags, tables)->0;
    let path = map_path(mem, w, phys, flags, tables);
    lemma_map_reads_back(mem, w, phys, flags, tables);
    assert(path[0] == w.table);
    if i == i2 {
        assert(w.level < 3) by {
            if w.level >= 3 {
                let l = choose|l: int|
                    w.level <= l <= 3 && #[trigger] level_index(l, w.virt@) != level_index(l, v2@);
            }
        }
        assert(indices_part(w.virt@, v2@, w.level + 1)) by {
            let l = choose|l: int|
                w.level <= l <= 3 && #[trigger] level_index(l, w.virt@) != level_index(l, v2@);
            assert(l != w.level);
        }
        assert(entry_at(mem, w2) == e);
        if present_bit(e) {
            let a = address_bits(e) as u64;
            let n = descend(w, a);
            lemma_walks_agree(w, e, phys, flags);
            let sub = map_path(mem, n, phys, flags, tables);
            lemma_path_tail(path, w.table, sub);
            lemma_map_reads_back(mem, n, phys, flags, tables);
            assert(m2 == map_in(mem, n, phys, flags, tables)->0);
            assert(entry_at(m2, w2) == e);
            lemma_walks_agree(w2, e, phys, flags);
            assert(descend(w2, a) == Walk { virt: v2, level: n.level, table: n.table });
            lemma_parted_smaller_path(mem, n, v2, path, sub);
            lemma_map_leaves_others(mem, n, phys, flags, tables, v2);
        } else {
            let t = tables[0];
            let mem1 = write_entry(zero_table(mem, t), w.table, i, table_pointer_value(t) as u64);
            let n = descend(w, t);
            let rest = tables.drop_first();
            let sub = map_path(mem1, n, phys, flags, rest);
            lemma_path_tail(path, w.table, sub);
            lemma_map_path_starts_at_table(mem1, n, phys, flags, rest);
            assert(sub.contains(t)) by {
                assert(sub[0] == t);
            }
            assert(table_frames(rest)) by {
                assert forall|k: int| 0 <= k < rest.len() implies #[trigger] rest[k] % 4096 == 0
                    && rest[k] < IDENTITY_MAP_LIMIT by {
                    assert(rest[k] == tables[k + 1]);
                }
            }
            assert(m2 == map_in(mem1, n, phys, flags, rest)->0);
            assert(forall|j: int| #[trigger] mem1(t, j) == 0);
            lemma_map_from_empty_table(mem1, n, phys, flags, rest, v2);
            lemma_map_reads_back(mem1, n, phys, flags, rest);
            assert(entry_at(m2, w2) == table_pointer_value(t) as u64);
            lemma_created_table_is_followed(w2, t, phys, flags);
            assert(descend(w2, t) == Walk { virt: v2, level: n.level, table: n.table });
        }
    } else {
        // The two walks part here: `v2` reads an entry `map` leaves alone.
        if w.level >= 3 {
            assert(m2(w.table, i2) == mem(w.table, i2));
        } else if present_bit(e) {
            let n = descend(w, address_bits(e) as u64);
            let sub = map_path(mem, n, phys, flags, tables);
            lemma_path_tail(path, w.table, sub);
            lemma_map_reads_back(mem, n, phys, flags, tables);
            assert(m2 == map_in(mem, n, phys, flags, tables)->0);
            assert(m2(w.table, i2) == mem(w.table, i2));
        } else {
            let t = tables[0];
            let mem1 = write_entry(zero_table(mem, t), w.table, i, table_pointer_value(t) as u64);
            let n = descend(w, t);
            let rest = tables.drop_first();
            let sub = map_path(mem1, n, phys, flags, rest);
            lemma_path_tail(path, w.table, sub);
            lemma_map_path_starts_at_table(mem1, n, phys, flags, rest);
            assert(sub.contains(t)) by {
                assert(sub[0] == t);
            }
            assert(table_frames(rest)) by {
                assert forall|k: int| 0 <= k < rest.len() implies #[trigger] rest[k] % 4096 == 0
                    && rest[k] < IDENTITY_MAP_LIMIT by {
                    assert(rest[k] == tables[k + 1]);
                }
            }
            assert(m2 == map_in(mem1, n, phys, flags, rest)->0);
            lemma_map_reads_back(mem1, n, phys, flags, rest);
            assert(m2(w.table, i2) == mem(w.table, i2));
        }
        let e2 = entry_at(mem, w2);
        assert(entry_at(m2, w2) == e2);
        if w.level < 3 && unmap_next(w2, e2) is Read {
            let n2 = descend(w2, address_bits(e2) as u64);
            let sub2 = walk_path(mem, n2);
            assert(walk_path(mem, w2) == seq![w.table] + sub2);
            assert(walk_path(mem, w2).drop_first() =~= sub2);
            assert forall|t: u64, j: int| sub2.contains(t) implies #[trigger] m2(t, j) == mem(t, j) by {
                assert(!path.contains(t));
            }
            lemma_walk_reads_unchanged(mem, m2, n2);
        }
    }
}

/// Clearing the entry `unmap` found leaves every other address as it was:
/// the walk of an address `v2` whose indices from this level on are not all
/// those of `w.virt` gives the same `translate`, `flags_at` and `unmap`
/// results as before. This holds when the tables on `w`'s walk are pairwise
/// distinct and, below the level at which the two addresses part, `v2`'s
/// walk reads none of them.
#[verifier::spinoff_prover]
pub proof fn lemma_unmap_leaves_others(
    mem: spec_fn(u64, int) -> u64,
    w: Walk,
    at: Walk,
    frame: PhysAddr,
    v2: VirtAddr,
)
    requires
        w.wf(),
        unmap_in(mem, w) == (UnmapStep::Clear { at, frame }),
        walk_path(mem, w).no_duplicates(),
        indices_part(w.virt@, v2@, w.level as int),
        parted(mem, w, v2, walk_path(mem, w)),
    ensures
        ({
            let m2 = write_entry(mem, at.table, level_index(3, at.virt@), 0);
            let w2 = Walk { virt: v2, level: w.level, table: w.table };
            &&& translate_in(m2, w2) == translate_in(mem, w2)
            &&& flags_in(m2, w2) == flags_in(mem, w2)
            &&& unmap_in(m2, w2) == unmap_in(mem, w2)
        }),
    decreases 3 - w.level,
{
    let e = entry_at(mem, w);
    let i = level_index(w.level as int, w.virt@);
    let i2 = level_index(w.level as int, v2@);
    let w2 = Walk { virt: v2, level: w.level, table: w.table };
    let m2 = write_entry(mem, at.table, level_index(3, at.virt@), 0);
    let path = walk_path(mem, w);
    lemma_unmap_clears(mem, w, at, frame);
    assert(path[0] == w.table);
    if w.level >= 3 {
        assert(at == w);
        assert(i != i2) by {
            let l = choose|l: int|
                w.level <= l <= 3 && #[trigger] level_index(l, w.virt@) != level_index(l, v2@);
        }
        assert(entry_at(m2, w2) == entry_at(mem, w2));
    } else {
        let n = descend(w, address_bits(e) as u64);
        let sub = walk_path(mem, n);
        assert(unmap_next(w, e) == UnmapStep::Read(n));
        lemma_path_tail(path, w.table, sub);
        lemma_unmap_clears(mem, n, at, frame);
        assert(at.table != w.table);
        assert(entry_at(m2, w2) == entry_at(mem, w2));
        if i == i2 {
            assert(indices_part(w.virt@, v2@, w.level + 1)) by {
                let l = choose|l: int|
                    w.level <= l <= 3 && #[trigger] level_index(l, w.virt@) != level_index(l, v2@);
                assert(l != w.level);
            }
            assert(entry_at(mem, w2) == e);
            assert(descend(w2, address_bits(e) as u64) == Walk {
                virt: v2,
                level: n.level,
                table: n.table,
            });
            lemma_parted_smaller_path(mem, n, v2, path, sub);
            lemma_unmap_leaves_others(mem, n, at, frame, v2);
        } else {
            let e2 = entry_at(mem, w2);
            if unmap_next(w2, e2) is Read {
                let n2 = descend(w2, address_bits(e2) as u64);
                let sub2 = walk_path(mem, n2);
                assert(walk_path(mem, w2) == seq![w.table] + sub2);
                assert(walk_path(mem, w2).drop_first() =~= sub2);
                assert forall|t: u64, j: int| sub2.contains(t) implies #[trigger] m2(t, j) == mem(
                    t,
                    j,
                ) by {
                    assert(!path.contains(t));
                }
                lemma_walk_reads_unchanged(mem, m2, n2);
            }
        }
    }
}

/// Two addresses in different pages (as far as the 48 bits the walk reads
/// tell) have different indices at some level.
pub proof fn lemma_other_page_parts(v: u64, v2: u64)
    requires
        (v % 0x1_0000_0000_0000) / 4096 != (v2 % 0x1_0000_0000_0000) / 4096,
    ensures
        indices_part(v, v2, 0),
{
    assert(((v / 0x80_0000_0000u64) % 512u64 == (v2 / 0x80_0000_0000u64) % 512u64 && (v
        / 0x4000_0000u64) % 512u64 == (v2 / 0x4000_0000u64) % 512u64 && (v / 0x20_0000u64) % 512u64
        == (v2 / 0x20_0000u64) % 512u64 && (v / 0x1000u64) % 512u64 == (v2 / 0x1000u64) % 512u64)
        ==> (v % 0x1_0000_0000_0000u64) / 4096u64 == (v2 % 0x1_0000_0000_0000u64) / 4096u64)
        by (bit_vector);
    if !indices_part(v, v2, 0) {
        assert(level_index(0, v) == level_index(0, v2));
        assert(level_index(1, v) == level_index(1, v2));
        assert(level_index(2, v) == level_index(2, v2));
        assert(level_index(3, v) == level_index(3, v2));
    }
}

/// `map` of the page at `virt`, from the PML4 at `pml4`, leaves the
/// translation, flags and `unmap` result of every address in another page
/// as they were (when its tables are distinct and the other address's walk,
/// below where the two part, reads none of them).
pub proof fn lemma_map_keeps_other_pages(
    mem: spec_fn(u64, int) -> u64,
    pml4: u64,
    virt: VirtAddr,
    v2: VirtAddr,
    phys: PhysAddr,
    flags: PageFlags,
    tables: Seq<u64>,
)
    requires
        pml4 < IDENTITY_MAP_LIMIT,
        virt@ % 4096 == 0,
        (v2@ % 0x1_0000_0000_0000) / 4096 != (virt@ % 0x1_0000_0000_0000) / 4096,
        phys@ % 4096 == 0,
        phys@ < 0x10_0000_0000_0000,
        table_frames(tables),
        map_in(mem, Walk { virt, level: 0, table: pml4 }, phys, flags, tables) is Some,
        map_path(mem, Walk { virt, level: 0, table: pml4 }, phys, flags, tables).no_duplicates(),
        parted(
            mem,
            Walk { virt, level: 0, table: pml4 },
            v2,
            map_path(mem, Walk { virt, level: 0, table: pml4 }, phys, flags, tables),
        ),
    ensures
        ({
            let m2 = map_in(mem, Walk { virt, level: 0, table: pml4 }, phys, flags, tables)->0;
            let w2 = Walk { virt: v2, level: 0, table: pml4 };
            &&& translate_in(m2, w2) == translate_in(mem, w2)
            &&& flags_in(m2, w2) == flags_in(mem, w2)
            &&& unmap_in(m2, w2) == unmap_in(mem, w2)
        }),
{
    lemma_other_page_parts(virt@, v2@);
    lemma_map_leaves_others(mem, Walk { virt, level: 0, table: pml4 }, phys, flags, tables, v2);
}

/// Clearing the entry `unmap` of `virt` found, from the PML4 at `pml4`,
/// leaves the translation, flags and `unmap` result of every address in
/// another page as they were (when the walk's tables are distinct and the
/// other address's walk, below where the two part, reads none of them).
pub proof fn lemma_unmap_keeps_other_pages(
    mem: spec_fn(u64, int) -> u64,
    pml4: u64,
    virt: VirtAddr,
    v2: VirtAddr,
    at: Walk,
    frame: PhysAddr,
)
    requires
        pml4 < IDENTITY_MAP_LIMIT,
        (v2@ % 0x1_0000_0000_0000) / 4096 != (virt@ % 0x1_0000_0000_0000) / 4096,
        unmap_in(mem, Walk { virt, level: 0, table: pml4 }) == (UnmapStep::Clear { at, frame }),
        walk_path(mem, Walk { virt, level: 0, table: pml4 }).no_duplicates(),
        parted(
            mem,
            Walk { virt, level: 0, table: pml4 },
            v2,
            walk_path(mem, Walk { virt, level: 0, table: pml4 }),
        ),
    ensures
        ({
            let m2 = write_entry(mem, at.table, level_index(3, at.virt@), 0);
            let w2 = Walk { virt: v2, level: 0, table: pml4 };
            &&& translate_in(m2, w2) == translate_in(mem, w2)
            &&& flags_in(m2, w2) == flags_in(mem, w2)
            &&& unmap_in(m2, w2) == unmap_in(mem, w2)
        }),
{
    lemma_other_page_parts(virt@, v2@);
    lemma_unmap_leaves_others(mem, Walk { virt, level: 0, table: pml4 }, at, frame, v2);
}

/// `map` changes no table off its path, whether it succeeds or fails.
proof fn lemma_map_mem_frame(
    mem: spec_fn(u64, int) -> u64,
    w: Walk,
    phys: PhysAddr,
    flags: PageFlags,
    tables: Seq<u64>,
)
    ensures
        forall|t: u64, j: int|
            !map_path(mem, w, phys, flags, tables).contains(t) ==> #[trigger] map_mem(
                mem,
                w,
                phys,
                flags,
                tables,
            )(t, j) == mem(t, j),
    decreases 3 - w.level,
{
    let e = entry_at(mem, w);
    let i = level_index(w.level as int, w.virt@);
    let path = map_path(mem, w, phys, flags, tables);
    assert(path[0] == w.table);
    if w.level >= 3 {
    } else if present_bit(e) {
        let n = descend(w, address_bits(e) as u64);
        let sub = map_path(mem, n, phys, flags, tables);
        assert(path == seq![w.table] + sub);
        lemma_map_mem_frame(mem, n, phys, flags, tables);
        assert forall|t: u64, j: int| !path.contains(t) implies #[trigger] map_mem(
            mem,
            w,
            phys,
            flags,
            tables,
        )(t, j) == mem(t, j) by {
            if sub.contains(t) {
                let k = choose|k: int| 0 <= k < sub.len() && sub[k] == t;
                assert(path[k + 1] == t);
            }
            if map_next_present(w, e, phys, flags) is Read {
                assert(map_next_present(w, e, phys, flags) == MapStep::Read(n));
                assert(map_mem(mem, w, phys, flags, tables) == map_mem(mem, n, phys, flags, tables));
            }
        }
    } else if tables.len() > 0 {
        let t0 = tables[0];
        let mem1 = write_entry(zero_table(mem, t0), w.table, i, table_pointer_value(t0) as u64);
        let n = descend(w, t0);
        let rest = tables.drop_first();
        let sub = map_path(mem1, n, phys, flags, rest);
        assert(path == seq![w.table] + sub);
        lemma_map_path_starts_at_table(mem1, n, phys, flags, rest);
        lemma_map_mem_frame(mem1, n, phys, flags, rest);
        assert forall|t: u64, j: int| !path.contains(t) implies #[trigger] map_mem(
            mem,
            w,
            phys,
            flags,
            tables,
        )(t, j) == mem(t, j) by {
            if sub.contains(t) {
                let k = choose|k: int| 0 <= k < sub.len() && sub[k] == t;
                assert(path[k + 1] == t);
            }
            assert(path[1] == t0);
            assert(path.contains(t0));
            assert(path.contains(w.table));
            assert(map_mem(mem, w, phys, flags, tables) == map_mem(mem1, n, phys, flags, rest));
        }
    }
}

/// A failed `map` run from an all-zero table leaves every walk from that
/// table without a mapping: the tables it created hold nothing but
/// pointers down to the last one, which stays empty.
proof fn lemma_failed_map_from_empty_table(
    mem: spec_fn(u64, int) -> u64,
    w: Walk,
    phys: PhysAddr,
    flags: PageFlags,
    tables: Seq<u64>,
    v2: VirtAddr,
)
    requires
        w.wf(),
        table_frames(tables),
        map_in(mem, w, phys, flags, tables) is None,
        map_path(mem, w, phys, flags, tables).no_duplicates(),
        forall|j: int| #[trigger] mem(w.table, j) == 0,
    ensures
        ({
            let m2 = map_mem(mem, w, phys, flags, tables);
            let w2 = Walk { virt: v2, level: w.level, table: w.table };
            &&& translate_in(m2, w2) == None::<PhysAddr>
            &&& flags_in(m2, w2) == None::<PageFlags>
            &&& unmap_in(m2, w2) == UnmapStep::Failed(crate::vmm::UnmapError::NotMapped)
        }),
    decreases 3 - w.level,
{
    let i = level_index(w.level as int, w.virt@);
    let i2 = level_index(w.level as int, v2@);
    let w2 = Walk { virt: v2, level: w.level, table: w.table };
    let m2 = map_mem(mem, w, phys, flags, tables);
    let path = map_path(mem, w, phys, flags, tables);
    assert(entry_at(mem, w) == 0);
    if tables.len() == 0 {
        assert(entry_at(m2, w2) == 0);
    } else {
        let t = tables[0];
        let mem1 = write_entry(zero_table(mem, t), w.table, i, table_pointer_value(t) as u64);
        let n = descend(w, t);
        let rest = tables.drop_first();
        let sub = map_path(mem1, n, phys, flags, rest);
        lemma_path_tail(path, w.table, sub);
        lemma_map_path_starts_at_table(mem1, n, phys, flags, rest);
        assert(sub.contains(t)) by {
            assert(sub[0] == t);
        }
        assert(table_frames(rest)) by {
            assert forall|k: int| 0 <= k < rest.len() implies #[trigger] rest[k] % 4096 == 0
                && rest[k] < IDENTITY_MAP_LIMIT by {
                assert(rest[k] == tables[k + 1]);
            }
        }
        assert(m2 == map_mem(mem1, n, phys, flags, rest));
        lemma_map_mem_frame(mem1, n, phys, flags, rest);
        assert(m2(w.table, i2) == mem1(w.table, i2));
        if i != i2 {
            assert(entry_at(m2, w2) == 0);
        } else {
            assert(forall|j: int| #[trigger] mem1(t, j) == 0);
            lemma_failed_map_from_empty_table(mem1, n, phys, flags, rest, v2);
            lemma_created_table_is_followed(w2, t, phys, flags);
            assert(entry_at(m2, w2) == table_pointer_value(t) as u64);
            assert(descend(w2, t) == Walk { virt: v2, level: n.level, table: n.table });
        }
    }
}

/// A failed `map` changes no address's translation, flags or `unmap`
/// result, the address it was mapping included: the tables it created
/// before failing lead to no mapping. This holds when the tables on its
/// path are pairwise distinct and, below the level at which `v2` and the
/// address being mapped part, `v2`'s walk reads none of them.
#[verifier::spinoff_prover]
pub proof fn lemma_failed_map_changes_nothing(
    mem: spec_fn(u64, int) -> u64,
    w: Walk,
    phys: PhysAddr,
    flags: PageFlags,
    tables: Seq<u64>,
    v2: VirtAddr,
)
    requires
        w.wf(),
        table_frames(tables),
        map_in(mem, w, phys, flags, tables) is None,
        map_path(mem, w, phys, flags, tables).no_duplicates(),
        parted(mem, w, v2, map_path(mem, w, phys, flags, tables)),
    ensures
        ({
            let m2 = map_mem(mem, w, phys, flags, tables);
            let w2 = Walk { virt: v2, level: w.level, table: w.table };
            &&& translate_in(m2, w2) == translate_in(mem, w2)
            &&& flags_in(m2, w2) == flags_in(mem, w2)
            &&& unmap_in(m2, w2) == unmap_in(mem, w2)
        }),
    decreases 3 - w.level,
{
    let e = entry_at(mem, w);
    let i = level_index(w.level as int, w.virt@);
    let i2 = level_index(w.level as int, v2@);
    let w2 = Walk { virt: v2, level: w.level, table: w.table };
    let m2 = map_mem(mem, w, phys, flags, tables);
    let path = map_path(mem, w, phys, flags, tables);
    lemma_map_mem_frame(mem, w, phys, flags, tables);
    assert(path[0] == w.table);
    if w.level >= 3 || present_bit(e) {
        if !(map_next_present(w, e, phys, flags) is Read) || w.level >= 3 {
            assert(m2 == mem);
        } else {
            let n = descend(w, address_bits(e) as u64);
            lemma_walks_agree(w, e, phys, flags);
            let sub = map_path(mem, n, phys, flags, tables);
            lemma_path_tail(path, w.table, sub);
            lemma_map_mem_frame(mem, n, phys, flags, tables);
            assert(m2 == map_mem(mem, n, phys, flags, tables));
            assert(m2(w.table, i2) == mem(w.table, i2));
            if i == i2 {
                assert(entry_at(mem, w2) == e);
                lemma_walks_agree(w2, e, phys, flags);
                assert(descend(w2, address_bits(e) as u64) == Walk {
                    virt: v2,
                    level: n.level,
                    table: n.table,
                });
                lemma_parted_smaller_path(mem, n, v2, path, sub);
                lemma_failed_map_changes_nothing(mem, n, phys, flags, tables, v2);
            } else {
                let e2 = entry_at(mem, w2);
                if unmap_next(w2, e2) is Read {
                    let n2 = descend(w2, address_bits(e2) as u64);
                    let sub2 = walk_path(mem, n2);
                    assert(walk_path(mem, w2) == seq![w.table] + sub2);
                    assert(walk_path(mem, w2).drop_first() =~= sub2);
                    assert forall|t: u64, j: int| sub2.contains(t) implies #[trigger] m2(t, j)
                        == mem(t, j) by {
                        assert(!path.contains(t));
                    }
                    lemma_walk_reads_unchanged(mem, m2, n2);
                }
            }
        }
    } else if tables.len() == 0 {
        assert(m2 == mem);
    } else {
        let t = tables[0];
        let mem1 = write_entry(zero_table(mem, t), w.table, i, table_pointer_value(t) as u64);
        let n = descend(w, t);
        let rest = tables.drop_first();
        let sub = map_path(mem1, n, phys, flags, rest);
        lemma_path_tail(path, w.table, sub);
        lemma_map_path_starts_at_table(mem1, n, phys, flags, rest);
        assert(sub.contains(t)) by {
            assert(sub[0] == t);
        }
        assert(table_frames(rest)) by {
            assert forall|k: int| 0 <= k < rest.len() implies #[trigger] rest[k] % 4096 == 0
                && rest[k] < IDENTITY_MAP_LIMIT by {
                assert(rest[k] == tables[k + 1]);
            }
        }
        assert(m2 == map_mem(mem1, n, phys, flags, rest));
        lemma_map_mem_frame(mem1, n, phys, flags, rest);
        assert(m2(w.table, i2) == mem1(w.table, i2));
        if i == i2 {
            assert(forall|j: int| #[trigger] mem1(t, j) == 0);
            lemma_failed_map_from_empty_table(mem1, n, phys, flags, rest, v2);
            lemma_created_table_is_followed(w2, t, phys, flags);
            assert(entry_at(m2, w2) == table_pointer_value(t) as u64);
            assert(descend(w2, t) == Walk { virt: v2, level: n.level, table: n.table });
            assert(entry_at(mem, w2) == e);
        } else {
            assert(m2(w.table, i2) == mem(w.table, i2));
            let e2 = entry_at(mem, w2);
            if unmap_next(w2, e2) is Read {
                let n2 = descend(w2, address_bits(e2) as u64);
                let sub2 = walk_path(mem, n2);
                assert(walk_path(mem, w2) == seq![w.table] + sub2);
                assert(walk_path(mem, w2).drop_first() =~= sub2);
                assert forall|x: u64, j: int| sub2.contains(x) implies #[trigger] m2(x, j)
                    == mem(x, j) by {
                    assert(!path.contains(x));
                }
                lemma_walk_reads_unchanged(mem, m2, n2);
            }
        }
    }
}

} // verus!
