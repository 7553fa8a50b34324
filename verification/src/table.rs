//! Four-level page tables that live in physical memory.
//!
//! A table is known by the physical address of its root frame; everything
//! else is read from memory. What a table means is defined on the words of
//! memory alone, by [`resolve`], in the way the processor walks it. The
//! builder keeps, as ghost state, which frames it linked into the tree and
//! where; that record serves the proofs and is never consulted to answer a
//! lookup.

use vstd::prelude::*;
use crate::entry;
use crate::entry::Leaf;
use crate::entry::PageType;
use crate::entry::PAGE_ADDR_MASK;
use crate::entry::PAGE_PRESENT;
use crate::entry::PAGE_SIZE;
use crate::entry::PAGE_USER;
use crate::entry::PAGE_WRITE;
use crate::phys;
use crate::phys::PhysMem;

verus! {

/// Why a mapping request was refused.
#[derive(Clone, Copy, Debug, PartialEq, Eq, Structural)]
pub enum MapError {
    /// The base is not aligned to the page size, or the size is not a
    /// positive multiple of it, or the range runs past the end of the
    /// address space.
    Misaligned,
    /// The raw value is not a leaf entry for the requested page size.
    InvalidEntry,
    /// Something is already mapped where the request lies.
    AlreadyMapped,
    /// The allocator had no frame left.
    OutOfFrames,
}

/// What a walk finds in the slot it ends at.
pub enum Slot {
    /// No entry: nothing is mapped at the address.
    Vacant,
    /// A leaf entry: the address is mapped by it.
    Mapped(Leaf),
    /// An entry that names the next table, at this physical address.
    Table(u64),
}

/// Physical address of entry `idx` of the table at `table`.
pub open spec fn slot_addr(table: u64, idx: u64) -> u64 {
    (table + 8 * idx) as u64
}

/// Physical address of the first byte of the smallest page that holds `a`.
pub open spec fn frame_base(a: u64) -> u64 {
    (a - a % 4096) as u64
}

/// Whether a word found at `level` names a further table.
spec fn names_table(e: u64, level: nat) -> bool {
    entry::present(e) && !entry::ends_walk(e, level)
}

/// Walks memory `m` for `vaddr`, starting in the table at `table`, which
/// stands at `level`, and going no deeper than level `target`.
///
/// The walk stops at the first slot that is empty or holds a leaf. If it
/// reaches level `target` and finds the name of a further table there, it
/// stops and reports that table.
pub open spec fn resolve(m: Map<u64, u64>, table: u64, level: nat, vaddr: u64, target: nat) -> Slot
    decreases 3 - level,
{
    let e = m[slot_addr(table, entry::index(vaddr, level))];
    if !entry::present(e) {
        Slot::Vacant
    } else if entry::ends_walk(e, level) {
        Slot::Mapped(Leaf { entry: e, page: PageType::at_level(level) })
    } else if level >= target {
        Slot::Table(entry::frame_of(e))
    } else {
        resolve(m, entry::frame_of(e), level + 1, vaddr, target)
    }
}

/// Where a table frame stands in the tree: its level, an address whose walk
/// passes through it, and the frame whose entry names it.
struct Node {
    level: nat,
    base: u64,
    parent: u64,
}

/// Entry `idx` of table frame `f`, where it names a table, names a recorded
/// frame one level down whose walks pass through that entry.
spec fn child_recorded(nodes: Map<u64, Node>, m: Map<u64, u64>, f: u64, idx: u64) -> bool {
    let e = m[slot_addr(f, idx)];
    names_table(e, nodes[f].level) ==> {
        let c = entry::frame_of(e);
        &&& nodes.dom().contains(c)
        &&& nodes[c].level == nodes[f].level + 1
        &&& nodes[c].parent == f
        &&& entry::same_prefix(nodes[c].base, nodes[f].base, nodes[f].level)
        &&& entry::index(nodes[c].base, nodes[f].level) == idx
    }
}

/// A recorded frame below the root is named by the entry of its parent that
/// its walks pass through.
spec fn parent_names(nodes: Map<u64, Node>, m: Map<u64, u64>, c: u64) -> bool {
    nodes[c].level > 0 ==> {
        let f = nodes[c].parent;
        let e = m[slot_addr(f, entry::index(nodes[c].base, nodes[f].level))];
        &&& nodes.dom().contains(f)
        &&& nodes[f].level + 1 == nodes[c].level
        &&& entry::same_prefix(nodes[c].base, nodes[f].base, nodes[f].level)
        &&& names_table(e, nodes[f].level)
        &&& entry::frame_of(e) == c
    }
}

/// The recorded frames are exactly the tables of the tree under `root` as
/// memory `m` holds it.
#[verifier::opaque]
spec fn tree_wf(nodes: Map<u64, Node>, root: u64, m: Map<u64, u64>) -> bool {
    &&& nodes.dom().contains(root)
    &&& nodes[root].level == 0
    &&& forall|f: u64| #[trigger]
        nodes.dom().contains(f) ==> {
            &&& f % 4096 == 0
            &&& f + 4096 <= entry::PHYS_LIMIT
            &&& nodes[f].level <= 3
            &&& (nodes[f].level == 0 ==> f == root)
            &&& parent_names(nodes, m, f)
        }
    &&& forall|f: u64, idx: u64|
        nodes.dom().contains(f) && idx < 512 ==> m.dom().contains(#[trigger] slot_addr(f, idx))
            && child_recorded(nodes, m, f, idx)
}

/// Two slots of aligned table frames share an address only if they are the
/// same slot of the same frame.
proof fn lemma_slot_distinct(f: u64, i: u64, g: u64, j: u64)
    requires
        f % 4096 == 0,
        g % 4096 == 0,
        f + 4096 <= entry::PHYS_LIMIT,
        g + 4096 <= entry::PHYS_LIMIT,
        i < 512,
        j < 512,
    ensures
        slot_addr(f, i) == slot_addr(g, j) ==> f == g && i == j,
        frame_base(slot_addr(f, i)) == f,
        f <= slot_addr(f, i) < f + 4096,
        slot_addr(f, i) % 8 == 0,
{
    let x = (8 * i) as u64;
    let y = (8 * j) as u64;
    entry::lemma_base_plus_offset(f, x, 4096);
    entry::lemma_base_plus_offset(g, y, 4096);
    entry::lemma_aligned(f, PageType::Page4K);
    vstd::arithmetic::div_mod::lemma_mod_multiples_vanish(f as int / 8 + i, 0, 8);
    assert(f + 8 * i == 8 * (f as int / 8 + i));
}

/// The walk of an address that passes through a recorded frame gives, from
/// the root, what it gives from that frame.
proof fn lemma_reach(nodes: Map<u64, Node>, root: u64, m: Map<u64, u64>, f: u64, a: u64, target: nat)
    requires
        tree_wf(nodes, root, m),
        nodes.dom().contains(f),
        entry::same_prefix(nodes[f].base, a, nodes[f].level),
        nodes[f].level <= target <= 3,
    ensures
        resolve(m, root, 0, a, target) == resolve(m, f, nodes[f].level, a, target),
    decreases nodes[f].level,
{
    reveal(tree_wf);
    if nodes[f].level > 0 {
        let p = nodes[f].parent;
        assert(parent_names(nodes, m, f));
        lemma_reach(nodes, root, m, p, a, target);
        assert(entry::index(a, nodes[p].level) == entry::index(nodes[f].base, nodes[p].level));
    }
}

/// A walk gives the same in two memories that agree on the slots it reads.
#[verifier::rlimit(40)]
proof fn lemma_walk_agrees(
    nodes: Map<u64, Node>,
    root: u64,
    m: Map<u64, u64>,
    m2: Map<u64, u64>,
    t: u64,
    a: u64,
    target: nat,
)
    requires
        tree_wf(nodes, root, m),
        nodes.dom().contains(t),
        entry::same_prefix(nodes[t].base, a, nodes[t].level),
        nodes[t].level <= target <= 3,
        forall|g: u64| #[trigger]
            nodes.dom().contains(g) && entry::same_prefix(nodes[g].base, a, nodes[g].level)
                && nodes[g].level <= target ==> m2[slot_addr(g, entry::index(a, nodes[g].level))]
                == m[slot_addr(g, entry::index(a, nodes[g].level))],
    ensures
        resolve(m2, t, nodes[t].level, a, target) == resolve(m, t, nodes[t].level, a, target),
    decreases 3 - nodes[t].level,
{
    reveal(tree_wf);
    let level = nodes[t].level;
    let idx = entry::index(a, level);
    entry::lemma_index_bound(a, level);
    let e = m[slot_addr(t, idx)];
    assert(m2[slot_addr(t, idx)] == e);
    assert(child_recorded(nodes, m, t, idx));
    if names_table(e, level) && level < target {
        let c = entry::frame_of(e);
        lemma_walk_agrees(nodes, root, m, m2, c, a, target);
    }
}

/// A tree stays what it is, and every walk gives what it gave, when memory
/// changes only outside the tree's own frames.
#[verifier::rlimit(40)]
proof fn lemma_tree_untouched(nodes: Map<u64, Node>, root: u64, m: Map<u64, u64>, m2: Map<u64, u64>)
    requires
        tree_wf(nodes, root, m),
        forall|a: u64| #[trigger]
            m.dom().contains(a) && nodes.dom().contains(frame_base(a)) ==> m2.dom().contains(a)
                && m2[a] == m[a],
    ensures
        tree_wf(nodes, root, m2),
        forall|a: u64, target: nat|
            target <= 3 ==> #[trigger] resolve(m2, root, 0, a, target) == resolve(m, root, 0, a, target),
{
    reveal(tree_wf);
    assert forall|f: u64, idx: u64| nodes.dom().contains(f) && idx < 512 implies m2.dom().contains(
        #[trigger] slot_addr(f, idx),
    ) && m2[slot_addr(f, idx)] == m[slot_addr(f, idx)] by {
        lemma_slot_distinct(f, idx, f, idx);
        assert(m.dom().contains(slot_addr(f, idx)));
    }
    assert forall|f: u64| #[trigger] nodes.dom().contains(f) implies parent_names(nodes, m2, f) by {
        assert(parent_names(nodes, m, f));
        if nodes[f].level > 0 {
            let p = nodes[f].parent;
            entry::lemma_index_bound(nodes[f].base, nodes[p].level);
            let idx = entry::index(nodes[f].base, nodes[p].level);
            assert(m2[slot_addr(p, idx)] == m[slot_addr(p, idx)]);
        }
    }
    assert forall|f: u64, idx: u64| nodes.dom().contains(f) && idx < 512 implies child_recorded(
        nodes,
        m2,
        f,
        idx,
    ) by {
        assert(m2[slot_addr(f, idx)] == m[slot_addr(f, idx)]);
        assert(child_recorded(nodes, m, f, idx));
    }
    assert forall|a: u64, target: nat| target <= 3 implies #[trigger] resolve(m2, root, 0, a, target)
        == resolve(m, root, 0, a, target) by {
        assert forall|g: u64| #[trigger]
            nodes.dom().contains(g) && entry::same_prefix(nodes[g].base, a, nodes[g].level)
                && nodes[g].level <= target implies m2[slot_addr(
            g,
            entry::index(a, nodes[g].level),
        )] == m[slot_addr(g, entry::index(a, nodes[g].level))] by {
            entry::lemma_index_bound(a, nodes[g].level);
        }
        lemma_walk_agrees(nodes, root, m, m2, root, a, target);
    }
}

/// The tree recorded as `n1` in memory `m1` is the tree recorded as `n0` in
/// memory `m0`, grown: it is well formed; memory in use is still in use and,
/// outside the old tree's frames, holds what it held; every old frame is
/// still a frame of the tree; every added frame was out of use; and every
/// walk that found something finds the same thing.
#[verifier::opaque]
spec fn extends(
    n0: Map<u64, Node>,
    root: u64,
    m0: Map<u64, u64>,
    n1: Map<u64, Node>,
    m1: Map<u64, u64>,
) -> bool {
    &&& tree_wf(n1, root, m1)
    &&& forall|a: u64| #[trigger]
        m0.dom().contains(a) ==> m1.dom().contains(a) && (!n0.dom().contains(frame_base(a))
            ==> m1[a] == m0[a])
    &&& forall|f: u64| #[trigger] n0.dom().contains(f) ==> n1.dom().contains(f)
    &&& forall|a: u64| #[trigger]
        n1.dom().contains(frame_base(a)) && !n0.dom().contains(frame_base(a)) ==> !m0.dom().contains(a)
    &&& forall|a: u64, target: nat|
        target <= 3 && #[trigger] resolve(m0, root, 0, a, target) != Slot::Vacant ==> resolve(
            m1,
            root,
            0,
            a,
            target,
        ) == resolve(m0, root, 0, a, target)
}

/// A well-formed tree is itself, grown by nothing.
proof fn lemma_extends_refl(n0: Map<u64, Node>, root: u64, m0: Map<u64, u64>)
    requires
        tree_wf(n0, root, m0),
    ensures
        extends(n0, root, m0, n0, m0),
{
    reveal(tree_wf);
    reveal(extends);
}

/// Growing is transitive.
proof fn lemma_extends_trans(
    n0: Map<u64, Node>,
    root: u64,
    m0: Map<u64, u64>,
    n1: Map<u64, Node>,
    m1: Map<u64, u64>,
    n2: Map<u64, Node>,
    m2: Map<u64, u64>,
)
    requires
        extends(n0, root, m0, n1, m1),
        extends(n1, root, m1, n2, m2),
    ensures
        extends(n0, root, m0, n2, m2),
{
    reveal(extends);
    assert forall|a: u64| #[trigger] m0.dom().contains(a) implies m2.dom().contains(a) && (
    !n0.dom().contains(frame_base(a)) ==> m2[a] == m0[a]) by {
        assert(m1.dom().contains(a));
        if !n0.dom().contains(frame_base(a)) {
            if n1.dom().contains(frame_base(a)) {
                assert(!m0.dom().contains(a));
            }
        }
    }
    assert forall|a: u64| #[trigger]
        n2.dom().contains(frame_base(a)) && !n0.dom().contains(frame_base(a)) implies !m0.dom().contains(
        a,
    ) by {
        if n1.dom().contains(frame_base(a)) {
        } else {
            assert(!m1.dom().contains(a));
        }
    }
    assert forall|a: u64, target: nat|
        target <= 3 && #[trigger] resolve(m0, root, 0, a, target) != Slot::Vacant implies resolve(
        m2,
        root,
        0,
        a,
        target,
    ) == resolve(m0, root, 0, a, target) by {
        assert(resolve(m1, root, 0, a, target) == resolve(m0, root, 0, a, target));
    }
}

/// Every frame of a well-formed tree is aligned and in use.
proof fn lemma_frame_in_use(nodes: Map<u64, Node>, root: u64, m: Map<u64, u64>, f: u64)
    requires
        tree_wf(nodes, root, m),
        nodes.dom().contains(f),
    ensures
        f % 4096 == 0,
        m.dom().contains(f),
{
    reveal(tree_wf);
    lemma_slot_distinct(f, 0, f, 0);
    assert(m.dom().contains(slot_addr(f, 0)));
}

/// The word that links a fresh table into its parent.
spec fn link_entry(frame: u64) -> u64 {
    frame | PAGE_USER | PAGE_WRITE | PAGE_PRESENT
}

/// A link names its frame and is neither empty nor a leaf.
proof fn lemma_link_entry(frame: u64)
    requires
        frame % 4096 == 0,
        frame + 4096 <= entry::PHYS_LIMIT,
    ensures
        entry::present(link_entry(frame)),
        !entry::large(link_entry(frame)),
        entry::frame_of(link_entry(frame)) == frame,
{
    assert((frame | 0x4 | 0x2 | 0x1) & 0x1 != 0 && (frame | 0x4 | 0x2 | 0x1) & 0x80 == 0 && (frame
        | 0x4 | 0x2 | 0x1) & 0x000f_ffff_ffff_f000 == frame) by (bit_vector)
        requires
            frame % 4096 == 0,
            frame < 0x0010_0000_0000_0000,
    ;
}

/// Linking a fresh, zeroed frame into an empty slot of a table keeps the
/// tree well formed and changes no walk, except that a walk stopped at the
/// level of that slot now reports the new table.
#[verifier::rlimit(40)]
proof fn lemma_link(
    nodes: Map<u64, Node>,
    root: u64,
    m: Map<u64, u64>,
    m1: Map<u64, u64>,
    m2: Map<u64, u64>,
    f: u64,
    n: u64,
    vaddr: u64,
)
    requires
        tree_wf(nodes, root, m),
        nodes.dom().contains(f),
        nodes[f].level < 3,
        entry::same_prefix(nodes[f].base, vaddr, nodes[f].level),
        !entry::present(m[slot_addr(f, entry::index(vaddr, nodes[f].level))]),
        phys::claimed(m, m1, PageType::Page4K, n),
        m2 == m1.insert(slot_addr(f, entry::index(vaddr, nodes[f].level)), link_entry(n)),
    ensures
        !nodes.dom().contains(n),
        tree_wf(
            nodes.insert(n, Node { level: nodes[f].level + 1, base: vaddr, parent: f }),
            root,
            m2,
        ),
        extends(
            nodes,
            root,
            m,
            nodes.insert(n, Node { level: nodes[f].level + 1, base: vaddr, parent: f }),
            m2,
        ),
        forall|idx: u64| idx < 512 ==> m2[#[trigger] slot_addr(n, idx)] == 0,
        forall|a: u64, target: nat|
            target <= 3 ==> #[trigger] resolve(m2, root, 0, a, target) == (if entry::same_prefix(
                a,
                vaddr,
                nodes[f].level + 1,
            ) && target == nodes[f].level {
                Slot::Table(n)
            } else {
                resolve(m, root, 0, a, target)
            }),
        forall|a: u64, target: nat|
            target <= 3 && entry::same_prefix(a, vaddr, nodes[f].level + 1) && target >= nodes[f].level ==> #[trigger] resolve(m, root, 0, a, target) == Slot::Vacant,
{
    reveal(tree_wf);
    reveal(extends);
    let level = nodes[f].level;
    let i = entry::index(vaddr, level);
    entry::lemma_index_bound(vaddr, level);
    let s = slot_addr(f, i);
    let nodes2 = nodes.insert(n, Node { level: level + 1, base: vaddr, parent: f });
    lemma_slot_distinct(f, i, f, i);
    lemma_link_entry(n);
    assert(m.dom().contains(s));
    assert(!nodes.dom().contains(n)) by {
        if nodes.dom().contains(n) {
            lemma_slot_distinct(n, 0, n, 0);
            assert(m.dom().contains(slot_addr(n, 0)));
        }
    }
    // Memory at the slots of the old tables, except the one written.
    assert forall|g: u64, j: u64| nodes.dom().contains(g) && j < 512 && !(g == f && j == i) implies m2[#[trigger] slot_addr(g, j)] == m[slot_addr(g, j)] && m2.dom().contains(slot_addr(g, j)) by {
        lemma_slot_distinct(g, j, f, i);
        assert(m.dom().contains(slot_addr(g, j)));
    }
    assert forall|idx: u64| idx < 512 implies m2[#[trigger] slot_addr(n, idx)] == 0 && m2.dom().contains(slot_addr(n, idx)) by {
        lemma_slot_distinct(n, idx, n, idx);
        assert(m1.dom().contains(slot_addr(n, idx)));
        assert(!m.dom().contains(slot_addr(n, idx)));
    }
    assert forall|a: u64| frame_base(a) == n implies !m.dom().contains(a) by {
        assert(n <= a < n + 4096);
    }
    assert forall|a: u64| #[trigger] m.dom().contains(a) implies m2.dom().contains(a) && (!nodes.dom().contains(frame_base(a)) ==> m2[a] == m[a]) by {
        if a == s {
            assert(frame_base(a) == f);
        }
    }
    // The tree with the new frame recorded.
    assert forall|g: u64| #[trigger] nodes2.dom().contains(g) implies {
        &&& g % 4096 == 0
        &&& g + 4096 <= entry::PHYS_LIMIT
        &&& nodes2[g].level <= 3
        &&& (nodes2[g].level == 0 ==> g == root)
        &&& parent_names(nodes2, m2, g)
    } by {
        if g == n {
            assert(m2[s] == link_entry(n));
        } else {
            assert(nodes.dom().contains(g));
            assert(parent_names(nodes, m, g));
            if nodes[g].level > 0 {
                let p = nodes[g].parent;
                let j = entry::index(nodes[g].base, nodes[p].level);
                entry::lemma_index_bound(nodes[g].base, nodes[p].level);
                assert(m2[slot_addr(p, j)] == m[slot_addr(p, j)]);
            }
        }
    }
    assert forall|g: u64, j: u64| nodes2.dom().contains(g) && j < 512 implies m2.dom().contains(
        #[trigger] slot_addr(g, j),
    ) && child_recorded(nodes2, m2, g, j) by {
        if g == n {
            assert(m2[slot_addr(n, j)] == 0);
            assert(!entry::present(0u64)) by (bit_vector);
        } else if g == f && j == i {
            assert(m2[s] == link_entry(n));
        } else {
            assert(m2[slot_addr(g, j)] == m[slot_addr(g, j)]);
            assert(child_recorded(nodes, m, g, j));
        }
    }
    assert(tree_wf(nodes2, root, m2));
    // Walks.
    assert forall|a: u64, target: nat|
        target <= 3 && entry::same_prefix(a, vaddr, level + 1) && target >= level implies #[trigger] resolve(m, root, 0, a, target) == Slot::Vacant by {
        lemma_reach(nodes, root, m, f, a, target);
    }
    assert forall|a: u64, target: nat| target <= 3 implies #[trigger] resolve(m2, root, 0, a, target) == (if entry::same_prefix(
        a,
        vaddr,
        level + 1,
    ) && target == level {
        Slot::Table(n)
    } else {
        resolve(m, root, 0, a, target)
    }) by {
        if entry::same_prefix(a, vaddr, level + 1) && target >= level {
            lemma_reach(nodes, root, m, f, a, target);
            lemma_reach(nodes2, root, m2, f, a, target);
            assert(m2[slot_addr(f, entry::index(a, level))] == link_entry(n));
            if target > level {
                entry::lemma_index_bound(a, level + 1);
                assert(m2[slot_addr(n, entry::index(a, level + 1))] == 0);
                assert(!entry::present(0u64)) by (bit_vector);
                assert(resolve(m2, n, level + 1, a, target) == Slot::Vacant);
            }
        } else {
            assert forall|g: u64| #[trigger]
                nodes.dom().contains(g) && entry::same_prefix(nodes[g].base, a, nodes[g].level)
                    && nodes[g].level <= target implies m2[slot_addr(
                g,
                entry::index(a, nodes[g].level),
            )] == m[slot_addr(g, entry::index(a, nodes[g].level))] by {
                entry::lemma_index_bound(a, nodes[g].level);
            }
            lemma_walk_agrees(nodes, root, m, m2, root, a, target);
        }
    }
}

/// Writing a leaf into an empty slot at the level of its page size keeps the
/// tree well formed and changes no walk, except that walks of the addresses
/// in that slot, when they go that deep, now end at the leaf.
#[verifier::rlimit(40)]
proof fn lemma_install(
    nodes: Map<u64, Node>,
    root: u64,
    m: Map<u64, u64>,
    m2: Map<u64, u64>,
    f: u64,
    vaddr: u64,
    page: PageType,
    raw: u64,
)
    requires
        tree_wf(nodes, root, m),
        nodes.dom().contains(f),
        nodes[f].level == page.level(),
        entry::same_prefix(nodes[f].base, vaddr, nodes[f].level),
        !entry::present(m[slot_addr(f, entry::index(vaddr, nodes[f].level))]),
        entry::leaf_for(raw, page),
        m2 == m.insert(slot_addr(f, entry::index(vaddr, nodes[f].level)), raw),
    ensures
        extends(nodes, root, m, nodes, m2),
        resolve(m, root, 0, vaddr, page.level()) == Slot::Vacant,
        resolve(m2, root, 0, vaddr, (page.level() - 1) as nat) is Table,
        forall|a: u64, target: nat|
            target <= 3 ==> #[trigger] resolve(m2, root, 0, a, target) == (if entry::covers(
                vaddr,
                page,
                a,
            ) && target >= page.level() {
                Slot::Mapped(Leaf { entry: raw, page })
            } else {
                resolve(m, root, 0, a, target)
            }),
        forall|a: u64, target: nat|
            target <= 3 && entry::covers(vaddr, page, a) && target >= page.level() ==> #[trigger] resolve(m, root, 0, a, target) == Slot::Vacant,
{
    reveal(tree_wf);
    reveal(extends);
    let level = nodes[f].level;
    let i = entry::index(vaddr, level);
    entry::lemma_index_bound(vaddr, level);
    let s = slot_addr(f, i);
    lemma_slot_distinct(f, i, f, i);
    assert(m.dom().contains(s));
    assert forall|g: u64, j: u64| nodes.dom().contains(g) && j < 512 && !(g == f && j == i) implies m2[#[trigger] slot_addr(g, j)] == m[slot_addr(g, j)] && m2.dom().contains(slot_addr(g, j)) by {
        lemma_slot_distinct(g, j, f, i);
        assert(m.dom().contains(slot_addr(g, j)));
    }
    assert forall|a: u64| #[trigger] m.dom().contains(a) implies m2.dom().contains(a) && (!nodes.dom().contains(frame_base(a)) ==> m2[a] == m[a]) by {
        if a == s {
            assert(frame_base(a) == f);
        }
    }
    assert forall|g: u64| #[trigger] nodes.dom().contains(g) implies parent_names(nodes, m2, g) by {
        assert(parent_names(nodes, m, g));
        if nodes[g].level > 0 {
            let p = nodes[g].parent;
            let j = entry::index(nodes[g].base, nodes[p].level);
            entry::lemma_index_bound(nodes[g].base, nodes[p].level);
            assert(m2[slot_addr(p, j)] == m[slot_addr(p, j)]);
        }
    }
    assert forall|g: u64, j: u64| nodes.dom().contains(g) && j < 512 implies m2.dom().contains(
        #[trigger] slot_addr(g, j),
    ) && child_recorded(nodes, m2, g, j) by {
        if g == f && j == i {
            assert(m2[s] == raw);
            assert(entry::ends_walk(raw, level));
        } else {
            assert(m2[slot_addr(g, j)] == m[slot_addr(g, j)]);
            assert(child_recorded(nodes, m, g, j));
        }
    }
    assert(tree_wf(nodes, root, m2));
    lemma_reach(nodes, root, m, f, vaddr, level);
    assert(resolve(m2, root, 0, vaddr, (level - 1) as nat) is Table) by {
        let p = nodes[f].parent;
        assert(parent_names(nodes, m2, f));
        lemma_reach(nodes, root, m2, p, vaddr, (level - 1) as nat);
        assert(entry::index(vaddr, nodes[p].level) == entry::index(nodes[f].base, nodes[p].level));
    }
    assert forall|a: u64, target: nat|
        target <= 3 && entry::covers(vaddr, page, a) && target >= page.level() implies #[trigger] resolve(m, root, 0, a, target) == Slot::Vacant by {
        lemma_reach(nodes, root, m, f, a, target);
    }
    assert forall|a: u64, target: nat| target <= 3 implies #[trigger] resolve(m2, root, 0, a, target) == (if entry::covers(
        vaddr,
        page,
        a,
    ) && target >= page.level() {
        Slot::Mapped(Leaf { entry: raw, page })
    } else {
        resolve(m, root, 0, a, target)
    }) by {
        if entry::covers(vaddr, page, a) && target >= level {
            lemma_reach(nodes, root, m2, f, a, target);
            assert(m2[slot_addr(f, entry::index(a, level))] == raw);
            assert(PageType::at_level(level) == page);
        } else {
            assert forall|g: u64| #[trigger]
                nodes.dom().contains(g) && entry::same_prefix(nodes[g].base, a, nodes[g].level)
                    && nodes[g].level <= target implies m2[slot_addr(
                g,
                entry::index(a, nodes[g].level),
            )] == m[slot_addr(g, entry::index(a, nodes[g].level))] by {
                entry::lemma_index_bound(a, nodes[g].level);
            }
            lemma_walk_agrees(nodes, root, m, m2, root, a, target);
        }
    }
}

/// A page table: the physical address of its root frame.
pub struct PageTable {
    root: u64,
    nodes: Ghost<Map<u64, Node>>,
}

impl PageTable {
    /// Physical address of the root frame.
    pub closed spec fn root(&self) -> u64 {
        self.root
    }

    /// The table frames of the tree, each with its place.
    spec fn tree(&self) -> Map<u64, Node> {
        self.nodes@
    }

    /// Physical addresses of the frames that hold the tables of the tree.
    pub closed spec fn frames(&self) -> Set<u64> {
        self.nodes@.dom()
    }

    /// Whether physical address `a` lies in one of the tree's table frames.
    pub open spec fn owns(&self, a: u64) -> bool {
        self.frames().contains(frame_base(a))
    }

    /// Whether memory `m` holds this table as a well-formed tree: every
    /// table frame is allocated and aligned, every entry that names a table
    /// names a frame of the tree one level down, and every frame of the tree
    /// is reached from the root along exactly one path.
    pub closed spec fn wf(&self, m: Map<u64, u64>) -> bool {
        tree_wf(self.tree(), self.root(), m)
    }

    /// What the walk of `vaddr` from the root finds when it goes no deeper
    /// than level `target`.
    pub open spec fn probe(&self, m: Map<u64, u64>, vaddr: u64, target: nat) -> Slot {
        resolve(m, self.root(), 0, vaddr, target)
    }

    /// The leaf that maps `vaddr`, if there is one.
    pub open spec fn mapping(&self, m: Map<u64, u64>, vaddr: u64) -> Option<Leaf> {
        match self.probe(m, vaddr, 3) {
            Slot::Mapped(leaf) => Some(leaf),
            _ => None,
        }
    }

    /// Whether the slot for a page of type `page` at `vaddr` is taken: the
    /// walk to that slot meets a leaf on its way, or finds the slot itself
    /// holding a leaf or a table.
    pub open spec fn in_use(&self, m: Map<u64, u64>, vaddr: u64, page: PageType) -> bool {
        self.probe(m, vaddr, page.level()) != Slot::Vacant
    }

    /// Whether every table on the way to the slot for a page of type `page`
    /// at `vaddr` exists already.
    pub open spec fn path_complete(&self, m: Map<u64, u64>, vaddr: u64, page: PageType) -> bool {
        self.probe(m, vaddr, (page.level() - 1) as nat) is Table
    }

    /// This table in memory `m1` is `before` in memory `m0`, grown: same
    /// root, nothing unmapped or remapped, no memory touched outside the
    /// frames of `before`, and only unused frames added.
    pub closed spec fn grown_from(&self, before: PageTable, m0: Map<u64, u64>, m1: Map<u64, u64>) -> bool {
        &&& self.root() == before.root()
        &&& extends(before.tree(), before.root(), m0, self.tree(), m1)
    }

    /// Physical address of the root frame.
    pub fn table(&self) -> (r: u64)
        ensures
            r == self.root(),
    {
        self.root
    }

    /// A table with nothing mapped, its root in a frame freshly claimed from
    /// `mem`. Succeeds exactly when `mem` offers a frame of the smallest
    /// size; the root is then that frame.
    pub fn new<M: PhysMem>(mem: &mut M) -> (r: Result<PageTable, MapError>)
        requires
            old(mem).inv(),
        ensures
            final(mem).inv(),
            r is Ok <==> old(mem).offer(PageType::Page4K) is Some,
            match r {
                Ok(t) => {
                    &&& t.wf(final(mem).view())
                    &&& Some(t.root()) == old(mem).offer(PageType::Page4K)
                    &&& phys::claimed(old(mem).view(), final(mem).view(), PageType::Page4K, t.root())
                    &&& t.frames() == set![t.root()]
                    &&& forall|a: u64, target: nat|
                        target <= 3 ==> #[trigger] t.probe(final(mem).view(), a, target)
                            == Slot::Vacant
                },
                Err(e) => e == MapError::OutOfFrames && final(mem).view() == old(mem).view(),
            },
    {
        match mem.alloc_phys(PageType::Page4K) {
            None => Err(MapError::OutOfFrames),
            Some(root) => {
                let ghost nodes = Map::<u64, Node>::empty().insert(
                    root,
                    Node { level: 0, base: 0, parent: 0 },
                );
                let t = PageTable { root, nodes: Ghost(nodes) };
                proof {
                    reveal(tree_wf);
                    let m = mem.view();
                    assert(!entry::present(0u64)) by (bit_vector);
                    assert forall|idx: u64| idx < 512 implies m.dom().contains(
                        #[trigger] slot_addr(root, idx),
                    ) && m[slot_addr(root, idx)] == 0 by {
                        lemma_slot_distinct(root, idx, root, idx);
                    }
                    assert(tree_wf(nodes, root, m));
                    assert(t.frames() =~= set![root]);
                    assert forall|a: u64, target: nat| target <= 3 implies #[trigger] t.probe(
                        m,
                        a,
                        target,
                    ) == Slot::Vacant by {
                        entry::lemma_index_bound(a, 0);
                    }
                }
                Ok(t)
            },
        }
    }

    /// The leaf that maps `vaddr`, if there is one.
    pub fn lookup<M: PhysMem>(&self, mem: &M, vaddr: u64) -> (r: Option<Leaf>)
        requires
            mem.inv(),
            self.wf(mem.view()),
        ensures
            r == self.mapping(mem.view(), vaddr),
    {
        let ghost m = mem.view();
        let mut table: u64 = self.root;
        let mut level: usize = 0;
        proof {
            reveal(tree_wf);
        }
        while level < 4
            invariant
                mem.inv(),
                m == mem.view(),
                tree_wf(self.nodes@, self.root, m),
                level <= 3,
                self.nodes@.dom().contains(table),
                self.nodes@[table].level == level,
                resolve(m, self.root, 0, vaddr, 3) == resolve(m, table, level as nat, vaddr, 3),
            decreases 4 - level,
        {
            let idx: u64 = entry::table_index(vaddr, level);
            proof {
                reveal(tree_wf);
                lemma_slot_distinct(table, idx, table, idx);
                assert(m.dom().contains(slot_addr(table, idx)));
                assert(child_recorded(self.nodes@, m, table, idx));
            }
            let e: u64 = mem.read(table + 8 * idx);
            if e & PAGE_PRESENT == 0 {
                return None;
            }
            if level == 3 || (level >= 1 && e & PAGE_SIZE != 0) {
                return Some(Leaf { entry: e, page: PageType::from_depth(level) });
            }
            table = e & PAGE_ADDR_MASK;
            level = level + 1;
        }
        None
    }

    /// Installs `raw` as the entry that maps the page of type `page` at
    /// `vaddr`, creating the tables on the way to its slot where they are
    /// missing.
    ///
    /// The entry is written exactly as given. A request is refused, with
    /// nothing changed, when `vaddr` is not aligned to the page size, when
    /// `raw` is not a leaf for that size, or when the slot is taken. Each
    /// missing table is claimed on its own, as one frame of the smallest
    /// size, when the walk reaches the slot that lacks it; the first of
    /// them is the frame that the allocator offers as the call begins.
    /// When the allocator runs dry on the way, tables linked so far stay,
    /// and no address is mapped that was not mapped before.
    #[verifier::rlimit(40)]
    pub fn map_raw<M: PhysMem>(&mut self, mem: &mut M, vaddr: u64, page: PageType, raw: u64) -> (r:
        Result<(), MapError>)
        requires
            old(mem).inv(),
            old(self).wf(old(mem).view()),
        ensures
            final(mem).inv(),
            final(self).wf(final(mem).view()),
            final(self).grown_from(*old(self), old(mem).view(), final(mem).view()),
            vaddr % page.bytes() != 0 ==> r == Err::<(), MapError>(MapError::Misaligned),
            vaddr % page.bytes() == 0 && entry::leaf_for(raw, page) && old(self).in_use(
                old(mem).view(),
                vaddr,
                page,
            ) ==> r == Err::<(), MapError>(MapError::AlreadyMapped),
            vaddr % page.bytes() == 0 && entry::leaf_for(raw, page) && !old(self).in_use(
                old(mem).view(),
                vaddr,
                page,
            ) && old(self).path_complete(old(mem).view(), vaddr, page) ==> r is Ok,
            old(self).path_complete(old(mem).view(), vaddr, page) ==> final(self).frames() == old(self).frames() && final(mem).view().dom() == old(mem).view().dom(),
            vaddr % page.bytes() == 0 && entry::leaf_for(raw, page) && !old(self).in_use(
                old(mem).view(),
                vaddr,
                page,
            ) && !old(self).path_complete(old(mem).view(), vaddr, page) ==> (match old(mem).offer(
                PageType::Page4K,
            ) {
                Some(frame) => final(self).frames().contains(frame) && !old(self).frames().contains(
                    frame,
                ),
                None => r == Err::<(), MapError>(MapError::OutOfFrames) && *final(self) == *old(self)
                    && final(mem).view() == old(mem).view(),
            }),
            match r {
                Ok(()) => {
                    &&& vaddr % page.bytes() == 0
                    &&& entry::leaf_for(raw, page)
                    &&& !old(self).in_use(old(mem).view(), vaddr, page)
                    &&& final(self).path_complete(final(mem).view(), vaddr, page)
                    &&& forall|a: u64| #[trigger]
                        final(self).mapping(final(mem).view(), a) == (if entry::covers(
                            vaddr,
                            page,
                            a,
                        ) {
                            Some(Leaf { entry: raw, page })
                        } else {
                            old(self).mapping(old(mem).view(), a)
                        })
                    &&& forall|a: u64, target: nat|
                        page.level() <= target <= 3 ==> #[trigger] final(self).probe(
                            final(mem).view(),
                            a,
                            target,
                        ) == (if entry::covers(vaddr, page, a) {
                            Slot::Mapped(Leaf { entry: raw, page })
                        } else {
                            old(self).probe(old(mem).view(), a, target)
                        })
                },
                Err(MapError::Misaligned) => {
                    &&& vaddr % page.bytes() != 0
                    &&& *final(self) == *old(self)
                    &&& final(mem).view() == old(mem).view()
                },
                Err(MapError::InvalidEntry) => {
                    &&& vaddr % page.bytes() == 0
                    &&& !entry::leaf_for(raw, page)
                    &&& *final(self) == *old(self)
                    &&& final(mem).view() == old(mem).view()
                },
                Err(MapError::AlreadyMapped) => {
                    &&& vaddr % page.bytes() == 0
                    &&& entry::leaf_for(raw, page)
                    &&& old(self).in_use(old(mem).view(), vaddr, page)
                    &&& *final(self) == *old(self)
                    &&& final(mem).view() == old(mem).view()
                },
                Err(MapError::OutOfFrames) => {
                    &&& vaddr % page.bytes() == 0
                    &&& entry::leaf_for(raw, page)
                    &&& !old(self).in_use(old(mem).view(), vaddr, page)
                    &&& !old(self).path_complete(old(mem).view(), vaddr, page)
                    &&& forall|a: u64, target: nat|
                        page.level() <= target <= 3 ==> #[trigger] final(self).probe(
                            final(mem).view(),
                            a,
                            target,
                        ) == old(self).probe(old(mem).view(), a, target)
                },
            },
    {
        let ghost m0 = mem.view();
        let ghost n0 = self.nodes@;
        let ghost root = self.root;
        proof {
            reveal(tree_wf);
            reveal(extends);
            lemma_extends_refl(n0, root, m0);
        }
        let size: u64 = page.size();
        if vaddr % size != 0 {
            return Err(MapError::Misaligned);
        }
        if raw & PAGE_PRESENT == 0 {
            return Err(MapError::InvalidEntry);
        }
        match page {
            PageType::Page4K => {},
            _ => {
                if raw & PAGE_SIZE == 0 {
                    return Err(MapError::InvalidEntry);
                }
            },
        }
        let target: usize = page.depth();
        let mut table: u64 = self.root;
        let mut level: usize = 0;
        let ghost mut fresh: bool = false;
        let ghost offered = mem.offer(PageType::Page4K);
        while level < target
            invariant
                mem.inv(),
                offered == old(mem).offer(PageType::Page4K),
                !fresh ==> *mem == *old(mem),
                fresh ==> offered is Some && self.nodes@.dom().contains(offered.unwrap())
                    && !n0.dom().contains(offered.unwrap()),
                n0 == old(self).nodes@,
                root == old(self).root,
                m0 == old(mem).view(),
                vaddr % page.bytes() == 0,
                entry::leaf_for(raw, page),
                self.root == root,
                target == page.level(),
                level <= target <= 3,
                extends(n0, root, m0, self.nodes@, mem.view()),
                self.nodes@.dom().contains(table),
                self.nodes@[table].level == level,
                entry::same_prefix(self.nodes@[table].base, vaddr, level as nat),
                forall|a: u64, t: nat|
                    target <= t <= 3 ==> #[trigger] resolve(mem.view(), root, 0, a, t) == resolve(
                        m0,
                        root,
                        0,
                        a,
                        t,
                    ),
                !fresh ==> mem.view() == m0 && self.nodes@ == n0,
                fresh ==> {
                    &&& forall|idx: u64| idx < 512 ==> mem.view()[#[trigger] slot_addr(table, idx)] == 0
                    &&& resolve(m0, root, 0, vaddr, target as nat) == Slot::Vacant
                    &&& resolve(m0, root, 0, vaddr, (target - 1) as nat) == Slot::Vacant
                },
            decreases target - level,
        {
            let idx: u64 = entry::table_index(vaddr, level);
            let ghost m = mem.view();
            let ghost nodes = self.nodes@;
            proof {
                reveal(tree_wf);
                reveal(extends);
                lemma_slot_distinct(table, idx, table, idx);
                assert(m.dom().contains(slot_addr(table, idx)));
                assert(child_recorded(nodes, m, table, idx));
                assert(!entry::present(0u64)) by (bit_vector);
            }
            let slot: u64 = table + 8 * idx;
            let e: u64 = mem.read(slot);
            if e & PAGE_PRESENT == 0 {
                proof {
                    lemma_reach(nodes, root, m, table, vaddr, target as nat);
                    lemma_reach(nodes, root, m, table, vaddr, (target - 1) as nat);
                }
                match mem.alloc_phys(PageType::Page4K) {
                    None => {
                        return Err(MapError::OutOfFrames);
                    },
                    Some(n) => {
                        let ghost m1 = mem.view();
                        assert(m1.dom().contains(slot));
                        mem.write(slot, n | PAGE_USER | PAGE_WRITE | PAGE_PRESENT);
                        proof {
                            lemma_link(nodes, root, m, m1, mem.view(), table, n, vaddr);
                            let nodes2 = nodes.insert(
                                n,
                                Node { level: (level + 1) as nat, base: vaddr, parent: table },
                            );
                            lemma_extends_trans(n0, root, m0, nodes, m, nodes2, mem.view());
                            self.nodes = Ghost(nodes2);
                            fresh = true;
                        }
                        table = n;
                    },
                }
            } else if level >= 1 && e & PAGE_SIZE != 0 {
                proof {
                    lemma_reach(nodes, root, m, table, vaddr, target as nat);
                }
                return Err(MapError::AlreadyMapped);
            } else {
                table = e & PAGE_ADDR_MASK;
            }
            level = level + 1;
        }
        let idx: u64 = entry::table_index(vaddr, level);
        let ghost m = mem.view();
        let ghost nodes = self.nodes@;
        proof {
            reveal(tree_wf);
            reveal(extends);
            lemma_slot_distinct(table, idx, table, idx);
            assert(m.dom().contains(slot_addr(table, idx)));
            assert(!entry::present(0u64)) by (bit_vector);
            lemma_reach(nodes, root, m, table, vaddr, target as nat);
        }
        let slot: u64 = table + 8 * idx;
        let e: u64 = mem.read(slot);
        if e & PAGE_PRESENT != 0 {
            return Err(MapError::AlreadyMapped);
        }
        mem.write(slot, raw);
        proof {
            lemma_install(nodes, root, m, mem.view(), table, vaddr, page, raw);
            lemma_extends_trans(n0, root, m0, nodes, m, nodes, mem.view());
            if !fresh {
                assert(mem.view().dom() =~= m0.dom());
                assert(resolve(m, root, 0, vaddr, (target - 1) as nat) == resolve(
                    mem.view(),
                    root,
                    0,
                    vaddr,
                    (target - 1) as nat,
                ));
            }
        }
        Ok(())
    }
}

/// What growth means, clause by clause: the grown table is well formed on
/// the same root; memory in use stays in use and, outside the old table's
/// frames, keeps its contents; frames added to the table were out of use;
/// and every walk that found something finds the same.
pub proof fn lemma_grown_facts(before: PageTable, after: PageTable, m0: Map<u64, u64>, m1: Map<u64, u64>)
    requires
        after.grown_from(before, m0, m1),
    ensures
        after.wf(m1),
        after.root() == before.root(),
        forall|a: u64| #[trigger]
            m0.dom().contains(a) ==> m1.dom().contains(a) && (!before.owns(a) ==> m1[a] == m0[a]),
        forall|a: u64| #[trigger] after.owns(a) && !before.owns(a) ==> !m0.dom().contains(a),
        forall|a: u64| #[trigger] before.owns(a) ==> after.owns(a),
        forall|a: u64, target: nat|
            target <= 3 && #[trigger] before.probe(m0, a, target) != Slot::Vacant ==> after.probe(
                m1,
                a,
                target,
            ) == before.probe(m0, a, target),
{
    reveal(extends);
}

/// Nothing is ever unmapped or remapped: an address that was mapped is
/// mapped by the same leaf however the table has grown since.
pub proof fn lemma_grown_keeps(
    before: PageTable,
    after: PageTable,
    m0: Map<u64, u64>,
    m1: Map<u64, u64>,
    a: u64,
)
    requires
        after.grown_from(before, m0, m1),
        before.mapping(m0, a) is Some,
    ensures
        after.mapping(m1, a) == before.mapping(m0, a),
{
    lemma_grown_facts(before, after, m0, m1);
    assert(before.probe(m0, a, 3) != Slot::Vacant);
}

/// A well-formed table is itself, grown by nothing.
pub proof fn lemma_grown_refl(t: PageTable, m: Map<u64, u64>)
    requires
        t.wf(m),
    ensures
        t.grown_from(t, m, m),
{
    lemma_extends_refl(t.tree(), t.root(), m);
}

/// Growth of a table composes.
pub proof fn lemma_grown_trans(
    t0: PageTable,
    t1: PageTable,
    t2: PageTable,
    m0: Map<u64, u64>,
    m1: Map<u64, u64>,
    m2: Map<u64, u64>,
)
    requires
        t1.grown_from(t0, m0, m1),
        t2.grown_from(t1, m1, m2),
    ensures
        t2.grown_from(t0, m0, m2),
{
    lemma_extends_trans(t0.tree(), t0.root(), m0, t1.tree(), m1, t2.tree(), m2);
}

/// A table is untouched by changes to memory outside its own frames: it
/// stays well formed and every walk gives what it gave. When, besides,
/// nothing that was in use was lost, the table counts as grown by nothing.
pub proof fn lemma_untouched(t: PageTable, m0: Map<u64, u64>, m1: Map<u64, u64>)
    requires
        t.wf(m0),
        forall|a: u64| #[trigger]
            m0.dom().contains(a) && t.owns(a) ==> m1.dom().contains(a) && m1[a] == m0[a],
    ensures
        t.wf(m1),
        forall|a: u64, target: nat|
            target <= 3 ==> #[trigger] t.probe(m1, a, target) == t.probe(m0, a, target),
        (forall|a: u64| #[trigger] m0.dom().contains(a) ==> m1.dom().contains(a) && (!t.owns(a)
            ==> m1[a] == m0[a])) ==> t.grown_from(t, m0, m1),
{
    lemma_tree_untouched(t.tree(), t.root(), m0, m1);
    reveal(extends);
}

/// Every table frame of a well-formed table is aligned, in use, and owned.
pub proof fn lemma_frames_in_use(t: PageTable, m: Map<u64, u64>, f: u64)
    requires
        t.wf(m),
        t.frames().contains(f),
    ensures
        f % 4096 == 0,
        m.dom().contains(f),
        t.owns(f),
{
    lemma_frame_in_use(t.tree(), t.root(), m, f);
}

/// An address that a well-formed table owns lies in a frame in use.
pub proof fn lemma_owned_in_use(t: PageTable, m: Map<u64, u64>, a: u64)
    requires
        t.wf(m),
        t.owns(a),
    ensures
        m.dom().contains(frame_base(a)),
{
    lemma_frame_in_use(t.tree(), t.root(), m, frame_base(a));
}

/// Two tables that share no frame stay apart, and the second is untouched,
/// when the first grows.
#[verifier::rlimit(40)]
pub proof fn lemma_other_table(
    before: PageTable,
    after: PageTable,
    other: PageTable,
    m0: Map<u64, u64>,
    m1: Map<u64, u64>,
)
    requires
        after.grown_from(before, m0, m1),
        other.wf(m0),
        before.frames().disjoint(other.frames()),
    ensures
        other.wf(m1),
        forall|a: u64, target: nat|
            target <= 3 ==> #[trigger] other.probe(m1, a, target) == other.probe(m0, a, target),
        after.frames().disjoint(other.frames()),
{
    lemma_grown_facts(before, after, m0, m1);
    assert forall|a: u64| #[trigger] m0.dom().contains(a) && other.owns(a) implies m1.dom().contains(
        a,
    ) && m1[a] == m0[a] by {
        assert(!before.owns(a));
    }
    lemma_untouched(other, m0, m1);
    assert forall|f: u64| after.frames().contains(f) implies !other.frames().contains(f) by {
        if other.frames().contains(f) {
            lemma_frame_in_use(other.tree(), other.root(), m0, f);
            assert(frame_base(f) == f);
            assert(after.owns(f));
            assert(!before.owns(f));
        }
    }
}

/// A walk that ends at a leaf for some address finds, for every address in
/// the same slot at a given level, something at or above that level.
proof fn lemma_resolve_overlap(
    m: Map<u64, u64>,
    table: u64,
    level: nat,
    a: u64,
    vaddr: u64,
    target: nat,
)
    requires
        level <= target <= 3,
        entry::same_prefix(a, vaddr, target + 1),
        resolve(m, table, level, a, 3) is Mapped,
    ensures
        resolve(m, table, level, vaddr, target) != Slot::Vacant,
    decreases target - level,
{
    let e = m[slot_addr(table, entry::index(a, level))];
    assert(entry::index(a, level) == entry::index(vaddr, level));
    if entry::present(e) && !entry::ends_walk(e, level) && level < target {
        lemma_resolve_overlap(m, entry::frame_of(e), level + 1, a, vaddr, target);
    }
}

/// Overlap is always seen: where any address inside a page is mapped, by a
/// page of whatever size, the slot of that page counts as taken, and a
/// request to map the page is refused.
pub proof fn lemma_mapped_means_in_use(t: PageTable, m: Map<u64, u64>, vaddr: u64, page: PageType, a: u64)
    requires
        entry::covers(vaddr, page, a),
        t.mapping(m, a) is Some,
    ensures
        t.in_use(m, vaddr, page),
{
    lemma_resolve_overlap(m, t.root(), 0, a, vaddr, page.level());
}

/// Two walks that take the same slots down to a level find the same there.
proof fn lemma_resolve_shared(m: Map<u64, u64>, table: u64, level: nat, a: u64, b: u64, target: nat)
    requires
        level <= target <= 3,
        entry::same_prefix(a, b, target + 1),
    ensures
        resolve(m, table, level, a, target) == resolve(m, table, level, b, target),
    decreases target - level,
{
    let e = m[slot_addr(table, entry::index(a, level))];
    assert(entry::index(a, level) == entry::index(b, level));
    if entry::present(e) && !entry::ends_walk(e, level) && level < target {
        lemma_resolve_shared(m, entry::frame_of(e), level + 1, a, b, target);
    }
}

/// Tables are shared: two pages of one size whose walks take the same slots
/// above the last find the same tables on their way. Once one of them is
/// mapped, the path of the other is complete, and mapping it claims no
/// frame.
pub proof fn lemma_path_shared(t: PageTable, m: Map<u64, u64>, a: u64, b: u64, page: PageType)
    requires
        entry::same_prefix(a, b, page.level()),
    ensures
        t.path_complete(m, a, page) == t.path_complete(m, b, page),
{
    lemma_resolve_shared(m, t.root(), 0, a, b, (page.level() - 1) as nat);
}

/// A walk to the last level never ends at the name of a table.
proof fn lemma_resolve_last(m: Map<u64, u64>, table: u64, level: nat, a: u64)
    requires
        level <= 3,
    ensures
        !(resolve(m, table, level, a, 3) is Table),
    decreases 3 - level,
{
    let e = m[slot_addr(table, entry::index(a, level))];
    if entry::present(e) && !entry::ends_walk(e, level) {
        lemma_resolve_last(m, entry::frame_of(e), level + 1, a);
    }
}

/// For the smallest page size, a slot is taken exactly when its address is
/// mapped.
pub proof fn lemma_in_use_is_mapped(t: PageTable, m: Map<u64, u64>, a: u64)
    ensures
        t.in_use(m, a, PageType::Page4K) <==> t.mapping(m, a) is Some,
{
    lemma_resolve_last(m, t.root(), 0, a);
}

} // verus!
