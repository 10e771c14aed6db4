//! The boot page tables: a root table and a small pool of spare tables,
//! laid out one after another in memory, and the mapper that fills them.
use vstd::prelude::*;
use crate::codec::{
    encode_leaf, entry_frame, frame_field, lemma_leaf_round_trip, leaf_entry, pa2_pte, pte2_pa, px,
    table_index, PTE_V,
};

verus! {

/// Entries in one table.
pub const ENTRIES: usize = 512;

/// Spare tables available for intermediate levels.
pub const POOL_PAGES: usize = 4;

/// The root table and the pool together.
pub const TABLES: usize = 5;

/// Bytes in one table.
pub const TABLE_BYTES: u64 = 4096;

/// Index of entry `j` of the table at `level` selected by `va`, as an integer.
pub open spec fn idx(level: int, va: u64) -> int {
    table_index(level as usize, va) as int
}

/// Entry `j` of table `t` in the flat memory `m`.
pub open spec fn entry_at(m: Seq<u64>, t: int, j: int) -> u64 {
    m[t * 512 + j]
}

/// The table that a pointer entry `e` designates, when tables start at `base`.
pub open spec fn child_table(base: u64, e: u64) -> int {
    (entry_frame(e) - base) / 4096
}

/// The address of table `t` when tables start at `base`.
pub open spec fn table_addr(base: u64, t: int) -> u64 {
    (base + t * 4096) as u64
}

/// An entry above the leaf level is invalid (all zero) or a pointer: the
/// frame of a table with the valid bit and no permission bits.
pub open spec fn entry_kind_ok(base: u64, e: u64) -> bool {
    e == 0 || e == frame_field(table_addr(base, child_table(base, e))) | 1
}

/// One step down from table `t` at `level` along the walk of `va`.
pub open spec fn step(m: Seq<u64>, base: u64, t: int, level: int, va: u64) -> int {
    let e = entry_at(m, t, idx(level, va));
    if e & 1 == 1 && child_table(base, e) >= 0 {
        child_table(base, e)
    } else {
        -1
    }
}

/// The table reached at level `target` when `va` is walked from table `t`
/// at level `l`, or -1 where an entry on the way is invalid.
pub open spec fn reach(m: Seq<u64>, base: u64, t: int, l: int, va: u64, target: int) -> int
    decreases l - target,
{
    if t < 0 {
        -1
    } else if l <= target {
        t
    } else {
        let e = entry_at(m, t, idx(l, va));
        if e & 1 == 1 {
            reach(m, base, child_table(base, e), l - 1, va, target)
        } else {
            -1
        }
    }
}

/// The leaf entry that translates `va`, or 0 where none does.
pub open spec fn walk(m: Seq<u64>, base: u64, depth: int, va: u64) -> u64 {
    let r = reach(m, base, 0, depth - 1, va, 2);
    if r >= 0 {
        entry_at(m, r, idx(2, va))
    } else {
        0
    }
}

/// The levels from `lo` to `depth - 2` at which the walk of `va` from the
/// root reaches no table, counted.
pub open spec fn missing_down(m: Seq<u64>, base: u64, depth: int, va: u64, lo: int) -> int
    decreases depth - 1 - lo,
{
    if lo > depth - 2 {
        0
    } else {
        (if reach(m, base, 0, depth - 1, va, lo) < 0 {
            1int
        } else {
            0int
        }) + missing_down(m, base, depth, va, lo + 1)
    }
}

/// The indices that `va` selects above `level`, from the root down.
pub open spec fn va_path(depth: int, va: u64, level: int) -> Seq<int> {
    Seq::new((depth - 1 - level) as nat, |i: int| idx(depth - 1 - i, va))
}

/// `va` and `a` lie in the same giant page as far as a walk of `depth`
/// levels can tell: they select the same entry at every level from 2 up.
pub open spec fn same_giant(depth: int, va: u64, a: u64) -> bool {
    forall|l: int| 2 <= l < depth ==> #[trigger] idx(l, va) == idx(l, a)
}

/// The start of chunk `i` of a range that starts at `a`.
pub open spec fn chunk(a: u64, i: int) -> u64 {
    (a + i * 0x4000_0000) as u64
}

/// What translates `va` after the first `n` giant pages from `a` have been
/// mapped, in order, to `p`, `p + G`, ... with `prot`, over the translation `before`.
pub open spec fn mapped_range(
    before: BootTables,
    a: u64,
    p: u64,
    n: nat,
    prot: u64,
    va: u64,
) -> u64
    decreases n,
{
    if n == 0 {
        before.translate(va)
    } else if same_giant(before.depth(), va, chunk(a, n - 1)) {
        leaf_entry(chunk(p, n - 1), prot)
    } else {
        mapped_range(before, a, p, (n - 1) as nat, prot, va)
    }
}

/// `va` rounded down to a giant-page boundary.
pub open spec fn giant_floor(va: u64) -> u64 {
    (va - va % 0x4000_0000) as u64
}

/// Number of giant pages that the range `[va, va + len)` touches.
pub open spec fn chunk_count(va: u64, len: u64) -> int {
    let first = va - va % 0x4000_0000;
    let last = (va + len - 1) - (va + len - 1) % 0x4000_0000;
    (last - first) / 0x4000_0000 + 1
}

/// The root table (table 0) and the pool of spare tables (tables 1 to
/// `POOL_PAGES`), one after another from the physical address `base`.
pub struct BootTables {
    mem: Vec<u64>,
    base: u64,
    depth: usize,
    next: usize,
    lv: Ghost<Seq<int>>,
    path: Ghost<Seq<Seq<int>>>,
}

impl BootTables {
    /// Number of levels of the translation scheme.
    pub closed spec fn depth(&self) -> int {
        self.depth as int
    }

    /// Physical address of the root table.
    pub closed spec fn base(&self) -> u64 {
        self.base
    }

    /// Number of spare tables handed out so far.
    pub closed spec fn allocated(&self) -> int {
        self.next as int
    }

    /// The pool slots handed out so far.
    pub closed spec fn issued(&self) -> Set<int> {
        Set::new(|s: int| 0 <= s < self.next)
    }

    /// The entries of all tables, table `t`'s entry `j` at `t * 512 + j`.
    pub closed spec fn memory(&self) -> Seq<u64> {
        self.mem@
    }

    /// Entry `j` of table `t` (table 0 is the root).
    pub open spec fn entry_spec(&self, t: int, j: int) -> u64 {
        entry_at(self.memory(), t, j)
    }

    /// The leaf entry that translates `va`, or 0: the walk from the root
    /// over `entry_spec`.
    pub open spec fn translate(&self, va: u64) -> u64 {
        walk(self.memory(), self.base(), self.depth(), va)
    }

    /// The level-2 table that the walk of `va` reaches, or -1.
    pub open spec fn leaf_table(&self, va: u64) -> int {
        reach(self.memory(), self.base(), 0, self.depth() - 1, va, 2)
    }

    /// How many tables mapping the giant page of `va` has to take from the
    /// pool: one for each level from 2 to `depth - 2` that the walk of `va`
    /// does not reach yet.
    pub open spec fn missing_tables(&self, va: u64) -> int {
        missing_down(self.memory(), self.base(), self.depth(), va, 2)
    }

    /// Tables handed out are those from 0 to `next`.
    spec fn live(&self, t: int) -> bool {
        0 <= t <= self.next
    }

    pub closed spec fn wf(&self) -> bool {
        &&& self.mem@.len() == 5 * 512
        &&& 3 <= self.depth <= 5
        &&& self.next <= POOL_PAGES
        &&& self.base % 4096 == 0
        &&& self.base + 5 * 4096 <= u64::MAX
        &&& self.lv@.len() == 5
        &&& self.path@.len() == 5
        &&& self.lv@[0] == self.depth - 1
        &&& self.path@[0] == Seq::<int>::empty()
        &&& forall|t: int|
            #![trigger self.lv@[t]]
            self.live(t) ==> 2 <= self.lv@[t] <= self.depth - 1 && self.path@[t].len()
                == self.depth - 1 - self.lv@[t]
        &&& forall|t: int, j: int|
            self.next < t < 5 && 0 <= j < 512 ==> #[trigger] entry_at(self.mem@, t, j) == 0
        &&& forall|t: int, j: int|
            #![trigger entry_at(self.mem@, t, j)]
            self.live(t) && 0 <= j < 512 && self.lv@[t] > 2 && entry_at(self.mem@, t, j) & 1
                == 1 ==> {
                let c = child_table(self.base, entry_at(self.mem@, t, j));
                &&& 1 <= c <= self.next
                &&& self.lv@[c] == self.lv@[t] - 1
                &&& self.path@[c] == self.path@[t].push(j)
            }
        &&& forall|t: int, j: int|
            #![trigger entry_at(self.mem@, t, j)]
            self.live(t) && 0 <= j < 512 && self.lv@[t] > 2 ==> entry_kind_ok(
                self.base,
                entry_at(self.mem@, t, j),
            )
        &&& forall|t1: int, j1: int, t2: int, j2: int|
            #![trigger entry_at(self.mem@, t1, j1), entry_at(self.mem@, t2, j2)]
            self.live(t1) && self.live(t2) && 0 <= j1 < 512 && 0 <= j2 < 512 && self.lv@[t1] > 2
                && self.lv@[t2] > 2 && entry_at(self.mem@, t1, j1) & 1 == 1 && entry_at(
                self.mem@,
                t2,
                j2,
            ) & 1 == 1 && (t1 != t2 || j1 != j2) ==> child_table(
                self.base,
                entry_at(self.mem@, t1, j1),
            ) != child_table(self.base, entry_at(self.mem@, t2, j2))
    }
}

/// Positions of distinct entries of distinct tables differ in flat memory.
proof fn lemma_flat(t: int, j: int, t2: int, j2: int)
    requires
        0 <= j < 512,
        0 <= j2 < 512,
        t * 512 + j == t2 * 512 + j2,
    ensures
        t == t2 && j == j2,
{
    assert(t == t2) by (nonlinear_arith)
        requires
            0 <= j < 512,
            0 <= j2 < 512,
            t * 512 + j == t2 * 512 + j2,
    ;
}

proof fn lemma_va_path_step(depth: int, va: u64, level: int)
    requires
        3 <= level <= depth - 1,
    ensures
        va_path(depth, va, level - 1) == va_path(depth, va, level).push(idx(level, va)),
{
    assert(va_path(depth, va, level - 1) =~= va_path(depth, va, level).push(idx(level, va)));
}

/// A walk down to `target + 1`, then one step more.
pub proof fn lemma_reach_compose(m: Seq<u64>, base: u64, t: int, l: int, va: u64, target: int)
    requires
        target + 1 <= l,
    ensures
        reach(m, base, t, l, va, target) == ({
            let r = reach(m, base, t, l, va, target + 1);
            if r < 0 {
                -1
            } else {
                step(m, base, r, target + 1, va)
            }
        }),
    decreases l - target,
{
    if t >= 0 {
        let e = entry_at(m, t, idx(l, va));
        if e & 1 == 1 {
            let c = child_table(base, e);
            if l > target + 1 {
                lemma_reach_compose(m, base, c, l - 1, va, target);
            } else {
                assert(reach(m, base, c, l - 1, va, target) == if c < 0 {
                    -1
                } else {
                    c
                });
            }
        }
    }
}

/// The walk of `va` reads only indices above `target`.
pub proof fn lemma_reach_indices(m: Seq<u64>, base: u64, t: int, l: int, va: u64, a: u64, target: int)
    requires
        forall|k: int| target < k <= l ==> #[trigger] idx(k, va) == idx(k, a),
    ensures
        reach(m, base, t, l, va, target) == reach(m, base, t, l, a, target),
    decreases l - target,
{
    if t >= 0 && l > target {
        assert(idx(l, va) == idx(l, a));
        let e = entry_at(m, t, idx(l, va));
        if e & 1 == 1 {
            lemma_reach_indices(m, base, child_table(base, e), l - 1, va, a, target);
        }
    }
}

impl BootTables {
    /// Along the walk of `va`, each table reached sits at its level and is
    /// reached by the indices of `va`.
    proof fn lemma_reach_path(&self, t: int, l: int, va: u64)
        requires
            self.wf(),
            self.live(t),
            self.lv@[t] == l,
            self.path@[t] == va_path(self.depth as int, va, l),
        ensures
            ({
                let r = reach(self.mem@, self.base, t, l, va, 2);
                r == -1 || (self.live(r) && self.lv@[r] == 2 && self.path@[r] == va_path(
                    self.depth as int,
                    va,
                    2,
                ))
            }),
        decreases l,
    {
        if l > 2 {
            let j = idx(l, va);
            crate::codec::lemma_table_index(l as usize, va, va);
            let e = entry_at(self.mem@, t, j);
            if e & 1 == 1 {
                let c = child_table(self.base, e);
                lemma_va_path_step(self.depth as int, va, l);
                self.lemma_reach_path(c, l - 1, va);
            }
        }
    }

    /// A change to one entry of a table at a level no higher than `target`
    /// leaves every walk down to `target` as it was.
    proof fn lemma_reach_frame(
        &self,
        m2: Seq<u64>,
        u: int,
        ju: int,
        t: int,
        l: int,
        va: u64,
        target: int,
    )
        requires
            self.wf(),
            m2.len() == self.mem@.len(),
            self.live(u),
            0 <= ju < 512,
            self.lv@[u] <= target,
            2 <= target,
            forall|i: int| 0 <= i < m2.len() && i != u * 512 + ju ==> m2[i] == self.mem@[i],
            self.live(t),
            self.lv@[t] == l,
        ensures
            reach(m2, self.base, t, l, va, target) == reach(self.mem@, self.base, t, l, va, target),
        decreases l,
    {
        if l > target {
            let j = idx(l, va);
            crate::codec::lemma_table_index(l as usize, va, va);
            if t * 512 + j == u * 512 + ju {
                lemma_flat(t, j, u, ju);
            }
            assert(entry_at(m2, t, j) == entry_at(self.mem@, t, j));
            let e = entry_at(self.mem@, t, j);
            if e & 1 == 1 {
                let c = child_table(self.base, e);
                self.lemma_reach_frame(m2, u, ju, c, l - 1, va, target);
            }
        }
    }

    /// Installing a pointer to a fresh, all-zero table in an invalid entry
    /// leaves every walk from `s` with the same outcome.
    proof fn lemma_pointer_frame(&self, m2: Seq<u64>, t: int, j: int, c: int, s: int, l: int, va: u64)
        requires
            self.wf(),
            self.live(t),
            0 <= j < 512,
            self.lv@[t] > 2,
            entry_at(self.mem@, t, j) & 1 == 0,
            c == self.next + 1,
            c < 5,
            m2 == self.mem@.update(t * 512 + j, entry_at(m2, t, j)),
            entry_at(m2, t, j) & 1 == 1,
            child_table(self.base, entry_at(m2, t, j)) == c,
            self.live(s),
            self.lv@[s] == l,
        ensures
            ({
                let r1 = reach(self.mem@, self.base, s, l, va, 2);
                let r2 = reach(m2, self.base, s, l, va, 2);
                r2 == r1 || (r1 == -1 && (r2 == -1 || (r2 == c && forall|k: int|
                    0 <= k < 512 ==> #[trigger] entry_at(m2, c, k) == 0)))
            }),
        decreases l,
    {
        assert forall|k: int| 0 <= k < 512 implies #[trigger] entry_at(m2, c, k) == 0 by {
            if c * 512 + k == t * 512 + j {
                lemma_flat(c, k, t, j);
            }
            assert(entry_at(self.mem@, c, k) == 0);
        }
        if l > 2 {
            let i = idx(l, va);
            crate::codec::lemma_table_index(l as usize, va, va);
            if s == t && i == j {
                assert(reach(m2, self.base, s, l, va, 2) == reach(m2, self.base, c, l - 1, va, 2));
                if l - 1 > 2 {
                    let k = idx(l - 1, va);
                    crate::codec::lemma_table_index((l - 1) as usize, va, va);
                    assert(entry_at(m2, c, k) == 0);
                    assert(0u64 & 1 == 0) by (bit_vector);
                }
            } else {
                if s * 512 + i == t * 512 + j {
                    lemma_flat(s, i, t, j);
                }
                assert(entry_at(m2, s, i) == entry_at(self.mem@, s, i));
                let e = entry_at(self.mem@, s, i);
                if e & 1 == 1 {
                    self.lemma_pointer_frame(m2, t, j, c, child_table(self.base, e), l - 1, va);
                }
            }
        }
    }
}

/// A walk that stops above `target` stops above every lower level too.
pub proof fn lemma_reach_dead(m: Seq<u64>, base: u64, l: int, va: u64, target: int, lo: int)
    requires
        lo <= target <= l,
        reach(m, base, 0, l, va, target) < 0,
    ensures
        reach(m, base, 0, l, va, lo) < 0,
    decreases target - lo,
{
    if lo < target {
        lemma_reach_compose(m, base, 0, l, va, target - 1);
        lemma_reach_dead(m, base, l, va, target - 1, lo);
    }
}

/// Fewer levels counted from higher up.
proof fn lemma_missing_mono(m: Seq<u64>, base: u64, depth: int, va: u64, lo: int, hi: int)
    requires
        lo <= hi,
    ensures
        missing_down(m, base, depth, va, lo) >= missing_down(m, base, depth, va, hi) >= 0,
    decreases depth - 1 - lo,
{
    if lo <= depth - 2 {
        lemma_missing_mono(m, base, depth, va, lo + 1, if hi > lo { hi } else { lo + 1 });
        if hi == lo {
            lemma_missing_mono(m, base, depth, va, lo + 1, lo + 1);
        }
    }
}

/// Where no chunk of the range shares a giant page with `va`, its
/// translation stays what it was before the range was mapped.
pub proof fn lemma_mapped_range_outside(
    before: BootTables,
    a: u64,
    p: u64,
    n: nat,
    prot: u64,
    va: u64,
)
    requires
        forall|i: int| 0 <= i < n ==> !same_giant(before.depth(), va, #[trigger] chunk(a, i)),
    ensures
        mapped_range(before, a, p, n, prot, va) == before.translate(va),
    decreases n,
{
    if n > 0 {
        assert(!same_giant(before.depth(), va, chunk(a, n - 1)));
        lemma_mapped_range_outside(before, a, p, (n - 1) as nat, prot, va);
    }
}

/// Mapping `k` giant pages from `a` to `p` leaves, at the start of each
/// chunk `i`, a leaf entry for `p + i * G` with the requested permissions,
/// as long as no two chunks fall in the same giant page of the walk.
pub proof fn lemma_range_leaves(
    before: BootTables,
    a: u64,
    p: u64,
    k: nat,
    prot: u64,
    i: int,
)
    requires
        0 <= i < k,
        forall|i1: int, i2: int|
            0 <= i1 < k && 0 <= i2 < k && i1 != i2 ==> !same_giant(
                before.depth(),
                #[trigger] chunk(a, i1),
                #[trigger] chunk(a, i2),
            ),
    ensures
        mapped_range(before, a, p, k, prot, chunk(a, i)) == leaf_entry(chunk(p, i), prot),
    decreases k,
{
    if i < k - 1 {
        assert(!same_giant(before.depth(), chunk(a, i), chunk(a, k - 1)));
        lemma_range_leaves(before, a, p, (k - 1) as nat, prot, i);
    }
}

/// After a successful `boot_map` of `k` non-aliasing chunks, the level-2
/// table that the walk of chunk `i` reaches holds, at that chunk's index,
/// the leaf entry for `p + i * G` with `prot` (the root itself at three
/// levels). These are exactly the entries that an identical second call
/// finds in place, so it leaves the memory and the pool as they are.
pub proof fn lemma_range_entries(
    before: BootTables,
    after: BootTables,
    a: u64,
    p: u64,
    k: nat,
    prot: u64,
    i: int,
)
    requires
        0 <= i < k,
        forall|i1: int, i2: int|
            0 <= i1 < k && 0 <= i2 < k && i1 != i2 ==> !same_giant(
                before.depth(),
                #[trigger] chunk(a, i1),
                #[trigger] chunk(a, i2),
            ),
        forall|v: u64| after.translate(v) == mapped_range(before, a, p, k, prot, v),
        forall|i1: int| 0 <= i1 < k ==> #[trigger] after.leaf_table(chunk(a, i1)) >= 0,
    ensures
        after.leaf_table(chunk(a, i)) >= 0,
        after.entry_spec(after.leaf_table(chunk(a, i)), idx(2, chunk(a, i))) == leaf_entry(
            chunk(p, i),
            prot,
        ),
        after.depth() == 3 ==> after.leaf_table(chunk(a, i)) == 0,
{
    lemma_range_leaves(before, a, p, k, prot, i);
    assert(after.translate(chunk(a, i)) == mapped_range(before, a, p, k, prot, chunk(a, i)));
    assert(after.leaf_table(chunk(a, i)) >= 0);
}

/// A translation that was a valid leaf stays a valid leaf while a range is mapped.
proof fn lemma_mapped_range_valid(before: BootTables, a: u64, p: u64, n: nat, prot: u64, va: u64)
    requires
        before.translate(va) & 1 == 1,
    ensures
        mapped_range(before, a, p, n, prot, va) & 1 == 1,
    decreases n,
{
    if n > 0 {
        let f = frame_field(chunk(p, n - 1));
        assert((f | prot | 1u64) & 1u64 == 1) by (bit_vector);
        lemma_mapped_range_valid(before, a, p, (n - 1) as nat, prot, va);
    }
}

impl BootTables {
    /// A fresh set of tables at the physical address `base`, all entries
    /// invalid, for a scheme of `depth` levels.
    pub fn new(base: u64, depth: usize) -> (r: BootTables)
        requires
            3 <= depth <= 5,
            base % 4096 == 0,
            base + 5 * 4096 <= u64::MAX,
        ensures
            r.wf(),
            r.depth() == depth,
            r.base() == base,
            r.allocated() == 0,
            forall|va: u64| r.translate(va) == 0,
            forall|t: int, j: int| 0 <= t < 5 && 0 <= j < 512 ==> r.entry_spec(t, j) == 0,
    {
        let mem: Vec<u64> = vec![0u64; 2560];
        let r = BootTables {
            mem,
            base,
            depth,
            next: 0,
            lv: Ghost(Seq::new(5, |i: int| if i == 0 { depth - 1 } else { 2 })),
            path: Ghost(Seq::new(5, |i: int| Seq::<int>::empty())),
        };
        proof {
            assert(r.path@[0] =~= Seq::<int>::empty());
            assert forall|i: int| 0 <= i < 2560 implies r.mem@[i] == 0 by {
                assert(cloned(0u64, r.mem@[i]));
            }
            assert forall|t: int, j: int| 0 <= t < 5 && 0 <= j < 512 implies #[trigger] entry_at(
                r.mem@,
                t,
                j,
            ) == 0 by {
                assert(0 <= t * 512 + j < 2560) by (nonlinear_arith)
                    requires
                        0 <= t < 5,
                        0 <= j < 512,
                ;
            }
            assert(0u64 & 1 == 0) by (bit_vector);
            assert forall|va: u64| r.translate(va) == 0 by {
                crate::codec::lemma_table_index((depth - 1) as usize, va, va);
                crate::codec::lemma_table_index(2, va, va);
                assert(0u64 & 1 == 0) by (bit_vector);
            }
        }
        r
    }

    /// Well-formed tables have a depth of 3 to 5 and an aligned root.
    pub proof fn lemma_wf_bounds(&self)
        requires
            self.wf(),
        ensures
            3 <= self.depth() <= 5,
            self.base() % 4096 == 0,
            self.allocated() <= POOL_PAGES,
    {
    }

    /// The level that table `t` serves in the walk.
    pub closed spec fn level_of(&self, t: int) -> int {
        self.lv@[t]
    }

    /// The shape of well-formed tables: the root serves the top level and
    /// every table handed out serves a level from 2 up; pool tables not yet
    /// handed out are all zero; above level 2 an entry is either zero or a
    /// pointer (valid bit, no permission bits) to a table handed out, one
    /// level down; and no table is pointed at by two entries.
    pub proof fn lemma_table_shape(&self)
        requires
            self.wf(),
        ensures
            self.level_of(0) == self.depth() - 1,
            forall|t: int|
                0 <= t <= self.allocated() ==> 2 <= #[trigger] self.level_of(t) <= self.depth()
                    - 1,
            forall|t: int, j: int|
                self.allocated() < t < 5 && 0 <= j < 512 ==> #[trigger] self.entry_spec(t, j) == 0,
            forall|t: int, j: int|
                #![trigger self.entry_spec(t, j)]
                0 <= t <= self.allocated() && 0 <= j < 512 && self.level_of(t) > 2 ==> {
                    let e = self.entry_spec(t, j);
                    let c = child_table(self.base(), e);
                    e == 0 || (1 <= c <= self.allocated() && self.level_of(c) == self.level_of(t)
                        - 1 && e == frame_field(table_addr(self.base(), c)) | 1)
                },
            forall|t1: int, j1: int, t2: int, j2: int|
                #![trigger self.entry_spec(t1, j1), self.entry_spec(t2, j2)]
                0 <= t1 <= self.allocated() && 0 <= t2 <= self.allocated() && 0 <= j1 < 512 && 0
                    <= j2 < 512 && self.level_of(t1) > 2 && self.level_of(t2) > 2
                    && self.entry_spec(t1, j1) != 0 && self.entry_spec(t2, j2) != 0 && (t1 != t2
                    || j1 != j2) ==> child_table(self.base(), self.entry_spec(t1, j1))
                    != child_table(self.base(), self.entry_spec(t2, j2)),
    {
        assert forall|t: int, j: int|
            #![trigger self.entry_spec(t, j)]
            0 <= t <= self.allocated() && 0 <= j < 512 && self.level_of(t) > 2 && self.entry_spec(
                t,
                j,
            ) != 0 implies entry_at(self.mem@, t, j) & 1 == 1 by {
            let e = entry_at(self.mem@, t, j);
            let f = frame_field(table_addr(self.base, child_table(self.base, e)));
            assert((f | 1u64) & 1u64 == 1) by (bit_vector);
        }
    }

    /// Hands out the next spare table of the pool, as its slot number.
    fn alloc_page(&mut self) -> (r: usize)
        requires
            old(self).next < POOL_PAGES,
        ensures
            r == old(self).next,
            final(self).next == r + 1,
            !old(self).issued().contains(r as int),
            final(self).issued() == old(self).issued().insert(r as int),
            final(self).mem == old(self).mem,
            final(self).base == old(self).base,
            final(self).depth == old(self).depth,
            final(self).lv == old(self).lv,
            final(self).path == old(self).path,
    {
        let r = self.next;
        self.next = r + 1;
        proof {
            assert(self.issued() =~= old(self).issued().insert(r as int));
        }
        r
    }

    /// Number of spare tables handed out so far.
    pub fn allocated_pages(&self) -> (r: usize)
        ensures
            r == self.allocated(),
    {
        self.next
    }

    /// Entry `j` of table `t`: the root for 0, pool slot `t - 1` above.
    pub fn entry(&self, t: usize, j: usize) -> (r: u64)
        requires
            self.wf(),
            t < TABLES,
            j < ENTRIES,
        ensures
            r == self.entry_spec(t as int, j as int),
    {
        proof {
            assert(0 <= t * 512 + j < 2560) by (nonlinear_arith)
                requires
                    t < 5,
                    j < 512,
            ;
        }
        self.mem[t * ENTRIES + j]
    }

    /// Physical address of the root table.
    pub fn root_pa(&self) -> (r: u64)
        ensures
            r == self.base(),
    {
        self.base
    }

    /// Number of levels of the translation scheme.
    pub fn levels(&self) -> (r: usize)
        ensures
            r == self.depth(),
    {
        self.depth
    }
}

impl BootTables {
    /// Follows, or creates, the pointer entry that the walk of `va` takes
    /// out of table `t` at `level`; `None` when a table is needed and the
    /// pool has none left.
    fn descend(&mut self, t: usize, level: usize, va: u64) -> (r: Option<usize>)
        requires
            old(self).wf(),
            old(self).live(t as int),
            old(self).lv@[t as int] == level,
            level > 2,
            old(self).path@[t as int] == va_path(old(self).depth as int, va, level as int),
            reach(old(self).mem@, old(self).base, 0, old(self).depth - 1, va, level as int)
                == t,
        ensures
            final(self).base == old(self).base,
            final(self).depth == old(self).depth,
            match r {
                Some(c) => {
                    &&& final(self).wf()
                    &&& final(self).live(c as int)
                    &&& final(self).lv@[c as int] == level - 1
                    &&& final(self).path@[c as int] == va_path(
                        old(self).depth as int,
                        va,
                        level - 1,
                    )
                    &&& reach(
                        final(self).mem@,
                        final(self).base,
                        0,
                        final(self).depth - 1,
                        va,
                        level - 1,
                    ) == c
                    &&& forall|v: u64| final(self).translate(v) == old(self).translate(v)
                    &&& old(self).next <= final(self).next <= old(self).next + 1
                    &&& c >= 1
                    &&& final(self).next == old(self).next + (if reach(
                        old(self).mem@,
                        old(self).base,
                        0,
                        old(self).depth - 1,
                        va,
                        level - 1,
                    ) < 0 {
                        1int
                    } else {
                        0int
                    })
                    &&& reach(old(self).mem@, old(self).base, 0, old(self).depth - 1, va, level
                        - 1) < 0 ==> c == old(self).next + 1 && entry_at(
                        final(self).mem@,
                        t as int,
                        idx(level as int, va),
                    ) == frame_field(table_addr(old(self).base, c as int)) | 1
                    &&& reach(old(self).mem@, old(self).base, 0, old(self).depth - 1, va, level
                        - 1) < 0 ==> forall|k: int|
                        0 <= k < 512 ==> #[trigger] entry_at(final(self).mem@, c as int, k) == 0
                    &&& forall|t2: int, j2: int|
                        0 <= t2 < 5 && 0 <= j2 < 512 && !(t2 == t && j2 == idx(level as int, va))
                            ==> #[trigger] entry_at(final(self).mem@, t2, j2) == entry_at(
                            old(self).mem@,
                            t2,
                            j2,
                        )
                    &&& forall|v: u64|
                        #[trigger] reach(old(self).mem@, old(self).base, 0, old(self).depth - 1, v, 2)
                            >= 0 ==> reach(final(self).mem@, final(self).base, 0, final(self).depth
                            - 1, v, 2) == reach(old(self).mem@, old(self).base, 0, old(self).depth
                            - 1, v, 2)
                },
                None => *final(self) == *old(self) && old(self).next == POOL_PAGES && reach(
                    old(self).mem@,
                    old(self).base,
                    0,
                    old(self).depth - 1,
                    va,
                    level - 1,
                ) < 0,
            },
            reach(old(self).mem@, old(self).base, 0, old(self).depth - 1, va, 2) >= 0 ==> (r
                is Some && *final(self) == *old(self)),
            reach(old(self).mem@, old(self).base, 0, old(self).depth - 1, va, level - 1) >= 0
                ==> (r is Some && *final(self) == *old(self)),
    {
        let ghost depth = self.depth as int;
        let j = px(level, va);
        let pos = t * ENTRIES + j;
        proof {
            assert(0 <= t * 512 + j < 2560) by (nonlinear_arith)
                requires
                    0 <= t <= 4,
                    0 <= j < 512,
            ;
            lemma_va_path_step(depth, va, level as int);
            lemma_reach_compose(self.mem@, self.base, 0, depth - 1, va, level - 1);
        }
        let e = self.mem[pos];
        if e & PTE_V == 1 {
            let pa = pte2_pa(e);
            let c = ((pa - self.base) / TABLE_BYTES) as usize;
            Some(c)
        } else {
            proof {
                assert(e & 1 == 0) by (bit_vector)
                    requires
                        e & 1 != 1,
                ;
                if level - 1 > 2 {
                    lemma_reach_dead(self.mem@, self.base, depth - 1, va, level - 1, 2);
                }
            }
            if self.next < POOL_PAGES {
                let ghost pre = *self;
                let s = self.alloc_page();
                let c = s + 1;
                let pa_c = self.base + (c as u64) * TABLE_BYTES;
                let pte = pa2_pte(pa_c) | PTE_V;
                let ghost m = self.mem@;
                self.mem.set(pos, pte);
                self.lv = Ghost(self.lv@.update(c as int, level - 1));
                self.path = Ghost(self.path@.update(c as int, self.path@[t as int].push(j as int)));
                proof {
                    let m2 = self.mem@;
                    let f = frame_field(pa_c);
                    assert(pa_c % 4096 == 0) by (nonlinear_arith)
                        requires
                            pa_c == pre.base + c * 4096,
                            pre.base % 4096 == 0,
                    ;
                    lemma_leaf_round_trip(pa_c, 0);
                    assert((f | 0u64 | 1u64) == (f | 1u64)) by (bit_vector);
                    assert((f | 1u64) & 1u64 == 1) by (bit_vector);
                    assert(0u64 & 1u64 == 0) by (bit_vector);
                    assert((pa_c - pre.base) / 4096 == c as int) by (nonlinear_arith)
                        requires
                            pa_c == pre.base + c * 4096,
                    ;
                    assert(entry_at(m2, t as int, j as int) == pte);
                    assert(child_table(pre.base, pte) == c);
                    assert forall|t2: int, j2: int|
                        0 <= t2 < 5 && 0 <= j2 < 512 && (t2 != t || j2 != j) implies entry_at(
                        m2,
                        t2,
                        j2,
                    ) == #[trigger] entry_at(m, t2, j2) by {
                        if t2 * 512 + j2 == t * 512 + j {
                            lemma_flat(t2, j2, t as int, j as int);
                        }
                    }
                    assert forall|t2: int, j2: int|
                        0 <= t2 < 5 && 0 <= j2 < 512 implies #[trigger] entry_at(m2, t2, j2) == (
                        if t2 == t && j2 == j {
                            pte
                        } else {
                            entry_at(m, t2, j2)
                        }) by {
                        if t2 * 512 + j2 == t * 512 + j {
                            lemma_flat(t2, j2, t as int, j as int);
                        }
                    }
                    assert forall|t2: int, j2: int|
                        #![trigger entry_at(self.mem@, t2, j2)]
                        self.live(t2) && 0 <= j2 < 512 && self.lv@[t2] > 2 && entry_at(
                            self.mem@,
                            t2,
                            j2,
                        ) & 1 == 1 implies ({
                        let c2 = child_table(self.base, entry_at(self.mem@, t2, j2));
                        &&& 1 <= c2 <= self.next
                        &&& self.lv@[c2] == self.lv@[t2] - 1
                        &&& self.path@[c2] == self.path@[t2].push(j2)
                    }) by {
                        if t2 == c {
                            assert(entry_at(m, t2, j2) == 0);
                        } else if t2 == t && j2 == j {
                        } else {
                            assert(pre.live(t2));
                        }
                    }
                    assert(self.wf());
                    assert forall|v: u64|
                        #[trigger] reach(m, pre.base, 0, depth - 1, v, 2) >= 0 implies reach(
                        m2,
                        pre.base,
                        0,
                        depth - 1,
                        v,
                        2,
                    ) == reach(m, pre.base, 0, depth - 1, v, 2) by {
                        pre.lemma_pointer_frame(m2, t as int, j as int, c as int, 0, depth - 1, v);
                    }
                    assert forall|v: u64| self.translate(v) == old(self).translate(v) by {
                        pre.lemma_pointer_frame(m2, t as int, j as int, c as int, 0, depth - 1, v);
                        crate::codec::lemma_table_index(2, v, v);
                        assert(va_path(depth, v, depth - 1) =~= Seq::<int>::empty());
                        pre.lemma_reach_path(0, depth - 1, v);
                    }
                    pre.lemma_reach_frame(m2, t as int, j as int, 0, depth - 1, va, level as int);
                    lemma_reach_compose(m2, pre.base, 0, depth - 1, va, level - 1);
                }
                Some(c)
            } else {
                None
            }
        }
    }

    /// Writes the leaf entry for the giant page of `va` into table `t`,
    /// the level-2 table that the walk of `va` reaches.
    fn set_leaf(&mut self, t: usize, va: u64, pa: u64, prot: u64)
        requires
            old(self).wf(),
            old(self).live(t as int),
            old(self).lv@[t as int] == 2,
            old(self).path@[t as int] == va_path(old(self).depth as int, va, 2),
            reach(old(self).mem@, old(self).base, 0, old(self).depth - 1, va, 2) == t,
        ensures
            final(self).wf(),
            final(self).base == old(self).base,
            final(self).depth == old(self).depth,
            final(self).next == old(self).next,
            forall|v: u64|
                final(self).translate(v) == if same_giant(old(self).depth(), v, va) {
                    leaf_entry(pa, prot)
                } else {
                    old(self).translate(v)
                },
            forall|t2: int, j2: int|
                0 <= t2 < 5 && 0 <= j2 < 512 && !(t2 == t && j2 == idx(2, va)) ==> #[trigger] entry_at(
                    final(self).mem@,
                    t2,
                    j2,
                ) == entry_at(old(self).mem@, t2, j2),
            entry_at(final(self).mem@, t as int, idx(2, va)) == leaf_entry(pa, prot),
            entry_at(old(self).mem@, t as int, idx(2, va)) == leaf_entry(pa, prot)
                ==> final(self).mem@ == old(self).mem@,
            forall|v: u64|
                #[trigger] reach(final(self).mem@, final(self).base, 0, final(self).depth - 1, v, 2)
                    == reach(old(self).mem@, old(self).base, 0, old(self).depth - 1, v, 2),
    {
        let ghost depth = self.depth as int;
        let ghost pre = *self;
        let j = px(2, va);
        let pos = t * ENTRIES + j;
        proof {
            assert(0 <= t * 512 + j < 2560) by (nonlinear_arith)
                requires
                    0 <= t <= 4,
                    0 <= j < 512,
            ;
        }
        let e = encode_leaf(pa, prot);
        self.mem.set(pos, e);
        proof {
            let m = pre.mem@;
            let m2 = self.mem@;
            if entry_at(m, t as int, j as int) == e {
                assert(m2 =~= m);
            }
            assert forall|t2: int, j2: int|
                0 <= t2 < 5 && 0 <= j2 < 512 implies #[trigger] entry_at(m2, t2, j2) == (if t2
                == t && j2 == j {
                e
            } else {
                entry_at(m, t2, j2)
            }) by {
                if t2 * 512 + j2 == t * 512 + j {
                    lemma_flat(t2, j2, t as int, j as int);
                }
            }
            assert(self.wf());
            assert forall|v: u64|
                #[trigger] reach(m2, pre.base, 0, depth - 1, v, 2) == reach(
                    m,
                    pre.base,
                    0,
                    depth - 1,
                    v,
                    2,
                ) by {
                pre.lemma_reach_frame(m2, t as int, j as int, 0, depth - 1, v, 2);
            }
            assert(va_path(depth, va, depth - 1) =~= Seq::<int>::empty());
            assert forall|v: u64|
                self.translate(v) == if same_giant(depth, v, va) {
                    leaf_entry(pa, prot)
                } else {
                    pre.translate(v)
                } by {
                crate::codec::lemma_table_index(2, v, v);
                assert(va_path(depth, v, depth - 1) =~= Seq::<int>::empty());
                pre.lemma_reach_frame(m2, t as int, j as int, 0, depth - 1, v, 2);
                pre.lemma_reach_path(0, depth - 1, v);
                let r = reach(m, pre.base, 0, depth - 1, v, 2);
                if same_giant(depth, v, va) {
                    lemma_reach_indices(m, pre.base, 0, depth - 1, v, va, 2);
                    assert(idx(2, v) == idx(2, va));
                } else if r == t && idx(2, v) == j {
                    assert forall|l: int| 2 <= l < depth implies #[trigger] idx(l, v) == idx(
                        l,
                        va,
                    ) by {
                        if l > 2 {
                            assert(va_path(depth, v, 2)[depth - 1 - l] == idx(l, v));
                            assert(va_path(depth, va, 2)[depth - 1 - l] == idx(l, va));
                        }
                    }
                }
            }
        }
    }

    /// Maps the giant page of `a` to `p` with `prot`, creating the
    /// intermediate tables that the walk lacks; `false` when the pool ran out.
    fn map_giant(&mut self, a: u64, p: u64, prot: u64) -> (ok: bool)
        requires
            old(self).wf(),
        ensures
            final(self).wf(),
            final(self).base == old(self).base,
            final(self).depth == old(self).depth,
            old(self).next <= final(self).next <= old(self).next + (old(self).depth - 3),
            ok ==> forall|v: u64|
                final(self).translate(v) == if same_giant(old(self).depth(), v, a) {
                    leaf_entry(p, prot)
                } else {
                    old(self).translate(v)
                },
            !ok ==> forall|v: u64| final(self).translate(v) == old(self).translate(v),
            old(self).next + old(self).depth - 3 <= POOL_PAGES ==> ok,
            old(self).translate(a) & 1 == 1 ==> ok && final(self).next == old(self).next,
            ok <==> old(self).next + old(self).missing_tables(a) <= POOL_PAGES,
            ok ==> final(self).next == old(self).next + old(self).missing_tables(a),
            ok ==> final(self).leaf_table(a) >= 0 && final(self).entry_spec(
                final(self).leaf_table(a),
                idx(2, a),
            ) == leaf_entry(p, prot),
            forall|j: int|
                0 <= j < 512 && j != idx(old(self).depth() - 1, a)
                    ==> #[trigger] final(self).entry_spec(0, j) == old(self).entry_spec(0, j),
            forall|v: u64|
                #[trigger] old(self).leaf_table(v) >= 0
                    ==> final(self).leaf_table(v) == old(self).leaf_table(v),
            old(self).leaf_table(a) >= 0 && old(self).entry_spec(old(self).leaf_table(a), idx(2, a))
                == leaf_entry(p, prot) ==> ok && final(self).memory() == old(self).memory()
                && final(self).allocated() == old(self).allocated(),
            old(self).depth() > 3 && old(self).entry_spec(0, idx(old(self).depth() - 1, a)) == 0
                && ok ==> final(self).entry_spec(0, idx(old(self).depth() - 1, a)) == frame_field(
                table_addr(old(self).base(), old(self).allocated() + 1),
            ) | 1,
            old(self).depth() > 3 && old(self).leaf_table(a) >= 0 ==> forall|j: int|
                0 <= j < 512 ==> #[trigger] final(self).entry_spec(0, j) == old(self).entry_spec(
                    0,
                    j,
                ),
    {
        let ghost depth = self.depth as int;
        let ghost m0 = self.mem@;
        let mut t: usize = 0;
        let mut level: usize = self.depth - 1;
        proof {
            assert(self.path@[0] =~= va_path(depth, a, depth - 1));
            if self.translate(a) & 1 == 1 {
                assert(0u64 & 1 == 0) by (bit_vector);
            }
        }
        while level > 2
            invariant
                self.wf(),
                self.base == old(self).base,
                self.depth == old(self).depth,
                depth == self.depth,
                2 <= level <= depth - 1,
                self.live(t as int),
                self.lv@[t as int] == level,
                self.path@[t as int] == va_path(depth, a, level as int),
                reach(self.mem@, self.base, 0, depth - 1, a, level as int) == t,
                forall|v: u64| self.translate(v) == old(self).translate(v),
                old(self).next <= self.next <= old(self).next + (depth - 1 - level),
                old(self).translate(a) & 1 == 1 ==> *self == *old(self) && reach(
                    self.mem@,
                    self.base,
                    0,
                    depth - 1,
                    a,
                    2,
                ) >= 0,
                m0 == old(self).mem@,
                reach(m0, self.base, 0, depth - 1, a, 2) >= 0 ==> *self == *old(self),
                depth > 3 && entry_at(m0, 0, idx(depth - 1, a)) == 0 && level < depth - 1
                    ==> entry_at(self.mem@, 0, idx(depth - 1, a)) == frame_field(
                    table_addr(self.base, old(self).next + 1),
                ) | 1,
                self.next == old(self).next + missing_down(m0, self.base, depth, a, level as int),
                *self == *old(self) || (reach(m0, self.base, 0, depth - 1, a, level as int) < 0
                    && forall|k: int| 0 <= k < 512 ==> #[trigger] entry_at(self.mem@, t as int, k) == 0),
                t == 0 ==> level == depth - 1,
                forall|j: int|
                    0 <= j < 512 && j != idx(depth - 1, a) ==> #[trigger] entry_at(self.mem@, 0, j)
                        == entry_at(m0, 0, j),
                forall|v: u64|
                    #[trigger] reach(m0, self.base, 0, depth - 1, v, 2) >= 0 ==> reach(
                        self.mem@,
                        self.base,
                        0,
                        depth - 1,
                        v,
                        2,
                    ) == reach(m0, self.base, 0, depth - 1, v, 2),
            decreases level,
        {
            let ghost pre = *self;
            proof {
                crate::codec::lemma_table_index(level as usize, a, a);
                lemma_reach_compose(self.mem@, self.base, 0, depth - 1, a, level - 1);
                assert(0u64 & 1 == 0) by (bit_vector);
                if *self != *old(self) {
                    lemma_reach_dead(m0, self.base, depth - 1, a, level as int, level - 1);
                    assert(0u64 & 1 == 0) by (bit_vector);
                }
                assert(missing_down(m0, self.base, depth, a, level - 1) == (if reach(
                    m0,
                    self.base,
                    0,
                    depth - 1,
                    a,
                    level - 1,
                ) < 0 {
                    1int
                } else {
                    0int
                }) + missing_down(m0, self.base, depth, a, level as int));
            }
            proof {
                if level == depth - 1 {
                    assert(t == 0);
                    assert(*self == *old(self));
                }
            }
            match self.descend(t, level, a) {
                Some(c) => {
                    proof {
                        if depth > 3 && entry_at(m0, 0, idx(depth - 1, a)) == 0 {
                            crate::codec::lemma_table_index((depth - 1) as usize, a, a);
                            if level == depth - 1 {
                                assert(reach(pre.mem@, pre.base, 0, depth - 1, a, level - 1) < 0);
                            } else {
                                assert(t != 0);
                                assert(entry_at(self.mem@, 0, idx(depth - 1, a)) == entry_at(
                                    pre.mem@,
                                    0,
                                    idx(depth - 1, a),
                                ));
                            }
                        }
                    }
                    t = c;
                    level = level - 1;
                },
                None => {
                    proof {
                        lemma_missing_mono(m0, self.base, depth, a, 2, level - 1);
                    }
                    return false;
                },
            }
        }
        let ghost before_leaf = *self;
        self.set_leaf(t, a, p, prot);
        proof {
            if depth > 3 {
                crate::codec::lemma_table_index((depth - 1) as usize, a, a);
                assert(t != 0);
                assert(entry_at(self.mem@, 0, idx(depth - 1, a)) == entry_at(
                    before_leaf.mem@,
                    0,
                    idx(depth - 1, a),
                ));
            }
        }
        true
    }

    /// Maps every giant page that `[va, va + len)` touches to consecutive
    /// giant pages from `pa`, with the permission bits `prot`; `false` when
    /// the pool ran out of tables on the way.
    pub fn boot_map(&mut self, va: u64, pa: u64, len: u64, prot: u64) -> (ok: bool)
        requires
            old(self).wf(),
            1 <= len,
            va + (len - 1) <= u64::MAX,
            pa + (chunk_count(va, len) - 1) * 0x4000_0000 <= u64::MAX,
        ensures
            final(self).wf(),
            final(self).base() == old(self).base(),
            final(self).depth() == old(self).depth(),
            ok ==> forall|v: u64|
                final(self).translate(v) == mapped_range(
                    *old(self),
                    giant_floor(va),
                    pa,
                    chunk_count(va, len) as nat,
                    prot,
                    v,
                ),
            !ok ==> forall|v: u64|
                (forall|i: int|
                    0 <= i < chunk_count(va, len) ==> !same_giant(
                        old(self).depth(),
                        v,
                        #[trigger] chunk(giant_floor(va), i),
                    )) ==> final(self).translate(v) == old(self).translate(v),
            old(self).allocated() + (old(self).depth() - 3) * chunk_count(va, len) <= POOL_PAGES
                ==> ok,
            old(self).allocated() <= final(self).allocated() <= old(self).allocated() + (old(
                self,
            ).depth() - 3) * chunk_count(va, len),
            (forall|i: int|
                0 <= i < chunk_count(va, len) ==> #[trigger] old(self).translate(
                    chunk(giant_floor(va), i),
                ) & 1 == 1) ==> ok && final(self).allocated() == old(self).allocated(),
            forall|v: u64|
                #[trigger] old(self).leaf_table(v) >= 0
                    ==> final(self).leaf_table(v) == old(self).leaf_table(v),
            ok ==> forall|i: int|
                0 <= i < chunk_count(va, len) ==> #[trigger] final(self).leaf_table(
                    chunk(giant_floor(va), i),
                ) >= 0,
            (forall|i: int|
                0 <= i < chunk_count(va, len) ==> #[trigger] old(self).leaf_table(
                    chunk(giant_floor(va), i),
                ) >= 0 && old(self).entry_spec(
                    old(self).leaf_table(chunk(giant_floor(va), i)),
                    idx(2, chunk(giant_floor(va), i)),
                ) == leaf_entry(chunk(pa, i), prot)) ==> ok && final(self).memory() == old(
                self,
            ).memory() && final(self).allocated() == old(self).allocated(),
            chunk_count(va, len) == 1 ==> (ok <==> old(self).allocated() + old(self).missing_tables(
                giant_floor(va),
            ) <= POOL_PAGES),
            chunk_count(va, len) == 1 && ok ==> {
                &&& final(self).allocated() == old(self).allocated() + old(self).missing_tables(
                    giant_floor(va),
                )
                &&& final(self).leaf_table(giant_floor(va)) >= 0
                &&& final(self).entry_spec(
                    final(self).leaf_table(giant_floor(va)),
                    idx(2, giant_floor(va)),
                ) == leaf_entry(pa, prot)
            },
            chunk_count(va, len) == 1 && old(self).depth() > 3 && old(self).entry_spec(
                0,
                idx(old(self).depth() - 1, giant_floor(va)),
            ) == 0 && ok ==> final(self).entry_spec(0, idx(old(self).depth() - 1, giant_floor(va)))
                == frame_field(table_addr(old(self).base(), old(self).allocated() + 1)) | 1,
            chunk_count(va, len) == 1 && old(self).depth() > 3 && old(self).leaf_table(
                giant_floor(va),
            ) >= 0 ==> forall|j: int|
                0 <= j < 512 ==> #[trigger] final(self).entry_spec(0, j) == old(self).entry_spec(
                    0,
                    j,
                ),
            chunk_count(va, len) == 1 ==> forall|j: int|
                0 <= j < 512 && j != idx(old(self).depth() - 1, giant_floor(va))
                    ==> #[trigger] final(self).entry_spec(0, j) == old(self).entry_spec(0, j),
    {
        let ghost depth = self.depth as int;
        let first = crate::codec::pg_round_down(va);
        let last = crate::codec::pg_round_down(va + (len - 1));
        let ghost k = chunk_count(va, len);
        let mut a = first;
        let mut p = pa;
        let ghost mut i: int = 0;
        proof {
            assert(last - first == (k - 1) * 0x4000_0000);
            assert(giant_floor(va) == first);
        }
        loop
            invariant
                self.wf(),
                self.base == old(self).base,
                self.depth == old(self).depth,
                depth == self.depth,
                first == va - va % 0x4000_0000,
                giant_floor(va) == first,
                k == chunk_count(va, len),
                last == first + (k - 1) * 0x4000_0000,
                pa + (k - 1) * 0x4000_0000 <= u64::MAX,
                0 <= i < k,
                a == first + i * 0x4000_0000,
                p == pa + i * 0x4000_0000,
                old(self).next <= self.next <= old(self).next + (depth - 3) * i,
                forall|v: u64|
                    self.translate(v) == mapped_range(*old(self), first, pa, i as nat, prot, v),
                (forall|i2: int|
                    0 <= i2 < k ==> #[trigger] old(self).translate(chunk(first, i2)) & 1 == 1)
                    ==> self.next == old(self).next,
                i == 0 ==> *self == *old(self),
                forall|i2: int| 0 <= i2 < i ==> #[trigger] self.leaf_table(chunk(first, i2)) >= 0,
                (forall|i2: int|
                    0 <= i2 < k ==> #[trigger] old(self).leaf_table(chunk(first, i2)) >= 0
                        && old(self).entry_spec(
                        old(self).leaf_table(chunk(first, i2)),
                        idx(2, chunk(first, i2)),
                    ) == leaf_entry(chunk(pa, i2), prot)) ==> self.memory() == old(self).memory()
                    && self.next == old(self).next,
                forall|v: u64|
                    #[trigger] old(self).leaf_table(v) >= 0
                        ==> self.leaf_table(v) == old(self).leaf_table(v),
            decreases k - i,
        {
            let ghost pre = *self;
            proof {
                assert((depth - 3) * i + (depth - 3) == (depth - 3) * (i + 1)) by (nonlinear_arith);
                assert((depth - 3) * (i + 1) <= (depth - 3) * k) by (nonlinear_arith)
                    requires
                        depth >= 3,
                        i + 1 <= k,
                ;
                assert(chunk(first, i) == a);
                assert(chunk(pa, i) == p);
                if forall|i2: int|
                    0 <= i2 < k ==> #[trigger] old(self).translate(chunk(first, i2)) & 1 == 1 {
                    assert(old(self).translate(chunk(first, i)) & 1 == 1);
                    lemma_mapped_range_valid(*old(self), first, pa, i as nat, prot, a);
                }
            }
            proof {
                if forall|i2: int|
                    0 <= i2 < k ==> #[trigger] old(self).leaf_table(chunk(first, i2)) >= 0
                        && old(self).entry_spec(
                        old(self).leaf_table(chunk(first, i2)),
                        idx(2, chunk(first, i2)),
                    ) == leaf_entry(chunk(pa, i2), prot) {
                    assert(old(self).leaf_table(chunk(first, i)) >= 0);
                    assert(pre.leaf_table(a) == old(self).leaf_table(a));
                    assert(pre.entry_spec(pre.leaf_table(a), idx(2, a)) == leaf_entry(p, prot));
                }
            }
            let ok = self.map_giant(a, p, prot);
            proof {
                if ok {
                    assert forall|i2: int| 0 <= i2 < i + 1 implies #[trigger] self.leaf_table(
                        chunk(first, i2),
                    ) >= 0 by {
                        if i2 < i {
                            assert(pre.leaf_table(chunk(first, i2)) >= 0);
                        }
                    }
                }
            }
            if !ok {
                proof {
                    assert(pre.translate(a) & 1 != 1);
                    if forall|i2: int|
                        0 <= i2 < k ==> #[trigger] old(self).translate(chunk(first, i2)) & 1 == 1 {
                        assert(old(self).translate(chunk(first, i)) & 1 == 1);
                        lemma_mapped_range_valid(*old(self), first, pa, i as nat, prot, a);
                        assert(false);
                    }
                    assert forall|v: u64|
                        (forall|i3: int|
                            0 <= i3 < k ==> !same_giant(
                                depth,
                                v,
                                #[trigger] chunk(first, i3),
                            )) implies self.translate(v) == old(self).translate(v) by {
                        lemma_mapped_range_outside(*old(self), first, pa, i as nat, prot, v);
                    }
                    assert(forall|v: u64|
                        (forall|i3: int|
                            0 <= i3 < chunk_count(va, len) ==> !same_giant(
                                old(self).depth(),
                                v,
                                #[trigger] chunk(giant_floor(va), i3),
                            )) ==> self.translate(v) == old(self).translate(v));
                }
                return false;
            }
            if a == last {
                return true;
            }
            a = a + 0x4000_0000;
            p = p + 0x4000_0000;
            proof {
                i = i + 1;
            }
        }
    }
}

} // verus!
