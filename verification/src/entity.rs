//! Entity handles and the allocator that hands them out.
//!
//! An index says where an entity lives, a generation says which of the
//! entities that have lived there it is. Only the two together are a handle,
//! which is what makes a handle kept across a despawn detectable instead of
//! silently addressing its successor.
use vstd::prelude::*;

verus! {

/// The largest generation a slot can hold.
pub const LAST_GENERATION: u32 = 0xffff_ffffu32;

/// An opaque handle to an entity: a 32-bit index and a non-zero 32-bit
/// generation.
///
/// A handle is only meaningful in the table that produced it.
#[derive(Clone, Copy, PartialEq, Eq, Structural, PartialOrd, Ord, Hash, Debug)]
pub struct Entity {
    index: u32,
    generation: u32,
}

impl View for Entity {
    /// The pair (index, generation).
    type V = (u32, u32);

    closed spec fn view(&self) -> (u32, u32) {
        (self.index, self.generation)
    }
}

impl Entity {
    /// Where the entity lives. Unique among live entities, reused after a
    /// despawn.
    pub fn index(self) -> (r: u32)
        ensures
            r == self@.0,
    {
        self.index
    }

    /// Which of the entities that have occupied this index it is. Starts at
    /// one and rises by one per despawn.
    pub fn generation(self) -> (r: u32)
        ensures
            r == self@.1,
    {
        self.generation
    }

    /// Rebuilds a handle from its two parts; `None` for generation zero, which
    /// no table ever hands out.
    pub fn from_raw_parts(index: u32, generation: u32) -> (r: Option<Entity>)
        ensures
            r is Some <==> generation != 0,
            r matches Some(e) ==> e@ == (index, generation),
    {
        if generation == 0 {
            None
        } else {
            Some(Entity { index, generation })
        }
    }

    /// The handle as one token, `{index}v{generation}`.
    pub fn to_string(self) -> (r: String)
        ensures
            r@ == crate::text::decimal(self@.0 as nat) + "v"@ + crate::text::decimal(
                self@.1 as nat,
            ),
    {
        let mut r = crate::text::u32_to_decimal(self.index);
        r.append("v");
        let g = crate::text::u32_to_decimal(self.generation);
        r.append(g.as_str());
        r
    }
}

/// What a slot of the table holds, as far as handles can tell.
pub enum SlotState {
    /// A live entity of this generation occupies the slot.
    Alive(u32),
    /// The slot is free; the next entity placed here gets this generation.
    Free(u32),
    /// The generation cannot be raised again: the slot is out of circulation.
    Retired,
}

impl SlotState {
    pub open spec fn is_alive(self) -> bool {
        self is Alive
    }

    pub open spec fn generation(self) -> u32 {
        match self {
            SlotState::Alive(g) => g,
            SlotState::Free(g) => g,
            SlotState::Retired => 0,
        }
    }
}

/// How many slots hold a live entity.
pub open spec fn count_alive(slots: Seq<SlotState>) -> nat
    decreases slots.len(),
{
    if slots.len() == 0 {
        0
    } else {
        count_alive(slots.drop_last()) + if slots.last().is_alive() {
            1nat
        } else {
            0nat
        }
    }
}

/// The mathematical model of an entity table: its slots, and the free indices
/// in the order they will be reused (most recently freed first).
pub struct EntityTable {
    pub slots: Seq<SlotState>,
    pub free: Seq<u32>,
}

impl EntityTable {
    pub open spec fn empty() -> EntityTable {
        EntityTable { slots: Seq::empty(), free: Seq::empty() }
    }

    /// The shape every table reachable through the public operations has.
    pub open spec fn wf(self) -> bool {
        &&& self.slots.len() <= LAST_GENERATION + 1
        &&& self.len() <= LAST_GENERATION
        &&& forall|i: int|
            0 <= i < self.slots.len() && !(self.slots[i] is Retired) ==> #[trigger] self.slots[i].generation() >= 1
        &&& self.free.no_duplicates()
        &&& forall|k: int|
            0 <= k < self.free.len() ==> #[trigger] self.free[k] < self.slots.len()
                && self.slots[self.free[k] as int] is Free
        &&& forall|i: int|
            0 <= i < self.slots.len() && #[trigger] self.slots[i] is Free ==> self.free.contains(
                i as u32,
            )
    }

    /// Whether the handle names a live entity.
    pub open spec fn contains(self, e: (u32, u32)) -> bool {
        e.0 < self.slots.len() && self.slots[e.0 as int] == SlotState::Alive(e.1)
    }

    /// How many entities are alive.
    pub open spec fn len(self) -> nat {
        count_alive(self.slots)
    }

    /// Whether an allocation can succeed: an index is free or a fresh one
    /// remains, and the live count stays representable.
    pub open spec fn can_allocate(self) -> bool {
        &&& self.free.len() > 0 || self.slots.len() <= LAST_GENERATION
        &&& self.len() < LAST_GENERATION
    }

    /// Allocation: the most recently freed index if there is one, else the
    /// next fresh index at generation one.
    pub open spec fn allocate(self) -> (EntityTable, (u32, u32)) {
        if self.free.len() > 0 {
            let i = self.free[0];
            let g = self.slots[i as int].generation();
            (
                EntityTable {
                    slots: self.slots.update(i as int, SlotState::Alive(g)),
                    free: self.free.drop_first(),
                },
                (i, g),
            )
        } else {
            (
                EntityTable { slots: self.slots.push(SlotState::Alive(1)), free: self.free },
                (self.slots.len() as u32, 1u32),
            )
        }
    }

    /// Freeing: a handle that does not name a live entity changes nothing; a
    /// live one frees its slot at the next generation, or retires it when the
    /// generation cannot be raised.
    pub open spec fn free(self, e: (u32, u32)) -> (EntityTable, bool) {
        if !self.contains(e) {
            (self, false)
        } else if e.1 < LAST_GENERATION {
            (
                EntityTable {
                    slots: self.slots.update(e.0 as int, SlotState::Free((e.1 + 1) as u32)),
                    free: seq![e.0] + self.free,
                },
                true,
            )
        } else {
            (
                EntityTable {
                    slots: self.slots.update(e.0 as int, SlotState::Retired),
                    free: self.free,
                },
                true,
            )
        }
    }

    /// A handle whose slot has moved past it: freed, reused or retired.
    pub open spec fn is_stale(self, e: (u32, u32)) -> bool {
        &&& e.0 < self.slots.len()
        &&& match self.slots[e.0 as int] {
            SlotState::Retired => true,
            SlotState::Alive(g) => g > e.1,
            SlotState::Free(g) => g > e.1,
        }
    }

    /// The table with the slot at `i` driven to the last generation.
    pub open spec fn with_last_generation(self, i: u32) -> EntityTable {
        EntityTable {
            slots: self.slots.update(
                i as int,
                match self.slots[i as int] {
                    SlotState::Alive(_) => SlotState::Alive(LAST_GENERATION),
                    SlotState::Free(_) => SlotState::Free(LAST_GENERATION),
                    SlotState::Retired => SlotState::Retired,
                },
            ),
            free: self.free,
        }
    }
}

proof fn lemma_count_update(s: Seq<SlotState>, i: int, x: SlotState)
    requires
        0 <= i < s.len(),
    ensures
        count_alive(s.update(i, x)) + (if s[i].is_alive() {
            1int
        } else {
            0int
        }) == count_alive(s) + (if x.is_alive() {
            1int
        } else {
            0int
        }),
    decreases s.len(),
{
    if i == s.len() - 1 {
        assert(s.update(i, x).drop_last() =~= s.drop_last());
    } else {
        lemma_count_update(s.drop_last(), i, x);
        assert(s.update(i, x).drop_last() =~= s.drop_last().update(i, x));
    }
}

proof fn lemma_count_push(s: Seq<SlotState>, x: SlotState)
    ensures
        count_alive(s.push(x)) == count_alive(s) + (if x.is_alive() {
            1nat
        } else {
            0nat
        }),
{
    assert(s.push(x).drop_last() =~= s);
}

/// Allocation keeps a valid table valid.
proof fn lemma_allocate_wf(t: EntityTable)
    requires
        t.wf(),
        t.can_allocate(),
    ensures
        t.allocate().0.wf(),
        t.allocate().0.len() == t.len() + 1,
        t.allocate().0.contains(t.allocate().1),
        !t.contains(t.allocate().1),
        t.allocate().1.1 >= 1,
{
    let (t2, e) = t.allocate();
    if t.free.len() > 0 {
        let i = t.free[0];
        assert(t.slots[i as int] is Free);
        lemma_count_update(t.slots, i as int, SlotState::Alive(t.slots[i as int].generation()));
        assert forall|k: int| 0 <= k < t2.free.len() implies #[trigger] t2.free[k] < t2.slots.len()
            && t2.slots[t2.free[k] as int] is Free by {
            assert(t2.free[k] == t.free[k + 1]);
            assert(t.free[k + 1] != t.free[0]);
        }
        assert forall|j: int|
            0 <= j < t2.slots.len() && #[trigger] t2.slots[j] is Free implies t2.free.contains(
                j as u32,
            ) by {
            assert(j != i);
            assert(t.slots[j] is Free);
            assert(t.free.contains(j as u32));
            let k = choose|k: int| 0 <= k < t.free.len() && t.free[k] == j as u32;
            assert(k != 0);
            assert(t2.free[k - 1] == j as u32);
        }
        assert forall|j: int|
            0 <= j < t2.slots.len() && !(t2.slots[j] is Retired) implies #[trigger] t2.slots[j].generation()
            >= 1 by {
            if j != i {
                assert(t2.slots[j] == t.slots[j]);
            }
        }
    } else {
        lemma_count_push(t.slots, SlotState::Alive(1));
        assert forall|j: int|
            0 <= j < t2.slots.len() && #[trigger] t2.slots[j] is Free implies t2.free.contains(
                j as u32,
            ) by {
            assert(j < t.slots.len());
            assert(t.slots[j] is Free);
        }
        assert forall|j: int|
            0 <= j < t2.slots.len() && !(t2.slots[j] is Retired) implies #[trigger] t2.slots[j].generation()
            >= 1 by {
            if j < t.slots.len() {
                assert(t2.slots[j] == t.slots[j]);
            }
        }
    }
}

/// Freeing keeps a valid table valid.
proof fn lemma_free_wf(t: EntityTable, e: (u32, u32))
    requires
        t.wf(),
    ensures
        t.free(e).0.wf(),
        t.free(e).1 == t.contains(e),
        t.free(e).1 ==> t.free(e).0.len() + 1 == t.len(),
        !t.free(e).1 ==> t.free(e).0 == t,
        !t.free(e).0.contains(e),
{
    let (t2, r) = t.free(e);
    if r {
        let i = e.0 as int;
        let x = if e.1 < LAST_GENERATION {
            SlotState::Free((e.1 + 1) as u32)
        } else {
            SlotState::Retired
        };
        assert(t2.slots == t.slots.update(i, x));
        lemma_count_update(t.slots, i, x);
        if e.1 < LAST_GENERATION {
            assert(!t.free.contains(e.0)) by {
                if t.free.contains(e.0) {
                    let k = choose|k: int| 0 <= k < t.free.len() && t.free[k] == e.0;
                    assert(t.slots[t.free[k] as int] is Free);
                }
            }
            assert(t2.free.no_duplicates()) by {
                assert forall|a: int, b: int|
                    0 <= a < t2.free.len() && 0 <= b < t2.free.len() && a != b implies t2.free[a]
                    != t2.free[b] by {
                    if a == 0 {
                        assert(t2.free[b] == t.free[b - 1]);
                    } else if b == 0 {
                        assert(t2.free[a] == t.free[a - 1]);
                    } else {
                        assert(t2.free[a] == t.free[a - 1]);
                        assert(t2.free[b] == t.free[b - 1]);
                    }
                }
            }
            assert forall|k: int| 0 <= k < t2.free.len() implies #[trigger] t2.free[k]
                < t2.slots.len() && t2.slots[t2.free[k] as int] is Free by {
                if k > 0 {
                    assert(t2.free[k] == t.free[k - 1]);
                    assert(t.free[k - 1] != e.0);
                }
            }
            assert forall|j: int|
                0 <= j < t2.slots.len() && #[trigger] t2.slots[j] is Free implies t2.free.contains(
                    j as u32,
                ) by {
                if j == i {
                    assert(t2.free[0] == j as u32);
                } else {
                    assert(t.slots[j] is Free);
                    let k = choose|k: int| 0 <= k < t.free.len() && t.free[k] == j as u32;
                    assert(t2.free[k + 1] == j as u32);
                }
            }
        } else {
            assert forall|k: int| 0 <= k < t2.free.len() implies #[trigger] t2.free[k]
                < t2.slots.len() && t2.slots[t2.free[k] as int] is Free by {
                assert(t.slots[t.free[k] as int] is Free);
                assert(t.free[k] != e.0);
            }
            assert forall|j: int|
                0 <= j < t2.slots.len() && #[trigger] t2.slots[j] is Free implies t2.free.contains(
                    j as u32,
                ) by {
                assert(j != i);
                assert(t.slots[j] is Free);
            }
        }
        assert forall|j: int|
            0 <= j < t2.slots.len() && !(t2.slots[j] is Retired) implies #[trigger] t2.slots[j].generation()
            >= 1 by {
            if j != i {
                assert(t2.slots[j] == t.slots[j]);
            }
        }
    }
}

/// Law: an allocation hands out a handle that was not live before, is live
/// after, and has a non-zero generation; the live count rises by one.
pub proof fn law_allocate_yields_fresh_live_handle(t: EntityTable)
    requires
        t.wf(),
        t.can_allocate(),
    ensures
        t.allocate().0.wf(),
        !t.contains(t.allocate().1),
        t.allocate().0.contains(t.allocate().1),
        t.allocate().1.1 >= 1,
        t.allocate().0.len() == t.len() + 1,
{
    lemma_allocate_wf(t);
}

/// Law: freeing reports whether the handle was live; afterwards the handle is
/// not live, and if it was, it is stale and the live count fell by one. A
/// handle that was not live changes nothing.
pub proof fn law_free_reports_and_kills(t: EntityTable, e: (u32, u32))
    requires
        t.wf(),
    ensures
        t.free(e).0.wf(),
        t.free(e).1 == t.contains(e),
        !t.free(e).0.contains(e),
        t.free(e).1 ==> t.free(e).0.is_stale(e) && t.free(e).0.len() + 1 == t.len(),
        !t.free(e).1 ==> t.free(e).0 == t,
{
    lemma_free_wf(t, e);
}

/// Law: a stale handle never names a live entity, and stays stale across every
/// allocation and every free.
pub proof fn law_stale_stays_stale(t: EntityTable, e: (u32, u32), other: (u32, u32))
    requires
        t.wf(),
        t.is_stale(e),
    ensures
        !t.contains(e),
        t.can_allocate() ==> t.allocate().0.is_stale(e),
        t.free(other).0.is_stale(e),
{
    if t.can_allocate() && t.free.len() > 0 {
        let i = t.free[0];
        assert(t.slots[i as int] is Free);
    }
}

/// Law: reuse is last-in-first-out. Freeing a live handle and allocating
/// again hands out the same index at the next generation.
pub proof fn law_free_then_allocate_reuses_index(t: EntityTable, e: (u32, u32))
    requires
        t.wf(),
        t.contains(e),
        e.1 < LAST_GENERATION,
    ensures
        t.free(e).0.can_allocate(),
        t.free(e).0.allocate().1 == (e.0, (e.1 + 1) as u32),
{
    lemma_free_wf(t, e);
}

/// Law: a slot freed at the last generation is retired: it is never handed out
/// again, and the free list is left as it was.
pub proof fn law_retired_slot_is_never_reused(t: EntityTable, e: (u32, u32))
    requires
        t.wf(),
        t.contains(e),
        e.1 == LAST_GENERATION,
    ensures
        t.free(e).0.slots[e.0 as int] is Retired,
        t.free(e).0.free == t.free,
        t.free(e).0.can_allocate() ==> t.free(e).0.allocate().1.0 != e.0 && t.free(e).0.allocate().0.slots[e.0 as int] is Retired,
{
    lemma_free_wf(t, e);
    let t2 = t.free(e).0;
    if t2.can_allocate() && t2.free.len() > 0 {
        assert(t2.slots[t2.free[0] as int] is Free);
    }
}

/// Law: while nothing is free, indices are handed out in order, each at
/// generation one.
pub proof fn law_fresh_indices_in_order(t: EntityTable)
    requires
        t.wf(),
        t.can_allocate(),
        t.free.len() == 0,
    ensures
        t.allocate().1 == (t.slots.len() as u32, 1u32),
        t.allocate().0.free.len() == 0,
{
}

/// Law: an index is unique among live entities: two live handles with the
/// same index are the same handle.
pub proof fn law_live_index_is_unique(t: EntityTable, a: (u32, u32), b: (u32, u32))
    requires
        t.contains(a),
        t.contains(b),
        a.0 == b.0,
    ensures
        a == b,
{
}

/// Law: a live handle stays valid until it is freed itself: allocations and
/// frees of other handles leave it live.
pub proof fn law_live_handle_stays_live(t: EntityTable, e: (u32, u32), other: (u32, u32))
    requires
        t.wf(),
        t.contains(e),
        other != e,
    ensures
        t.free(other).0.contains(e),
        t.can_allocate() ==> t.allocate().0.contains(e),
{
    if t.can_allocate() && t.free.len() > 0 {
        assert(t.slots[t.free[0] as int] is Free);
    }
}

/// One operation on an entity table.
pub enum TableOp {
    /// Allocate a handle.
    Allocate,
    /// Free the handle with this index and generation.
    Free(u32, u32),
}

/// The table after one operation.
pub open spec fn after_op(t: EntityTable, op: TableOp) -> EntityTable {
    match op {
        TableOp::Allocate => t.allocate().0,
        TableOp::Free(i, g) => t.free((i, g)).0,
    }
}

/// The table after a run of operations.
pub open spec fn run(t: EntityTable, ops: Seq<TableOp>) -> EntityTable
    decreases ops.len(),
{
    if ops.len() == 0 {
        t
    } else {
        after_op(run(t, ops.drop_last()), ops.last())
    }
}

/// The table just before operation `k` of the run.
pub open spec fn before_op(t: EntityTable, ops: Seq<TableOp>, k: int) -> EntityTable {
    run(t, ops.take(k))
}

/// Every allocation of the run is one that can succeed.
pub open spec fn allowed(t: EntityTable, ops: Seq<TableOp>) -> bool {
    forall|k: int|
        0 <= k < ops.len() && ops[k] is Allocate ==> #[trigger] before_op(t, ops, k).can_allocate()
}

/// The handle operation `k` of the run hands out, when it is an allocation.
pub open spec fn handed_out(t: EntityTable, ops: Seq<TableOp>, k: int) -> (u32, u32) {
    before_op(t, ops, k).allocate().1
}

/// Operation `k` of the run frees the live handle `h`.
pub open spec fn frees(t: EntityTable, ops: Seq<TableOp>, k: int, h: (u32, u32)) -> bool {
    ops[k] == TableOp::Free(h.0, h.1) && before_op(t, ops, k).contains(h)
}

/// A handle the table has handed out at some point: its slot exists and has
/// reached its generation.
pub open spec fn issued(t: EntityTable, h: (u32, u32)) -> bool {
    &&& h.0 < t.slots.len()
    &&& 1 <= h.1
    &&& match t.slots[h.0 as int] {
        SlotState::Alive(g) => h.1 <= g,
        SlotState::Free(g) => h.1 < g,
        SlotState::Retired => true,
    }
}

proof fn lemma_take_step(ops: Seq<TableOp>, k: int)
    requires
        0 <= k < ops.len(),
    ensures
        ops.take(k + 1).drop_last() == ops.take(k),
        ops.take(k + 1).last() == ops[k],
{
    assert(ops.take(k + 1).drop_last() =~= ops.take(k));
}

proof fn lemma_run_step(t: EntityTable, ops: Seq<TableOp>, k: int)
    requires
        0 <= k < ops.len(),
    ensures
        before_op(t, ops, k + 1) == after_op(before_op(t, ops, k), ops[k]),
{
    lemma_take_step(ops, k);
}

proof fn lemma_step_wf(t: EntityTable, op: TableOp)
    requires
        t.wf(),
        op is Allocate ==> t.can_allocate(),
    ensures
        after_op(t, op).wf(),
{
    match op {
        TableOp::Allocate => lemma_allocate_wf(t),
        TableOp::Free(i, g) => lemma_free_wf(t, (i, g)),
    }
}

proof fn lemma_run_wf(t: EntityTable, ops: Seq<TableOp>, k: int)
    requires
        t.wf(),
        allowed(t, ops),
        0 <= k <= ops.len(),
    ensures
        before_op(t, ops, k).wf(),
    decreases k,
{
    if k == 0 {
        assert(ops.take(0) =~= Seq::<TableOp>::empty());
    } else {
        lemma_run_wf(t, ops, k - 1);
        lemma_run_step(t, ops, k - 1);
        if ops[k - 1] is Allocate {
            assert(before_op(t, ops, k - 1).can_allocate());
        }
        lemma_step_wf(before_op(t, ops, k - 1), ops[k - 1]);
    }
}

proof fn lemma_step_issued(t: EntityTable, op: TableOp, h: (u32, u32))
    requires
        t.wf(),
        op is Allocate ==> t.can_allocate(),
        issued(t, h),
    ensures
        issued(after_op(t, op), h),
{
    if op is Allocate && t.free.len() > 0 {
        assert(t.slots[t.free[0] as int] is Free);
    }
}

proof fn lemma_issued_persists(t: EntityTable, ops: Seq<TableOp>, h: (u32, u32), a: int, b: int)
    requires
        t.wf(),
        allowed(t, ops),
        0 <= a <= b <= ops.len(),
        issued(before_op(t, ops, a), h),
    ensures
        issued(before_op(t, ops, b), h),
    decreases b - a,
{
    if a < b {
        lemma_run_wf(t, ops, a);
        lemma_run_step(t, ops, a);
        if ops[a] is Allocate {
            assert(before_op(t, ops, a).can_allocate());
        }
        lemma_step_issued(before_op(t, ops, a), ops[a], h);
        lemma_issued_persists(t, ops, h, a + 1, b);
    }
}

/// Law: a table never hands out the same handle twice. A reused index comes
/// back at a higher generation, and a retired one not at all.
pub proof fn law_never_hands_out_twice(t: EntityTable, ops: Seq<TableOp>, i: int, j: int)
    requires
        t.wf(),
        allowed(t, ops),
        0 <= i < j < ops.len(),
        ops[i] is Allocate,
        ops[j] is Allocate,
    ensures
        handed_out(t, ops, i) != handed_out(t, ops, j),
{
    let ti = before_op(t, ops, i);
    let tj = before_op(t, ops, j);
    lemma_run_wf(t, ops, i);
    lemma_run_wf(t, ops, j);
    assert(ti.can_allocate());
    assert(tj.can_allocate());
    lemma_allocate_wf(ti);
    lemma_allocate_wf(tj);
    lemma_run_step(t, ops, i);
    let h = handed_out(t, ops, i);
    assert(issued(before_op(t, ops, i + 1), h));
    lemma_issued_persists(t, ops, h, i + 1, j);
    if tj.free.len() > 0 {
        assert(tj.slots[tj.free[0] as int] is Free);
    }
}

proof fn lemma_allocate_contains(t: EntityTable, h: (u32, u32))
    requires
        t.wf(),
        t.can_allocate(),
        h != t.allocate().1,
    ensures
        t.allocate().0.contains(h) == t.contains(h),
{
    if t.free.len() > 0 {
        assert(t.slots[t.free[0] as int] is Free);
    }
}

proof fn lemma_free_contains(t: EntityTable, g: (u32, u32), h: (u32, u32))
    requires
        t.wf(),
    ensures
        t.free(g).0.contains(h) == (t.contains(h) && !(g == h && t.contains(g))),
{
}

/// Whether `h` is live after the run, told from the run alone: some
/// allocation handed it out, and no later operation freed it.
pub open spec fn live_by_history(t: EntityTable, ops: Seq<TableOp>, h: (u32, u32)) -> bool {
    exists|i: int|
        0 <= i < ops.len() && ops[i] is Allocate && #[trigger] handed_out(t, ops, i) == h
            && forall|j: int| i < j < ops.len() ==> !#[trigger] frees(t, ops, j, h)
}

proof fn lemma_history(ops: Seq<TableOp>, h: (u32, u32))
    requires
        allowed(EntityTable::empty(), ops),
    ensures
        run(EntityTable::empty(), ops).contains(h) == live_by_history(EntityTable::empty(), ops, h),
    decreases ops.len(),
{
    let t0 = EntityTable::empty();
    let n = ops.len() as int;
    if n == 0 {
    } else {
        let p = ops.drop_last();
        assert forall|k: int| 0 <= k < p.len() implies #[trigger] p.take(k) == ops.take(k) by {
            assert(p.take(k) =~= ops.take(k));
        }
        assert forall|k: int| 0 <= k < p.len() implies before_op(t0, p, k) == before_op(t0, ops, k) by {
            assert(p.take(k) == ops.take(k));
        }
        assert(allowed(t0, p)) by {
            assert forall|k: int| 0 <= k < p.len() && p[k] is Allocate implies #[trigger] before_op(
                t0,
                p,
                k,
            ).can_allocate() by {
                assert(before_op(t0, p, k) == before_op(t0, ops, k));
                assert(ops[k] == p[k]);
            }
        }
        lemma_history(p, h);
        let tp = run(t0, p);
        assert(ops.take(n - 1) =~= p);
        assert(tp == before_op(t0, ops, n - 1));
        lemma_run_wf(t0, ops, n - 1);
        assert(run(t0, ops) == after_op(tp, ops.last()));
        assert(ops.last() == ops[n - 1]);
        match ops.last() {
            TableOp::Allocate => {
                assert(tp.can_allocate());
                lemma_allocate_wf(tp);
                let e = tp.allocate().1;
                assert(handed_out(t0, ops, n - 1) == e);
                if h == e {
                    assert(live_by_history(t0, ops, h));
                } else {
                    lemma_allocate_contains(tp, h);
                    if live_by_history(t0, ops, h) {
                        let i = choose|i: int|
                            0 <= i < ops.len() && ops[i] is Allocate && #[trigger] handed_out(
                                t0,
                                ops,
                                i,
                            ) == h && forall|j: int| i < j < ops.len() ==> !#[trigger] frees(t0, ops, j, h);
                        assert(i < n - 1);
                        assert(handed_out(t0, p, i) == h);
                        assert forall|j: int| i < j < p.len() implies !#[trigger] frees(t0, p, j, h) by {
                            assert(!frees(t0, ops, j, h));
                            assert(before_op(t0, p, j) == before_op(t0, ops, j));
                        }
                        assert(live_by_history(t0, p, h));
                    }
                    if live_by_history(t0, p, h) {
                        let i = choose|i: int|
                            0 <= i < p.len() && p[i] is Allocate && #[trigger] handed_out(t0, p, i)
                                == h && forall|j: int| i < j < p.len() ==> !#[trigger] frees(t0, p, j, h);
                        assert(handed_out(t0, ops, i) == h);
                        assert forall|j: int| i < j < ops.len() implies !#[trigger] frees(t0, ops, j, h) by {
                            if j < n - 1 {
                                assert(!frees(t0, p, j, h));
                                assert(before_op(t0, p, j) == before_op(t0, ops, j));
                            }
                        }
                        assert(live_by_history(t0, ops, h));
                    }
                }
            },
            TableOp::Free(gi, gg) => {
                let g = (gi, gg);
                lemma_free_contains(tp, g, h);
                let last_frees = frees(t0, ops, n - 1, h);
                assert(last_frees == (g == h && tp.contains(g)));
                if live_by_history(t0, ops, h) {
                    let i = choose|i: int|
                        0 <= i < ops.len() && ops[i] is Allocate && #[trigger] handed_out(t0, ops, i)
                            == h && forall|j: int| i < j < ops.len() ==> !#[trigger] frees(t0, ops, j, h);
                    assert(i < n - 1);
                    assert(handed_out(t0, p, i) == h);
                    assert forall|j: int| i < j < p.len() implies !#[trigger] frees(t0, p, j, h) by {
                        assert(!frees(t0, ops, j, h));
                        assert(before_op(t0, p, j) == before_op(t0, ops, j));
                    }
                    assert(live_by_history(t0, p, h));
                    assert(!last_frees);
                }
                if live_by_history(t0, p, h) && !last_frees {
                    let i = choose|i: int|
                        0 <= i < p.len() && p[i] is Allocate && #[trigger] handed_out(t0, p, i) == h
                            && forall|j: int| i < j < p.len() ==> !#[trigger] frees(t0, p, j, h);
                    assert(handed_out(t0, ops, i) == h);
                    assert forall|j: int| i < j < ops.len() implies !#[trigger] frees(t0, ops, j, h) by {
                        if j < n - 1 {
                            assert(!frees(t0, p, j, h));
                            assert(before_op(t0, p, j) == before_op(t0, ops, j));
                        }
                    }
                    assert(live_by_history(t0, ops, h));
                }
            },
        }
    }
}

/// Law: in a table that started empty, a handle is live exactly when some
/// allocation handed it out and no later free of it succeeded.
pub proof fn law_contains_by_history(ops: Seq<TableOp>, h: (u32, u32))
    requires
        allowed(EntityTable::empty(), ops),
    ensures
        run(EntityTable::empty(), ops).contains(h) == live_by_history(
            EntityTable::empty(),
            ops,
            h,
        ),
{
    lemma_history(ops, h);
}

/// The live handles of a list of slots.
pub open spec fn live_handles(slots: Seq<SlotState>) -> Set<(u32, u32)> {
    Set::new(|h: (u32, u32)| h.0 < slots.len() && slots[h.0 as int] == SlotState::Alive(h.1))
}

proof fn lemma_live_handles(slots: Seq<SlotState>)
    requires
        slots.len() <= LAST_GENERATION + 1,
    ensures
        live_handles(slots).finite(),
        live_handles(slots).len() == count_alive(slots),
    decreases slots.len(),
{
    if slots.len() == 0 {
        assert(live_handles(slots) =~= Set::<(u32, u32)>::empty());
    } else {
        let s = slots.drop_last();
        lemma_live_handles(s);
        let n = slots.len() as int;
        match slots.last() {
            SlotState::Alive(g) => {
                let e = ((n - 1) as u32, g);
                assert(live_handles(slots) =~= live_handles(s).insert(e)) by {
                    assert forall|h: (u32, u32)| #[trigger] live_handles(slots).contains(h) implies live_handles(
                        s,
                    ).insert(e).contains(h) by {
                        if h.0 != n - 1 {
                            assert(s[h.0 as int] == slots[h.0 as int]);
                        }
                    }
                    assert forall|h: (u32, u32)| #[trigger] live_handles(s).insert(e).contains(h) implies live_handles(
                        slots,
                    ).contains(h) by {
                        if h != e {
                            assert(s[h.0 as int] == slots[h.0 as int]);
                        }
                    }
                }
                assert(!live_handles(s).contains(e));
            },
            _ => {
                assert(live_handles(slots) =~= live_handles(s)) by {
                    assert forall|h: (u32, u32)| #[trigger] live_handles(slots).contains(h) implies live_handles(
                        s,
                    ).contains(h) by {
                        assert(h.0 != n - 1);
                        assert(s[h.0 as int] == slots[h.0 as int]);
                    }
                    assert forall|h: (u32, u32)| #[trigger] live_handles(s).contains(h) implies live_handles(
                        slots,
                    ).contains(h) by {
                        assert(s[h.0 as int] == slots[h.0 as int]);
                    }
                }
            },
        }
    }
}

/// Law: the live count is the number of distinct live handles.
pub proof fn law_count_is_live_handles(t: EntityTable)
    requires
        t.wf(),
    ensures
        Set::new(|h: (u32, u32)| t.contains(h)).finite(),
        Set::new(|h: (u32, u32)| t.contains(h)).len() == t.len(),
{
    lemma_live_handles(t.slots);
    assert(Set::new(|h: (u32, u32)| t.contains(h)) =~= live_handles(t.slots));
}

/// One entry of the entity table. A free slot carries the index of the next
/// free one, which threads the free list through the table.
#[derive(Clone, Copy, Debug)]
pub enum Slot {
    Alive { generation: u32 },
    Free { generation: u32, next: Option<u32> },
    Retired,
}

impl Slot {
    pub open spec fn state(self) -> SlotState {
        match self {
            Slot::Alive { generation } => SlotState::Alive(generation),
            Slot::Free { generation, .. } => SlotState::Free(generation),
            Slot::Retired => SlotState::Retired,
        }
    }
}

/// The entity table and the free list over it.
pub struct Entities {
    slots: Vec<Slot>,
    free_head: Option<u32>,
    alive: u32,
    free_order: Ghost<Seq<u32>>,
}

impl View for Entities {
    type V = EntityTable;

    closed spec fn view(&self) -> EntityTable {
        EntityTable {
            slots: self.slots@.map_values(|s: Slot| s.state()),
            free: self.free_order@,
        }
    }
}

impl Entities {
    /// The table is well formed and its concrete free list, head and count
    /// agree with the model.
    pub closed spec fn inv(&self) -> bool {
        &&& self@.wf()
        &&& self.free_head == (if self.free_order@.len() > 0 {
            Some(self.free_order@[0])
        } else {
            None
        })
        &&& forall|k: int|
            0 <= k < self.free_order@.len() ==> (#[trigger] self.slots@[self.free_order@[k] as int]
                matches Slot::Free { next, .. } && next == (if k + 1 < self.free_order@.len() {
                Some(self.free_order@[k + 1])
            } else {
                None
            }))
        &&& self.alive as nat == self@.len()
    }

    /// A table whose representation is consistent models a valid table.
    pub proof fn lemma_inv_wf(&self)
        requires
            self.inv(),
        ensures
            self@.wf(),
    {
    }

    /// An empty table.
    pub fn new() -> (r: Entities)
        ensures
            r.inv(),
            r@ == EntityTable::empty(),
    {
        let r = Entities {
            slots: Vec::new(),
            free_head: None,
            alive: 0,
            free_order: Ghost(Seq::empty()),
        };
        assert(r@.slots =~= Seq::<SlotState>::empty());
        r
    }

    /// Hands out a handle, reusing the most recently freed index if there is
    /// one.
    pub fn allocate(&mut self) -> (e: Entity)
        requires
            old(self).inv(),
            old(self)@.can_allocate(),
        ensures
            final(self).inv(),
            (final(self)@, e@) == old(self)@.allocate(),
            final(self)@.len() == old(self)@.len() + 1,
            final(self)@.contains(e@),
    {
        proof {
            lemma_allocate_wf(self@);
        }
        let ghost t = self@;
        let ghost f = |s: Slot| s.state();
        let entity = match self.free_head {
            Some(index) => {
                assert(self.slots@[self.free_order@[0] as int] matches Slot::Free { .. });
                let slot = self.slots[index as usize];
                let (generation, next) = match slot {
                    Slot::Free { generation, next } => (generation, next),
                    _ => {
                        assert(false);
                        (1u32, None)
                    },
                };
                self.free_head = next;
                self.slots.set(index as usize, Slot::Alive { generation });
                proof {
                    self.free_order@ = self.free_order@.drop_first();
                }
                assert(self.slots@.map_values(f) =~= t.slots.update(
                    index as int,
                    SlotState::Alive(generation),
                ));
                assert forall|k: int| 0 <= k < self.free_order@.len() implies (
                #[trigger] self.slots@[self.free_order@[k] as int] matches Slot::Free { next, .. }
                    && next == (if k + 1 < self.free_order@.len() {
                    Some(self.free_order@[k + 1])
                } else {
                    None
                })) by {
                    assert(t.free[k + 1] != t.free[0]);
                    assert(self.free_order@[k] == t.free[k + 1]);
                }
                Entity { index, generation }
            },
            None => {
                let index = self.slots.len() as u32;
                self.slots.push(Slot::Alive { generation: 1 });
                assert(self.slots@.map_values(f) =~= t.slots.push(SlotState::Alive(1)));
                assert forall|k: int| 0 <= k < self.free_order@.len() implies (
                #[trigger] self.slots@[self.free_order@[k] as int] matches Slot::Free { next, .. }
                    && next == (if k + 1 < self.free_order@.len() {
                    Some(self.free_order@[k + 1])
                } else {
                    None
                })) by {
                }
                Entity { index, generation: 1 }
            },
        };
        self.alive = self.alive + 1;
        entity
    }

    /// Frees the index behind a handle and returns whether the handle named a
    /// live entity. A stale handle is rejected rather than freeing its
    /// successor.
    pub fn free(&mut self, entity: Entity) -> (r: bool)
        requires
            old(self).inv(),
        ensures
            final(self).inv(),
            (final(self)@, r) == old(self)@.free(entity@),
            r ==> final(self)@.len() + 1 == old(self)@.len(),
            !r ==> final(self)@ == old(self)@,
    {
        proof {
            lemma_free_wf(self@, entity@);
        }
        let ghost t = self@;
        let ghost f = |s: Slot| s.state();
        let next_free = self.free_head;
        let i = entity.index as usize;
        if i >= self.slots.len() {
            return false;
        }
        let slot = self.slots[i];
        let generation = match slot {
            Slot::Alive { generation } => generation,
            _ => {
                return false;
            },
        };
        if generation != entity.generation {
            return false;
        }
        assert(t.contains(entity@));
        match generation.checked_add(1) {
            Some(next_generation) => {
                assert(!self.free_order@.contains(entity.index)) by {
                    if self.free_order@.contains(entity.index) {
                        let k = choose|k: int|
                            0 <= k < self.free_order@.len() && self.free_order@[k] == entity.index;
                        assert(self.slots@[self.free_order@[k] as int] matches Slot::Free { .. });
                    }
                }
                self.slots.set(i, Slot::Free { generation: next_generation, next: next_free });
                self.free_head = Some(entity.index);
                proof {
                    self.free_order@ = seq![entity.index] + self.free_order@;
                }
                assert(self.slots@.map_values(f) =~= t.slots.update(
                    i as int,
                    SlotState::Free(next_generation),
                ));
                assert forall|k: int| 0 <= k < self.free_order@.len() implies (
                #[trigger] self.slots@[self.free_order@[k] as int] matches Slot::Free { next, .. }
                    && next == (if k + 1 < self.free_order@.len() {
                    Some(self.free_order@[k + 1])
                } else {
                    None
                })) by {
                    if k > 0 {
                        assert(self.free_order@[k] == t.free[k - 1]);
                        assert(t.free[k - 1] != entity.index);
                    }
                }
            },
            None => {
                self.slots.set(i, Slot::Retired);
                assert(self.slots@.map_values(f) =~= t.slots.update(i as int, SlotState::Retired));
                assert forall|k: int| 0 <= k < self.free_order@.len() implies (
                #[trigger] self.slots@[self.free_order@[k] as int] matches Slot::Free { next, .. }
                    && next == (if k + 1 < self.free_order@.len() {
                    Some(self.free_order@[k + 1])
                } else {
                    None
                })) by {
                    assert(t.slots[t.free[k] as int] is Free);
                    assert(self.free_order@[k] != entity.index);
                }
            },
        }
        self.alive = self.alive - 1;
        true
    }

    /// Whether another entity can be allocated: an index is free or a fresh
    /// one remains, and the live count stays representable.
    pub fn can_allocate(&self) -> (r: bool)
        requires
            self.inv(),
        ensures
            r == self@.can_allocate(),
    {
        (self.free_head.is_some() || self.slots.len() <= LAST_GENERATION as usize) && self.alive
            < LAST_GENERATION
    }

    /// Whether the handle names a live entity.
    pub fn contains(&self, entity: Entity) -> (r: bool)
        requires
            self.inv(),
        ensures
            r == self@.contains(entity@),
    {
        let i = entity.index as usize;
        if i >= self.slots.len() {
            return false;
        }
        match self.slots[i] {
            Slot::Alive { generation } => generation == entity.generation,
            _ => false,
        }
    }

    /// How many entities are alive.
    pub fn len(&self) -> (r: u32)
        requires
            self.inv(),
        ensures
            r as nat == self@.len(),
    {
        self.alive
    }

    /// Drives the slot at `index` to the last generation it can hold, so that
    /// retirement can be exercised without four billion despawns.
    pub fn exhaust_generation(&mut self, index: u32)
        requires
            old(self).inv(),
            index < old(self)@.slots.len(),
            !(old(self)@.slots[index as int] is Retired),
        ensures
            final(self).inv(),
            final(self)@ == old(self)@.with_last_generation(index),
            final(self)@.len() == old(self)@.len(),
    {
        let ghost t = self@;
        let ghost f = |s: Slot| s.state();
        let i = index as usize;
        let slot = self.slots[i];
        let replaced = match slot {
            Slot::Alive { .. } => Slot::Alive { generation: LAST_GENERATION },
            Slot::Free { next, .. } => Slot::Free { generation: LAST_GENERATION, next },
            Slot::Retired => Slot::Retired,
        };
        self.slots.set(i, replaced);
        assert(self.slots@.map_values(f) =~= t.with_last_generation(index).slots);
        proof {
            lemma_count_update(t.slots, i as int, t.with_last_generation(index).slots[i as int]);
        }
        assert forall|j: int|
            0 <= j < self@.slots.len() && #[trigger] self@.slots[j] is Free implies self@.free.contains(
                j as u32,
            ) by {
            assert(t.slots[j] is Free);
        }
        assert forall|k: int| 0 <= k < self.free_order@.len() implies (
        #[trigger] self.slots@[self.free_order@[k] as int] matches Slot::Free { next, .. } && next
            == (if k + 1 < self.free_order@.len() {
            Some(self.free_order@[k + 1])
        } else {
            None
        })) by {
            assert(t.slots[t.free[k] as int] is Free);
        }
        assert forall|j: int|
            0 <= j < self@.slots.len() && !(self@.slots[j] is Retired) implies #[trigger] self@.slots[j].generation()
            >= 1 by {
            if j != i {
                assert(self@.slots[j] == t.slots[j]);
            }
        }
    }
}

impl Default for Entities {
    fn default() -> (r: Entities)
        ensures
            r.inv(),
            r@ == EntityTable::empty(),
    {
        Entities::new()
    }
}

} // verus!
