//! The table core: one control byte and one typed bucket per slot, a probe
//! sequence over group-sized windows, insertion, erasure, clearing, and
//! growth.
//!
//! The control array holds `buckets + GROUP_WIDTH` bytes: every window read
//! starts at a slot index and may run into the trailing bytes, which mirror
//! the wrapped-around head of the array (and stay `EMPTY` where a table
//! smaller than one group leaves them unused). The verified invariant `wf`
//! ties the bytes, the typed slots and two ghost maps together: the model
//! map from keys to values, and the index of the slot holding each key,
//! reachable along its probe sequence before any window containing `EMPTY`.

use vstd::prelude::*;
use vstd::arithmetic::div_mod::{
    lemma_fundamental_div_mod, lemma_fundamental_div_mod_converse, lemma_mod_bound,
    lemma_mod_multiples_vanish, lemma_small_mod,
};
use vstd::arithmetic::power2::{lemma2_to64, lemma_pow2_adds, pow2};
use crate::binding::EntrySpec;
use crate::ctrl::{is_full, is_vacant, tag, tag_of, DELETED, EMPTY, GROUP_WIDTH};
use crate::group;
use crate::layout::TableLayout;
use crate::probe::{
    in_window, is_pow2, lemma_probe_pos_bound, lemma_probe_reaches, lemma_probe_step,
    lemma_win_off, probe_pos, probe_start, probe_steps, tri, win_off,
};

verus! {

/// Why a construction or growth could not be carried out. The table is left
/// in its last valid state when one of these is reported.
#[derive(Copy, Clone, Debug, PartialEq, Eq, Structural)]
pub enum TryReserveError {
    /// The requested capacity overflows the address-space arithmetic; this is
    /// checked before any allocation is attempted.
    CapacityOverflow,
    /// The allocator refused the request. The arena used here aborts instead
    /// of reporting failure, so this engine never returns it; it remains part
    /// of the error surface for allocators that do report.
    AllocError,
}

/// Number of occupied bytes `b` among the elements of `s`.
pub open spec fn count_eq(s: Seq<u8>, b: u8) -> nat
    decreases s.len(),
{
    if s.len() == 0 {
        0
    } else {
        count_eq(s.drop_last(), b) + if s.last() == b {
            1nat
        } else {
            0nat
        }
    }
}

proof fn lemma_count_update(s: Seq<u8>, i: int, x: u8, b: u8)
    requires
        0 <= i < s.len(),
    ensures
        count_eq(s.update(i, x), b) == count_eq(s, b) + (if x == b {
            1int
        } else {
            0int
        }) - (if s[i] == b {
            1int
        } else {
            0int
        }),
    decreases s.len(),
{
    let su = s.update(i, x);
    if i == s.len() - 1 {
        assert(su.drop_last() =~= s.drop_last());
    } else {
        lemma_count_update(s.drop_last(), i, x, b);
        assert(su.drop_last() =~= s.drop_last().update(i, x));
        assert(su.last() == s.last());
    }
}

proof fn lemma_count_nonzero_exists(s: Seq<u8>, b: u8)
    requires
        count_eq(s, b) > 0,
    ensures
        exists|i: int| 0 <= i < s.len() && s[i] == b,
    decreases s.len(),
{
    if s.last() == b {
        assert(s[s.len() - 1] == b);
    } else {
        lemma_count_nonzero_exists(s.drop_last(), b);
        let i = choose|i: int| 0 <= i < s.drop_last().len() && s.drop_last()[i] == b;
        assert(s[i] == b);
    }
}

proof fn lemma_count_none(s: Seq<u8>, b: u8)
    requires
        forall|i: int| 0 <= i < s.len() ==> s[i] != b,
    ensures
        count_eq(s, b) == 0,
    decreases s.len(),
{
    if s.len() > 0 {
        lemma_count_none(s.drop_last(), b);
    }
}

proof fn lemma_count_all(s: Seq<u8>, b: u8)
    requires
        forall|i: int| 0 <= i < s.len() ==> s[i] == b,
    ensures
        count_eq(s, b) == s.len(),
    decreases s.len(),
{
    if s.len() > 0 {
        lemma_count_all(s.drop_last(), b);
    }
}

/// Load-factor policy: entries a table of `m` buckets may hold before a
/// growth is forced (classically seven eighths, everything but one slot for
/// tables smaller than one eighth granularity).
pub open spec fn spec_capacity(m: nat) -> nat {
    if m == 0 {
        0
    } else if m < 8 {
        (m - 1) as nat
    } else {
        m / 8 * 7
    }
}

/// Smallest bucket count the policy grants for a requested capacity.
pub open spec fn next_pow2_from(p: nat, goal: nat) -> nat
    decreases (if goal > p {
        goal - p
    } else {
        0int
    }),
{
    if p >= goal || p == 0 {
        p
    } else {
        next_pow2_from(2 * p, goal)
    }
}

/// Bucket count for a requested capacity: a power of two whose load-factor
/// capacity covers the request.
pub open spec fn spec_buckets_for(cap: nat) -> nat {
    if cap < 4 {
        4
    } else if cap < 8 {
        8
    } else {
        next_pow2_from(8, cap * 8 / 7)
    }
}

/// The exact condition under which a request overflows: the bucket count the
/// policy asks for cannot be addressed.
pub open spec fn capacity_overflows(cap: nat) -> bool {
    16 * spec_buckets_for(cap) > usize::MAX
}

/// The capacity a growth aims for: room for the current entries plus the
/// requested headroom, and at least one slot beyond the present full
/// capacity, so a growth never rebuilds at the same size.
pub open spec fn grow_target(items: nat, buckets: nat, additional: nat) -> nat {
    let wanted = items + additional;
    let bumped = spec_capacity(buckets) + 1;
    if wanted > bumped {
        wanted
    } else {
        bumped
    }
}

fn bucket_capacity(m: usize) -> (c: usize)
    requires
        m >= 1,
    ensures
        c == spec_capacity(m as nat),
{
    if m < 8 {
        m - 1
    } else {
        m / 8 * 7
    }
}

proof fn lemma_next_pow2_from(p: nat, goal: nat)
    requires
        is_pow2(p),
        p % 8 == 0,
        p >= 8,
    ensures
        next_pow2_from(p, goal) >= goal,
        next_pow2_from(p, goal) >= p,
        is_pow2(next_pow2_from(p, goal)),
        next_pow2_from(p, goal) % 8 == 0,
    decreases (if goal > p {
        goal - p
    } else {
        0int
    }),
{
    if p >= goal {
    } else {
        let k = choose|k: nat| p == pow2(k);
        assert(2 * p == pow2(k + 1)) by {
            vstd::arithmetic::power2::lemma_pow2_unfold(k + 1);
        }
        assert(is_pow2(2 * p));
        lemma_next_pow2_from(2 * p, goal);
    }
}

/// Computes the bucket count for a requested capacity, or reports that the
/// request cannot be addressed.
fn capacity_to_buckets(cap: usize) -> (r: Option<usize>)
    ensures
        match r {
            Some(m) => {
                &&& m as nat == spec_buckets_for(cap as nat)
                &&& is_pow2(m as nat)
                &&& m >= 4
                &&& 16 * m <= usize::MAX
                &&& spec_capacity(m as nat) >= cap
            },
            None => capacity_overflows(cap as nat),
        },
{
    proof {
        lemma2_to64();
        assert(is_pow2(4nat)) by {
            assert(4nat == pow2(2));
        }
        assert(is_pow2(8nat)) by {
            assert(8nat == pow2(3));
        }
    }
    if cap < 4 {
        Some(4)
    } else if cap < 8 {
        Some(8)
    } else {
        if cap > usize::MAX / 8 {
            // Even the adjusted capacity cannot be computed; the bucket count
            // the policy would pick is out of reach as well.
            proof {
                lemma_overflow_when_cap_large(cap);
            }
            return None;
        }
        let adj = (cap * 8) / 7;
        let mut p: usize = 8;
        while p < adj
            invariant
                8 <= p,
                is_pow2(p as nat),
                p % 8 == 0,
                16 * p <= usize::MAX,
                adj == (cap * 8) / 7,
                cap >= 8,
                next_pow2_from(p as nat, adj as nat) == next_pow2_from(8, adj as nat),
            decreases (if p < adj {
                adj - p
            } else {
                0int
            }),
        {
            if p > (usize::MAX / 16) / 2 {
                proof {
                    lemma_overflow_when_loop_stops(cap as nat, p as nat, adj as nat);
                }
                return None;
            }
            proof {
                let k = choose|k: nat| p as nat == pow2(k);
                assert((2 * p) as nat == pow2(k + 1)) by {
                    vstd::arithmetic::power2::lemma_pow2_unfold(k + 1);
                }
            }
            p = p * 2;
        }
        proof {
            assert(next_pow2_from(p as nat, adj as nat) == p as nat);
            lemma_capacity_covers(cap as nat, p as nat, adj as nat);
        }
        Some(p)
    }
}

proof fn lemma_overflow_when_cap_large(cap: usize)
    requires
        cap > usize::MAX / 8,
        cap >= 8,
    ensures
        capacity_overflows(cap as nat),
{
    let c = cap as nat;
    let adj = c * 8 / 7;
    lemma_fundamental_div_mod((c * 8) as int, 7);
    assert(c * 8 >= usize::MAX) by (nonlinear_arith)
        requires
            c > usize::MAX / 8,
            usize::MAX == 8 * (usize::MAX / 8) + (usize::MAX % 8),
            usize::MAX % 8 < 8,
            c >= 8,
    ;
    assert(adj >= usize::MAX / 8) by (nonlinear_arith)
        requires
            c * 8 >= usize::MAX,
            adj == c * 8 / 7,
            c * 8 == 7 * adj + (c * 8) % 7,
            (c * 8) % 7 < 7,
            usize::MAX >= 63,
    ;
    assert(is_pow2(8nat)) by {
        lemma2_to64();
        assert(8nat == pow2(3));
    }
    lemma_next_pow2_from(8, adj);
    assert(16 * spec_buckets_for(c) >= 16 * adj) by (nonlinear_arith)
        requires
            spec_buckets_for(c) >= adj,
    ;
    assert(16 * adj > usize::MAX) by (nonlinear_arith)
        requires
            adj >= usize::MAX / 8,
            usize::MAX == 8 * (usize::MAX / 8) + (usize::MAX % 8),
            usize::MAX % 8 < 8,
            usize::MAX >= 63,
    ;
}

proof fn lemma_overflow_when_loop_stops(c: nat, p: nat, adj: nat)
    requires
        p > (usize::MAX / 16) / 2,
        p < adj,
        is_pow2(p),
        p % 8 == 0,
        p >= 8,
        c >= 8,
        adj == c * 8 / 7,
        next_pow2_from(p, adj) == next_pow2_from(8, adj),
    ensures
        capacity_overflows(c),
{
    lemma_next_pow2_from(p, adj);
    let m = spec_buckets_for(c);
    assert(m == next_pow2_from(8, adj));
    assert(m >= 2 * p) by {
        // since p < goal, the recursion takes at least one doubling step
        assert(next_pow2_from(p, adj) == next_pow2_from(2 * p, adj));
        let k = choose|k: nat| p == pow2(k);
        assert(2 * p == pow2(k + 1)) by {
            vstd::arithmetic::power2::lemma_pow2_unfold(k + 1);
        }
        lemma_next_pow2_from(2 * p, adj);
    }
    lemma_fundamental_div_mod(usize::MAX as int, 16);
    lemma_fundamental_div_mod((usize::MAX / 16) as int, 2);
    assert(16 * m > usize::MAX) by (nonlinear_arith)
        requires
            m >= 2 * p,
            p > (usize::MAX / 16) / 2,
            usize::MAX == 16 * (usize::MAX / 16) + (usize::MAX % 16),
            usize::MAX % 16 < 16,
            usize::MAX / 16 == 2 * ((usize::MAX / 16) / 2) + (usize::MAX / 16) % 2,
            (usize::MAX / 16) % 2 < 2,
    ;
}

proof fn lemma_capacity_covers(c: nat, m: nat, adj: nat)
    requires
        c >= 8,
        adj == c * 8 / 7,
        m >= adj,
        m >= 8,
        m % 8 == 0,
    ensures
        spec_capacity(m) >= c,
{
    lemma_fundamental_div_mod((c * 8) as int, 7);
    lemma_fundamental_div_mod(m as int, 8);
    let s = m / 8;
    assert(spec_capacity(m) == s * 7);
    // Were 7s <= c - 1, then 56s <= 8c - 8; but 56s == 7m >= 7 * adj
    // >= 8c - 6, a contradiction, so the capacity covers the request.
    assert(7 * adj >= c * 8 - 6);
    assert(m == 8 * s);
    if s * 7 < c {
        assert(56 * s <= 8 * c - 8) by (nonlinear_arith)
            requires
                s * 7 <= c - 1,
        ;
        assert(7 * m >= 7 * adj) by (nonlinear_arith)
            requires
                m >= adj,
        ;
        assert(56 * s == 7 * m) by (nonlinear_arith)
            requires
                m == 8 * s,
        ;
        assert(false);
    }
}

/// The slot a failed lookup chose for insertion; valid only until the next
/// mutating operation.
pub struct InsertSlot {
    /// The chosen slot index.
    pub index: usize,
}

/// The table core. One allocation's worth of control bytes, the typed bucket
/// arena, and the occupancy accounting.
#[verifier::reject_recursive_types(K)]
pub struct RawTableInner<K, V> {
    /// Layout the allocation was sized from; growth recomputes the same
    /// layout against a new capacity.
    table_layout: TableLayout,
    /// Number of slots; zero for a table that has allocated nothing.
    buckets: usize,
    /// `buckets + GROUP_WIDTH` control bytes (empty when unallocated): one
    /// per slot, then the mirrored tail that keeps group loads in bounds.
    ctrl: Vec<u8>,
    /// One typed bucket per slot.
    slots: Vec<Option<(K, V)>>,
    /// Number of FULL slots.
    items: usize,
    /// Insertions into EMPTY slots still allowed before a growth is forced.
    growth_left: usize,
    /// The key-value map this table represents.
    model: Ghost<Map<K, V>>,
    /// The slot holding each present key.
    index_of: Ghost<Map<K, int>>,
}

impl<K, V> RawTableInner<K, V> {
    /// The key-value map this table holds.
    pub closed spec fn view(self) -> Map<K, V> {
        self.model@
    }

    /// Number of slots.
    pub closed spec fn num_buckets(self) -> nat {
        self.buckets as nat
    }

    /// Number of FULL slots.
    pub closed spec fn num_items(self) -> nat {
        self.items as nat
    }

    /// Insertions into EMPTY slots still allowed before a growth is forced.
    pub closed spec fn spec_growth_left(self) -> nat {
        self.growth_left as nat
    }

    /// Load the table was sized from.
    pub closed spec fn spec_table_layout(self) -> TableLayout {
        self.table_layout
    }

    /// Slot `i` is FULL.
    pub closed spec fn slot_full(self, i: int) -> bool {
        is_full(self.ctrl@[i])
    }

    /// Key stored in slot `i`.
    pub closed spec fn slot_key(self, i: int) -> K {
        self.slots@[i].unwrap().0
    }

    /// Value stored in slot `i`.
    pub closed spec fn slot_val(self, i: int) -> V {
        self.slots@[i].unwrap().1
    }

    /// Slot holding key `k`.
    pub closed spec fn index_for(self, k: K) -> int {
        self.index_of@[k]
    }

    spec fn mirror_ok(self) -> bool {
        let m = self.buckets as int;
        let w = GROUP_WIDTH as int;
        if m >= w {
            forall|p: int| m <= p < m + w ==> #[trigger] self.ctrl@[p] == self.ctrl@[p - m]
        } else {
            (forall|p: int| m <= p < w ==> #[trigger] self.ctrl@[p] == EMPTY) && (forall|p: int|
                w <= p < m + w ==> #[trigger] self.ctrl@[p] == self.ctrl@[p - w])
        }
    }

    /// Some byte of the window starting at `pos` is EMPTY: the probe
    /// sequence stops after scanning this window.
    spec fn window_has_empty(self, pos: int) -> bool {
        exists|j: int| 0 <= j < GROUP_WIDTH && #[trigger] self.ctrl@[pos + j] == EMPTY
    }

    /// Slot `i` is reached at step `t` of the probe sequence for hash `h`:
    /// its control byte shows in that window, and no earlier window holds an
    /// EMPTY byte that would have stopped the probe.
    spec fn reach_from(self, h: u64, i: int, t: nat) -> bool {
        let m = self.buckets as nat;
        let pos = probe_pos(h, m, t) as int;
        &&& t < probe_steps(m)
        &&& exists|j: int|
            0 <= j < GROUP_WIDTH && (pos + j) % (m as int) == i && #[trigger] self.ctrl@[pos + j]
                == self.ctrl@[i]
        &&& forall|t2: nat| t2 < t ==> !self.window_has_empty(probe_pos(h, m, t2) as int)
    }

    /// Slot `i` is reached by the probe sequence for hash `h` before any
    /// window that would stop it.
    spec fn reachable(self, h: u64, i: int) -> bool {
        exists|t: nat| self.reach_from(h, i, t)
    }

    /// Structural invariant: array sizes, the mirrored tail, and the
    /// occupancy accounting (at least one EMPTY byte more than the growth
    /// headroom, so probes terminate).
    pub closed spec fn wf_base(self) -> bool {
        let m = self.buckets as int;
        &&& self.items == self.model@.len()
        &&& self.model@.dom().finite()
        &&& if self.buckets == 0 {
            &&& self.ctrl@.len() == 0
            &&& self.slots@.len() == 0
            &&& self.items == 0
            &&& self.growth_left == 0
            &&& self.model@ == Map::<K, V>::empty()
            &&& self.index_of@ == Map::<K, int>::empty()
        } else {
            &&& is_pow2(self.buckets as nat)
            &&& self.buckets >= 4
            &&& 16 * self.buckets <= usize::MAX
            &&& self.ctrl@.len() == m + GROUP_WIDTH
            &&& self.slots@.len() == m
            &&& self.mirror_ok()
            &&& self.growth_left <= spec_capacity(self.buckets as nat)
            &&& spec_capacity(self.buckets as nat) < self.buckets
            &&& count_eq(self.ctrl@.subrange(0, m), EMPTY) >= self.growth_left + 1
            &&& self.items + self.growth_left + count_eq(self.ctrl@.subrange(0, m), DELETED)
                <= spec_capacity(self.buckets as nat)
            &&& forall|i: int|
                0 <= i < m && is_full(#[trigger] self.ctrl@[i]) ==> self.slots@[i] is Some
            &&& forall|i: int|
                0 <= i < m ==> (is_full(#[trigger] self.ctrl@[i]) || self.ctrl@[i] == EMPTY
                    || self.ctrl@[i] == DELETED)
        }
    }

    /// Binding-relative invariant: every FULL slot indexes its key, and every
    /// key of the model sits in a FULL slot that carries its hash tag and is
    /// reachable along its probe sequence.
    spec fn slots_wf<E: EntrySpec<K, V>>(self, e: E) -> bool {
        let m = self.buckets as int;
        &&& forall|i: int|
            0 <= i < m && is_full(#[trigger] self.ctrl@[i]) ==> {
                &&& self.index_of@.contains_key(self.slot_key(i))
                &&& self.index_of@[self.slot_key(i)] == i
            }
        &&& forall|k: K| #[trigger] self.model@.contains_key(k) ==> {
            &&& 0 <= self.index_of@[k] < m
            &&& is_full(self.ctrl@[self.index_of@[k]])
            &&& self.slots@[self.index_of@[k]] is Some
            &&& self.slot_key(self.index_of@[k]) == k
            &&& self.slot_val(self.index_of@[k]) == self.model@[k]
            &&& self.ctrl@[self.index_of@[k]] == tag_of(e.hash_spec(k))
            &&& self.reachable(e.hash_spec(k), self.index_of@[k])
        }
        &&& self.index_of@.dom() == self.model@.dom()
    }

    /// The table invariant, relative to the binding that hashed its keys.
    pub closed spec fn wf<E: EntrySpec<K, V>>(self, e: E) -> bool {
        &&& self.wf_base()
        &&& self.slots_wf(e)
    }

    /// Builds a table that can hold `cap` entries before growing; `cap == 0`
    /// allocates nothing. Fails exactly when the bucket count the load-factor
    /// policy asks for overflows the address space.
    pub fn fallible_with_capacity<E: EntrySpec<K, V>>(table_layout: TableLayout, cap: usize) -> (r:
        Result<Self, TryReserveError>)
        ensures
            match r {
                Ok(t) => {
                    &&& forall|e: E| #[trigger] t.wf(e)
                    &&& t@ == Map::<K, V>::empty()
                    &&& t.num_items() == 0
                    &&& t.spec_table_layout() == table_layout
                    &&& (cap == 0 ==> t.num_buckets() == 0)
                    &&& (cap > 0 ==> t.num_buckets() > 0 && t.spec_growth_left() >= cap
                        && t.num_buckets() == spec_buckets_for(cap as nat) && is_pow2(
                        t.num_buckets(),
                    ))
                    &&& t.spec_growth_left() == spec_capacity(t.num_buckets())
                    &&& !capacity_overflows(cap as nat)
                },
                Err(err) => err == TryReserveError::CapacityOverflow && capacity_overflows(
                    cap as nat,
                ) && cap > 0,
            },
    {
        proof {
            if cap == 0 {
                assert(spec_buckets_for(0) == 4);
                assert(usize::MAX >= 64);
            }
        }
        if cap == 0 {
            let t = RawTableInner {
                table_layout,
                buckets: 0,
                ctrl: Vec::new(),
                slots: Vec::new(),
                items: 0,
                growth_left: 0,
                model: Ghost(Map::empty()),
                index_of: Ghost(Map::empty()),
            };
            proof {
                assert forall|e: E| #[trigger] t.wf(e) by {
                    assert(t.wf_base());
                }
                assert(spec_capacity(0nat) == 0nat);
            }
            Ok(t)
        } else {
            let m = match capacity_to_buckets(cap) {
                Some(m) => m,
                None => {
                    return Err(TryReserveError::CapacityOverflow);
                },
            };
            let n = m + GROUP_WIDTH;
            let mut ctrl: Vec<u8> = Vec::new();
            let mut i: usize = 0;
            while i < n
                invariant
                    i <= n,
                    ctrl@.len() == i,
                    forall|p: int| 0 <= p < i ==> ctrl@[p] == EMPTY,
                decreases n - i,
            {
                ctrl.push(EMPTY);
                i += 1;
            }
            let mut slots: Vec<Option<(K, V)>> = Vec::new();
            let mut i: usize = 0;
            while i < m
                invariant
                    i <= m,
                    slots@.len() == i,
                decreases m - i,
            {
                slots.push(None);
                i += 1;
            }
            let growth_left = bucket_capacity(m);
            let t = RawTableInner {
                table_layout,
                buckets: m,
                ctrl,
                slots,
                items: 0,
                growth_left,
                model: Ghost(Map::empty()),
                index_of: Ghost(Map::empty()),
            };
            proof {
                let mi = m as int;
                assert(count_eq(t.ctrl@.subrange(0, mi), EMPTY) == m) by {
                    assert forall|p: int| 0 <= p < t.ctrl@.subrange(0, mi).len() implies t.ctrl@.subrange(
                        0,
                        mi,
                    )[p] == EMPTY by {}
                    lemma_count_all(t.ctrl@.subrange(0, mi), EMPTY);
                }
                assert(count_eq(t.ctrl@.subrange(0, mi), DELETED) == 0) by {
                    lemma_count_none(t.ctrl@.subrange(0, mi), DELETED);
                }
                assert(t.mirror_ok());
                assert(t.wf_base());
                assert forall|e: E| #[trigger] t.wf(e) by {
                    assert(forall|i2: int|
                        0 <= i2 < mi ==> !is_full(#[trigger] t.ctrl@[i2]));
                    assert(t.slots_wf(e));
                }
            }
            Ok(t)
        }
    }

    /// Every byte a window can read is either the byte of the slot the
    /// position wraps to, or one of the permanently-EMPTY padding bytes of a
    /// table smaller than one group.
    proof fn lemma_truthful(self, p: int)
        requires
            self.buckets >= 1,
            is_pow2(self.buckets as nat),
            self.ctrl@.len() == self.buckets + GROUP_WIDTH,
            self.mirror_ok(),
            0 <= p < self.buckets + GROUP_WIDTH,
        ensures
            0 <= p % (self.buckets as int) < self.buckets,
            self.ctrl@[p] == self.ctrl@[p % (self.buckets as int)] || self.ctrl@[p] == EMPTY,
            self.buckets >= GROUP_WIDTH ==> self.ctrl@[p] == self.ctrl@[p % (self.buckets as int)],
            p < self.buckets ==> p % (self.buckets as int) == p,
    {
        let m = self.buckets as int;
        let w = GROUP_WIDTH as int;
        lemma_mod_bound(p, m);
        if p < m {
            lemma_small_mod(p as nat, self.buckets as nat);
        } else if m >= w {
            lemma_fundamental_div_mod_converse(p, m, 1, p - m);
        } else {
            let k = choose|k: nat| self.buckets as nat == pow2(k);
            assert(k < 4) by {
                lemma2_to64();
                if k >= 4 {
                    if k > 4 {
                        vstd::arithmetic::power2::lemma_pow2_strictly_increases(4, k);
                    }
                    assert(pow2(k) >= 16);
                }
            }
            let c = pow2((4 - k) as nat);
            assert(w == m * c) by {
                lemma_pow2_adds(k, (4 - k) as nat);
                lemma2_to64();
            }
            if p >= w {
                // the tail mirrors the head: p - w is the wrapped slot
                assert(self.ctrl@[p] == self.ctrl@[p - w]);
                assert(p == m * (c + 1) + (p - w) - m * 1) by (nonlinear_arith)
                    requires
                        w == m * c,
                ;
                assert(p == m * c + (p - w)) by (nonlinear_arith)
                    requires
                        w == m * c,
                ;
                lemma_fundamental_div_mod_converse(p, m, c as int, p - w);
            }
        }
    }

    /// Every slot of a valid window is truthfully visible at some offset:
    /// the wrapped position showing exactly the slot's control byte.
    proof fn lemma_visible(self, pos: int, r: int)
        requires
            self.buckets >= 1,
            is_pow2(self.buckets as nat),
            self.ctrl@.len() == self.buckets + GROUP_WIDTH,
            self.mirror_ok(),
            0 <= pos < self.buckets,
            0 <= r < self.buckets,
            in_window(pos as nat, r as nat, self.buckets as nat),
        ensures
            exists|j: int|
                0 <= j < GROUP_WIDTH && (pos + j) % (self.buckets as int) == r
                    && #[trigger] self.ctrl@[pos + j] == self.ctrl@[r],
    {
        let m = self.buckets as int;
        let w = GROUP_WIDTH as int;
        if m >= w {
            let j = win_off(pos as nat, r as nat, self.buckets as nat);
            lemma_win_off(pos as nat, r as nat, self.buckets as nat);
            self.lemma_truthful(pos + j);
            assert((pos + j) % m == r);
            assert(self.ctrl@[pos + j] == self.ctrl@[r]);
            assert(0 <= j < GROUP_WIDTH && (pos + j) % (self.buckets as int) == r
                && self.ctrl@[pos + j] == self.ctrl@[r]);
        } else {
            let k = choose|k: nat| self.buckets as nat == pow2(k);
            assert(k < 4) by {
                lemma2_to64();
                if k >= 4 {
                    if k > 4 {
                        vstd::arithmetic::power2::lemma_pow2_strictly_increases(4, k);
                    }
                    assert(pow2(k) >= 16);
                }
            }
            let c = pow2((4 - k) as nat);
            assert(w == m * c) by {
                lemma_pow2_adds(k, (4 - k) as nat);
                lemma2_to64();
            }
            if r >= pos {
                let j = r - pos;
                lemma_small_mod(r as nat, self.buckets as nat);
                assert(0 <= j < GROUP_WIDTH && (pos + j) % (self.buckets as int) == r
                    && self.ctrl@[pos + j] == self.ctrl@[r]);
            } else {
                let j = w + r - pos;
                assert(self.ctrl@[pos + j] == self.ctrl@[r]);
                assert(pos + j == m * c + r) by (nonlinear_arith)
                    requires
                        w == m * c,
                        pos + j == w + r,
                ;
                lemma_fundamental_div_mod_converse(pos + j, m, c as int, r);
                assert(0 <= j < GROUP_WIDTH && (pos + j) % (self.buckets as int) == r
                    && self.ctrl@[pos + j] == self.ctrl@[r]);
            }
        }
    }

    /// The probe for hash `h` meets, at step `t2` and window offset `j`, a
    /// byte that wraps to slot `ki` and shows its control byte.
    spec fn hit(self, h: u64, ki: int, t2: nat, j: int) -> bool {
        let m = self.buckets as nat;
        let pos = probe_pos(h, m, t2) as int;
        (pos + j) % (m as int) == ki && self.ctrl@[pos + j] == self.ctrl@[ki]
    }

    /// Some probe window before termination holds an EMPTY byte; used to
    /// bound every probe loop.
    proof fn lemma_probe_terminates(self, h: u64)
        requires
            self.wf_base(),
            self.buckets >= 1,
        ensures
            exists|t: nat|
                t < probe_steps(self.buckets as nat) && #[trigger] self.window_has_empty(
                    probe_pos(h, self.buckets as nat, t) as int,
                ),
    {
        let m = self.buckets;
        let mn = m as nat;
        let mi = m as int;
        lemma_count_nonzero_exists(self.ctrl@.subrange(0, mi), EMPTY);
        let es = choose|i: int| 0 <= i < mi && self.ctrl@.subrange(0, mi)[i] == EMPTY;
        assert(self.ctrl@[es] == EMPTY);
        lemma_probe_reaches(h, mn, es as nat);
        let ts = choose|t: nat| t < probe_steps(mn) && in_window(probe_pos(h, mn, t), es as nat, mn);
        lemma_probe_pos_bound(h, mn, ts);
        self.lemma_visible(probe_pos(h, mn, ts) as int, es);
        let j = choose|j: int|
            0 <= j < GROUP_WIDTH && (probe_pos(h, mn, ts) + j) % mi == es && #[trigger] self.ctrl@[
                probe_pos(h, mn, ts) + j
            ] == self.ctrl@[es];
        assert(self.window_has_empty(probe_pos(h, mn, ts) as int));
    }

    /// Probe-based lookup: returns the slot holding the key, or `None` once a
    /// window with an EMPTY byte proves the key absent.
    #[verifier::rlimit(60)]
    pub fn find_inner<E: EntrySpec<K, V>>(&self, e: &E, key: &K) -> (r: Option<usize>)
        requires
            self.wf(*e),
        ensures
            match r {
                Some(i) => {
                    &&& self@.contains_key(*key)
                    &&& (i as int) < self.num_buckets()
                    &&& self.slot_full(i as int)
                    &&& self.slot_key(i as int) == *key
                    &&& self@[*key] == self.slot_val(i as int)
                    &&& self.index_for(*key) == i as int
                },
                None => !self@.contains_key(*key),
            },
    {
        if self.buckets == 0 {
            return None;
        }
        let m = self.buckets;
        let ghost mn = m as nat;
        let ghost mi = m as int;
        let h = e.hash(key);
        let tg = tag(h);
        let ghost ki: int = if self.model@.contains_key(*key) {
            self.index_of@[*key]
        } else {
            -1
        };
        proof {
            self.lemma_probe_terminates(h);
        }
        let ghost tstar = choose|t: nat|
            t < probe_steps(mn) && #[trigger] self.window_has_empty(probe_pos(h, mn, t) as int);
        let mut pos: usize = (h as usize) % m;
        let mut stride: usize = 0;
        let ghost mut t: nat = 0;
        proof {
            lemma_small_mod(probe_start(h, mn), mn);
            assert(pos as nat == probe_pos(h, mn, 0));
        }
        loop
            invariant
                self.wf(*e),
                0 < m,
                m == self.buckets,
                mn == m as nat,
                mi == m as int,
                h == e.hash_spec(*key),
                tg == tag_of(h),
                tg < 128,
                ki == (if self.model@.contains_key(*key) {
                    self.index_of@[*key]
                } else {
                    -1int
                }),
                tstar < probe_steps(mn),
                self.window_has_empty(probe_pos(h, mn, tstar) as int),
                t <= tstar,
                pos as nat == probe_pos(h, mn, t),
                stride == 16 * t,
                forall|t2: nat| t2 < t ==> !self.window_has_empty(probe_pos(h, mn, t2) as int),
                forall|t2: nat, j: int|
                    t2 < t && 0 <= j < GROUP_WIDTH ==> !self.hit(h, ki, t2, j),
            decreases tstar - t,
        {
            proof {
                lemma_probe_pos_bound(h, mn, t);
            }
            let mb = group::match_byte(&self.ctrl, pos, tg);
            let mut bj: usize = 0;
            while bj < GROUP_WIDTH
                invariant
                    self.wf(*e),
                    0 < m,
                    m == self.buckets,
                    mn == m as nat,
                    mi == m as int,
                    h == e.hash_spec(*key),
                    tg == tag_of(h),
                    tg < 128,
                    ki == (if self.model@.contains_key(*key) {
                        self.index_of@[*key]
                    } else {
                        -1int
                    }),
                    pos as nat == probe_pos(h, mn, t),
                    pos < m,
                    bj <= 16,
                    group::mask_reports_eq(mb, self.ctrl@, pos as int, tg),
                    forall|j: int| 0 <= j < bj ==> !self.hit(h, ki, t, j),
                decreases 16 - bj,
            {
                if (mb >> (bj as u32)) & 1 == 1 {
                    let idx = (pos + bj) % m;
                    proof {
                        assert(self.ctrl@[pos + bj] == tg);
                        self.lemma_truthful(pos + bj as int);
                        assert(self.ctrl@[idx as int] == tg);
                        assert(is_full(self.ctrl@[idx as int]));
                    }
                    match &self.slots[idx] {
                        Some(entry) => {
                            if e.equals(key, &entry.0) {
                                proof {
                                    assert(self.slot_key(idx as int) == *key);
                                    assert(self.index_of@.contains_key(*key));
                                    assert(self.index_of@.dom() == self.model@.dom());
                                    assert(self.model@.contains_key(*key));
                                    assert(self.index_of@[*key] == idx as int);
                                }
                                return Some(idx);
                            }
                            proof {
                                assert(self.slot_key(idx as int) == entry.0);
                                if idx as int == ki {
                                    assert(self.model@.contains_key(*key));
                                    assert(self.slot_key(ki) == *key);
                                    assert(false);
                                }
                                assert(!self.hit(h, ki, t, bj as int));
                            }
                        },
                        None => {
                            proof {
                                assert(self.slots@[idx as int] is Some);
                                assert(false);
                            }
                        },
                    }
                } else {
                    proof {
                        assert(self.ctrl@[pos + bj] != tg);
                        if ki >= 0 && (pos + bj) % mi == ki {
                            assert(self.model@.contains_key(*key));
                            assert(self.ctrl@[ki] == tag_of(e.hash_spec(*key)));
                            assert(!self.hit(h, ki, t, bj as int));
                        }
                        assert(!self.hit(h, ki, t, bj as int));
                    }
                }
                bj += 1;
            }
            let me_ = group::match_empty(&self.ctrl, pos);
            if me_ != 0 {
                proof {
                    assert(self.window_has_empty(pos as int)) by {
                        if forall|j: int| 0 <= j < 16 ==> #[trigger] self.ctrl@[pos + j] != EMPTY {
                            assert(me_ == 0);
                            assert(false);
                        } else {
                            let j = choose|j: int|
                                !(0 <= j < 16 ==> #[trigger] self.ctrl@[pos + j] != EMPTY);
                            assert(self.ctrl@[pos + j] == EMPTY);
                        }
                    }
                    if self.model@.contains_key(*key) {
                        assert(self.reachable(h, ki));
                        let tk = choose|t2: nat| self.reach_from(h, ki, t2);
                        if tk < t {
                            let jk = choose|j: int|
                                0 <= j < GROUP_WIDTH && (probe_pos(h, mn, tk) + j) % mi == ki
                                    && #[trigger] self.ctrl@[probe_pos(h, mn, tk) + j]
                                    == self.ctrl@[ki];
                            assert(self.hit(h, ki, tk, jk));
                            assert(false);
                        } else if tk == t {
                            let jk = choose|j: int|
                                0 <= j < GROUP_WIDTH && (probe_pos(h, mn, tk) + j) % mi == ki
                                    && #[trigger] self.ctrl@[probe_pos(h, mn, tk) + j]
                                    == self.ctrl@[ki];
                            assert(self.hit(h, ki, t, jk));
                            assert(false);
                        } else {
                            assert(!self.window_has_empty(probe_pos(h, mn, t) as int));
                            assert(self.window_has_empty(pos as int));
                            assert(false);
                        }
                    }
                }
                return None;
            }
            proof {
                assert(!self.window_has_empty(pos as int)) by {
                    if self.window_has_empty(pos as int) {
                        let j = choose|j: int|
                            0 <= j < GROUP_WIDTH && #[trigger] self.ctrl@[pos + j] == EMPTY;
                        assert(false);
                    }
                }
                assert(t < tstar) by {
                    if t == tstar {
                        assert(self.window_has_empty(probe_pos(h, mn, tstar) as int));
                        assert(false);
                    }
                }
                assert(probe_steps(mn) <= mn) by {
                    if mn > 16 {
                        lemma_fundamental_div_mod(mi, 16);
                    }
                }
                assert(16 * (t + 1) <= 16 * probe_steps(mn)) by (nonlinear_arith)
                    requires
                        t + 1 <= tstar + 1,
                        tstar + 1 <= probe_steps(mn),
                ;
                assert(16 * probe_steps(mn) <= 16 * mn) by (nonlinear_arith)
                    requires
                        probe_steps(mn) <= mn,
                ;
                lemma_probe_step(h, mn, t);
            }
            stride = stride + GROUP_WIDTH;
            pos = (pos + stride) % m;
            proof {
                t = t + 1;
            }
        }
    }

    /// Reads the value stored in a FULL slot.
    pub fn get_value(&self, i: usize) -> (v: &V)
        requires
            self.wf_base(),
            (i as int) < self.num_buckets(),
            self.slot_full(i as int),
        ensures
            *v == self.slot_val(i as int),
    {
        match &self.slots[i] {
            Some(entry) => &entry.1,
            None => {
                proof {
                    assert(false);
                }
                vstd::pervasive::unreached()
            },
        }
    }

    /// Writes one control byte, together with its mirrored tail byte, so that
    /// every group window keeps reading consistent bytes.
    fn set_ctrl(&mut self, i: usize, b: u8)
        requires
            old(self).buckets >= 1,
            is_pow2(old(self).buckets as nat),
            16 * old(self).buckets <= usize::MAX,
            old(self).ctrl@.len() == old(self).buckets + GROUP_WIDTH,
            old(self).mirror_ok(),
            i < old(self).buckets,
        ensures
            final(self).buckets == old(self).buckets,
            final(self).slots == old(self).slots,
            final(self).items == old(self).items,
            final(self).growth_left == old(self).growth_left,
            final(self).model == old(self).model,
            final(self).index_of == old(self).index_of,
            final(self).table_layout == old(self).table_layout,
            final(self).ctrl@.len() == old(self).ctrl@.len(),
            forall|p: int|
                0 <= p < old(self).buckets ==> final(self).ctrl@[p] == (if p == i {
                    b
                } else {
                    old(self).ctrl@[p]
                }),
            forall|p: int|
                0 <= p < old(self).ctrl@.len() && final(self).ctrl@[p] != old(self).ctrl@[p] ==> (
                p % (old(self).buckets as int) == i && final(self).ctrl@[p] == b),
            final(self).mirror_ok(),
            final(self).ctrl@.subrange(0, old(self).buckets as int) == old(self).ctrl@.subrange(
                0,
                old(self).buckets as int,
            ).update(i as int, b),
    {
        let m = self.buckets;
        let ghost mi = m as int;
        self.ctrl.set(i, b);
        let tail = if m < GROUP_WIDTH {
            i + GROUP_WIDTH
        } else if i < GROUP_WIDTH {
            m + i
        } else {
            i
        };
        self.ctrl.set(tail, b);
        proof {
            lemma_small_mod(i as nat, m as nat);
            if m < GROUP_WIDTH {
                let k = choose|k: nat| m as nat == pow2(k);
                assert(k < 4) by {
                    lemma2_to64();
                    if k >= 4 {
                        if k > 4 {
                            vstd::arithmetic::power2::lemma_pow2_strictly_increases(4, k);
                        }
                        assert(pow2(k) >= 16);
                    }
                }
                let c = pow2((4 - k) as nat);
                assert(16 == mi * c) by {
                    lemma_pow2_adds(k, (4 - k) as nat);
                    lemma2_to64();
                }
                assert((i + 16) % mi == i as int) by {
                    assert(i + 16 == mi * c + i) by (nonlinear_arith)
                        requires
                            16 == mi * c,
                    ;
                    lemma_mod_multiples_vanish(c as int, i as int, mi);
                }
            } else if i < GROUP_WIDTH {
                assert((mi + i) % mi == i as int) by {
                    lemma_mod_multiples_vanish(1, i as int, mi);
                }
            }
            assert(final(self).ctrl@.subrange(0, mi) =~= old(self).ctrl@.subrange(0, mi).update(
                i as int,
                b,
            ));
            assert(final(self).mirror_ok()) by {
                let w = GROUP_WIDTH as int;
                if mi >= w {
                    assert forall|p: int| mi <= p < mi + w implies #[trigger] final(self).ctrl@[p]
                        == final(self).ctrl@[p - mi] by {
                        if p == tail as int {
                        } else {
                            assert(final(self).ctrl@[p] == old(self).ctrl@[p]);
                        }
                    }
                } else {
                    assert forall|p: int| w <= p < mi + w implies #[trigger] final(self).ctrl@[p]
                        == final(self).ctrl@[p - w] by {
                        if p == tail as int {
                        } else {
                            assert(final(self).ctrl@[p] == old(self).ctrl@[p]);
                        }
                    }
                }
            }
        }
    }

    /// Reachability of a slot other than the rewritten one survives a control
    /// write that introduces no EMPTY byte.
    proof fn lemma_reach_preserved(pre: Self, post: Self, wslot: int, h: u64, i: int)
        requires
            pre.buckets == post.buckets,
            pre.buckets >= 1,
            pre.ctrl@.len() == pre.buckets + GROUP_WIDTH,
            post.ctrl@.len() == pre.ctrl@.len(),
            forall|p: int|
                0 <= p < pre.ctrl@.len() && post.ctrl@[p] != pre.ctrl@[p] ==> (p % (
                pre.buckets as int) == wslot && post.ctrl@[p] != EMPTY),
            0 <= i < pre.buckets,
            i != wslot,
            pre.reachable(h, i),
        ensures
            post.reachable(h, i),
    {
        let m = pre.buckets as nat;
        let mi = m as int;
        let t = choose|t: nat| pre.reach_from(h, i, t);
        let pos = probe_pos(h, m, t) as int;
        let j = choose|j: int|
            0 <= j < GROUP_WIDTH && (pos + j) % mi == i && #[trigger] pre.ctrl@[pos + j]
                == pre.ctrl@[i];
        lemma_probe_pos_bound(h, m, t);
        assert(post.ctrl@[pos + j] == pre.ctrl@[pos + j]);
        lemma_small_mod(i as nat, m);
        assert(post.ctrl@[i] == pre.ctrl@[i]);
        assert forall|t2: nat| t2 < t implies !post.window_has_empty(
            probe_pos(h, m, t2) as int,
        ) by {
            assert(!pre.window_has_empty(probe_pos(h, m, t2) as int));
            if post.window_has_empty(probe_pos(h, m, t2) as int) {
                let p2 = probe_pos(h, m, t2) as int;
                let j2 = choose|j2: int|
                    0 <= j2 < GROUP_WIDTH && #[trigger] post.ctrl@[p2 + j2] == EMPTY;
                lemma_probe_pos_bound(h, m, t2);
                assert(pre.ctrl@[p2 + j2] == EMPTY);
                assert(false);
            }
        }
        assert(post.reach_from(h, i, t));
    }

    /// A slot the probe for `h` can take without breaking any probe's
    /// early termination: it lies in a probe window of `h` reached before any
    /// window holding an EMPTY byte.
    pub closed spec fn slot_insertable(self, h: u64, i: nat) -> bool {
        let m = self.buckets as nat;
        exists|t: nat|
            {
                &&& t < probe_steps(m)
                &&& #[trigger] in_window(probe_pos(h, m, t), i, m)
                &&& forall|t2: nat| t2 < t ==> !self.window_has_empty(probe_pos(h, m, t2) as int)
            }
    }

    /// Probe-based lookup that also discovers an insertion slot: the first
    /// EMPTY-or-DELETED slot of the probe sequence, handed back when the full
    /// probe finds no equal key.
    #[verifier::rlimit(100)]
    pub fn find_or_find_insert_slot_inner<E: EntrySpec<K, V>>(&self, e: &E, key: &K) -> (r: Result<
        usize,
        InsertSlot,
    >)
        requires
            self.wf(*e),
            self.num_buckets() > 0,
        ensures
            match r {
                Ok(i) => {
                    &&& self@.contains_key(*key)
                    &&& (i as int) < self.num_buckets()
                    &&& self.slot_full(i as int)
                    &&& self.slot_key(i as int) == *key
                    &&& self@[*key] == self.slot_val(i as int)
                    &&& self.index_for(*key) == i as int
                },
                Err(slot) => {
                    &&& !self@.contains_key(*key)
                    &&& (slot.index as int) < self.num_buckets()
                    &&& !self.slot_full(slot.index as int)
                    &&& self.slot_insertable(e.hash_spec(*key), slot.index as nat)
                },
            },
    {
        let m = self.buckets;
        let ghost mn = m as nat;
        let ghost mi = m as int;
        let h = e.hash(key);
        let tg = tag(h);
        let ghost ki: int = if self.model@.contains_key(*key) {
            self.index_of@[*key]
        } else {
            -1
        };
        proof {
            self.lemma_probe_terminates(h);
        }
        let ghost tstar = choose|t: nat|
            t < probe_steps(mn) && #[trigger] self.window_has_empty(probe_pos(h, mn, t) as int);
        let mut pos: usize = (h as usize) % m;
        let mut stride: usize = 0;
        let mut islot: Option<usize> = None;
        let ghost mut t: nat = 0;
        proof {
            lemma_small_mod(probe_start(h, mn), mn);
            assert(pos as nat == probe_pos(h, mn, 0));
        }
        loop
            invariant
                self.wf(*e),
                0 < m,
                m == self.buckets,
                mn == m as nat,
                mi == m as int,
                h == e.hash_spec(*key),
                tg == tag_of(h),
                tg < 128,
                ki == (if self.model@.contains_key(*key) {
                    self.index_of@[*key]
                } else {
                    -1int
                }),
                tstar < probe_steps(mn),
                self.window_has_empty(probe_pos(h, mn, tstar) as int),
                t <= tstar,
                pos as nat == probe_pos(h, mn, t),
                stride == 16 * t,
                forall|t2: nat| t2 < t ==> !self.window_has_empty(probe_pos(h, mn, t2) as int),
                forall|t2: nat, j: int|
                    t2 < t && 0 <= j < GROUP_WIDTH ==> !self.hit(h, ki, t2, j),
                match islot {
                    Some(s) => (s as int) < mi && !self.slot_full(s as int)
                        && self.slot_insertable(h, s as nat),
                    None => true,
                },
            decreases tstar - t,
        {
            proof {
                lemma_probe_pos_bound(h, mn, t);
            }
            let mb = group::match_byte(&self.ctrl, pos, tg);
            let mut bj: usize = 0;
            while bj < GROUP_WIDTH
                invariant
                    self.wf(*e),
                    0 < m,
                    m == self.buckets,
                    mn == m as nat,
                    mi == m as int,
                    h == e.hash_spec(*key),
                    tg == tag_of(h),
                    tg < 128,
                    ki == (if self.model@.contains_key(*key) {
                        self.index_of@[*key]
                    } else {
                        -1int
                    }),
                    pos as nat == probe_pos(h, mn, t),
                    pos < m,
                    bj <= 16,
                    group::mask_reports_eq(mb, self.ctrl@, pos as int, tg),
                    forall|j: int| 0 <= j < bj ==> !self.hit(h, ki, t, j),
                decreases 16 - bj,
            {
                if (mb >> (bj as u32)) & 1 == 1 {
                    let idx = (pos + bj) % m;
                    proof {
                        assert(self.ctrl@[pos + bj] == tg);
                        self.lemma_truthful(pos + bj as int);
                        assert(self.ctrl@[idx as int] == tg);
                        assert(is_full(self.ctrl@[idx as int]));
                    }
                    match &self.slots[idx] {
                        Some(entry) => {
                            if e.equals(key, &entry.0) {
                                proof {
                                    assert(self.slot_key(idx as int) == *key);
                                    assert(self.index_of@.contains_key(*key));
                                    assert(self.index_of@.dom() == self.model@.dom());
                                    assert(self.model@.contains_key(*key));
                                    assert(self.index_of@[*key] == idx as int);
                                }
                                return Ok(idx);
                            }
                            proof {
                                assert(self.slot_key(idx as int) == entry.0);
                                if idx as int == ki {
                                    assert(self.model@.contains_key(*key));
                                    assert(self.slot_key(ki) == *key);
                                    assert(false);
                                }
                                assert(!self.hit(h, ki, t, bj as int));
                            }
                        },
                        None => {
                            proof {
                                assert(self.slots@[idx as int] is Some);
                                assert(false);
                            }
                        },
                    }
                } else {
                    proof {
                        assert(self.ctrl@[pos + bj] != tg);
                        if ki >= 0 && (pos + bj) % mi == ki {
                            assert(self.model@.contains_key(*key));
                            assert(self.ctrl@[ki] == tag_of(e.hash_spec(*key)));
                            assert(!self.hit(h, ki, t, bj as int));
                        }
                        assert(!self.hit(h, ki, t, bj as int));
                    }
                }
                bj += 1;
            }
            if islot.is_none() {
                let vac = group::match_empty_or_deleted(&self.ctrl, pos);
                let vj = group::trailing_zeros(vac);
                if vj < GROUP_WIDTH {
                    let mut cand = (pos + vj) % m;
                    proof {
                        assert(is_vacant(self.ctrl@[pos + vj]));
                        self.lemma_truthful(pos + vj as int);
                        assert(in_window(probe_pos(h, mn, t), cand as nat, mn)) by {
                            let x = pos + vj as int;
                            lemma_mod_bound(x, mi);
                            lemma_small_mod(pos as nat, mn);
                            vstd::arithmetic::div_mod::lemma_sub_mod_noop(x, pos as int, mi);
                            assert((cand - pos) % mi == (vj as int) % mi);
                            lemma_mod_bound(vj as int, mi);
                            if vj < m {
                                lemma_small_mod(vj as nat, mn);
                            }
                        }
                    }
                    if self.ctrl[cand] < 128 {
                        // The vacant byte was one of the permanently-EMPTY
                        // padding bytes of a table smaller than one group;
                        // take the first truly vacant slot instead.
                        proof {
                            assert(m < 16);
                            self.lemma_small_table_has_vacant();
                        }
                        let vac0 = group::match_empty_or_deleted(&self.ctrl, 0);
                        let vj0 = group::trailing_zeros(vac0);
                        proof {
                            let es = choose|q: int|
                                0 <= q < mi && #[trigger] self.ctrl@[q] == EMPTY;
                            assert(is_vacant(self.ctrl@[0 + es]));
                            assert(vj0 <= es);
                            assert(vj0 < m);
                            assert(is_vacant(self.ctrl@[0 + vj0 as int]));
                            lemma_small_mod(vj0 as nat, mn);
                        }
                        cand = vj0;
                        proof {
                            lemma_probe_pos_bound(h, mn, 0);
                            lemma_win_off(probe_pos(h, mn, 0), cand as nat, mn);
                            assert(win_off(probe_pos(h, mn, 0), cand as nat, mn) < mi);
                            assert(in_window(probe_pos(h, mn, 0), cand as nat, mn));
                            assert(self.slot_insertable(h, cand as nat)) by {
                                assert(0 < probe_steps(mn) && in_window(
                                    probe_pos(h, mn, 0),
                                    cand as nat,
                                    mn,
                                ) && forall|t2: nat|
                                    t2 < 0 ==> !self.window_has_empty(probe_pos(h, mn, t2) as int));
                            }
                        }
                    } else {
                        proof {
                            assert(is_vacant(self.ctrl@[cand as int]));
                            assert(self.slot_insertable(h, cand as nat)) by {
                                assert(t < probe_steps(mn) && in_window(
                                    probe_pos(h, mn, t),
                                    cand as nat,
                                    mn,
                                ) && forall|t2: nat|
                                    t2 < t ==> !self.window_has_empty(probe_pos(h, mn, t2) as int));
                            }
                        }
                    }
                    islot = Some(cand);
                } else {
                    proof {
                        assert forall|j: int| 0 <= j < 16 implies !is_vacant(
                            #[trigger] self.ctrl@[pos + j],
                        ) by {
                            if is_vacant(self.ctrl@[pos + j]) {
                                assert(group::bit_set(vac, j as u32));
                                assert(false);
                            }
                        }
                    }
                }
            }
            let me_ = group::match_empty(&self.ctrl, pos);
            if me_ != 0 {
                proof {
                    assert(self.window_has_empty(pos as int)) by {
                        if forall|j: int| 0 <= j < 16 ==> #[trigger] self.ctrl@[pos + j] != EMPTY {
                            assert(me_ == 0);
                            assert(false);
                        } else {
                            let j = choose|j: int|
                                !(0 <= j < 16 ==> #[trigger] self.ctrl@[pos + j] != EMPTY);
                            assert(self.ctrl@[pos + j] == EMPTY);
                        }
                    }
                    if self.model@.contains_key(*key) {
                        assert(self.reachable(h, ki));
                        let tk = choose|t2: nat| self.reach_from(h, ki, t2);
                        if tk < t {
                            let jk = choose|j: int|
                                0 <= j < GROUP_WIDTH && (probe_pos(h, mn, tk) + j) % mi == ki
                                    && #[trigger] self.ctrl@[probe_pos(h, mn, tk) + j]
                                    == self.ctrl@[ki];
                            assert(self.hit(h, ki, tk, jk));
                            assert(false);
                        } else if tk == t {
                            let jk = choose|j: int|
                                0 <= j < GROUP_WIDTH && (probe_pos(h, mn, tk) + j) % mi == ki
                                    && #[trigger] self.ctrl@[probe_pos(h, mn, tk) + j]
                                    == self.ctrl@[ki];
                            assert(self.hit(h, ki, t, jk));
                            assert(false);
                        } else {
                            assert(!self.window_has_empty(probe_pos(h, mn, t) as int));
                            assert(self.window_has_empty(pos as int));
                            assert(false);
                        }
                    }
                }
                match islot {
                    Some(s) => {
                        return Err(InsertSlot { index: s });
                    },
                    None => {
                        proof {
                            // the EMPTY byte in this window is also vacant, so
                            // an insert slot was recorded above
                            assert(false);
                        }
                        return vstd::pervasive::unreached();
                    },
                }
            }
            proof {
                assert(!self.window_has_empty(pos as int)) by {
                    if self.window_has_empty(pos as int) {
                        let j = choose|j: int|
                            0 <= j < GROUP_WIDTH && #[trigger] self.ctrl@[pos + j] == EMPTY;
                        assert(false);
                    }
                }
                assert(t < tstar) by {
                    if t == tstar {
                        assert(self.window_has_empty(probe_pos(h, mn, tstar) as int));
                        assert(false);
                    }
                }
                assert(probe_steps(mn) <= mn) by {
                    if mn > 16 {
                        lemma_fundamental_div_mod(mi, 16);
                    }
                }
                assert(16 * (t + 1) <= 16 * probe_steps(mn)) by (nonlinear_arith)
                    requires
                        t + 1 <= tstar + 1,
                        tstar + 1 <= probe_steps(mn),
                ;
                assert(16 * probe_steps(mn) <= 16 * mn) by (nonlinear_arith)
                    requires
                        probe_steps(mn) <= mn,
                ;
                lemma_probe_step(h, mn, t);
            }
            stride = stride + GROUP_WIDTH;
            pos = (pos + stride) % m;
            proof {
                t = t + 1;
            }
        }
    }

    /// Finds an insertion slot for `hash` without comparing any keys: the
    /// first EMPTY-or-DELETED slot along the probe sequence. Growth uses it
    /// to re-insert entries whose keys are known distinct.
    pub fn find_insert_slot_inner(&self, hash: u64) -> (slot: InsertSlot)
        requires
            self.wf_base(),
            self.num_buckets() > 0,
        ensures
            (slot.index as int) < self.num_buckets(),
            !self.slot_full(slot.index as int),
            self.slot_insertable(hash, slot.index as nat),
    {
        let m = self.buckets;
        let ghost mn = m as nat;
        let ghost mi = m as int;
        proof {
            self.lemma_probe_terminates(hash);
        }
        let ghost tstar = choose|t: nat|
            t < probe_steps(mn) && #[trigger] self.window_has_empty(probe_pos(hash, mn, t) as int);
        let mut pos: usize = (hash as usize) % m;
        let mut stride: usize = 0;
        let ghost mut t: nat = 0;
        proof {
            lemma_small_mod(probe_start(hash, mn), mn);
            assert(pos as nat == probe_pos(hash, mn, 0));
        }
        loop
            invariant
                self.wf_base(),
                0 < m,
                m == self.buckets,
                mn == m as nat,
                mi == m as int,
                tstar < probe_steps(mn),
                self.window_has_empty(probe_pos(hash, mn, tstar) as int),
                t <= tstar,
                pos as nat == probe_pos(hash, mn, t),
                stride == 16 * t,
                forall|t2: nat| t2 < t ==> !self.window_has_empty(probe_pos(hash, mn, t2) as int),
            decreases tstar - t,
        {
            proof {
                lemma_probe_pos_bound(hash, mn, t);
            }
            let vac = group::match_empty_or_deleted(&self.ctrl, pos);
            let vj = group::trailing_zeros(vac);
            if vj < GROUP_WIDTH {
                let mut cand = (pos + vj) % m;
                proof {
                    assert(is_vacant(self.ctrl@[pos + vj]));
                    self.lemma_truthful(pos + vj as int);
                    assert(in_window(probe_pos(hash, mn, t), cand as nat, mn)) by {
                        let x = pos + vj as int;
                        lemma_mod_bound(x, mi);
                        lemma_small_mod(pos as nat, mn);
                        vstd::arithmetic::div_mod::lemma_sub_mod_noop(x, pos as int, mi);
                        assert((cand - pos) % mi == (vj as int) % mi);
                        lemma_mod_bound(vj as int, mi);
                        if vj < m {
                            lemma_small_mod(vj as nat, mn);
                        }
                    }
                }
                if self.ctrl[cand] < 128 {
                    // The vacant byte was a padding byte of a table smaller
                    // than one group; take the first truly vacant slot.
                    proof {
                        assert(m < 16);
                        self.lemma_small_table_has_vacant();
                    }
                    let vac0 = group::match_empty_or_deleted(&self.ctrl, 0);
                    let vj0 = group::trailing_zeros(vac0);
                    proof {
                        let es = choose|q: int| 0 <= q < mi && #[trigger] self.ctrl@[q] == EMPTY;
                        assert(is_vacant(self.ctrl@[0 + es]));
                        assert(vj0 <= es);
                        assert(vj0 < m);
                        assert(is_vacant(self.ctrl@[0 + vj0 as int]));
                        lemma_small_mod(vj0 as nat, mn);
                    }
                    cand = vj0;
                    proof {
                        lemma_probe_pos_bound(hash, mn, 0);
                        lemma_win_off(probe_pos(hash, mn, 0), cand as nat, mn);
                        assert(in_window(probe_pos(hash, mn, 0), cand as nat, mn));
                        assert(self.slot_insertable(hash, cand as nat)) by {
                            assert(0 < probe_steps(mn) && in_window(
                                probe_pos(hash, mn, 0),
                                cand as nat,
                                mn,
                            ) && forall|t2: nat|
                                t2 < 0 ==> !self.window_has_empty(probe_pos(hash, mn, t2) as int));
                        }
                    }
                } else {
                    proof {
                        assert(is_vacant(self.ctrl@[cand as int]));
                        assert(self.slot_insertable(hash, cand as nat)) by {
                            assert(t < probe_steps(mn) && in_window(
                                probe_pos(hash, mn, t),
                                cand as nat,
                                mn,
                            ) && forall|t2: nat|
                                t2 < t ==> !self.window_has_empty(probe_pos(hash, mn, t2) as int));
                        }
                    }
                }
                return InsertSlot { index: cand };
            }
            proof {
                assert forall|j: int| 0 <= j < 16 implies !is_vacant(
                    #[trigger] self.ctrl@[pos + j],
                ) by {
                    if is_vacant(self.ctrl@[pos + j]) {
                        assert(group::bit_set(vac, j as u32));
                        assert(false);
                    }
                }
                assert(!self.window_has_empty(pos as int)) by {
                    if self.window_has_empty(pos as int) {
                        let j = choose|j: int|
                            0 <= j < GROUP_WIDTH && #[trigger] self.ctrl@[pos + j] == EMPTY;
                        assert(false);
                    }
                }
                assert(t < tstar) by {
                    if t == tstar {
                        assert(self.window_has_empty(probe_pos(hash, mn, tstar) as int));
                        assert(false);
                    }
                }
                assert(probe_steps(mn) <= mn) by {
                    if mn > 16 {
                        lemma_fundamental_div_mod(mi, 16);
                    }
                }
                assert(16 * (t + 1) <= 16 * probe_steps(mn)) by (nonlinear_arith)
                    requires
                        t + 1 <= tstar + 1,
                        tstar + 1 <= probe_steps(mn),
                ;
                assert(16 * probe_steps(mn) <= 16 * mn) by (nonlinear_arith)
                    requires
                        probe_steps(mn) <= mn,
                ;
                lemma_probe_step(hash, mn, t);
            }
            stride = stride + GROUP_WIDTH;
            pos = (pos + stride) % m;
            proof {
                t = t + 1;
            }
        }
    }

    /// Marks `index` FULL with the hash's tag, records the entry's bytes in
    /// the bucket, and adjusts the occupancy accounting: a fresh insertion
    /// into an EMPTY slot consumes growth headroom, reuse of a tombstone does
    /// not.
    pub fn insert_at<E: EntrySpec<K, V>>(&mut self, e: &E, index: usize, key: K, value: V)
        requires
            old(self).wf(*e),
            old(self).num_buckets() > 0,
            (index as int) < old(self).num_buckets(),
            !old(self).slot_full(index as int),
            old(self).slot_insertable(e.hash_spec(key), index as nat),
            !old(self)@.contains_key(key),
            old(self).spec_growth_left() >= 1,
        ensures
            final(self).wf(*e),
            final(self)@ == old(self)@.insert(key, value),
            final(self).num_items() == old(self).num_items() + 1,
            final(self).num_buckets() == old(self).num_buckets(),
            final(self).spec_table_layout() == old(self).spec_table_layout(),
            final(self).spec_growth_left() <= old(self).spec_growth_left(),
            final(self).spec_growth_left() >= old(self).spec_growth_left() - 1,
    {
        let ghost pre = *self;
        let ghost mi = self.buckets as int;
        let ghost mn = self.buckets as nat;
        let h = e.hash(&key);
        let tg = tag(h);
        let old_ctrl = self.ctrl[index];
        self.set_ctrl(index, tg);
        self.model = Ghost(self.model@.insert(key, value));
        self.index_of = Ghost(self.index_of@.insert(key, index as int));
        self.slots.set(index, Some((key, value)));
        self.items = self.items + 1;
        if old_ctrl == EMPTY {
            self.growth_left = self.growth_left - 1;
        }
        proof {
            let post = *self;
            let hs = e.hash_spec(key);
            lemma_count_update(pre.ctrl@.subrange(0, mi), index as int, tg, EMPTY);
            lemma_count_update(pre.ctrl@.subrange(0, mi), index as int, tg, DELETED);
            assert(pre.ctrl@.subrange(0, mi)[index as int] == pre.ctrl@[index as int]);
            // no write introduces an EMPTY byte, so stopped windows stay stopped
            assert forall|pp: int|
                0 <= pp < mn && post.window_has_empty(pp) implies pre.window_has_empty(pp) by {
                let j2 = choose|j2: int|
                    0 <= j2 < GROUP_WIDTH && #[trigger] post.ctrl@[pp + j2] == EMPTY;
                assert(pre.ctrl@[pp + j2] == EMPTY);
            }
            // the new key reaches its slot
            assert(post.reachable(hs, index as int)) by {
                let t = choose|t: nat|
                    {
                        &&& t < probe_steps(mn)
                        &&& #[trigger] in_window(probe_pos(hs, mn, t), index as nat, mn)
                        &&& forall|t2: nat|
                            t2 < t ==> !pre.window_has_empty(probe_pos(hs, mn, t2) as int)
                    };
                lemma_probe_pos_bound(hs, mn, t);
                post.lemma_visible(probe_pos(hs, mn, t) as int, index as int);
                assert forall|t2: nat| t2 < t implies !post.window_has_empty(
                    probe_pos(hs, mn, t2) as int,
                ) by {
                    lemma_probe_pos_bound(hs, mn, t2);
                }
                assert(post.reach_from(hs, index as int, t));
            }
            // every previously present key keeps its slot and reachability
            assert forall|k: K| #[trigger] post.model@.contains_key(k) && k != key implies {
                &&& 0 <= post.index_of@[k] < mi
                &&& is_full(post.ctrl@[post.index_of@[k]])
                &&& post.slots@[post.index_of@[k]] is Some
                &&& post.slot_key(post.index_of@[k]) == k
                &&& post.slot_val(post.index_of@[k]) == post.model@[k]
                &&& post.ctrl@[post.index_of@[k]] == tag_of(e.hash_spec(k))
                &&& post.reachable(e.hash_spec(k), post.index_of@[k])
            } by {
                assert(pre.model@.contains_key(k));
                let ik = pre.index_of@[k];
                assert(ik != index as int);
                assert(post.ctrl@[ik] == pre.ctrl@[ik]);
                Self::lemma_reach_preserved(pre, post, index as int, e.hash_spec(k), ik);
            }
            // every FULL slot still indexes its key
            assert forall|i: int| 0 <= i < mi && is_full(#[trigger] post.ctrl@[i]) implies {
                &&& post.index_of@.contains_key(post.slot_key(i))
                &&& post.index_of@[post.slot_key(i)] == i
            } by {
                if i == index as int {
                } else {
                    assert(post.ctrl@[i] == pre.ctrl@[i]);
                    assert(post.slot_key(i) == pre.slot_key(i));
                    assert(pre.index_of@[pre.slot_key(i)] == i);
                    if pre.slot_key(i) == key {
                        assert(pre.index_of@.contains_key(key));
                        assert(pre.model@.contains_key(key));
                        assert(false);
                    }
                }
            }
            assert(post.index_of@.dom() =~= post.model@.dom());
            assert(post.model@.dom() =~= pre.model@.dom().insert(key));
            assert(post.model@.dom().len() == pre.model@.dom().len() + 1) by {
                vstd::set::axiom_set_insert_len(pre.model@.dom(), key);
            }
            assert(post.wf_base());
            assert(post.slots_wf(*e));
        }
    }

    /// Erases the entry in slot `index`. The slot becomes a tombstone, never
    /// EMPTY: a tombstone keeps every probe sequence walking past it, so the
    /// early-termination guarantee — an EMPTY byte proves absence — survives
    /// any erasure order. Growth headroom is unchanged: vacated slots still
    /// occupy capacity until the next growth or clear.
    pub fn erase<E: EntrySpec<K, V>>(&mut self, e: &E, index: usize)
        requires
            old(self).wf(*e),
            (index as int) < old(self).num_buckets(),
            old(self).slot_full(index as int),
        ensures
            final(self).wf(*e),
            final(self)@ == old(self)@.remove(old(self).slot_key(index as int)),
            old(self)@.contains_key(old(self).slot_key(index as int)),
            final(self).num_items() == old(self).num_items() - 1,
            final(self).num_buckets() == old(self).num_buckets(),
            final(self).spec_growth_left() == old(self).spec_growth_left(),
            final(self).spec_table_layout() == old(self).spec_table_layout(),
    {
        let m = self.buckets;
        let ghost mi = m as int;
        let ghost mn = m as nat;
        let ghost pre = *self;
        let ghost gone = self.slot_key(index as int);
        proof {
            assert(pre.index_of@[gone] == index as int);
            assert(pre.index_of@.contains_key(gone));
            assert(pre.model@.contains_key(gone));
        }
        self.set_ctrl(index, DELETED);
        self.model = Ghost(self.model@.remove(gone));
        self.index_of = Ghost(self.index_of@.remove(gone));
        proof {
            vstd::set::axiom_set_remove_len(pre.model@.dom(), gone);
            assert(self.model@.dom() =~= pre.model@.dom().remove(gone));
        }
        self.items = self.items - 1;
        proof {
            let post = *self;
            lemma_count_update(pre.ctrl@.subrange(0, mi), index as int, DELETED, EMPTY);
            lemma_count_update(pre.ctrl@.subrange(0, mi), index as int, DELETED, DELETED);
            assert(pre.ctrl@.subrange(0, mi)[index as int] == pre.ctrl@[index as int]);
            // remaining keys keep their slots and reachability
            assert forall|k: K| #[trigger] post.model@.contains_key(k) implies {
                &&& 0 <= post.index_of@[k] < mi
                &&& is_full(post.ctrl@[post.index_of@[k]])
                &&& post.slots@[post.index_of@[k]] is Some
                &&& post.slot_key(post.index_of@[k]) == k
                &&& post.slot_val(post.index_of@[k]) == post.model@[k]
                &&& post.ctrl@[post.index_of@[k]] == tag_of(e.hash_spec(k))
                &&& post.reachable(e.hash_spec(k), post.index_of@[k])
            } by {
                assert(k != gone);
                assert(pre.model@.contains_key(k));
                let ik = pre.index_of@[k];
                assert(ik != index as int) by {
                    if ik == index as int {
                        assert(pre.slot_key(ik) == k);
                        assert(false);
                    }
                }
                assert(post.ctrl@[ik] == pre.ctrl@[ik]);
                Self::lemma_reach_preserved(pre, post, index as int, e.hash_spec(k), ik);
            }
            // every remaining FULL slot still indexes its key
            assert forall|i: int| 0 <= i < mi && is_full(#[trigger] post.ctrl@[i]) implies {
                &&& post.index_of@.contains_key(post.slot_key(i))
                &&& post.index_of@[post.slot_key(i)] == i
            } by {
                assert(i != index as int);
                assert(post.ctrl@[i] == pre.ctrl@[i]);
                assert(pre.index_of@[pre.slot_key(i)] == i);
                if pre.slot_key(i) == gone {
                    assert(false);
                }
            }
            assert(post.index_of@.dom() =~= post.model@.dom());
            assert(post.wf_base());
            assert(post.slots_wf(*e));
        }
    }

    /// Resets every control byte to EMPTY without touching the buckets: the
    /// table is empty again, at unchanged capacity. Bucket contents are left
    /// as they are; this engine never runs per-entry destructors.
    pub fn clear_no_drop<E: EntrySpec<K, V>>(&mut self)
        requires
            old(self).wf_base(),
        ensures
            forall|e: E| #[trigger] final(self).wf(e),
            final(self)@ == Map::<K, V>::empty(),
            final(self).num_items() == 0,
            final(self).num_buckets() == old(self).num_buckets(),
            final(self).spec_table_layout() == old(self).spec_table_layout(),
            final(self).spec_growth_left() == spec_capacity(final(self).num_buckets()),
    {
        let m = self.buckets;
        if m == 0 {
            proof {
                assert(forall|e: E| #[trigger] self.wf(e) <== self.wf_base() && self.slots_wf(e));
                assert forall|e: E| #[trigger] self.wf(e) by {
                    assert(self.slots_wf(e));
                }
            }
            return ;
        }
        let n = self.ctrl.len();
        let mut i: usize = 0;
        while i < n
            invariant
                i <= n,
                n == self.ctrl@.len(),
                self.ctrl@.len() == old(self).ctrl@.len(),
                forall|p: int| 0 <= p < i ==> self.ctrl@[p] == EMPTY,
                self.buckets == old(self).buckets,
                self.slots == old(self).slots,
                self.items == old(self).items,
                self.growth_left == old(self).growth_left,
                self.model == old(self).model,
                self.index_of == old(self).index_of,
                self.table_layout == old(self).table_layout,
            decreases n - i,
        {
            self.ctrl.set(i, EMPTY);
            i += 1;
        }
        self.items = 0;
        self.growth_left = bucket_capacity(m);
        self.model = Ghost(Map::empty());
        self.index_of = Ghost(Map::empty());
        proof {
            let mi = m as int;
            assert(count_eq(self.ctrl@.subrange(0, mi), EMPTY) == m) by {
                lemma_count_all(self.ctrl@.subrange(0, mi), EMPTY);
            }
            assert(count_eq(self.ctrl@.subrange(0, mi), DELETED) == 0) by {
                lemma_count_none(self.ctrl@.subrange(0, mi), DELETED);
            }
            assert(self.mirror_ok());
            assert(self.wf_base());
            assert forall|e: E| #[trigger] self.wf(e) by {
                assert(forall|i2: int| 0 <= i2 < mi ==> !is_full(#[trigger] self.ctrl@[i2]));
                assert(self.slots_wf(e));
            }
        }
    }

    /// Scans forward group by group and returns the first FULL slot at or
    /// after `index`, or nothing when every later slot is vacant. The
    /// backbone of forward-only, restartable iteration.
    pub fn next_full_after(&self, index: usize) -> (r: Option<usize>)
        requires
            self.wf_base(),
        ensures
            match r {
                Some(i) => {
                    &&& index <= i
                    &&& (i as int) < self.num_buckets()
                    &&& self.slot_full(i as int)
                    &&& forall|q: int| index <= q < i ==> !self.slot_full(q)
                },
                None => forall|q: int|
                    index <= q < self.num_buckets() ==> !self.slot_full(q),
            },
    {
        let m = self.buckets;
        if index >= m {
            return None;
        }
        let mut curr = index;
        while curr < m
            invariant
                self.wf_base(),
                m == self.buckets,
                m >= 1,
                index <= curr,
                forall|q: int| index <= q < curr && q < m ==> !self.slot_full(q),
            decreases (if curr < m {
                m - curr
            } else {
                0int
            }),
        {
            let mf = group::match_full(&self.ctrl, curr);
            let j = group::trailing_zeros(mf);
            if j < GROUP_WIDTH {
                let idx = curr + j;
                proof {
                    assert(is_full(self.ctrl@[curr + j]));
                    assert forall|q: int| curr <= q < curr + j && q < m implies !self.slot_full(
                        q,
                    ) by {
                        assert(!is_full(self.ctrl@[curr + (q - curr)]));
                    }
                }
                if idx >= m {
                    return None;
                }
                proof {
                    self.lemma_truthful(idx as int);
                }
                return Some(idx);
            }
            proof {
                assert forall|q: int| curr <= q < curr + 16 && q < m implies !self.slot_full(
                    q,
                ) by {
                    assert(!is_full(self.ctrl@[curr + (q - curr)]));
                }
            }
            curr = curr + GROUP_WIDTH;
        }
        None
    }

    /// Some real slot of a small table is vacant.
    proof fn lemma_small_table_has_vacant(self)
        requires
            self.wf_base(),
            self.buckets >= 1,
        ensures
            exists|q: int| 0 <= q < self.buckets as int && #[trigger] self.ctrl@[q] == EMPTY,
    {
        let mi = self.buckets as int;
        lemma_count_nonzero_exists(self.ctrl@.subrange(0, mi), EMPTY);
        let q = choose|q: int| 0 <= q < mi && self.ctrl@.subrange(0, mi)[q] == EMPTY;
        assert(self.ctrl@[q] == EMPTY);
    }

    /// Reads the key stored in a FULL slot.
    pub fn get_key(&self, i: usize) -> (k: &K)
        requires
            self.wf_base(),
            (i as int) < self.num_buckets(),
            self.slot_full(i as int),
        ensures
            *k == self.slot_key(i as int),
    {
        match &self.slots[i] {
            Some(entry) => &entry.0,
            None => {
                proof {
                    assert(false);
                }
                vstd::pervasive::unreached()
            },
        }
    }

    /// Insertions still allowed before a growth is forced.
    pub fn growth_left(&self) -> (g: usize)
        ensures
            g as nat == self.spec_growth_left(),
    {
        self.growth_left
    }

    /// Number of slots.
    pub fn buckets(&self) -> (b: usize)
        ensures
            b as nat == self.num_buckets(),
    {
        self.buckets
    }

    /// A FULL slot holds exactly the model entry its key maps to.
    pub proof fn lemma_full_slot_key<E: EntrySpec<K, V>>(self, e: E, i: int)
        requires
            self.wf(e),
            0 <= i < self.num_buckets(),
            self.slot_full(i),
        ensures
            self@.contains_key(self.slot_key(i)),
            self.index_for(self.slot_key(i)) == i,
            self@[self.slot_key(i)] == self.slot_val(i),
    {
        assert(self.index_of@.contains_key(self.slot_key(i)));
        assert(self.index_of@.dom() == self.model@.dom());
    }

    /// Every present key sits in exactly one FULL slot.
    pub proof fn lemma_key_slot<E: EntrySpec<K, V>>(self, e: E, k: K)
        requires
            self.wf(e),
            self@.contains_key(k),
        ensures
            0 <= self.index_for(k) < self.num_buckets(),
            self.slot_full(self.index_for(k)),
            self.slot_key(self.index_for(k)) == k,
            self@[k] == self.slot_val(self.index_for(k)),
    {
    }

    /// Overwrites the value of the FULL slot holding `index`'s key; the key
    /// set, the control bytes and the accounting are untouched.
    pub fn replace_value<E: EntrySpec<K, V>>(&mut self, e: &E, index: usize, value: V)
        requires
            old(self).wf(*e),
            (index as int) < old(self).num_buckets(),
            old(self).slot_full(index as int),
        ensures
            final(self).wf(*e),
            final(self)@ == old(self)@.insert(old(self).slot_key(index as int), value),
            old(self)@.contains_key(old(self).slot_key(index as int)),
            final(self).num_items() == old(self).num_items(),
            final(self).num_buckets() == old(self).num_buckets(),
            final(self).spec_growth_left() == old(self).spec_growth_left(),
            final(self).spec_table_layout() == old(self).spec_table_layout(),
    {
        let ghost pre = *self;
        let ghost mi = self.buckets as int;
        let ghost gone = self.slot_key(index as int);
        proof {
            pre.lemma_full_slot_key(*e, index as int);
        }
        let key2 = match &self.slots[index] {
            Some(entry) => e.assign_key(&entry.0),
            None => {
                proof {
                    assert(false);
                }
                vstd::pervasive::unreached()
            },
        };
        self.model = Ghost(self.model@.insert(key2, value));
        self.slots.set(index, Some((key2, value)));
        proof {
            let post = *self;
            assert(post.ctrl@ == pre.ctrl@);
            assert(post.model@.dom() =~= pre.model@.dom());
            assert forall|k: K| #[trigger] post.model@.contains_key(k) implies {
                &&& 0 <= post.index_of@[k] < mi
                &&& is_full(post.ctrl@[post.index_of@[k]])
                &&& post.slots@[post.index_of@[k]] is Some
                &&& post.slot_key(post.index_of@[k]) == k
                &&& post.slot_val(post.index_of@[k]) == post.model@[k]
                &&& post.ctrl@[post.index_of@[k]] == tag_of(e.hash_spec(k))
                &&& post.reachable(e.hash_spec(k), post.index_of@[k])
            } by {
                assert(pre.model@.contains_key(k));
                let ik = pre.index_of@[k];
                if ik == index as int {
                    assert(k == gone);
                }
                Self::lemma_reach_preserved(pre, post, -1, e.hash_spec(k), ik);
            }
            assert forall|i: int| 0 <= i < mi && is_full(#[trigger] post.ctrl@[i]) implies {
                &&& post.index_of@.contains_key(post.slot_key(i))
                &&& post.index_of@[post.slot_key(i)] == i
            } by {
                if i == index as int {
                    assert(post.slot_key(i) == gone);
                } else {
                    assert(post.slot_key(i) == pre.slot_key(i));
                }
            }
            assert(post.wf_base());
            assert(post.slots_wf(*e));
        }
    }

    /// Grows the table so that at least `additional` further entries fit:
    /// allocates a fresh region sized by the load-factor policy, re-inserts
    /// every FULL bucket under its recomputed hash, and replaces the old
    /// state only when everything succeeded — a failed growth leaves the
    /// table untouched.
    pub fn reserve_rehash_inner<E: EntrySpec<K, V>>(&mut self, e: &E, additional: usize) -> (r:
        Result<(), TryReserveError>)
        requires
            old(self).wf(*e),
        ensures
            match r {
                Ok(()) => {
                    &&& final(self).wf(*e)
                    &&& final(self)@ == old(self)@
                    &&& final(self).num_items() == old(self).num_items()
                    &&& final(self).spec_growth_left() >= additional
                    &&& final(self).spec_table_layout() == old(self).spec_table_layout()
                    &&& final(self).num_buckets() > 0
                },
                Err(err) => {
                    &&& *final(self) == *old(self)
                    &&& err == TryReserveError::CapacityOverflow
                    &&& (old(self).num_items() + additional > usize::MAX || capacity_overflows(
                        grow_target(old(self).num_items(), old(self).num_buckets(), additional as nat),
                    ))
                },
            },
            r is Ok ==> old(self).num_items() + additional <= usize::MAX && !capacity_overflows(
                grow_target(old(self).num_items(), old(self).num_buckets(), additional as nat),
            ),
    {
        let new_items = match self.items.checked_add(additional) {
            Some(n) => n,
            None => {
                return Err(TryReserveError::CapacityOverflow);
            },
        };
        let full_cap = if self.buckets == 0 {
            0
        } else {
            bucket_capacity(self.buckets)
        };
        let target = if new_items > full_cap + 1 {
            new_items
        } else {
            full_cap + 1
        };
        proof {
            assert(target as nat == grow_target(
                self.items as nat,
                self.buckets as nat,
                additional as nat,
            ));
        }
        let mut fresh = match Self::fallible_with_capacity::<E>(self.table_layout, target) {
            Ok(t) => t,
            Err(err) => {
                return Err(err);
            },
        };
        let ghost pre = *self;
        let ghost mi = self.buckets as int;
        let m = self.buckets;
        let mut i: usize = 0;
        while i < m
            invariant
                *self == pre,
                pre.wf(*e),
                m == pre.buckets,
                mi == m as int,
                fresh.wf(*e),
                fresh.num_buckets() > 0,
                fresh.spec_table_layout() == pre.spec_table_layout(),
                fresh.num_items() + fresh.spec_growth_left() >= target,
                target >= pre.num_items() + additional,
                i <= m,
                forall|k: K| #[trigger] fresh@.contains_key(k) <==> (pre@.contains_key(k)
                    && pre.index_for(k) < i),
                forall|k: K| #[trigger] fresh@.contains_key(k) ==> fresh@[k] == pre@[k],
            decreases m - i,
        {
            if self.ctrl[i] < 128 {
                proof {
                    pre.lemma_full_slot_key(*e, i as int);
                }
                let (key2, val2) = match &self.slots[i] {
                    Some(entry) => (e.assign_key(&entry.0), e.assign_value(&entry.1)),
                    None => {
                        proof {
                            assert(false);
                        }
                        vstd::pervasive::unreached()
                    },
                };
                let ghost fresh0 = fresh;
                proof {
                    assert(!fresh@.contains_key(key2));
                    // the fresh table still has headroom: what it holds is a
                    // strict part of what the old table holds
                    assert(fresh@.dom() <= pre@.dom().remove(key2)) by {
                        assert forall|k: K| #[trigger] fresh@.dom().contains(k) implies pre@.dom().remove(
                            key2,
                        ).contains(k) by {}
                    }
                    vstd::set_lib::lemma_len_subset(fresh@.dom(), pre@.dom().remove(key2));
                    vstd::set::axiom_set_remove_len(pre@.dom(), key2);
                    assert(fresh.num_items() <= pre.num_items() - 1);
                    assert(fresh.spec_growth_left() >= 1);
                    fresh.lemma_wf_base(*e);
                }
                // re-insertion compares no keys: the supplied binding only
                // recomputes the hash, and the slot search is vacancy-only
                let rehash = e.hash(&key2);
                let slot = fresh.find_insert_slot_inner(rehash);
                fresh.insert_at(e, slot.index, key2, val2);
                proof {
                    assert forall|k: K| #[trigger] fresh@.contains_key(k) implies (
                    pre@.contains_key(k) && pre.index_for(k) < i + 1) by {
                        if k != key2 {
                            assert(fresh0@.contains_key(k));
                        }
                    }
                    assert forall|k: K|
                        pre@.contains_key(k) && pre.index_for(k) < i + 1 implies #[trigger] fresh@.contains_key(
                        k,
                    ) by {
                        if pre.index_for(k) == i as int {
                            pre.lemma_key_slot(*e, k);
                            assert(k == pre.slot_key(i as int));
                        } else {
                            assert(fresh0@.contains_key(k));
                        }
                    }
                }
            } else {
                proof {
                    assert forall|k: K|
                        pre@.contains_key(k) && pre.index_for(k) < i + 1 implies #[trigger] fresh@.contains_key(
                        k,
                    ) by {
                        if pre.index_for(k) == i as int {
                            pre.lemma_key_slot(*e, k);
                            assert(false);
                        }
                    }
                }
            }
            i += 1;
        }
        proof {
            assert forall|k: K| #[trigger] pre@.contains_key(k) implies fresh@.contains_key(
                k,
            ) by {
                pre.lemma_key_slot(*e, k);
            }
            assert(fresh@ =~= pre@);
        }
        *self = fresh;
        Ok(())
    }

    /// An allocated table's full capacity covers at least one entry.
    pub proof fn lemma_buckets_capacity<E: EntrySpec<K, V>>(self, e: E)
        requires
            self.wf(e),
            self.num_buckets() > 0,
        ensures
            spec_capacity(self.num_buckets()) >= 3,
    {
        assert(self.buckets >= 4);
        if self.buckets >= 8 {
            let m = self.buckets as nat;
            lemma_fundamental_div_mod(m as int, 8);
            assert(m / 8 >= 1);
            assert(m / 8 * 7 >= 3) by (nonlinear_arith)
                requires
                    m / 8 >= 1,
            ;
        }
    }

    /// The full invariant implies the structural one, and the facts the
    /// facade needs of the accounting.
    pub proof fn lemma_wf_base<E: EntrySpec<K, V>>(self, e: E)
        requires
            self.wf(e),
        ensures
            self.wf_base(),
            self@.dom().finite(),
            self.num_items() == self@.len(),
            self.spec_growth_left() > 0 ==> self.num_buckets() > 0,
    {
    }

    /// Number of entries.
    pub fn len(&self) -> (n: usize)
        requires
            self.wf_base(),
        ensures
            n as nat == self@.len(),
    {
        self.items
    }
}

} // verus!
