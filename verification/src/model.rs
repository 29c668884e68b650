use vstd::prelude::*;

use crate::id::ArenaId;

verus! {

/// Number of `true` entries in `s`.
pub open spec fn live_count(s: Seq<bool>) -> nat
    decreases s.len(),
{
    if s.len() == 0 {
        0
    } else {
        live_count(s.drop_last()) + if s.last() { 1nat } else { 0nat }
    }
}

/// Number of live slots strictly before slot `i`: where compaction puts the
/// entry that lives at `i`.
pub open spec fn rank(s: Seq<bool>, i: int) -> nat {
    live_count(s.take(i))
}

/// The generation a slot takes when it is freed: one more, wrapping at
/// `u64::MAX`.
pub open spec fn next_generation(g: u64) -> u64 {
    if g == u64::MAX {
        0
    } else {
        (g + 1) as u64
    }
}

pub proof fn lemma_live_count_bounds(s: Seq<bool>)
    ensures
        live_count(s) <= s.len(),
    decreases s.len(),
{
    if s.len() > 0 {
        lemma_live_count_bounds(s.drop_last());
    }
}

/// Extending a prefix by one slot adds one exactly when that slot is live.
pub proof fn lemma_rank_step(s: Seq<bool>, i: int)
    requires
        0 <= i < s.len(),
    ensures
        rank(s, i + 1) == rank(s, i) + if s[i] { 1nat } else { 0nat },
{
    assert(s.take(i + 1).drop_last() =~= s.take(i));
}

/// The rank at the full length is the live count.
pub proof fn lemma_rank_full(s: Seq<bool>)
    ensures
        rank(s, s.len() as int) == live_count(s),
{
    assert(s.take(s.len() as int) =~= s);
}

/// Ranks grow with the index, and grow strictly past a live slot.
pub proof fn lemma_rank_monotone(s: Seq<bool>, i: int, j: int)
    requires
        0 <= i <= j <= s.len(),
    ensures
        rank(s, i) <= rank(s, j),
        i < j && s[i] ==> rank(s, i) < rank(s, j),
    decreases j - i,
{
    if i < j {
        lemma_rank_monotone(s, i, j - 1);
        lemma_rank_step(s, j - 1);
    }
}

/// A rank never exceeds its index.
pub proof fn lemma_rank_le_index(s: Seq<bool>, i: int)
    requires
        0 <= i <= s.len(),
    ensures
        rank(s, i) <= i,
{
    lemma_live_count_bounds(s.take(i));
}

/// Setting one slot of a flag sequence changes the count by the difference.
pub proof fn lemma_live_count_update(s: Seq<bool>, i: int, b: bool)
    requires
        0 <= i < s.len(),
    ensures
        live_count(s.update(i, b)) + (if s[i] { 1int } else { 0int }) == live_count(s) + (if b {
            1int
        } else {
            0int
        }),
    decreases s.len(),
{
    let t = s.update(i, b);
    if i == s.len() - 1 {
        assert(t.drop_last() =~= s.drop_last());
    } else {
        assert(t.drop_last() =~= s.drop_last().update(i, b));
        lemma_live_count_update(s.drop_last(), i, b);
    }
}

/// Whether compaction moves the entry of slot `i` away: it is live and its
/// rank differs from its index.
pub open spec fn moves_away(alive: Seq<bool>, i: int) -> bool {
    alive[i] && rank(alive, i) != i
}

/// The generation slot `j` carries after compaction: a slot whose entry moves
/// away is freed with its generation bumped; every other slot keeps its
/// generation, a slot that receives an entry included.
pub open spec fn compacted_generation(alive: Seq<bool>, gens: Seq<u64>, j: int) -> u64 {
    if moves_away(alive, j) {
        next_generation(gens[j])
    } else {
        gens[j]
    }
}

/// The relocations that compaction performs on the first `n` slots, in slot
/// order: each entry that moves away goes from `(i, its generation)` to
/// `(rank, the generation its new slot carries after compaction)`.
pub open spec fn moves(alive: Seq<bool>, gens: Seq<u64>, n: int) -> Seq<(ArenaId, ArenaId)>
    decreases n,
{
    if n <= 0 {
        Seq::empty()
    } else {
        let i = n - 1;
        let prev = moves(alive, gens, i);
        if moves_away(alive, i) {
            let w = rank(alive, i) as int;
            prev.push(
                (
                    ArenaId { index: i as usize, generation: gens[i] },
                    ArenaId { index: w as usize, generation: compacted_generation(alive, gens, w) },
                ),
            )
        } else {
            prev
        }
    }
}

/// The slots `lo..hi` from the highest down: pushed in this order on a
/// stack, they are handed out from `lo` upwards.
pub open spec fn descending(lo: int, hi: int) -> Seq<usize> {
    Seq::new((hi - lo) as nat, |t: int| (hi - 1 - t) as usize)
}

/// Past a stretch of dead slots the rank does not grow.
pub proof fn lemma_rank_flat(s: Seq<bool>, m: int, n: int)
    requires
        0 <= m <= n <= s.len(),
        forall|i: int| m <= i < n ==> !#[trigger] s[i],
    ensures
        rank(s, n) == rank(s, m),
    decreases n - m,
{
    if m < n {
        lemma_rank_flat(s, m, n - 1);
        lemma_rank_step(s, n - 1);
    }
}

/// The live entries among the first `n` slots, in slot order, each with the
/// id that currently names it.
pub open spec fn live_entries<T>(alive: Seq<bool>, gens: Seq<u64>, vals: Seq<T>, n: int) -> Seq<
    (ArenaId, T),
>
    decreases n,
{
    if n <= 0 {
        Seq::empty()
    } else {
        let i = n - 1;
        let prev = live_entries(alive, gens, vals, i);
        if alive[i] {
            prev.push((ArenaId { index: i as usize, generation: gens[i] }, vals[i]))
        } else {
            prev
        }
    }
}

/// The slots among the first `n` that are live in `before` and free in
/// `after`, in slot order.
pub open spec fn dropped(before: Seq<bool>, after: Seq<bool>, n: int) -> Seq<usize>
    decreases n,
{
    if n <= 0 {
        Seq::empty()
    } else {
        let i = n - 1;
        let prev = dropped(before, after, i);
        if before[i] && !after[i] {
            prev.push(i as usize)
        } else {
            prev
        }
    }
}

/// `dropped` reads `after` only below `n`.
pub proof fn lemma_dropped_prefix(before: Seq<bool>, a1: Seq<bool>, a2: Seq<bool>, n: int)
    requires
        forall|j: int| 0 <= j < n ==> a1[j] == a2[j],
    ensures
        dropped(before, a1, n) == dropped(before, a2, n),
    decreases n,
{
    if n > 0 {
        lemma_dropped_prefix(before, a1, a2, n - 1);
    }
}

/// Each relocation in `moves` takes a live slot below `n` to its rank, which
/// differs from its index; the old id carries the slot's generation and the
/// new id the compacted generation of the target slot.
pub proof fn lemma_moves_shape(alive: Seq<bool>, gens: Seq<u64>, n: int)
    requires
        0 <= n <= alive.len(),
        n <= usize::MAX,
    ensures
        forall|k: int|
            0 <= k < moves(alive, gens, n).len() ==> {
                let (o, w) = #[trigger] moves(alive, gens, n)[k];
                &&& 0 <= o.index < n
                &&& alive[o.index as int]
                &&& w.index == rank(alive, o.index as int)
                &&& w.index != o.index
                &&& o.generation == gens[o.index as int]
                &&& w.generation == compacted_generation(alive, gens, w.index as int)
            },
        forall|k1: int, k2: int|
            0 <= k1 < k2 < moves(alive, gens, n).len() ==> (#[trigger] moves(alive, gens, n)[k1]).0.index
                < (#[trigger] moves(alive, gens, n)[k2]).0.index,
    decreases n,
{
    if n > 0 {
        lemma_moves_shape(alive, gens, n - 1);
        lemma_rank_le_index(alive, n - 1);
        let prev = moves(alive, gens, n - 1);
        assert forall|k: int| 0 <= k < moves(alive, gens, n).len() implies {
            let (o, w) = #[trigger] moves(alive, gens, n)[k];
            &&& 0 <= o.index < n
            &&& alive[o.index as int]
            &&& w.index == rank(alive, o.index as int)
            &&& w.index != o.index
            &&& o.generation == gens[o.index as int]
            &&& w.generation == compacted_generation(alive, gens, w.index as int)
        } by {
            if k < prev.len() {
                assert(moves(alive, gens, n)[k] == prev[k]);
            }
        }
        assert forall|k1: int, k2: int|
            0 <= k1 < k2 < moves(alive, gens, n).len() implies (#[trigger] moves(
            alive,
            gens,
            n,
        )[k1]).0.index < (#[trigger] moves(alive, gens, n)[k2]).0.index by {
            assert(moves(alive, gens, n)[k1] == prev[k1]);
            if k2 < prev.len() {
                assert(moves(alive, gens, n)[k2] == prev[k2]);
            }
        }
    }
}

/// Every live slot below `n` whose rank differs from its index has a
/// relocation in `moves`.
pub proof fn lemma_moves_complete(alive: Seq<bool>, gens: Seq<u64>, n: int, i: int)
    requires
        0 <= i < n <= alive.len(),
        n <= usize::MAX,
        alive[i],
        rank(alive, i) != i,
    ensures
        exists|k: int|
            0 <= k < moves(alive, gens, n).len() && (#[trigger] moves(alive, gens, n)[k]).0.index
                == i,
    decreases n,
{
    let m = moves(alive, gens, n);
    if i == n - 1 {
        assert(m[m.len() - 1].0.index == i);
    } else {
        lemma_moves_complete(alive, gens, n - 1, i);
        let k = choose|k: int|
            0 <= k < moves(alive, gens, n - 1).len() && (#[trigger] moves(
                alive,
                gens,
                n - 1,
            )[k]).0.index == i;
        assert(m[k] == moves(alive, gens, n - 1)[k]);
    }
}

/// When every slot below `m` is live, each such slot is its own rank.
pub proof fn lemma_rank_of_full_prefix(s: Seq<bool>, m: int, i: int)
    requires
        0 <= i <= m <= s.len(),
        forall|j: int| 0 <= j < m ==> #[trigger] s[j],
    ensures
        rank(s, i) == i,
    decreases i,
{
    if i > 0 {
        lemma_rank_of_full_prefix(s, m, i - 1);
        lemma_rank_step(s, i - 1);
    }
}

/// With no slot whose rank differs from its index, there is nothing to move.
pub proof fn lemma_moves_empty(alive: Seq<bool>, gens: Seq<u64>, n: int)
    requires
        0 <= n <= alive.len(),
        forall|i: int| 0 <= i < n && #[trigger] alive[i] ==> rank(alive, i) == i,
    ensures
        moves(alive, gens, n).len() == 0,
    decreases n,
{
    if n > 0 {
        lemma_moves_empty(alive, gens, n - 1);
    }
}

/// A flag sequence that is `true` exactly below `k` counts `k`.
pub proof fn lemma_live_count_of_prefix(s: Seq<bool>, k: int)
    requires
        0 <= k <= s.len(),
        forall|j: int| 0 <= j < s.len() ==> #[trigger] s[j] == (j < k),
    ensures
        live_count(s) == k,
{
    assert forall|i: int| 0 <= i <= s.len() implies #[trigger] rank(s, i) == if i < k { i } else { k } by {
        lemma_rank_prefix_count(s, k, i);
    }
    lemma_rank_full(s);
}

proof fn lemma_rank_prefix_count(s: Seq<bool>, k: int, i: int)
    requires
        0 <= k <= s.len(),
        0 <= i <= s.len(),
        forall|j: int| 0 <= j < s.len() ==> #[trigger] s[j] == (j < k),
    ensures
        rank(s, i) == if i < k { i } else { k },
    decreases i,
{
    if i > 0 {
        lemma_rank_prefix_count(s, k, i - 1);
        lemma_rank_step(s, i - 1);
    }
}

/// Each entry listed by `live_entries` is a live slot below `n` with its
/// generation and value, and there are as many as live slots below `n`.
pub proof fn lemma_live_entries_shape<T>(alive: Seq<bool>, gens: Seq<u64>, vals: Seq<T>, n: int)
    requires
        0 <= n <= alive.len(),
        n <= usize::MAX,
    ensures
        live_entries(alive, gens, vals, n).len() == rank(alive, n),
        forall|k: int|
            0 <= k < live_entries(alive, gens, vals, n).len() ==> {
                let (id, v) = #[trigger] live_entries(alive, gens, vals, n)[k];
                &&& 0 <= id.index < n
                &&& alive[id.index as int]
                &&& id.generation == gens[id.index as int]
                &&& v == vals[id.index as int]
            },
    decreases n,
{
    if n > 0 {
        lemma_live_entries_shape(alive, gens, vals, n - 1);
        lemma_rank_step(alive, n - 1);
        let prev = live_entries(alive, gens, vals, n - 1);
        assert forall|k: int| 0 <= k < live_entries(alive, gens, vals, n).len() implies {
            let (id, v) = #[trigger] live_entries(alive, gens, vals, n)[k];
            &&& 0 <= id.index < n
            &&& alive[id.index as int]
            &&& id.generation == gens[id.index as int]
            &&& v == vals[id.index as int]
        } by {
            if k < prev.len() {
                assert(live_entries(alive, gens, vals, n)[k] == prev[k]);
            }
        }
    }
}

/// Every live slot below `n` is listed by `live_entries`.
pub proof fn lemma_live_entries_complete<T>(
    alive: Seq<bool>,
    gens: Seq<u64>,
    vals: Seq<T>,
    n: int,
    i: int,
)
    requires
        0 <= i < n <= alive.len(),
        n <= usize::MAX,
        alive[i],
    ensures
        exists|k: int|
            0 <= k < live_entries(alive, gens, vals, n).len() && (#[trigger] live_entries(
                alive,
                gens,
                vals,
                n,
            )[k]).0.index == i,
    decreases n,
{
    let e = live_entries(alive, gens, vals, n);
    if i == n - 1 {
        assert(e[e.len() - 1].0.index == i);
    } else {
        lemma_live_entries_complete(alive, gens, vals, n - 1, i);
        let k = choose|k: int|
            0 <= k < live_entries(alive, gens, vals, n - 1).len() && (#[trigger] live_entries(
                alive,
                gens,
                vals,
                n - 1,
            )[k]).0.index == i;
        assert(e[k] == live_entries(alive, gens, vals, n - 1)[k]);
    }
}

/// Every rank below the count of the first `n` slots belongs to a live slot
/// among them.
pub proof fn lemma_rank_onto(s: Seq<bool>, n: int, m: int)
    requires
        0 <= n <= s.len(),
        0 <= m < rank(s, n),
    ensures
        exists|i: int| 0 <= i < n && s[i] && #[trigger] rank(s, i) == m,
    decreases n,
{
    if n > 0 {
        lemma_rank_step(s, n - 1);
        if m < rank(s, n - 1) {
            lemma_rank_onto(s, n - 1, m);
        } else {
            assert(s[n - 1] && rank(s, n - 1) == m);
        }
    }
}

/// When `after` only frees slots of `before`, the slots live in `after`
/// plus those dropped make up the slots live in `before`.
pub proof fn lemma_dropped_count(before: Seq<bool>, after: Seq<bool>, n: int)
    requires
        0 <= n <= before.len(),
        n <= after.len(),
        forall|j: int| 0 <= j < n && #[trigger] after[j] ==> before[j],
    ensures
        rank(after, n) + dropped(before, after, n).len() == rank(before, n),
    decreases n,
{
    if n > 0 {
        lemma_dropped_count(before, after, n - 1);
        lemma_rank_step(before, n - 1);
        lemma_rank_step(after, n - 1);
    }
}

} // verus!
