use vstd::prelude::*;

verus! {

/// The concatenation of a sequence of chunks, first chunk first.
pub open spec fn flat(chunks: Seq<Seq<usize>>) -> Seq<usize>
    decreases chunks.len(),
{
    if chunks.len() == 0 {
        Seq::empty()
    } else {
        flat(chunks.drop_last()) + chunks.last()
    }
}

/// The summed cost of the items at positions `idx` of `costs`.
pub open spec fn items_cost(costs: Seq<usize>, idx: Seq<usize>) -> int
    decreases idx.len(),
{
    if idx.len() == 0 {
        0
    } else {
        items_cost(costs, idx.drop_last()) + costs[idx.last() as int]
    }
}

/// Whether the positions in `s` are strictly increasing.
pub open spec fn increasing(s: Seq<usize>) -> bool {
    forall|a: int, b: int| 0 <= a < b < s.len() ==> s[a] < s[b]
}

/// The packer's state after it has looked at the first `n` items:
/// the closed chunks, the open chunk, the open chunk's cost (the base cost
/// plus its items), and the items refused as oversized.
pub open spec fn pack_state(base: int, costs: Seq<usize>, budget: int, cap: int, n: nat) -> (
    Seq<Seq<usize>>,
    Seq<usize>,
    int,
    Seq<usize>,
)
    decreases n,
{
    if n == 0 {
        (Seq::empty(), Seq::empty(), base, Seq::empty())
    } else {
        let prev = pack_state(base, costs, budget, cap, (n - 1) as nat);
        let (chunks, cur, cost, over) = prev;
        let i = (n - 1) as usize;
        let c = costs[n - 1] as int;
        if cur.len() > 0 && cost + c <= budget && (cap == 0 || cur.len() < cap) {
            (chunks, cur.push(i), cost + c, over)
        } else {
            let closed = if cur.len() > 0 {
                chunks.push(cur)
            } else {
                chunks
            };
            if base + c <= budget {
                (closed, seq![i], base + c, over)
            } else {
                (closed, Seq::empty(), base, over.push(i))
            }
        }
    }
}

/// First-fit greedy packing of items with the given costs, in input order:
/// the chunks (each a list of item positions) and the oversized items.
/// A `cap` of zero puts no bound on the number of items in a chunk.
pub open spec fn pack_spec(base: int, costs: Seq<usize>, budget: int, cap: int) -> (
    Seq<Seq<usize>>,
    Seq<usize>,
) {
    let (chunks, cur, cost, over) = pack_state(base, costs, budget, cap, costs.len());
    (
        if cur.len() > 0 {
            chunks.push(cur)
        } else {
            chunks
        },
        over,
    )
}

/// The conditions that every chunk of a packing meets: not empty, within the
/// budget once the base cost is added, and within the cap.
pub open spec fn chunk_ok(base: int, costs: Seq<usize>, budget: int, cap: int, ch: Seq<usize>) -> bool {
    &&& ch.len() > 0
    &&& base + items_cost(costs, ch) <= budget
    &&& (cap > 0 ==> ch.len() <= cap)
}

/// Each position below `n` is in exactly one of `packed` and `over`, both are
/// increasing, and neither holds a position at or past `n`.
pub open spec fn partitions(packed: Seq<usize>, over: Seq<usize>, n: int) -> bool {
    &&& increasing(packed)
    &&& increasing(over)
    &&& forall|k: int| 0 <= k < packed.len() ==> packed[k] < n
    &&& forall|k: int| 0 <= k < over.len() ==> over[k] < n
    &&& forall|i: usize| 0 <= i < n ==> (packed.contains(i) != over.contains(i))
}

pub open spec fn state_ok(
    base: int,
    costs: Seq<usize>,
    budget: int,
    cap: int,
    n: nat,
    st: (Seq<Seq<usize>>, Seq<usize>, int, Seq<usize>),
) -> bool {
    let (chunks, cur, cost, over) = st;
    &&& forall|k: int|
        0 <= k < chunks.len() ==> #[trigger] chunk_ok(base, costs, budget, cap, chunks[k])
    &&& cost == base + items_cost(costs, cur)
    &&& cur.len() > 0 ==> cost <= budget
    &&& cap > 0 ==> cur.len() <= cap
    &&& partitions(flat(chunks) + cur, over, n as int)
    &&& forall|k: int| 0 <= k < over.len() ==> base + costs[over[k] as int] > budget
}

proof fn lemma_items_cost_push(costs: Seq<usize>, idx: Seq<usize>, i: usize)
    ensures
        items_cost(costs, idx.push(i)) == items_cost(costs, idx) + costs[i as int],
{
    assert(idx.push(i).drop_last() =~= idx);
}

proof fn lemma_flat_push(chunks: Seq<Seq<usize>>, ch: Seq<usize>)
    ensures
        flat(chunks.push(ch)) == flat(chunks) + ch,
{
    assert(chunks.push(ch).drop_last() =~= chunks);
}

proof fn lemma_pack_state_ok(base: int, costs: Seq<usize>, budget: int, cap: int, n: nat)
    requires
        n <= costs.len() <= usize::MAX,
        base >= 0,
        cap >= 0,
    ensures
        state_ok(base, costs, budget, cap, n, pack_state(base, costs, budget, cap, n)),
    decreases n,
{
    if n > 0 {
        lemma_pack_state_ok(base, costs, budget, cap, (n - 1) as nat);
        let (chunks, cur, cost, over) = pack_state(base, costs, budget, cap, (n - 1) as nat);
        let i = (n - 1) as usize;
        let c = costs[n - 1] as int;
        let packed = flat(chunks) + cur;
        assert(forall|k: int| 0 <= k < packed.len() ==> packed[k] < i);
        assert(forall|k: int| 0 <= k < over.len() ==> over[k] < i);
        assert(!packed.contains(i));
        assert(!over.contains(i));
        if cur.len() > 0 && cost + c <= budget && (cap == 0 || cur.len() < cap) {
            lemma_items_cost_push(costs, cur, i);
            let p2 = flat(chunks) + cur.push(i);
            assert(p2 =~= packed.push(i));
            assert forall|j: usize| 0 <= j < n implies (p2.contains(j) != over.contains(j)) by {
                if j < i {
                    if packed.contains(j) {
                        let w = choose|w: int| 0 <= w < packed.len() && packed[w] == j;
                        assert(p2[w] == j);
                    }
                    if p2.contains(j) {
                        let w = choose|w: int| 0 <= w < p2.len() && p2[w] == j;
                        assert(w < packed.len());
                        assert(packed[w] == j);
                    }
                } else {
                    assert(p2[p2.len() - 1] == j);
                }
            }
        } else {
            let closed = if cur.len() > 0 {
                chunks.push(cur)
            } else {
                chunks
            };
            if cur.len() > 0 {
                lemma_flat_push(chunks, cur);
                assert(flat(closed) =~= packed);
                assert forall|k: int| 0 <= k < closed.len() implies #[trigger] chunk_ok(
                    base,
                    costs,
                    budget,
                    cap,
                    closed[k],
                ) by {
                    if k < chunks.len() {
                        assert(closed[k] == chunks[k]);
                    }
                }
            } else {
                assert(flat(closed) + cur =~= flat(closed));
                assert(flat(closed) =~= packed);
            }
            if base + c <= budget {
                let one = seq![i];
                lemma_items_cost_push(costs, Seq::empty(), i);
                assert(Seq::<usize>::empty().push(i) =~= one);
                let p2 = flat(closed) + one;
                assert(p2 =~= packed.push(i));
                assert forall|j: usize| 0 <= j < n implies (p2.contains(j) != over.contains(j)) by {
                    if j < i {
                        if packed.contains(j) {
                            let w = choose|w: int| 0 <= w < packed.len() && packed[w] == j;
                            assert(p2[w] == j);
                        }
                        if p2.contains(j) {
                            let w = choose|w: int| 0 <= w < p2.len() && p2[w] == j;
                            assert(w < packed.len());
                            assert(packed[w] == j);
                        }
                    } else {
                        assert(p2[p2.len() - 1] == j);
                    }
                }
            } else {
                let o2 = over.push(i);
                let p2 = flat(closed) + Seq::<usize>::empty();
                assert(p2 =~= packed);
                assert forall|j: usize| 0 <= j < n implies (p2.contains(j) != o2.contains(j)) by {
                    if j < i {
                        if over.contains(j) {
                            let w = choose|w: int| 0 <= w < over.len() && over[w] == j;
                            assert(o2[w] == j);
                        }
                        if o2.contains(j) {
                            let w = choose|w: int| 0 <= w < o2.len() && o2[w] == j;
                            assert(w < over.len());
                            assert(over[w] == j);
                        }
                    } else {
                        assert(o2[o2.len() - 1] == j);
                    }
                }
            }
        }
    }
}

/// Every chunk of a packing is non-empty, within the cap, and within the
/// budget: the base cost plus the costs of its items is at most `budget`.
/// Every item refused as oversized costs more than the budget leaves after
/// the base cost.
pub proof fn lemma_pack_respects_budget(base: int, costs: Seq<usize>, budget: int, cap: int)
    requires
        costs.len() <= usize::MAX,
        base >= 0,
        cap >= 0,
    ensures
        forall|k: int|
            0 <= k < pack_spec(base, costs, budget, cap).0.len() ==> #[trigger] chunk_ok(
                base,
                costs,
                budget,
                cap,
                pack_spec(base, costs, budget, cap).0[k],
            ),
        forall|k: int|
            0 <= k < pack_spec(base, costs, budget, cap).1.len() ==> base + costs[pack_spec(
                base,
                costs,
                budget,
                cap,
            ).1[k] as int] > budget,
{
    lemma_pack_state_ok(base, costs, budget, cap, costs.len());
    let (chunks, cur, cost, over) = pack_state(base, costs, budget, cap, costs.len());
    if cur.len() > 0 {
        let r = chunks.push(cur);
        assert forall|k: int| 0 <= k < r.len() implies #[trigger] chunk_ok(
            base,
            costs,
            budget,
            cap,
            r[k],
        ) by {
            if k < chunks.len() {
                assert(r[k] == chunks[k]);
            }
        }
    }
}

/// Every item lands in exactly one place: in exactly one chunk, once, or among
/// the oversized items. Chunks keep the input order, and so do the oversized
/// items.
pub proof fn lemma_pack_covers(base: int, costs: Seq<usize>, budget: int, cap: int)
    requires
        costs.len() <= usize::MAX,
        base >= 0,
        cap >= 0,
    ensures
        partitions(
            flat(pack_spec(base, costs, budget, cap).0),
            pack_spec(base, costs, budget, cap).1,
            costs.len() as int,
        ),
{
    lemma_pack_state_ok(base, costs, budget, cap, costs.len());
    let (chunks, cur, cost, over) = pack_state(base, costs, budget, cap, costs.len());
    if cur.len() > 0 {
        lemma_flat_push(chunks, cur);
    } else {
        assert(flat(chunks) + cur =~= flat(chunks));
    }
}

/// The result of packing: the chunks, as lists of item positions, and the
/// positions of the items that could not fit even alone.
pub struct Packing {
    pub chunks: Vec<Vec<usize>>,
    pub oversized: Vec<usize>,
}

/// First-fit greedy packing. Each chunk pays `base_cost` once; an item joins
/// the open chunk while the chunk's cost stays within `budget` and, when
/// `max_items` is not zero, its length within `max_items`; otherwise the open
/// chunk is closed and the item starts a new one, or is refused as oversized
/// when it does not fit even alone.
pub fn pack_costs(base_cost: usize, item_costs: &Vec<usize>, budget: usize, max_items: usize) -> (r:
    Packing)
    ensures
        (r.chunks.deep_view(), r.oversized@) == pack_spec(
            base_cost as int,
            item_costs@,
            budget as int,
            max_items as int,
        ),
{
    let ghost base = base_cost as int;
    let ghost costs = item_costs@;
    let ghost bud = budget as int;
    let ghost cap = max_items as int;
    let mut chunks: Vec<Vec<usize>> = Vec::new();
    let mut cur: Vec<usize> = Vec::new();
    let mut cost: usize = base_cost;
    let mut over: Vec<usize> = Vec::new();
    let n = item_costs.len();
    for i in 0..n
        invariant
            n == costs.len(),
            costs == item_costs@,
            base == base_cost as int,
            bud == budget as int,
            cap == max_items as int,
            (chunks.deep_view(), cur@, cost as int, over@) == pack_state(
                base,
                costs,
                bud,
                cap,
                i as nat,
            ),
            cur@.len() > 0 ==> cost <= budget,
            cur@.len() == 0 ==> cost == base_cost,
    {
        let c = item_costs[i];
        proof {
            lemma_pack_state_ok(base, costs, bud, cap, i as nat);
        }
        if cur.len() > 0 && c <= budget - cost && (max_items == 0 || cur.len() < max_items) {
            cur.push(i);
            cost = cost + c;
        } else {
            if cur.len() > 0 {
                let ghost old_dv = chunks.deep_view();
                let ghost cv = cur@;
                assert(cur.deep_view() =~= cv);
                let closed = cur;
                chunks.push(closed);
                cur = Vec::new();
                proof {
                    assert(chunks.deep_view() =~= old_dv.push(cv));
                }
            }
            if base_cost <= budget && c <= budget - base_cost {
                cur.push(i);
                cost = base_cost + c;
            } else {
                over.push(i);
                cost = base_cost;
            }
        }
        proof {
            assert(cur@ =~= pack_state(base, costs, bud, cap, (i + 1) as nat).1);
            assert(over@ =~= pack_state(base, costs, bud, cap, (i + 1) as nat).3);
        }
    }
    if cur.len() > 0 {
        let ghost old_dv = chunks.deep_view();
        let ghost cv = cur@;
        assert(cur.deep_view() =~= cv);
        let last = cur;
        chunks.push(last);
        proof {
            assert(chunks.deep_view() =~= old_dv.push(cv));
        }
    }
    Packing { chunks, oversized: over }
}

} // verus!
