use score_engine::packer::pack_costs;

#[test]
fn three_variants_one_oversized() {
    let p = pack_costs(50, &vec![100, 50, 900], 500, 0);
    assert_eq!(p.chunks, vec![vec![0, 1]]);
    assert_eq!(p.oversized, vec![2]);
}

#[test]
fn empty_pending_yields_no_chunks() {
    let p = pack_costs(50, &vec![], 500, 0);
    assert!(p.chunks.is_empty());
    assert!(p.oversized.is_empty());
}

#[test]
fn chunk_closes_when_budget_would_be_exceeded() {
    let p = pack_costs(50, &vec![300, 200, 100], 500, 0);
    assert_eq!(p.chunks, vec![vec![0], vec![1, 2]]);
    assert!(p.oversized.is_empty());
}

#[test]
fn exact_budget_fits() {
    let p = pack_costs(10, &vec![40, 50], 100, 0);
    assert_eq!(p.chunks, vec![vec![0, 1]]);
}

#[test]
fn oversized_item_in_the_middle_closes_the_chunk() {
    let p = pack_costs(50, &vec![100, 900, 50], 500, 0);
    assert_eq!(p.chunks, vec![vec![0], vec![2]]);
    assert_eq!(p.oversized, vec![1]);
}

#[test]
fn count_cap_bounds_chunk_length() {
    let p = pack_costs(0, &vec![1, 1, 1, 1, 1], 100, 2);
    assert_eq!(p.chunks, vec![vec![0, 1], vec![2, 3], vec![4]]);
}

#[test]
fn base_cost_above_budget_refuses_everything() {
    let p = pack_costs(600, &vec![0, 1], 500, 0);
    assert!(p.chunks.is_empty());
    assert_eq!(p.oversized, vec![0, 1]);
}

#[test]
fn packing_is_deterministic() {
    let costs = vec![120, 80, 300, 5, 260, 40];
    let a = pack_costs(30, &costs, 400, 3);
    let b = pack_costs(30, &costs, 400, 3);
    assert_eq!(a.chunks, b.chunks);
    assert_eq!(a.oversized, b.oversized);
}

#[test]
fn every_chunk_respects_budget() {
    let costs = vec![120, 80, 300, 5, 260, 40, 390, 11];
    let base = 30;
    let budget = 400;
    let p = pack_costs(base, &costs, budget, 0);
    for ch in &p.chunks {
        let total: usize = base + ch.iter().map(|&i| costs[i]).sum::<usize>();
        assert!(total <= budget);
    }
    let mut seen: Vec<usize> = p.chunks.iter().flatten().copied().collect();
    seen.extend(p.oversized.iter().copied());
    seen.sort();
    assert_eq!(seen, (0..costs.len()).collect::<Vec<_>>());
}
