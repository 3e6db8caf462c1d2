use vcv48::stream::{sort_by_rank, Candidate, StreamSearchEngine, TopList, CLASS_COUNT};

fn cand(n: u64, d: u64, rank: u64) -> Candidate {
    Candidate { numerator: n, denominator: d, rank }
}

fn ranks(v: &[Candidate]) -> Vec<u64> {
    v.iter().map(|c| c.rank).collect()
}

#[test]
fn top_list_keeps_the_best() {
    let mut t = TopList::new(2);
    t.offer(cand(1, 1, 5));
    t.offer(cand(1, 2, 3));
    assert_eq!(t.items.len(), 2);
    t.offer(cand(1, 3, 9));
    assert_eq!(t.items.len(), 2);
    assert_eq!(ranks(&t.sorted()), vec![9, 5]);
    t.offer(cand(1, 4, 1));
    assert_eq!(ranks(&t.sorted()), vec![9, 5]);
}

#[test]
fn zero_capacity_list_stays_empty() {
    let mut t = TopList::new(0);
    t.offer(cand(1, 1, 5));
    assert!(t.items.is_empty());
}

#[test]
fn sorting_by_rank() {
    let v = vec![cand(1, 1, 2), cand(1, 2, 7), cand(1, 3, 2), cand(1, 4, 5)];
    assert_eq!(ranks(&sort_by_rank(&v)), vec![7, 5, 2, 2]);
    assert!(sort_by_rank(&vec![]).is_empty());
}

#[test]
fn engine_deduplicates() {
    let mut e = StreamSearchEngine::new(3, true);
    assert!(e.process_candidate(cand(1, 48, 10), 2, false, true, false));
    assert!(!e.process_candidate(cand(1, 48, 10), 2, false, true, false));
    assert!(e.process_candidate(cand(2, 48, 4), 5, true, false, true));
    assert_eq!(e.total_analyzed(), 2);
    assert_eq!(e.unique_count, 2);
    assert_eq!(e.get_distribution()[2], 1);
    assert_eq!(e.get_distribution()[5], 1);
    assert_eq!(e.get_distribution().len(), CLASS_COUNT);
    assert_eq!(ranks(&e.get_top_peaks()), vec![10, 4]);
    assert_eq!(ranks(&e.get_top_axions()), vec![10]);
    assert_eq!(ranks(&e.get_top_wimps()), vec![4]);
    assert_eq!(ranks(&e.get_top_neutrinos()), vec![4]);
    let total: usize = e.get_distribution().iter().sum();
    assert_eq!(total, e.total_analyzed());
    assert_eq!(e.seen_fractions.as_ref().map(|s| s.len()), Some(e.unique_count));
}

#[test]
fn engine_without_dedup_counts_repeats() {
    let mut e = StreamSearchEngine::new(1, false);
    assert!(e.process_candidate(cand(3, 5, 1), 0, false, false, false));
    assert!(e.process_candidate(cand(3, 5, 8), 0, false, false, false));
    assert_eq!(e.total_analyzed(), 2);
    assert_eq!(e.get_distribution()[0], 2);
    assert_eq!(ranks(&e.get_top_peaks()), vec![8]);
}

#[test]
fn clearing_dedup_accepts_repeats() {
    let mut e = StreamSearchEngine::new(2, true);
    assert!(e.process_candidate(cand(1, 2, 3), 1, false, false, false));
    e.clear_dedup();
    assert!(e.seen_fractions.is_none());
    assert!(e.process_candidate(cand(1, 2, 3), 1, false, false, false));
    assert_eq!(e.total_analyzed(), 2);
}
