//! The streaming search engine of the rational-mass scan: it counts the
//! analysed fractions per mass class, drops fractions already seen while
//! deduplication is on, and keeps the best candidates of four lists.
//!
//! A candidate is the fraction `numerator / denominator` with a `rank` that
//! orders candidates as their stability does (a higher rank is more stable).

use vstd::prelude::*;
use std::collections::HashSet;
use vstd::multiset::Multiset;

verus! {

/// A candidate fraction and its stability rank.
#[derive(Clone, Copy)]
pub struct Candidate {
    pub numerator: u64,
    pub denominator: u64,
    pub rank: u64,
}

/// A list that keeps at most `capacity` candidates, the best ranked ones.
/// `dropped` records the candidates it has let go.
pub struct TopList {
    pub capacity: usize,
    pub items: Vec<Candidate>,
    pub dropped: Ghost<Seq<Candidate>>,
}

/// Every kept candidate ranks at least as high as every dropped one, and
/// the list is full once it has dropped anything.
pub open spec fn keeps_best(t: TopList) -> bool {
    &&& t.items@.len() <= t.capacity
    &&& t.dropped@.len() > 0 ==> t.items@.len() == t.capacity
    &&& forall|i: int, j: int|
        0 <= i < t.items@.len() && 0 <= j < t.dropped@.len() ==> #[trigger] t.dropped@[j].rank
            <= #[trigger] t.items@[i].rank
}

/// `j` is the position of a lowest-ranked candidate in `s`.
pub open spec fn lowest_at(s: Seq<Candidate>, j: int) -> bool {
    0 <= j < s.len() && forall|k: int| 0 <= k < s.len() ==> s[j].rank <= #[trigger] s[k].rank
}

/// `new` is `old` after offering `c`: `c` joins the list, and when the list
/// overflows its capacity, one lowest-ranked candidate leaves it.
pub open spec fn offered(old: TopList, c: Candidate, new: TopList) -> bool {
    let grown = old.items@.push(c);
    &&& new.capacity == old.capacity
    &&& if grown.len() <= old.capacity {
        new.items@ == grown && new.dropped@ == old.dropped@
    } else {
        exists|j: int|
            lowest_at(grown, j) && new.items@ == grown.remove(j) && new.dropped@ == old.dropped@.push(
                grown[j],
            )
    }
}

impl TopList {
    /// An empty list of the given capacity.
    pub fn new(capacity: usize) -> (t: TopList)
        ensures
            t.capacity == capacity,
            t.items@ == Seq::<Candidate>::empty(),
            t.dropped@ == Seq::<Candidate>::empty(),
            keeps_best(t),
    {
        TopList { capacity, items: Vec::new(), dropped: Ghost(Seq::empty()) }
    }

    /// Offers `c`: it joins the list, and when the list then holds more than
    /// `capacity` candidates, a lowest-ranked one leaves.
    pub fn offer(&mut self, c: Candidate)
        requires
            keeps_best(*old(self)),
            old(self).items@.len() < usize::MAX,
        ensures
            offered(*old(self), c, *final(self)),
            keeps_best(*final(self)),
    {
        let ghost grown = self.items@.push(c);
        self.items.push(c);
        if self.items.len() > self.capacity {
            let n = self.items.len();
            let mut low: usize = 0;
            let mut k: usize = 1;
            while k < n
                invariant
                    n == self.items@.len(),
                    self.items@ == grown,
                    1 <= k <= n,
                    low < k,
                    forall|i: int| 0 <= i < k ==> self.items@[low as int].rank <= #[trigger] self.items@[i].rank,
                decreases n - k,
            {
                if self.items[k].rank < self.items[low].rank {
                    low = k;
                }
                k = k + 1;
            }
            let gone = self.items.remove(low);
            proof {
                let old_dropped = self.dropped@;
                self.dropped = Ghost(old_dropped.push(gone));
                assert(lowest_at(grown, low as int));
                assert forall|i: int, j: int|
                    0 <= i < self.items@.len() && 0 <= j < self.dropped@.len() implies #[trigger] self.dropped@[j].rank
                    <= #[trigger] self.items@[i].rank by {
                    let src = if i < low { i } else { i + 1 };
                    assert(self.items@[i] == grown[src]);
                    if j < old_dropped.len() {
                        assert(self.dropped@[j] == old_dropped[j]);
                        if src < grown.len() - 1 {
                            assert(grown[src] == old(self).items@[src]);
                        } else {
                            assert(old_dropped[j].rank <= old(self).items@[low as int].rank || low as int
                                == grown.len() - 1);
                            if low < grown.len() - 1 {
                                assert(grown[low as int] == old(self).items@[low as int]);
                            }
                        }
                    }
                }
            }
        }
    }

    /// The kept candidates from the best to the worst rank.
    pub fn sorted(&self) -> (v: Vec<Candidate>)
        ensures
            v@.to_multiset() == self.items@.to_multiset(),
            v@.len() == self.items@.len(),
            forall|i: int, j: int| 0 <= i < j < v@.len() ==> #[trigger] v@[j].rank <= #[trigger] v@[i].rank,
    {
        sort_by_rank(&self.items)
    }
}

/// The candidates of `items` from the best to the worst rank.
pub fn sort_by_rank(items: &Vec<Candidate>) -> (v: Vec<Candidate>)
    ensures
        v@.to_multiset() == items@.to_multiset(),
        v@.len() == items@.len(),
        forall|i: int, j: int| 0 <= i < j < v@.len() ==> #[trigger] v@[j].rank <= #[trigger] v@[i].rank,
{
    broadcast use vstd::multiset::group_multiset_axioms;
    broadcast use vstd::seq_lib::group_to_multiset_ensures;

    let mut rest: Vec<Candidate> = Vec::new();
    let mut i: usize = 0;
    while i < items.len()
        invariant
            i <= items@.len(),
            rest@ == items@.subrange(0, i as int),
        decreases items@.len() - i,
    {
        rest.push(items[i]);
        i = i + 1;
        assert(rest@ =~= items@.subrange(0, i as int));
    }
    assert(rest@ =~= items@);
    let mut out: Vec<Candidate> = Vec::new();
    while rest.len() > 0
        invariant
            out@.to_multiset().add(rest@.to_multiset()) == items@.to_multiset(),
            out@.len() + rest@.len() == items@.len(),
            forall|a: int, b: int| 0 <= a < b < out@.len() ==> #[trigger] out@[b].rank <= #[trigger] out@[a].rank,
            forall|a: int, b: int|
                0 <= a < out@.len() && 0 <= b < rest@.len() ==> #[trigger] rest@[b].rank <= #[trigger] out@[a].rank,
        decreases rest@.len(),
    {
        let n = rest.len();
        let mut best: usize = 0;
        let mut k: usize = 1;
        while k < n
            invariant
                n == rest@.len(),
                1 <= k <= n,
                best < k,
                forall|t: int| 0 <= t < k ==> #[trigger] rest@[t].rank <= rest@[best as int].rank,
            decreases n - k,
        {
            if rest[k].rank > rest[best].rank {
                best = k;
            }
            k = k + 1;
        }
        let ghost before_rest = rest@;
        let ghost before_out = out@;
        let top = rest.remove(best);
        out.push(top);
        proof {
            vstd::seq_lib::to_multiset_remove(before_rest, best as int);
            vstd::seq_lib::to_multiset_build(before_out, top);
            assert(top == before_rest[best as int]);
            assert(rest@ == before_rest.remove(best as int));
            assert(out@ == before_out.push(top));
            assert(before_rest.contains(top));
            vstd::seq_lib::to_multiset_contains(before_rest, top);
            assert(before_rest.to_multiset().count(top) > 0);
            assert(out@.to_multiset().add(rest@.to_multiset()) =~= before_out.to_multiset().add(
                before_rest.to_multiset(),
            ));
            assert(out@.to_multiset().add(rest@.to_multiset()) =~= items@.to_multiset());
            assert forall|a: int, b: int| 0 <= a < b < out@.len() implies #[trigger] out@[b].rank
                <= #[trigger] out@[a].rank by {
                if b == out@.len() - 1 {
                    assert(out@[b] == before_rest[best as int]);
                    assert(out@[a] == before_out[a]);
                } else {
                    assert(out@[a] == before_out[a] && out@[b] == before_out[b]);
                }
            }
            assert forall|a: int, b: int| 0 <= a < out@.len() && 0 <= b < rest@.len() implies #[trigger] rest@[b].rank
                <= #[trigger] out@[a].rank by {
                let src = if b < best { b } else { b + 1 };
                assert(rest@[b] == before_rest[src]);
                if a < out@.len() - 1 {
                    assert(out@[a] == before_out[a]);
                } else {
                    assert(out@[a] == before_rest[best as int]);
                }
            }
        }
    }
    proof {
        assert(rest@.to_multiset() =~= Multiset::empty());
        assert(out@.to_multiset().add(Multiset::empty()) =~= out@.to_multiset());
    }
    out
}

/// The number of mass classes a candidate can fall in.
pub const CLASS_COUNT: usize = 13;

/// The deduplication key of a fraction.
pub open spec fn fraction_key(c: Candidate) -> u128 {
    (c.numerator as nat * 0x1_0000_0000_0000_0000 + c.denominator as nat) as u128
}

/// The engine's lists, its class counts, the fractions seen while
/// deduplication is on, and its counters.
pub struct StreamSearchEngine {
    pub top_peaks: TopList,
    pub top_wimps: TopList,
    pub top_axions: TopList,
    pub top_neutrinos: TopList,
    pub distribution: Vec<usize>,
    pub seen_fractions: Option<HashSet<u128>>,
    pub total_analyzed: usize,
    pub unique_count: usize,
    pub capacity: usize,
    pub use_dedup: bool,
}

/// Sum of the class counts.
pub open spec fn count_sum(s: Seq<usize>) -> int
    decreases s.len(),
{
    if s.len() == 0 {
        0
    } else {
        count_sum(s.drop_last()) + s.last()
    }
}

proof fn lemma_count_sum_bump(s: Seq<usize>, i: int)
    requires
        0 <= i < s.len(),
        s[i] < usize::MAX,
    ensures
        count_sum(s.update(i, (s[i] + 1) as usize)) == count_sum(s) + 1,
    decreases s.len(),
{
    let t = s.update(i, (s[i] + 1) as usize);
    if i == s.len() - 1 {
        assert(t.drop_last() =~= s.drop_last());
    } else {
        lemma_count_sum_bump(s.drop_last(), i);
        assert(t.drop_last() =~= s.drop_last().update(i, (s[i] + 1) as usize));
    }
}

proof fn lemma_count_sum_zero(n: nat)
    ensures
        count_sum(Seq::new(n, |k: int| 0usize)) == 0,
    decreases n,
{
    if n > 0 {
        lemma_count_sum_zero((n - 1) as nat);
        assert(Seq::new(n, |k: int| 0usize).drop_last() =~= Seq::new((n - 1) as nat, |k: int| 0usize));
    }
}

/// The engine's invariant: the class counts add up to the number of
/// candidates analysed, and while deduplication is on, the fractions it
/// remembers are exactly as many as the unique candidates it counted.
pub open spec fn engine_ok(e: StreamSearchEngine) -> bool {
    &&& e.distribution@.len() == CLASS_COUNT
    &&& e.total_analyzed == count_sum(e.distribution@)
    &&& e.use_dedup ==> e.seen_fractions is Some
    &&& e.use_dedup ==> e.seen_fractions.unwrap()@.finite() && e.seen_fractions.unwrap()@.len()
        == e.unique_count
    &&& keeps_best(e.top_peaks)
    &&& keeps_best(e.top_wimps)
    &&& keeps_best(e.top_axions)
    &&& keeps_best(e.top_neutrinos)
    &&& e.top_peaks.capacity == e.capacity
    &&& e.top_wimps.capacity == e.capacity
    &&& e.top_axions.capacity == e.capacity
    &&& e.top_neutrinos.capacity == e.capacity
}

/// The list `t` after offering `c` when `chosen` holds, else unchanged.
pub open spec fn offered_if(chosen: bool, old: TopList, c: Candidate, new: TopList) -> bool {
    if chosen {
        offered(old, c, new)
    } else {
        new.items@ == old.items@ && new.dropped@ == old.dropped@ && new.capacity == old.capacity
    }
}

/// The two lists hold the same candidates.
pub open spec fn same_list(a: TopList, b: TopList) -> bool {
    a.items@ == b.items@ && a.dropped@ == b.dropped@ && a.capacity == b.capacity
}

fn pack_key(c: Candidate) -> (k: u128)
    ensures
        k == fraction_key(c),
{
    proof {
        assert(c.numerator as nat * 0x1_0000_0000_0000_0000 + c.denominator as nat <= u128::MAX) by (nonlinear_arith)
            requires
                c.numerator <= u64::MAX,
                c.denominator <= u64::MAX,
        ;
    }
    (c.numerator as u128) * 0x1_0000_0000_0000_0000 + (c.denominator as u128)
}

impl StreamSearchEngine {
    /// An engine whose lists keep `capacity` candidates each.
    pub fn new(capacity: usize, use_dedup: bool) -> (e: Self)
        ensures
            engine_ok(e),
            e.capacity == capacity,
            e.use_dedup == use_dedup,
            e.seen_fractions is Some <==> use_dedup,
            use_dedup ==> e.seen_fractions.unwrap()@ == Set::<u128>::empty(),
            e.total_analyzed == 0,
            e.unique_count == 0,
            e.distribution@ == Seq::new(CLASS_COUNT as nat, |i: int| 0usize),
            e.top_peaks.items@.len() == 0,
            e.top_wimps.items@.len() == 0,
            e.top_axions.items@.len() == 0,
            e.top_neutrinos.items@.len() == 0,
    {
        let mut distribution: Vec<usize> = Vec::new();
        let mut i: usize = 0;
        while i < CLASS_COUNT
            invariant
                i <= CLASS_COUNT,
                distribution@ == Seq::new(i as nat, |k: int| 0usize),
            decreases CLASS_COUNT - i,
        {
            distribution.push(0);
            i = i + 1;
            assert(distribution@ =~= Seq::new(i as nat, |k: int| 0usize));
        }
        let seen_fractions = if use_dedup {
            Some(HashSet::with_capacity(100_000))
        } else {
            None
        };
        proof {
            lemma_count_sum_zero(CLASS_COUNT as nat);
        }
        StreamSearchEngine {
            top_peaks: TopList::new(capacity),
            top_wimps: TopList::new(capacity),
            top_axions: TopList::new(capacity),
            top_neutrinos: TopList::new(capacity),
            distribution,
            seen_fractions,
            total_analyzed: 0,
            unique_count: 0,
            capacity,
            use_dedup,
        }
    }

    /// Processes a candidate of mass class `class`, offering it to the
    /// peaks list and to the WIMP, axion and neutrino lists it qualifies for.
    /// While deduplication is on, a fraction already seen is refused
    /// (`false`) and changes nothing; deduplication switches itself off once
    /// more than 500 000 fractions were seen.
    pub fn process_candidate(&mut self, candidate: Candidate, class: usize, wimp: bool, axion: bool, neutrino: bool) -> (accepted: bool)
        requires
            engine_ok(*old(self)),
            class < CLASS_COUNT,
            old(self).total_analyzed < usize::MAX,
            old(self).unique_count < usize::MAX,
            old(self).distribution@[class as int] < usize::MAX,
            old(self).top_peaks.items@.len() < usize::MAX,
            old(self).top_wimps.items@.len() < usize::MAX,
            old(self).top_axions.items@.len() < usize::MAX,
            old(self).top_neutrinos.items@.len() < usize::MAX,
        ensures
            engine_ok(*final(self)),
            final(self).capacity == old(self).capacity,
            ({
                let dup = old(self).use_dedup && old(self).seen_fractions.unwrap()@.contains(
                    fraction_key(candidate),
                );
                &&& accepted == !dup
                &&& dup ==> {
                    &&& final(self).total_analyzed == old(self).total_analyzed
                    &&& final(self).unique_count == old(self).unique_count
                    &&& final(self).distribution@ == old(self).distribution@
                    &&& final(self).use_dedup == old(self).use_dedup
                    &&& final(self).seen_fractions.unwrap()@ == old(self).seen_fractions.unwrap()@
                    &&& same_list(final(self).top_peaks, old(self).top_peaks)
                    &&& same_list(final(self).top_wimps, old(self).top_wimps)
                    &&& same_list(final(self).top_axions, old(self).top_axions)
                    &&& same_list(final(self).top_neutrinos, old(self).top_neutrinos)
                }
                &&& !dup ==> {
                    &&& final(self).total_analyzed == old(self).total_analyzed + 1
                    &&& final(self).distribution@ == old(self).distribution@.update(
                        class as int,
                        (old(self).distribution@[class as int] + 1) as usize,
                    )
                    &&& offered(old(self).top_peaks, candidate, final(self).top_peaks)
                    &&& offered_if(wimp, old(self).top_wimps, candidate, final(self).top_wimps)
                    &&& offered_if(axion, old(self).top_axions, candidate, final(self).top_axions)
                    &&& offered_if(neutrino, old(self).top_neutrinos, candidate, final(self).top_neutrinos)
                    &&& old(self).use_dedup ==> {
                        let grown = old(self).seen_fractions.unwrap()@.insert(fraction_key(candidate));
                        &&& final(self).unique_count == old(self).unique_count + 1
                        &&& grown.len() > 500_000 ==> !final(self).use_dedup && final(self).seen_fractions is None
                        &&& grown.len() <= 500_000 ==> final(self).use_dedup && final(self).seen_fractions.unwrap()@ == grown
                    }
                    &&& !old(self).use_dedup ==> {
                        &&& final(self).unique_count == old(self).unique_count
                        &&& final(self).use_dedup == old(self).use_dedup
                        &&& final(self).seen_fractions == old(self).seen_fractions
                    }
                }
            }),
    {
        broadcast use vstd::std_specs::hash::group_hash_axioms;

        if self.use_dedup {
            let mut seen = self.seen_fractions.take().unwrap();
            let key = pack_key(candidate);
            let fresh = seen.insert(key);
            if !fresh {
                proof {
                    assert(seen@ =~= old(self).seen_fractions.unwrap()@);
                }
                self.seen_fractions = Some(seen);
                return false;
            }
            self.unique_count = self.unique_count + 1;
            if seen.len() > 500_000 {
                self.use_dedup = false;
                self.seen_fractions = None;
            } else {
                self.seen_fractions = Some(seen);
            }
        }
        self.total_analyzed = self.total_analyzed + 1;
        let count = self.distribution[class];
        proof {
            lemma_count_sum_bump(self.distribution@, class as int);
        }
        self.distribution.set(class, count + 1);
        self.top_peaks.offer(candidate);
        if wimp {
            self.top_wimps.offer(candidate);
        }
        if axion {
            self.top_axions.offer(candidate);
        }
        if neutrino {
            self.top_neutrinos.offer(candidate);
        }
        true
    }

    /// Switches deduplication off and forgets the fractions seen.
    pub fn clear_dedup(&mut self)
        requires
            engine_ok(*old(self)),
        ensures
            engine_ok(*final(self)),
            final(self).seen_fractions is None,
            !final(self).use_dedup,
            final(self).total_analyzed == old(self).total_analyzed,
            final(self).unique_count == old(self).unique_count,
            final(self).distribution@ == old(self).distribution@,
            same_list(final(self).top_peaks, old(self).top_peaks),
            same_list(final(self).top_wimps, old(self).top_wimps),
            same_list(final(self).top_axions, old(self).top_axions),
            same_list(final(self).top_neutrinos, old(self).top_neutrinos),
    {
        self.seen_fractions = None;
        self.use_dedup = false;
    }

    /// The peaks, best first.
    pub fn get_top_peaks(&self) -> (v: Vec<Candidate>)
        ensures
            v@.to_multiset() == self.top_peaks.items@.to_multiset(),
            forall|i: int, j: int| 0 <= i < j < v@.len() ==> #[trigger] v@[j].rank <= #[trigger] v@[i].rank,
    {
        self.top_peaks.sorted()
    }

    /// The WIMP candidates, best first.
    pub fn get_top_wimps(&self) -> (v: Vec<Candidate>)
        ensures
            v@.to_multiset() == self.top_wimps.items@.to_multiset(),
            forall|i: int, j: int| 0 <= i < j < v@.len() ==> #[trigger] v@[j].rank <= #[trigger] v@[i].rank,
    {
        self.top_wimps.sorted()
    }

    /// The axion candidates, best first.
    pub fn get_top_axions(&self) -> (v: Vec<Candidate>)
        ensures
            v@.to_multiset() == self.top_axions.items@.to_multiset(),
            forall|i: int, j: int| 0 <= i < j < v@.len() ==> #[trigger] v@[j].rank <= #[trigger] v@[i].rank,
    {
        self.top_axions.sorted()
    }

    /// The neutrino candidates, best first.
    pub fn get_top_neutrinos(&self) -> (v: Vec<Candidate>)
        ensures
            v@.to_multiset() == self.top_neutrinos.items@.to_multiset(),
            forall|i: int, j: int| 0 <= i < j < v@.len() ==> #[trigger] v@[j].rank <= #[trigger] v@[i].rank,
    {
        self.top_neutrinos.sorted()
    }

    /// The number of candidates analysed per mass class.
    pub fn get_distribution(&self) -> (d: &Vec<usize>)
        ensures
            d@ == self.distribution@,
    {
        &self.distribution
    }

    /// The number of candidates analysed.
    pub fn total_analyzed(&self) -> (n: usize)
        ensures
            n == self.total_analyzed,
    {
        self.total_analyzed
    }
}

} // verus!
