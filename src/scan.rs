use vstd::prelude::*;
use vstd::arithmetic::div_mod::{lemma_fundamental_div_mod, lemma_fundamental_div_mod_converse, lemma_mod_pos_bound};
use crate::listing::{extracted, has_title, titles_unique, ListingView, RawCardView, Snapshot};

verus! {

/// The listings of `current`, in order, whose title `previous` lacks.
pub open spec fn unseen(previous: Seq<ListingView>, current: Seq<ListingView>) -> Seq<ListingView>
    decreases current.len(),
{
    if current.len() == 0 {
        Seq::empty()
    } else {
        let rest = unseen(previous, current.drop_last());
        if has_title(previous, current.last().title) {
            rest
        } else {
            rest.push(current.last())
        }
    }
}

/// The listings of `current` whose title is absent from `previous`.
pub fn diff(previous: &Snapshot, current: &Snapshot) -> (r: Snapshot)
    ensures
        r@ == unseen(previous@, current@),
{
    proof {
        use_type_invariant(current);
    }
    let mut r = Snapshot::new();
    let mut i: usize = 0;
    while i < current.len()
        invariant
            i <= current@.len(),
            titles_unique(current@),
            r@ == unseen(previous@, current@.subrange(0, i as int)),
            forall|k: int| 0 <= k < r@.len() ==> has_title(current@.subrange(0, i as int), (#[trigger] r@[k]).title),
        decreases current@.len() - i,
    {
        let l = current.get(i);
        let ghost pre = current@.subrange(0, i as int);
        let ghost next = current@.subrange(0, i + 1);
        assert(next.drop_last() =~= pre);
        assert(next.last() == current@[i as int]);
        if !previous.contains_title(l.title.as_str()) {
            proof {
                use_type_invariant(&r);
                if has_title(r@, l@.title) {
                    let k = choose|k: int| 0 <= k < r@.len() && (#[trigger] r@[k]).title == l@.title;
                    assert(has_title(pre, r@[k].title));
                    let j = choose|j: int| 0 <= j < pre.len() && (#[trigger] pre[j]).title == r@[k].title;
                    assert(current@[j] == pre[j]);
                }
            }
            r.insert_first(l.duplicate());
            proof {
                assert forall|k: int| 0 <= k < r@.len() implies has_title(next, (#[trigger] r@[k]).title) by {
                    if k < r@.len() - 1 {
                        let j = choose|j: int| 0 <= j < pre.len() && (#[trigger] pre[j]).title == r@[k].title;
                        assert(next[j] == pre[j]);
                    } else {
                        assert(next[i as int] == current@[i as int]);
                    }
                }
            }
        } else {
            proof {
                assert forall|k: int| 0 <= k < r@.len() implies has_title(next, (#[trigger] r@[k]).title) by {
                    let j = choose|j: int| 0 <= j < pre.len() && (#[trigger] pre[j]).title == r@[k].title;
                    assert(next[j] == pre[j]);
                }
            }
        }
        i = i + 1;
    }
    assert(current@.subrange(0, i as int) =~= current@);
    r
}

/// A listing is reported exactly when the current snapshot has it and the
/// previous snapshot has no listing of its title; so nothing that the
/// previous snapshot held is ever reported.
pub proof fn lemma_diff_is_exactly_new(previous: Seq<ListingView>, current: Seq<ListingView>)
    ensures
        forall|l: ListingView|
            #[trigger] unseen(previous, current).contains(l) <==> (current.contains(l) && !has_title(previous, l.title)),
    decreases current.len(),
{
    if current.len() > 0 {
        lemma_diff_is_exactly_new(previous, current.drop_last());
        let rest = unseen(previous, current.drop_last());
        assert forall|l: ListingView|
            #[trigger] unseen(previous, current).contains(l) <==> (current.contains(l) && !has_title(previous, l.title)) by {
            if current.contains(l) && !has_title(previous, l.title) {
                let i = choose|i: int| 0 <= i < current.len() && current[i] == l;
                if i < current.len() - 1 {
                    assert(current.drop_last()[i] == l);
                    assert(rest.contains(l));
                    if !has_title(previous, current.last().title) {
                        let j = choose|j: int| 0 <= j < rest.len() && rest[j] == l;
                        assert(rest.push(current.last())[j] == l);
                    }
                } else {
                    assert(unseen(previous, current)[unseen(previous, current).len() - 1] == l);
                }
            }
            if unseen(previous, current).contains(l) {
                let k = choose|k: int| 0 <= k < unseen(previous, current).len() && unseen(previous, current)[k] == l;
                if k < rest.len() {
                    assert(rest[k] == l);
                    assert(rest.contains(l));
                    assert(current.drop_last().contains(l));
                    let i = choose|i: int| 0 <= i < current.drop_last().len() && current.drop_last()[i] == l;
                    assert(current[i] == l);
                } else {
                    assert(current[current.len() - 1] == l);
                }
            }
        }
    } else {
        assert forall|l: ListingView|
            #[trigger] unseen(previous, current).contains(l) <==> (current.contains(l) && !has_title(previous, l.title)) by {
            assert(unseen(previous, current) =~= Seq::<ListingView>::empty());
        }
    }
}

/// Against an empty previous snapshot every current listing is new.
pub proof fn lemma_diff_from_empty(current: Seq<ListingView>)
    ensures
        unseen(Seq::empty(), current) == current,
    decreases current.len(),
{
    if current.len() > 0 {
        lemma_diff_from_empty(current.drop_last());
        assert(current.drop_last().push(current.last()) =~= current);
    }
}

/// Scanning an unchanged snapshot again reports nothing.
pub proof fn lemma_diff_of_same_is_empty(current: Seq<ListingView>)
    ensures
        unseen(current, current).len() == 0,
{
    lemma_diff_is_exactly_new(current, current);
    if unseen(current, current).len() > 0 {
        let l = unseen(current, current)[0];
        assert(unseen(current, current).contains(l));
        let i = choose|i: int| 0 <= i < current.len() && current[i] == l;
        assert(current[i].title == l.title);
    }
}

/// Scanning an unchanged page again reports no new listing.
pub proof fn lemma_rescan_unchanged(cards: Seq<RawCardView>)
    requires
        extracted(cards) is Ok,
    ensures
        unseen(extracted(cards)->Ok_0, extracted(cards)->Ok_0).len() == 0,
{
    lemma_diff_of_same_is_empty(extracted(cards)->Ok_0);
}

/// What the scan loop keeps between cycles.
pub struct ScanState {
    /// The snapshot of the last cycle.
    pub previous: Snapshot,
    /// The index of the last cycle modulo `reset_period`.
    pub phase: u64,
    /// Every `reset_period`-th cycle is a reset cycle; zero means never.
    pub reset_period: u64,
}

pub open spec fn next_phase(phase: u64, period: u64) -> u64 {
    if period == 0 || phase >= period - 1 {
        0
    } else {
        (phase + 1) as u64
    }
}

/// Whether the cycle at `phase` treats the previous snapshot as empty.
pub open spec fn is_reset(phase: u64, period: u64) -> bool {
    period > 0 && phase == period - 1
}

/// What a cycle at `phase` reports, against `previous`, for `current`.
pub open spec fn cycle_report(previous: Seq<ListingView>, phase: u64, period: u64, current: Seq<ListingView>) -> Seq<ListingView> {
    if is_reset(phase, period) {
        unseen(Seq::empty(), current)
    } else {
        unseen(previous, current)
    }
}

impl ScanState {
    /// The state after the first scan of a session, which is cycle zero.
    pub fn new(initial: Snapshot, reset_period: u64) -> (r: ScanState)
        ensures
            r.previous@ == initial@,
            r.phase == 0,
            r.reset_period == reset_period,
    {
        ScanState { previous: initial, phase: 0, reset_period }
    }

    /// Runs the diff of the next cycle: returns the listings to reach out to
    /// and keeps `current` as the previous snapshot, reset cycle or not.
    pub fn advance(&mut self, current: Snapshot) -> (fresh: Snapshot)
        ensures
            final(self).reset_period == old(self).reset_period,
            final(self).phase == next_phase(old(self).phase, old(self).reset_period),
            final(self).previous@ == current@,
            fresh@ == cycle_report(
                old(self).previous@,
                next_phase(old(self).phase, old(self).reset_period),
                old(self).reset_period,
                current@,
            ),
    {
        let phase = if self.reset_period == 0 || self.phase >= self.reset_period - 1 {
            0
        } else {
            self.phase + 1
        };
        let fresh = if self.reset_period > 0 && phase == self.reset_period - 1 {
            diff(&Snapshot::new(), &current)
        } else {
            diff(&self.previous, &current)
        };
        self.phase = phase;
        self.previous = current;
        fresh
    }
}

/// On a reset cycle the report is the whole current snapshot, whatever the
/// previous one held.
pub proof fn lemma_reset_reports_everything(
    previous: Seq<ListingView>,
    phase: u64,
    period: u64,
    current: Seq<ListingView>,
)
    requires
        is_reset(next_phase(phase, period), period),
    ensures
        cycle_report(previous, next_phase(phase, period), period, current) == current,
{
    lemma_diff_from_empty(current);
}

/// The phase after `cycles` cycles that follow the first scan.
pub open spec fn phase_after(period: u64, cycles: nat) -> u64
    decreases cycles,
{
    if cycles == 0 {
        0
    } else {
        next_phase(phase_after(period, (cycles - 1) as nat), period)
    }
}

/// Counting cycles from the first scan of a session (cycle zero), the
/// previous snapshot is dropped exactly on the cycles whose index leaves the
/// remainder `period - 1` when divided by the period; a period of zero never
/// resets.
pub proof fn lemma_reset_every_period(period: u64, cycles: nat)
    ensures
        period > 0 ==> phase_after(period, cycles) == (cycles as int) % (period as int),
        is_reset(phase_after(period, cycles), period) <==> (period > 0 && (cycles as int) % (period as int) == period - 1),
    decreases cycles,
{
    if cycles > 0 && period > 0 {
        lemma_reset_every_period(period, (cycles - 1) as nat);
        let p = period as int;
        let k = cycles as int;
        lemma_fundamental_div_mod(k - 1, p);
        lemma_mod_pos_bound(k - 1, p);
        let q = (k - 1) / p;
        let r = (k - 1) % p;
        if r + 1 < p {
            lemma_fundamental_div_mod_converse(k, p, q, r + 1);
        } else {
            assert(k == (q + 1) * p) by (nonlinear_arith)
                requires
                    k - 1 == p * q + r,
                    r + 1 == p,
            ;
            lemma_fundamental_div_mod_converse(k, p, q + 1, 0);
        }
    } else if period > 0 {
        lemma_fundamental_div_mod_converse(0, period as int, 0, 0);
    }
}

} // verus!
