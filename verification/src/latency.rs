//! Measured latencies: the average over the attempts on one address, and the
//! fastest of many addresses.

use vstd::prelude::*;

use crate::net;
use crate::time;
use crate::time::Duration;

verus! {

/// The attempts to connect to one address so far.
#[derive(Clone, Copy, Debug, PartialEq, Eq, Structural)]
pub struct LatencyMeter {
    /// The time that the successful attempts took together.
    pub total: Duration,
    /// How many attempts were successful.
    pub success_count: u32,
}

/// The time that the successful attempts took together.
pub open spec fn total_of(attempts: Seq<Option<Duration>>) -> nat
    decreases attempts.len(),
{
    if attempts.len() == 0 {
        0
    } else {
        total_of(attempts.drop_last()) + (match attempts.last() {
            Some(elapsed) => elapsed@,
            None => 0,
        })
    }
}

/// How many attempts were successful.
pub open spec fn successes_of(attempts: Seq<Option<Duration>>) -> nat
    decreases attempts.len(),
{
    if attempts.len() == 0 {
        0
    } else {
        successes_of(attempts.drop_last()) + (if attempts.last() is Some {
            1nat
        } else {
            0nat
        })
    }
}

impl LatencyMeter {
    /// The meter has taken in exactly these attempts.
    pub open spec fn has_seen(self, attempts: Seq<Option<Duration>>) -> bool {
        &&& self.total@ == total_of(attempts)
        &&& self.success_count == successes_of(attempts)
    }

    /// A meter before the first attempt.
    pub fn new() -> (r: LatencyMeter)
        ensures
            r == (LatencyMeter { total: Duration { nanos: 0 }, success_count: 0 }),
            r.has_seen(seq![]),
    {
        LatencyMeter { total: Duration { nanos: 0 }, success_count: 0 }
    }

    /// Takes in an attempt: the time it took, or that it failed.
    pub fn record(&mut self, attempt: Option<Duration>)
        requires
            attempt matches Some(elapsed) ==> old(self).total@ + elapsed@ <= time::MAX_NANOS
                && old(self).success_count < u32::MAX,
        ensures
            match attempt {
                Some(elapsed) => {
                    &&& final(self).total@ == old(self).total@ + elapsed@
                    &&& final(self).success_count == old(self).success_count + 1
                },
                None => *final(self) == *old(self),
            },
            forall|attempts: Seq<Option<Duration>>| #[trigger]
                old(self).has_seen(attempts) ==> final(self).has_seen(attempts.push(attempt)),
    {
        match attempt {
            Some(elapsed) => {
                self.total = self.total.plus(elapsed);
                self.success_count = self.success_count + 1;
            },
            None => {},
        }
        proof {
            assert forall|attempts: Seq<Option<Duration>>| #[trigger]
                old(self).has_seen(attempts) implies self.has_seen(attempts.push(attempt)) by {
                assert(attempts.push(attempt).drop_last() =~= attempts);
            }
        }
    }

    /// The average time of a successful attempt; none if all attempts failed.
    pub fn average(&self) -> (r: Option<Duration>)
        ensures
            match r {
                Some(average) => self.success_count > 0 && average@ == self.total@ / (
                self.success_count as nat),
                None => self.success_count == 0,
            },
    {
        if self.success_count > 0 {
            Some(self.total.divided(self.success_count))
        } else {
            None
        }
    }
}

/// How long an attempt to connect may take, in seconds.
pub const ATTEMPT_SECS: u64 = 5;

/// Whether another attempt is made after `made` of the `ping_times` attempts on an
/// address, and how long it may take at most. One that takes longer has failed.
pub fn next_attempt(made: usize, ping_times: usize) -> (r: Option<Duration>)
    ensures
        r is Some <==> made < ping_times,
        r matches Some(limit) ==> limit@ == time::secs_nanos(ATTEMPT_SECS as int),
        r matches Some(limit) ==> limit@ == 5_000_000_000,
{
    if made < ping_times {
        Some(Duration::from_secs(ATTEMPT_SECS))
    } else {
        None
    }
}

/// The candidates that answered, each with its average latency, in the order of the
/// candidates. A candidate without an average did not answer.
pub open spec fn reachable_of<T>(
    candidates: Seq<T>,
    averages: Seq<Option<Duration>>,
) -> Seq<(T, Duration)>
    decreases candidates.len(),
{
    if candidates.len() == 0 {
        seq![]
    } else {
        let before = reachable_of(candidates.drop_last(), averages.drop_last());
        match averages.last() {
            Some(average) => before.push((candidates.last(), average)),
            None => before,
        }
    }
}

/// The candidates that answered, each with its average latency, in the order of the
/// candidates.
pub fn reachable<T: Copy>(candidates: &Vec<T>, averages: &Vec<Option<Duration>>) -> (r: Vec<
    (T, Duration),
>)
    requires
        candidates@.len() == averages@.len(),
    ensures
        r@ == reachable_of(candidates@, averages@),
{
    let mut r: Vec<(T, Duration)> = Vec::new();
    let mut i: usize = 0;
    while i < candidates.len()
        invariant
            i <= candidates@.len() == averages@.len(),
            r@ == reachable_of(candidates@.take(i as int), averages@.take(i as int)),
        decreases candidates@.len() - i,
    {
        proof {
            assert(candidates@.take(i + 1).drop_last() =~= candidates@.take(i as int));
            assert(averages@.take(i + 1).drop_last() =~= averages@.take(i as int));
        }
        if let Some(average) = averages[i] {
            r.push((candidates[i], average));
        }
        i = i + 1;
    }
    proof {
        assert(candidates@.take(candidates@.len() as int) =~= candidates@);
        assert(averages@.take(averages@.len() as int) =~= averages@);
    }
    r
}

/// Where an element of latency `d` goes into an ascending list: after all that
/// are not slower.
pub open spec fn slot<T>(s: Seq<(T, Duration)>, d: Duration) -> nat
    decreases s.len(),
{
    if s.len() == 0 || s.last().1@ <= d@ {
        s.len()
    } else {
        slot(s.drop_last(), d)
    }
}

/// What was measured from the fastest to the slowest, what is equally fast in
/// the order of measuring.
pub open spec fn by_latency<T>(measured: Seq<(T, Duration)>) -> Seq<(T, Duration)>
    decreases measured.len(),
{
    if measured.len() == 0 {
        seq![]
    } else {
        let before = by_latency(measured.drop_last());
        before.insert(slot(before, measured.last().1) as int, measured.last())
    }
}

/// No element is slower than one after it.
pub open spec fn ascending<T>(s: Seq<(T, Duration)>) -> bool {
    forall|i: int, j: int| 0 <= i <= j < s.len() ==> (#[trigger] s[i]).1@ <= (#[trigger] s[j]).1@
}

/// What is at the front of the ranking: the `count` fastest, without the times.
pub open spec fn fastest_of<T>(measured: Seq<(T, Duration)>, count: nat) -> Seq<T> {
    net::at_most(by_latency(measured), count).map_values(|m: (T, Duration)| m.0)
}

/// What is before the slot is not slower, what is after it is.
pub proof fn lemma_slot<T>(s: Seq<(T, Duration)>, d: Duration)
    requires
        ascending(s),
    ensures
        slot(s, d) <= s.len(),
        forall|i: int| 0 <= i < slot(s, d) ==> (#[trigger] s[i]).1@ <= d@,
        forall|i: int| slot(s, d) <= i < s.len() ==> d@ < (#[trigger] s[i]).1@,
    decreases s.len(),
{
    if s.len() == 0 || s.last().1@ <= d@ {
        if s.len() > 0 {
            assert forall|i: int| 0 <= i < s.len() implies (#[trigger] s[i]).1@ <= d@ by {
                assert(s[i].1@ <= s[s.len() - 1].1@);
            }
        }
    } else {
        let t = s.drop_last();
        assert(ascending(t)) by {
            assert forall|i: int, j: int| 0 <= i <= j < t.len() implies (#[trigger] t[i]).1@ <= (
            #[trigger] t[j]).1@ by {
                assert(t[i] == s[i] && t[j] == s[j]);
            }
        }
        lemma_slot(t, d);
        assert forall|i: int| 0 <= i < slot(s, d) implies (#[trigger] s[i]).1@ <= d@ by {
            assert(s[i] == t[i]);
        }
        assert forall|i: int| slot(s, d) <= i < s.len() implies d@ < (#[trigger] s[i]).1@ by {
            if i < t.len() {
                assert(s[i] == t[i]);
            }
        }
    }
}

/// Only the slot lies so.
proof fn lemma_slot_is<T>(s: Seq<(T, Duration)>, d: Duration, n: int)
    requires
        ascending(s),
        0 <= n <= s.len(),
        n > 0 ==> s[n - 1].1@ <= d@,
        n < s.len() ==> d@ < s[n].1@,
    ensures
        slot(s, d) == n,
{
    lemma_slot(s, d);
    let k = slot(s, d) as int;
    if k < n {
        assert(d@ < s[n - 1].1@);
    } else if n < k {
        assert(s[n].1@ <= d@);
    }
}

proof fn lemma_insert_ascending<T>(s: Seq<(T, Duration)>, x: (T, Duration))
    requires
        ascending(s),
    ensures
        ascending(s.insert(slot(s, x.1) as int, x)),
{
    lemma_slot(s, x.1);
    let k = slot(s, x.1) as int;
    let t = s.insert(k, x);
    assert forall|i: int, j: int| 0 <= i <= j < t.len() implies (#[trigger] t[i]).1@ <= (
    #[trigger] t[j]).1@ by {
        let a = if i < k {
            i
        } else {
            i - 1
        };
        let b = if j < k {
            j
        } else {
            j - 1
        };
        if i != k && j != k {
            assert(t[i] == s[a] && t[j] == s[b]);
        } else if i != k {
            assert(t[i] == s[a]);
        } else if j != k {
            assert(t[j] == s[b]);
        }
    }
}

/// The ranking is ascending and ranks every element.
pub proof fn lemma_by_latency<T>(measured: Seq<(T, Duration)>)
    ensures
        ascending(by_latency(measured)),
        by_latency(measured).len() == measured.len(),
    decreases measured.len(),
{
    if measured.len() > 0 {
        let before = by_latency(measured.drop_last());
        lemma_by_latency(measured.drop_last());
        lemma_slot(before, measured.last().1);
        lemma_insert_ascending(before, measured.last());
    }
}

/// What is beyond the first `count` has no bearing on the first `count` after
/// another element came in.
proof fn lemma_insert_at_most<T>(s: Seq<(T, Duration)>, x: (T, Duration), count: nat)
    requires
        ascending(s),
    ensures
        ascending(net::at_most(s, count)),
        net::at_most(s.insert(slot(s, x.1) as int, x), count) == net::at_most(
            net::at_most(s, count).insert(slot(net::at_most(s, count), x.1) as int, x),
            count,
        ),
{
    let front = net::at_most(s, count);
    assert forall|i: int, j: int| 0 <= i <= j < front.len() implies (#[trigger] front[i]).1@ <= (
    #[trigger] front[j]).1@ by {
        assert(front[i] == s[i] && front[j] == s[j]);
    }
    lemma_slot(s, x.1);
    let k = slot(s, x.1) as int;
    if count < s.len() {
        let n = if k <= count {
            k
        } else {
            count as int
        };
        if n > 0 {
            assert(front[n - 1] == s[n - 1]);
        }
        if n < front.len() {
            assert(front[n] == s[n]);
        }
        lemma_slot_is(front, x.1, n);
        assert(net::at_most(s.insert(k, x), count) =~= net::at_most(front.insert(n, x), count));
    } else {
        assert(front =~= s);
    }
}

/// The `result_count` fastest of what was measured, from the fastest on; what is
/// equally fast in the order of measuring.
pub fn fastest<T: Copy>(measured: &Vec<(T, Duration)>, result_count: usize) -> (r: Vec<T>)
    ensures
        r@ == fastest_of(measured@, result_count as nat),
{
    let mut best: Vec<(T, Duration)> = Vec::new();
    let mut i: usize = 0;
    while i < measured.len()
        invariant
            i <= measured@.len(),
            best@ == net::at_most(by_latency(measured@.take(i as int)), result_count as nat),
        decreases measured@.len() - i,
    {
        let x = measured[i];
        let ghost front = best@;
        proof {
            let sofar = measured@.take(i as int);
            assert(measured@.take(i + 1).drop_last() =~= sofar);
            lemma_by_latency(sofar);
            lemma_insert_at_most(by_latency(sofar), x, result_count as nat);
            lemma_slot(front, x.1);
        }
        let mut at: usize = best.len();
        while at > 0 && best[at - 1].1.nanos > x.1.nanos
            invariant
                at <= best@.len(),
                best@ == front,
                ascending(front),
                at < front.len() ==> x.1@ < front[at as int].1@,
            decreases at,
        {
            at = at - 1;
        }
        proof {
            lemma_slot_is(front, x.1, at as int);
        }
        best.insert(at, x);
        if best.len() > result_count {
            best.truncate(result_count);
        }
        proof {
            assert(best@ =~= net::at_most(front.insert(at as int, x), result_count as nat));
        }
        i = i + 1;
    }
    proof {
        assert(measured@.take(measured@.len() as int) =~= measured@);
    }
    let mut r: Vec<T> = Vec::new();
    let mut j: usize = 0;
    while j < best.len()
        invariant
            j <= best@.len(),
            r@ == best@.take(j as int).map_values(|m: (T, Duration)| m.0),
        decreases best@.len() - j,
    {
        r.push(best[j].0);
        j = j + 1;
        assert(r@ =~= best@.take(j as int).map_values(|m: (T, Duration)| m.0));
    }
    proof {
        assert(best@.take(best@.len() as int) =~= best@);
    }
    r
}

/// There is an average exactly if an attempt was successful.
pub proof fn law_average_needs_a_success(meter: LatencyMeter, attempts: Seq<Option<Duration>>)
    requires
        meter.has_seen(attempts),
    ensures
        meter.success_count == 0 <==> forall|i: int|
            0 <= i < attempts.len() ==> (#[trigger] attempts[i]) is None,
{
    lemma_successes(attempts);
}

proof fn lemma_successes(attempts: Seq<Option<Duration>>)
    ensures
        successes_of(attempts) <= attempts.len(),
        successes_of(attempts) == 0 <==> forall|i: int|
            0 <= i < attempts.len() ==> (#[trigger] attempts[i]) is None,
    decreases attempts.len(),
{
    if attempts.len() > 0 {
        let t = attempts.drop_last();
        lemma_successes(t);
        if successes_of(attempts) == 0 {
            assert forall|i: int| 0 <= i < attempts.len() implies (
            #[trigger] attempts[i]) is None by {
                if i < t.len() {
                    assert(attempts[i] == t[i]);
                }
            }
        }
        if forall|i: int| 0 <= i < attempts.len() ==> (#[trigger] attempts[i]) is None {
            assert forall|i: int| 0 <= i < t.len() implies (#[trigger] t[i]) is None by {
                assert(attempts[i] == t[i]);
            }
            assert(attempts[attempts.len() - 1] is None);
        }
    }
}

/// The average lies between the times of the successful attempts.
pub proof fn law_average_is_between(
    meter: LatencyMeter,
    attempts: Seq<Option<Duration>>,
    low: nat,
    high: nat,
)
    requires
        meter.has_seen(attempts),
        meter.success_count > 0,
        forall|i: int|
            0 <= i < attempts.len() ==> ((#[trigger] attempts[i]) matches Some(elapsed) ==> low
                <= elapsed@ <= high),
    ensures
        low <= meter.total@ / (meter.success_count as nat) <= high,
{
    lemma_total_between(attempts, low, high);
    let n = meter.success_count as nat;
    let total = meter.total@;
    assert(low <= total / n <= high) by (nonlinear_arith)
        requires
            n > 0,
            low * n <= total <= high * n,
    ;
}

proof fn lemma_total_between(attempts: Seq<Option<Duration>>, low: nat, high: nat)
    requires
        forall|i: int|
            0 <= i < attempts.len() ==> ((#[trigger] attempts[i]) matches Some(elapsed) ==> low
                <= elapsed@ <= high),
    ensures
        low * successes_of(attempts) <= total_of(attempts) <= high * successes_of(attempts),
    decreases attempts.len(),
{
    if attempts.len() > 0 {
        let t = attempts.drop_last();
        assert forall|i: int| 0 <= i < t.len() implies ((#[trigger] t[i]) matches Some(elapsed)
            ==> low <= elapsed@ <= high) by {
            assert(t[i] == attempts[i]);
        }
        lemma_total_between(t, low, high);
        let n = successes_of(t);
        assert(attempts[attempts.len() - 1] == attempts.last());
        assert(low * (n + 1) == low * n + low && high * (n + 1) == high * n + high)
            by (nonlinear_arith);
    } else {
        assert(low * 0 == 0 && high * 0 == 0) by (nonlinear_arith);
    }
}

/// The ranking holds exactly what was measured, from the fastest to the slowest.
pub proof fn law_ranking_is_sorted<T>(measured: Seq<(T, Duration)>)
    ensures
        ascending(by_latency(measured)),
        by_latency(measured).to_multiset() == measured.to_multiset(),
    decreases measured.len(),
{
    broadcast use vstd::seq_lib::group_to_multiset_ensures;

    lemma_by_latency(measured);
    if measured.len() > 0 {
        let before = measured.drop_last();
        law_ranking_is_sorted(before);
        lemma_by_latency(before);
        lemma_slot(by_latency(before), measured.last().1);
        let k = slot(by_latency(before), measured.last().1) as int;
        let ranked = by_latency(before).insert(k, measured.last());
        assert(ranked.remove(k) =~= by_latency(before));
        assert(ranked[k] == measured.last());
        assert(ranked.to_multiset().count(ranked[k]) > 0);
        assert(ranked.to_multiset() =~= ranked.remove(k).to_multiset().insert(ranked[k]));
        assert(measured =~= before.push(measured.last()));
    }
}

/// What is equally fast keeps the order in which it was measured.
pub proof fn law_ranking_is_stable<T>(measured: Seq<(T, Duration)>, latency: nat)
    ensures
        by_latency(measured).filter(|m: (T, Duration)| m.1@ == latency) == measured.filter(
            |m: (T, Duration)| m.1@ == latency,
        ),
    decreases measured.len(),
{
    let same = |m: (T, Duration)| m.1@ == latency;
    if measured.len() > 0 {
        let before = measured.drop_last();
        let x = measured.last();
        let ranked = by_latency(before);
        law_ranking_is_stable(before, latency);
        lemma_by_latency(before);
        lemma_slot(ranked, x.1);
        let k = slot(ranked, x.1) as int;
        let front = ranked.take(k);
        let back = ranked.skip(k);
        assert(ranked =~= front + back);
        assert(ranked.insert(k, x) =~= front + (seq![x] + back));
        assert(measured =~= before + seq![x]);
        Seq::filter_distributes_over_add(front, back, same);
        Seq::filter_distributes_over_add(seq![x], back, same);
        Seq::filter_distributes_over_add(front, seq![x] + back, same);
        Seq::filter_distributes_over_add(before, seq![x], same);
        if same(x) {
            lemma_filter_none(back, same);
        } else {
            lemma_filter_none(seq![x], same);
        }
        assert(ranked.insert(k, x).filter(same) =~= measured.filter(same));
    } else {
        assert(by_latency(measured) =~= measured);
    }
}

proof fn lemma_filter_none<A>(s: Seq<A>, p: spec_fn(A) -> bool)
    requires
        forall|i: int| 0 <= i < s.len() ==> !p(#[trigger] s[i]),
    ensures
        s.filter(p) == Seq::<A>::empty(),
    decreases s.len(),
{
    reveal(Seq::filter);
    if s.len() > 0 {
        let t = s.drop_last();
        assert forall|i: int| 0 <= i < t.len() implies !p(#[trigger] t[i]) by {
            assert(t[i] == s[i]);
        }
        lemma_filter_none(t, p);
        assert(!p(s[s.len() - 1]));
    }
}

/// As many are kept as were asked for, or as were measured; they are the first in the
/// ranking, in its order; and none that is kept is slower than one that is not.
pub proof fn law_fastest_are_kept<T>(measured: Seq<(T, Duration)>, count: nat)
    ensures
        fastest_of(measured, count).len() == if measured.len() < count {
            measured.len()
        } else {
            count
        },
        forall|i: int|
            0 <= i < fastest_of(measured, count).len() ==> #[trigger] fastest_of(measured, count)[i]
                == by_latency(measured)[i].0,
        forall|i: int, j: int|
            0 <= i < fastest_of(measured, count).len() <= j < measured.len() ==> (
            #[trigger] by_latency(measured)[i]).1@ <= (#[trigger] by_latency(measured)[j]).1@,
{
    lemma_by_latency(measured);
}

/// What is ranked are candidates that answered, each with its own average, and every
/// candidate that answered is ranked.
pub proof fn law_reachable_candidates_are_ranked<T>(
    candidates: Seq<T>,
    averages: Seq<Option<Duration>>,
)
    requires
        candidates.len() == averages.len(),
    ensures
        forall|i: int|
            0 <= i < reachable_of(candidates, averages).len() ==> exists|k: int|
                0 <= k < candidates.len() && (#[trigger] candidates[k], averages[k]) == (
                    (#[trigger] reachable_of(candidates, averages)[i]).0,
                    Some(reachable_of(candidates, averages)[i].1),
                ),
        forall|k: int|
            0 <= k < candidates.len() && (#[trigger] averages[k]) is Some
                ==> reachable_of(candidates, averages).contains((candidates[k], averages[k]->0)),
    decreases candidates.len(),
{
    if candidates.len() > 0 {
        let c = candidates.drop_last();
        let a = averages.drop_last();
        let last = candidates.len() - 1;
        law_reachable_candidates_are_ranked(c, a);
        let before = reachable_of(c, a);
        let all = reachable_of(candidates, averages);
        assert forall|i: int| 0 <= i < all.len() implies exists|k: int|
            0 <= k < candidates.len() && (#[trigger] candidates[k], averages[k]) == (
                (#[trigger] all[i]).0,
                Some(all[i].1),
            ) by {
            if i < before.len() {
                assert(all[i] == before[i]);
                let k = choose|k: int|
                    0 <= k < c.len() && (#[trigger] c[k], a[k]) == (
                        before[i].0,
                        Some(before[i].1),
                    );
                assert(candidates[k] == c[k] && averages[k] == a[k]);
            } else {
                assert((candidates[last], averages[last]) == (all[i].0, Some(all[i].1)));
            }
        }
        assert forall|k: int|
            0 <= k < candidates.len() && (#[trigger] averages[k]) is Some implies all.contains(
            (candidates[k], averages[k]->0),
        ) by {
            if k < last {
                assert(candidates[k] == c[k] && averages[k] == a[k]);
                let i = choose|i: int| 0 <= i < before.len() && before[i] == (c[k], a[k]->0);
                assert(all[i] == before[i]);
            } else {
                assert(all[all.len() - 1] == (candidates[k], averages[k]->0));
            }
        }
    }
}

/// Every result is a candidate that answered: one that did not is never a result.
pub proof fn law_results_are_reachable_candidates<T>(
    candidates: Seq<T>,
    averages: Seq<Option<Duration>>,
    count: nat,
)
    requires
        candidates.len() == averages.len(),
    ensures
        forall|i: int|
            0 <= i < fastest_of(reachable_of(candidates, averages), count).len() ==> exists|k: int|
                0 <= k < candidates.len() && #[trigger] candidates[k] == (
                #[trigger] fastest_of(reachable_of(candidates, averages), count)[i])
                    && averages[k] is Some,
{
    broadcast use vstd::seq_lib::group_to_multiset_ensures;

    let measured = reachable_of(candidates, averages);
    let ranked = by_latency(measured);
    let kept = fastest_of(measured, count);
    law_reachable_candidates_are_ranked(candidates, averages);
    law_ranking_is_sorted(measured);
    law_fastest_are_kept(measured, count);
    lemma_by_latency(measured);
    assert forall|i: int| 0 <= i < kept.len() implies exists|k: int|
        0 <= k < candidates.len() && #[trigger] candidates[k] == (#[trigger] kept[i])
            && averages[k] is Some by {
        assert(ranked.contains(ranked[i]));
        assert(ranked.to_multiset().count(ranked[i]) > 0);
        assert(measured.contains(ranked[i]));
        let m = choose|m: int| 0 <= m < measured.len() && measured[m] == ranked[i];
        let k = choose|k: int|
            0 <= k < candidates.len() && (#[trigger] candidates[k], averages[k]) == (
                measured[m].0,
                Some(measured[m].1),
            );
        assert(candidates[k] == kept[i]);
    }
}

/// What is ranked are exactly the candidates that have an average, each as often as it
/// occurs, with its own average, and in the order of the candidates.
pub proof fn law_reachable_candidates_keep_their_order<T>(
    candidates: Seq<T>,
    averages: Seq<Option<Duration>>,
)
    requires
        candidates.len() == averages.len(),
    ensures
        reachable_of(candidates, averages) == candidates.zip_with(averages).filter(
            |pair: (T, Option<Duration>)| pair.1 is Some,
        ).map_values(|pair: (T, Option<Duration>)| (pair.0, pair.1->0)),
    decreases candidates.len(),
{
    reveal(Seq::filter);
    let answered = |pair: (T, Option<Duration>)| pair.1 is Some;
    let plain = |pair: (T, Option<Duration>)| (pair.0, pair.1->0);
    let pairs = candidates.zip_with(averages);
    if candidates.len() > 0 {
        let c = candidates.drop_last();
        let a = averages.drop_last();
        law_reachable_candidates_keep_their_order(c, a);
        assert(pairs.drop_last() =~= c.zip_with(a));
        assert(pairs.last() == (candidates.last(), averages.last()));
        let before = pairs.drop_last().filter(answered);
        if averages.last() is Some {
            assert(before.push(pairs.last()).map_values(plain) =~= before.map_values(plain).push(
                plain(pairs.last()),
            ));
        }
    } else {
        assert(reachable_of(candidates, averages) =~= pairs.filter(answered).map_values(plain));
    }
}

} // verus!
