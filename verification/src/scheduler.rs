//! The directed scheduler's arithmetic: the annealing temperature, the
//! distance of a seed from the target, and the choice of the next seed.
//! Quantities that the fuzzer holds as fractions are held here exactly, as a
//! numerator over a positive denominator.

use std::collections::HashMap;
use vstd::prelude::*;

verus! {

broadcast use vstd::std_specs::hash::group_hash_axioms;

/// The fraction `num / den`.
#[derive(Clone, Copy, Debug)]
pub struct Ratio {
    pub num: u128,
    pub den: u64,
}

/// `a` is smaller than `b`, as fractions.
pub open spec fn ratio_lt(a: Ratio, b: Ratio) -> bool {
    a.num * b.den < b.num * a.den
}

/// `a` and `b` are the same fraction.
pub open spec fn ratio_eq(a: Ratio, b: Ratio) -> bool {
    a.num * b.den == b.num * a.den
}

/// The temperature floor that the schedule settles at once cooling is over.
pub open spec fn floor_temperature() -> Ratio {
    Ratio { num: 1, den: 100 }
}

/// The temperature `elapsed` microseconds into a schedule that cools over
/// `cooling` microseconds: `1 - elapsed / cooling` while cooling, then the
/// floor `1/100`.
pub open spec fn temperature(elapsed: u64, cooling: u64) -> Ratio {
    if elapsed >= cooling {
        floor_temperature()
    } else {
        Ratio { num: (cooling - elapsed) as u128, den: cooling }
    }
}

/// The temperature is above `4/5`: the scheduler still explores.
pub open spec fn is_hot(t: Ratio) -> bool {
    t.num * 5 > t.den * 4
}

/// Signal `a` was hit and the distance map knows its distance.
pub open spec fn is_hit(dist: Map<usize, u32>, signals: Seq<u8>, a: int) -> bool {
    signals[a] > 0 && dist.contains_key(a as usize)
}

/// How many hit signals have a known distance.
pub open spec fn hit_count(dist: Map<usize, u32>, signals: Seq<u8>) -> nat
    decreases signals.len(),
{
    if signals.len() == 0 {
        0
    } else {
        hit_count(dist, signals.drop_last()) + if is_hit(dist, signals, signals.len() - 1) {
            1nat
        } else {
            0nat
        }
    }
}

/// The sum of the distances of the hit signals with a known distance.
pub open spec fn hit_total(dist: Map<usize, u32>, signals: Seq<u8>) -> nat
    decreases signals.len(),
{
    if signals.len() == 0 {
        0
    } else {
        hit_total(dist, signals.drop_last()) + if is_hit(dist, signals, signals.len() - 1) {
            dist[(signals.len() - 1) as usize] as nat
        } else {
            0nat
        }
    }
}

/// The distance of a seed: the mean distance over its hit signals with a
/// known distance, or `1` when there is none.
pub open spec fn seed_distance(dist: Map<usize, u32>, signals: Seq<u8>) -> Ratio {
    if hit_count(dist, signals) == 0 {
        Ratio { num: 1, den: 1 }
    } else {
        Ratio { num: hit_total(dist, signals) as u128, den: hit_count(dist, signals) as u64 }
    }
}

/// The index of the first seed whose distance is smallest, scanning the
/// first `k` seeds.
pub open spec fn nearest_index(seeds: Seq<(usize, Ratio)>, k: int) -> int
    decreases k,
{
    if k <= 1 {
        0
    } else {
        let b = nearest_index(seeds, k - 1);
        if ratio_lt(seeds[k - 1].1, seeds[b].1) {
            k - 1
        } else {
            b
        }
    }
}

/// The seed picked next: while the schedule is hot, or no seed has a
/// distance yet, the fallback; otherwise the first nearest seed.
pub open spec fn next_seed(
    seeds: Seq<(usize, Ratio)>,
    elapsed: u64,
    cooling: u64,
    fallback: usize,
) -> usize {
    if is_hot(temperature(elapsed, cooling)) || seeds.len() == 0 {
        fallback
    } else {
        seeds[nearest_index(seeds, seeds.len() as int)].0
    }
}

/// The entry picked next from a corpus of `corpus_count` entries whose last
/// and first ids are `last` and `first`: none from an empty corpus, otherwise
/// `next_seed` with the last id (or, without one, the first) as fallback.
pub open spec fn next_corpus_entry(
    seeds: Seq<(usize, Ratio)>,
    elapsed: u64,
    cooling: u64,
    corpus_count: usize,
    last: Option<usize>,
    first: Option<usize>,
) -> Option<usize> {
    if corpus_count == 0 {
        None
    } else {
        let fallback = match last {
            Some(id) => id,
            None => first.unwrap(),
        };
        Some(next_seed(seeds, elapsed, cooling, fallback))
    }
}

/// The two decompositions of a comparison of fractions: by whole parts, and
/// by remainders where the whole parts agree.
proof fn lemma_ratio_lt_by_parts(
    an: int,
    ad: int,
    bn: int,
    bd: int,
    qa: int,
    ra: int,
    qb: int,
    rb: int,
)
    requires
        ad > 0,
        bd > 0,
        an == qa * ad + ra,
        0 <= ra < ad,
        bn == qb * bd + rb,
        0 <= rb < bd,
    ensures
        qa < qb ==> an * bd < bn * ad,
        qa > qb ==> !(an * bd < bn * ad),
        qa == qb ==> (an * bd < bn * ad <==> ra * bd < rb * ad),
{
    assert(an * bd == qa * ad * bd + ra * bd) by (nonlinear_arith)
        requires
            an == qa * ad + ra,
    ;
    assert(bn * ad == qb * bd * ad + rb * ad) by (nonlinear_arith)
        requires
            bn == qb * bd + rb,
    ;
    assert(qa * ad * bd == qa * (ad * bd) && qb * bd * ad == qb * (ad * bd)) by (nonlinear_arith);
    assert(ra * bd < ad * bd && rb * ad < ad * bd) by (nonlinear_arith)
        requires
            0 <= ra < ad,
            0 <= rb < bd,
            ad > 0,
            bd > 0,
    ;
    assert(ra * bd >= 0 && rb * ad >= 0) by (nonlinear_arith)
        requires
            0 <= ra,
            0 <= rb,
            ad > 0,
            bd > 0,
    ;
    if qa < qb {
        assert(qa * (ad * bd) + ad * bd <= qb * (ad * bd)) by (nonlinear_arith)
            requires
                qa < qb,
                ad * bd > 0,
        ;
    }
    if qa > qb {
        assert(qb * (ad * bd) + ad * bd <= qa * (ad * bd)) by (nonlinear_arith)
            requires
                qa > qb,
                ad * bd > 0,
        ;
    }
}

/// Compares two fractions with positive denominators exactly.
pub fn ratio_less(a: &Ratio, b: &Ratio) -> (r: bool)
    requires
        a.den > 0,
        b.den > 0,
    ensures
        r == ratio_lt(*a, *b),
{
    let ad = a.den as u128;
    let bd = b.den as u128;
    let qa = a.num / ad;
    let ra = a.num % ad;
    let qb = b.num / bd;
    let rb = b.num % bd;
    proof {
        vstd::arithmetic::div_mod::lemma_fundamental_div_mod(a.num as int, ad as int);
        vstd::arithmetic::div_mod::lemma_fundamental_div_mod(b.num as int, bd as int);
        assert(a.num == qa * ad + ra) by (nonlinear_arith)
            requires
                a.num == ad * qa + ra,
        ;
        assert(b.num == qb * bd + rb) by (nonlinear_arith)
            requires
                b.num == bd * qb + rb,
        ;
        lemma_ratio_lt_by_parts(
            a.num as int,
            ad as int,
            b.num as int,
            bd as int,
            qa as int,
            ra as int,
            qb as int,
            rb as int,
        );
    }
    if qa < qb {
        true
    } else if qa > qb {
        false
    } else {
        assert(ra * bd <= 0xffff_ffff_ffff_ffffu128 * 0xffff_ffff_ffff_ffffu128) by (nonlinear_arith)
            requires
                ra < ad,
                ad <= 0xffff_ffff_ffff_ffffu128,
                bd <= 0xffff_ffff_ffff_ffffu128,
        ;
        assert(rb * ad <= 0xffff_ffff_ffff_ffffu128 * 0xffff_ffff_ffff_ffffu128) by (nonlinear_arith)
            requires
                rb < bd,
                ad <= 0xffff_ffff_ffff_ffffu128,
                bd <= 0xffff_ffff_ffff_ffffu128,
        ;
        ra * bd < rb * ad
    }
}

/// The scheduler's state: the distance of each signal id from the target,
/// the distances recorded for corpus entries (by corpus id, in the order in
/// which they are scanned), and the length of the cooling phase.
pub struct DirectedDistanceScheduler {
    pub distances: HashMap<usize, u32>,
    pub seed_distances: Vec<(usize, Ratio)>,
    pub cooling_time_micros: u64,
}

impl DirectedDistanceScheduler {
    /// Every recorded seed distance has a positive denominator, and each
    /// corpus id has at most one recorded distance.
    pub open spec fn wf(&self) -> bool {
        &&& forall|i: int|
            0 <= i < self.seed_distances@.len() ==> (#[trigger] self.seed_distances@[i]).1.den
                > 0
        &&& forall|i: int, j: int|
            0 <= i < self.seed_distances@.len() && 0 <= j < self.seed_distances@.len() && i
                != j ==> (#[trigger] self.seed_distances@[i]).0 != (
            #[trigger] self.seed_distances@[j]).0
    }

    /// A scheduler over `distances` that cools over `cooling_time_micros`
    /// microseconds, with no seed distance recorded yet.
    pub fn with_cooling(distances: HashMap<usize, u32>, cooling_time_micros: u64) -> (s: Self)
        ensures
            s.distances@ == distances@,
            s.seed_distances@.len() == 0,
            s.cooling_time_micros == cooling_time_micros,
            s.wf(),
    {
        DirectedDistanceScheduler { distances, seed_distances: Vec::new(), cooling_time_micros }
    }

    /// The temperature `elapsed_micros` microseconds after the start.
    pub fn current_temperature(&self, elapsed_micros: u64) -> (t: Ratio)
        ensures
            t == temperature(elapsed_micros, self.cooling_time_micros),
            t.den > 0,
            t.num <= t.den,
    {
        if elapsed_micros >= self.cooling_time_micros {
            Ratio { num: 1, den: 100 }
        } else {
            Ratio {
                num: (self.cooling_time_micros - elapsed_micros) as u128,
                den: self.cooling_time_micros,
            }
        }
    }

    /// How many of the hit signals (non-zero entries of `signals`, by index)
    /// have a known distance, and the sum of their distances.
    pub fn hit_stats(&self, signals: &[u8]) -> (r: (u64, u128))
        ensures
            r.0 == hit_count(self.distances@, signals@),
            r.1 == hit_total(self.distances@, signals@),
            r.0 <= signals@.len(),
    {
        let n = signals.len();
        let mut count: u64 = 0;
        let mut total: u128 = 0;
        let mut a: usize = 0;
        while a < n
            invariant
                n == signals@.len(),
                a <= n,
                count == hit_count(self.distances@, signals@.take(a as int)),
                total == hit_total(self.distances@, signals@.take(a as int)),
                count <= a,
                total <= a * 0xffff_ffffu128,
            decreases n - a,
        {
            let ghost pre = signals@.take(a as int);
            let ghost cur = signals@.take(a + 1);
            assert(cur.drop_last() =~= pre);
            assert(cur[a as int] == signals@[a as int]);
            if signals[a] > 0 {
                match self.distances.get(&a) {
                    Some(d) => {
                        count = count + 1;
                        total = total + *d as u128;
                    },
                    None => {},
                }
            }
            a = a + 1;
        }
        assert(signals@.take(n as int) =~= signals@);
        (count, total)
    }

    /// The distance of a seed that hit `signals`: the mean distance over its
    /// hit signals with a known distance, or `1/1` without such a hit.
    pub fn calculate_seed_distance(&self, signals: &[u8]) -> (d: Ratio)
        ensures
            d == seed_distance(self.distances@, signals@),
            d.den > 0,
            hit_count(self.distances@, signals@) <= signals@.len(),
            hit_total(self.distances@, signals@) <= 0xffff_ffff * hit_count(
                self.distances@,
                signals@,
            ),
    {
        proof {
            lemma_hit_bounds(self.distances@, signals@);
        }
        let (count, total) = self.hit_stats(signals);
        if count == 0 {
            Ratio { num: 1, den: 1 }
        } else {
            Ratio { num: total, den: count }
        }
    }

    /// The corpus id to fuzz next, `elapsed_micros` microseconds after the
    /// start: `fallback` while the temperature is above `4/5` or no seed
    /// distance is recorded, otherwise the first recorded seed whose distance
    /// is smallest.
    pub fn select_next(&self, elapsed_micros: u64, fallback: usize) -> (id: usize)
        requires
            self.wf(),
        ensures
            id == next_seed(
                self.seed_distances@,
                elapsed_micros,
                self.cooling_time_micros,
                fallback,
            ),
            self.seed_distances@.len() == 0 || (elapsed_micros < self.cooling_time_micros && 5
                * elapsed_micros < self.cooling_time_micros) ==> id == fallback,
            self.seed_distances@.len() > 0 && !(elapsed_micros < self.cooling_time_micros && 5
                * elapsed_micros < self.cooling_time_micros) ==> nearest_recorded(
                self.seed_distances@,
                id,
            ),
    {
        proof {
            lemma_next_seed_law(
                self.seed_distances@,
                elapsed_micros,
                self.cooling_time_micros,
                fallback,
            );
        }
        let t = self.current_temperature(elapsed_micros);
        let n = self.seed_distances.len();
        if t.num * 5 > (t.den as u128) * 4 || n == 0 {
            return fallback;
        }
        let mut best: usize = 0;
        let mut k: usize = 1;
        while k < n
            invariant
                n == self.seed_distances@.len(),
                1 <= k <= n,
                self.wf(),
                best == nearest_index(self.seed_distances@, k as int),
                best < k,
            decreases n - k,
        {
            if ratio_less(&self.seed_distances[k].1, &self.seed_distances[best].1) {
                best = k;
            }
            k = k + 1;
        }
        self.seed_distances[best].0
    }

    /// The corpus id to fuzz next in a corpus of `corpus_count` entries whose
    /// last and first ids are `last` and `first`: `None` for an empty corpus,
    /// otherwise the choice of `select_next` with the last entry (or, without
    /// one, the first) as the fallback.
    pub fn next_corpus_id(
        &self,
        elapsed_micros: u64,
        corpus_count: usize,
        last: Option<usize>,
        first: Option<usize>,
    ) -> (r: Option<usize>)
        requires
            self.wf(),
            corpus_count > 0 ==> last is Some || first is Some,
        ensures
            r == next_corpus_entry(
                self.seed_distances@,
                elapsed_micros,
                self.cooling_time_micros,
                corpus_count,
                last,
                first,
            ),
            r is None <==> corpus_count == 0,
            corpus_count > 0 && (self.seed_distances@.len() == 0 || (elapsed_micros
                < self.cooling_time_micros && 5 * elapsed_micros < self.cooling_time_micros))
                ==> r == (if last is Some {
                last
            } else {
                first
            }),
            corpus_count > 0 && self.seed_distances@.len() > 0 && !(elapsed_micros
                < self.cooling_time_micros && 5 * elapsed_micros < self.cooling_time_micros)
                ==> r is Some && nearest_recorded(self.seed_distances@, r->Some_0),
    {
        proof {
            lemma_next_corpus_entry_law(
                self.seed_distances@,
                elapsed_micros,
                self.cooling_time_micros,
                corpus_count,
                last,
                first,
            );
        }
        if corpus_count == 0 {
            return None;
        }
        let fallback = match last {
            Some(id) => id,
            None => match first {
                Some(id) => id,
                None => 0,
            },
        };
        Some(self.select_next(elapsed_micros, fallback))
    }
}

/// At the start of a schedule that cools at all, the temperature is `1`.
pub proof fn lemma_temperature_starts_hot(cooling: u64)
    requires
        cooling > 0,
    ensures
        ratio_eq(temperature(0, cooling), Ratio { num: 1, den: 1 }),
{
}

/// Once the cooling time has passed, the temperature stays at the floor
/// `1/100`.
pub proof fn lemma_temperature_floor(elapsed: u64, cooling: u64)
    requires
        elapsed >= cooling,
    ensures
        temperature(elapsed, cooling) == floor_temperature(),
        ratio_eq(temperature(elapsed, cooling), Ratio { num: 1, den: 100 }),
{
}

/// The temperature is a fraction in `(0, 1]`.
pub proof fn lemma_temperature_in_unit_interval(elapsed: u64, cooling: u64)
    ensures
        0 < temperature(elapsed, cooling).num <= temperature(elapsed, cooling).den,
{
}

/// While cooling, the temperature falls linearly: `1 - elapsed / cooling`.
pub proof fn lemma_temperature_linear(elapsed: u64, cooling: u64)
    requires
        elapsed < cooling,
    ensures
        temperature(elapsed, cooling).den == cooling,
        temperature(elapsed, cooling).num + elapsed == cooling,
{
}

/// While cooling, a later moment is strictly colder.
pub proof fn lemma_temperature_strictly_decreases(e1: u64, e2: u64, cooling: u64)
    requires
        e1 < e2 < cooling,
    ensures
        ratio_lt(temperature(e2, cooling), temperature(e1, cooling)),
{
    let c = cooling as int;
    assert((c - e2) * c < (c - e1) * c) by (nonlinear_arith)
        requires
            e1 < e2 < c,
    ;
}

/// The schedule is hot (above `4/5`) exactly during the first fifth of the
/// cooling time.
pub proof fn lemma_hot_during_first_fifth(elapsed: u64, cooling: u64)
    ensures
        is_hot(temperature(elapsed, cooling)) <==> elapsed < cooling && 5 * elapsed < cooling,
{
}

/// During the first fifth of the cooling time the fallback entry is picked,
/// whatever the recorded seed distances.
pub proof fn lemma_fallback_while_hot(
    seeds: Seq<(usize, Ratio)>,
    elapsed: u64,
    cooling: u64,
    fallback: usize,
)
    requires
        5 * elapsed < cooling,
    ensures
        next_seed(seeds, elapsed, cooling, fallback) == fallback,
{
}

/// `a < b <= c` gives `a < c`, for fractions with positive denominators.
proof fn lemma_ratio_lt_le_trans(a: Ratio, b: Ratio, c: Ratio)
    requires
        a.den > 0,
        b.den > 0,
        c.den > 0,
        ratio_lt(a, b),
        !ratio_lt(c, b),
    ensures
        ratio_lt(a, c),
{
    let (an, ad, bn, bd, cn, cd) = (
        a.num as int,
        a.den as int,
        b.num as int,
        b.den as int,
        c.num as int,
        c.den as int,
    );
    assert(an * bd * cd < bn * ad * cd) by (nonlinear_arith)
        requires
            an * bd < bn * ad,
            cd > 0,
    ;
    assert(bn * cd * ad <= cn * bd * ad) by (nonlinear_arith)
        requires
            bn * cd <= cn * bd,
            ad > 0,
    ;
    assert(an * cd * bd < cn * ad * bd) by (nonlinear_arith)
        requires
            an * bd * cd < bn * ad * cd,
            bn * cd * ad <= cn * bd * ad,
    ;
    assert(an * cd < cn * ad) by (nonlinear_arith)
        requires
            an * cd * bd < cn * ad * bd,
            bd > 0,
    ;
}

/// The seed the scheduler picks among the recorded ones is a nearest one,
/// and the first of the nearest: no recorded seed is nearer, and every seed
/// recorded before it is farther.
pub proof fn lemma_nearest_is_first_minimum(seeds: Seq<(usize, Ratio)>, k: int)
    requires
        1 <= k <= seeds.len(),
        forall|i: int| 0 <= i < seeds.len() ==> (#[trigger] seeds[i]).1.den > 0,
    ensures
        0 <= nearest_index(seeds, k) < k,
        forall|j: int|
            0 <= j < k ==> !ratio_lt(
                (#[trigger] seeds[j]).1,
                seeds[nearest_index(seeds, k)].1,
            ),
        forall|j: int|
            0 <= j < nearest_index(seeds, k) ==> ratio_lt(
                seeds[nearest_index(seeds, k)].1,
                (#[trigger] seeds[j]).1,
            ),
    decreases k,
{
    if k > 1 {
        lemma_nearest_is_first_minimum(seeds, k - 1);
        let b = nearest_index(seeds, k - 1);
        let x = seeds[k - 1].1;
        if ratio_lt(x, seeds[b].1) {
            assert forall|j: int| 0 <= j < k implies !ratio_lt(
                (#[trigger] seeds[j]).1,
                x,
            ) by {
                if j < k - 1 && ratio_lt(seeds[j].1, x) {
                    assert(!ratio_lt(seeds[b].1, x));
                    lemma_ratio_lt_le_trans(seeds[j].1, x, seeds[b].1);
                }
            }
            assert forall|j: int| 0 <= j < k - 1 implies ratio_lt(x, (#[trigger] seeds[j]).1) by {
                lemma_ratio_lt_le_trans(x, seeds[b].1, seeds[j].1);
            }
        }
    }
}

/// A seed with no hit signal of known distance gets the fallback distance
/// `1`.
pub proof fn lemma_no_hits_fall_back(dist: Map<usize, u32>, signals: Seq<u8>)
    requires
        forall|a: int| 0 <= a < signals.len() ==> !is_hit(dist, signals, a),
    ensures
        hit_count(dist, signals) == 0,
        seed_distance(dist, signals) == (Ratio { num: 1, den: 1 }),
    decreases signals.len(),
{
    if signals.len() > 0 {
        let p = signals.drop_last();
        assert forall|a: int| 0 <= a < p.len() implies !is_hit(dist, p, a) by {
            assert(p[a] == signals[a]);
            assert(!is_hit(dist, signals, a));
        }
        lemma_no_hits_fall_back(dist, p);
        assert(!is_hit(dist, signals, signals.len() - 1));
    }
}

/// The distance of a seed with hits is a mean: it lies between the smallest
/// and the largest distance of the signals it hit.
pub proof fn lemma_seed_distance_is_a_mean(
    dist: Map<usize, u32>,
    signals: Seq<u8>,
    lo: int,
    hi: int,
)
    requires
        forall|a: int|
            0 <= a < signals.len() && #[trigger] is_hit(dist, signals, a) ==> lo <= dist[a as usize]
                <= hi,
    ensures
        lo * hit_count(dist, signals) <= hit_total(dist, signals) <= hi * hit_count(
            dist,
            signals,
        ),
    decreases signals.len(),
{
    if signals.len() > 0 {
        let p = signals.drop_last();
        lemma_no_hits_prefix(dist, signals);
        assert forall|a: int|
            0 <= a < p.len() && #[trigger] is_hit(dist, p, a) implies lo <= dist[a as usize]
                <= hi by {
            assert(is_hit(dist, signals, a));
        }
        lemma_seed_distance_is_a_mean(dist, p, lo, hi);
        let c = hit_count(dist, p) as int;
        let t = hit_total(dist, p) as int;
        let last = (signals.len() - 1) as usize;
        if is_hit(dist, signals, signals.len() - 1) {
            assert(dist.contains_key(last));
            let d = dist[last] as int;
            assert(is_hit(dist, signals, signals.len() - 1));
            assert(lo <= d <= hi);
            assert(hit_count(dist, signals) == c + 1);
            assert(hit_total(dist, signals) == t + d);
            let n = hit_count(dist, signals) as int;
            let u = hit_total(dist, signals) as int;
            assert(lo * n <= u <= hi * n) by (nonlinear_arith)
                requires
                    n == c + 1,
                    u == t + d,
                    lo * c <= t <= hi * c,
                    lo <= d <= hi,
            ;
        } else {
            let n = hit_count(dist, signals) as int;
            let u = hit_total(dist, signals) as int;
            assert(lo * n <= u <= hi * n) by (nonlinear_arith)
                requires
                    n == c,
                    u == t,
                    lo * c <= t <= hi * c,
            ;
        }
    } else {
        assert(lo * 0 == 0 && hi * 0 == 0);
    }
}

/// The distance of a seed with hits lies between the smallest and the
/// largest distance in the map.
pub proof fn lemma_seed_distance_within_map_extremes(
    dist: Map<usize, u32>,
    signals: Seq<u8>,
    lo: int,
    hi: int,
)
    requires
        forall|k: usize| #[trigger] dist.contains_key(k) ==> lo <= dist[k] <= hi,
    ensures
        lo * hit_count(dist, signals) <= hit_total(dist, signals) <= hi * hit_count(
            dist,
            signals,
        ),
{
    assert forall|a: int|
        0 <= a < signals.len() && #[trigger] is_hit(dist, signals, a) implies lo <= dist[a as usize]
            <= hi by {
        assert(dist.contains_key(a as usize));
    }
    lemma_seed_distance_is_a_mean(dist, signals, lo, hi);
}

/// The count of hits is at most the number of signals, and the sum of their
/// distances is at most `u32::MAX` per hit: the fraction of a seed distance
/// loses nothing to its integer widths.
pub proof fn lemma_hit_bounds(dist: Map<usize, u32>, signals: Seq<u8>)
    ensures
        hit_count(dist, signals) <= signals.len(),
        hit_total(dist, signals) <= 0xffff_ffff * hit_count(dist, signals),
    decreases signals.len(),
{
    if signals.len() > 0 {
        lemma_hit_bounds(dist, signals.drop_last());
    }
}

/// Two seeds that hit the same signals with a known distance have the same
/// distance, whatever else their signal maps hold.
pub proof fn lemma_same_hits_same_distance(dist: Map<usize, u32>, s1: Seq<u8>, s2: Seq<u8>)
    requires
        forall|a: int|
            #![trigger is_hit(dist, s1, a)]
            #![trigger is_hit(dist, s2, a)]
            (0 <= a < s1.len() && is_hit(dist, s1, a)) <==> (0 <= a < s2.len() && is_hit(
                dist,
                s2,
                a,
            )),
    ensures
        hit_count(dist, s1) == hit_count(dist, s2),
        hit_total(dist, s1) == hit_total(dist, s2),
        seed_distance(dist, s1) == seed_distance(dist, s2),
    decreases s1.len() + s2.len(),
{
    if s1.len() > s2.len() {
        let p = s1.drop_last();
        lemma_no_hits_prefix(dist, s1);
        assert(!is_hit(dist, s1, s1.len() - 1)) by {
            if is_hit(dist, s1, s1.len() - 1) {
                assert(0 <= s1.len() - 1 < s2.len());
            }
        }
        assert forall|a: int|
            #![trigger is_hit(dist, p, a)]
            #![trigger is_hit(dist, s2, a)]
            (0 <= a < p.len() && is_hit(dist, p, a)) <==> (0 <= a < s2.len() && is_hit(
                dist,
                s2,
                a,
            )) by {
            if 0 <= a < p.len() {
                assert(is_hit(dist, p, a) == is_hit(dist, s1, a));
            }
            if 0 <= a < s2.len() && is_hit(dist, s2, a) {
                assert(is_hit(dist, s1, a));
                assert(a != s1.len() - 1);
            }
        }
        lemma_same_hits_same_distance(dist, p, s2);
    } else if s2.len() > s1.len() {
        let p = s2.drop_last();
        lemma_no_hits_prefix(dist, s2);
        assert(!is_hit(dist, s2, s2.len() - 1)) by {
            if is_hit(dist, s2, s2.len() - 1) {
                assert(0 <= s2.len() - 1 < s1.len());
            }
        }
        assert forall|a: int|
            #![trigger is_hit(dist, s1, a)]
            #![trigger is_hit(dist, p, a)]
            (0 <= a < s1.len() && is_hit(dist, s1, a)) <==> (0 <= a < p.len() && is_hit(
                dist,
                p,
                a,
            )) by {
            if 0 <= a < p.len() {
                assert(is_hit(dist, p, a) == is_hit(dist, s2, a));
            }
            if 0 <= a < s1.len() && is_hit(dist, s1, a) {
                assert(is_hit(dist, s2, a));
                assert(a != s2.len() - 1);
            }
        }
        lemma_same_hits_same_distance(dist, s1, p);
    } else if s1.len() > 0 {
        let p1 = s1.drop_last();
        let p2 = s2.drop_last();
        lemma_no_hits_prefix(dist, s1);
        lemma_no_hits_prefix(dist, s2);
        let n = s1.len() - 1;
        assert(is_hit(dist, s1, n) == is_hit(dist, s2, n));
        assert forall|a: int|
            #![trigger is_hit(dist, p1, a)]
            #![trigger is_hit(dist, p2, a)]
            (0 <= a < p1.len() && is_hit(dist, p1, a)) <==> (0 <= a < p2.len() && is_hit(
                dist,
                p2,
                a,
            )) by {
            if 0 <= a < p1.len() {
                assert(is_hit(dist, p1, a) == is_hit(dist, s1, a));
                assert(is_hit(dist, p2, a) == is_hit(dist, s2, a));
            }
        }
        lemma_same_hits_same_distance(dist, p1, p2);
    }
}

/// The counts of a sequence of signals extend those of its prefix.
proof fn lemma_no_hits_prefix(dist: Map<usize, u32>, signals: Seq<u8>)
    requires
        signals.len() > 0,
    ensures
        forall|a: int|
            0 <= a < signals.len() - 1 ==> is_hit(dist, signals.drop_last(), a) == is_hit(
                dist,
                signals,
                a,
            ),
{
}

/// `id` is the corpus id of a recorded seed whose distance no recorded seed
/// undercuts, and every seed recorded before it is strictly farther
/// (fractions compared by cross-multiplying).
pub open spec fn nearest_recorded(seeds: Seq<(usize, Ratio)>, id: usize) -> bool {
    exists|i: int|
        0 <= i < seeds.len() && seeds[i].0 == id && (forall|j: int|
            0 <= j < seeds.len() ==> seeds[i].1.num * seeds[j].1.den <= (#[trigger] seeds[j]).1.num
                * seeds[i].1.den) && (forall|j: int|
            0 <= j < i ==> seeds[i].1.num * seeds[j].1.den < (#[trigger] seeds[j]).1.num
                * seeds[i].1.den)
}

/// The seed choice: the fallback while no seed distance is recorded or
/// during the first fifth of the cooling time; afterwards the first recorded
/// seed that no other recorded seed is nearer than.
pub proof fn lemma_next_seed_law(
    seeds: Seq<(usize, Ratio)>,
    elapsed: u64,
    cooling: u64,
    fallback: usize,
)
    requires
        forall|i: int| 0 <= i < seeds.len() ==> (#[trigger] seeds[i]).1.den > 0,
    ensures
        seeds.len() == 0 || (elapsed < cooling && 5 * elapsed < cooling) ==> next_seed(
            seeds,
            elapsed,
            cooling,
            fallback,
        ) == fallback,
        seeds.len() > 0 && !(elapsed < cooling && 5 * elapsed < cooling) ==> nearest_recorded(
            seeds,
            next_seed(seeds, elapsed, cooling, fallback),
        ),
{
    lemma_hot_during_first_fifth(elapsed, cooling);
    if seeds.len() > 0 && !(elapsed < cooling && 5 * elapsed < cooling) {
        let n = seeds.len() as int;
        lemma_nearest_is_first_minimum(seeds, n);
        let b = nearest_index(seeds, n);
        assert forall|j: int| 0 <= j < seeds.len() implies seeds[b].1.num * seeds[j].1.den
            <= (#[trigger] seeds[j]).1.num * seeds[b].1.den by {
            assert(!ratio_lt(seeds[j].1, seeds[b].1));
        }
        assert forall|j: int| 0 <= j < b implies seeds[b].1.num * seeds[j].1.den < (
        #[trigger] seeds[j]).1.num * seeds[b].1.den by {
            assert(ratio_lt(seeds[b].1, seeds[j].1));
        }
        assert(seeds[b].0 == next_seed(seeds, elapsed, cooling, fallback));
    }
}

/// The corpus entry choice: nothing exactly when the corpus is empty; the
/// newest entry (else the first) while no seed distance is recorded or during
/// the first fifth of the cooling time; afterwards a nearest recorded seed.
pub proof fn lemma_next_corpus_entry_law(
    seeds: Seq<(usize, Ratio)>,
    elapsed: u64,
    cooling: u64,
    corpus_count: usize,
    last: Option<usize>,
    first: Option<usize>,
)
    requires
        forall|i: int| 0 <= i < seeds.len() ==> (#[trigger] seeds[i]).1.den > 0,
        corpus_count > 0 ==> last is Some || first is Some,
    ensures
        next_corpus_entry(seeds, elapsed, cooling, corpus_count, last, first) is None
            <==> corpus_count == 0,
        corpus_count > 0 && (seeds.len() == 0 || (elapsed < cooling && 5 * elapsed < cooling))
            ==> next_corpus_entry(seeds, elapsed, cooling, corpus_count, last, first) == (
        if last is Some {
            last
        } else {
            first
        }),
        corpus_count > 0 && seeds.len() > 0 && !(elapsed < cooling && 5 * elapsed < cooling)
            ==> next_corpus_entry(seeds, elapsed, cooling, corpus_count, last, first) is Some
            && nearest_recorded(
            seeds,
            next_corpus_entry(seeds, elapsed, cooling, corpus_count, last, first)->Some_0,
        ),
{
    if corpus_count > 0 {
        let fallback = match last {
            Some(id) => id,
            None => first.unwrap(),
        };
        lemma_next_seed_law(seeds, elapsed, cooling, fallback);
    }
}

/// Signals none of which is a hit of known distance give no hit and no
/// distance.
pub proof fn lemma_hit_count_without_hits(dist: Map<usize, u32>, signals: Seq<u8>)
    requires
        forall|a: int|
            0 <= a < signals.len() ==> signals[a] == 0 || !dist.contains_key(a as usize),
    ensures
        hit_count(dist, signals) == 0,
        hit_total(dist, signals) == 0,
    decreases signals.len(),
{
    if signals.len() > 0 {
        lemma_hit_count_without_hits(dist, signals.drop_last());
    }
}

/// Turning on one more signal whose distance is known, whatever that
/// distance (zero included), counts one more hit and adds its distance.
pub proof fn lemma_one_more_hit(dist: Map<usize, u32>, signals: Seq<u8>, a: int, v: u8)
    requires
        0 <= a < signals.len(),
        signals[a] == 0,
        v > 0,
        dist.contains_key(a as usize),
    ensures
        hit_count(dist, signals.update(a, v)) == hit_count(dist, signals) + 1,
        hit_total(dist, signals.update(a, v)) == hit_total(dist, signals) + dist[a as usize],
    decreases signals.len(),
{
    let s2 = signals.update(a, v);
    let n = signals.len() - 1;
    if a == n {
        assert(s2.drop_last() =~= signals.drop_last());
    } else {
        assert(s2.drop_last() =~= signals.drop_last().update(a, v));
        lemma_one_more_hit(dist, signals.drop_last(), a, v);
        assert(s2[n] == signals[n]);
    }
}

} // verus!
