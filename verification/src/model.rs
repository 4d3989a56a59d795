//! Functional model of the sampling run.
//!
//! The estimator's pass over the stream is modelled as a fold: `run` threads a
//! `Run` state through the stream, reading the uniform draws it consumes from
//! an explicit sequence. Every draw-dependent decision of the executable code
//! is mirrored here, so the result of an estimation call is pinned to
//! `estimate_of` applied to the stream and the drawn values.
//!
//! The sampling probability is always `2^-halvings`, so it is represented by
//! the count of halvings alone; a fresh uniform draw falls below it exactly
//! when the draw's top 53 bits, read as an integer, fall below
//! `2^(53 - halvings)`.
use vstd::prelude::*;
use vstd::arithmetic::power2::pow2;
use vstd::seq_lib::seq_to_set_is_finite;
use vstd::set_lib::lemma_len_subset;

verus! {

/// State of one estimation pass: the surviving sample (most recently placed
/// element last), the number of probability halvings so far, the number of
/// draws consumed so far, and whether the pass gave up because thinning left
/// the sample at the threshold.
pub struct Run<T> {
    pub chi: Seq<T>,
    pub halvings: nat,
    pub used: int,
    pub aborted: bool,
}

/// The draw at position `i`, with an arbitrary fixed value past the end so
/// that the model is total.
pub open spec fn draw_at(draws: Seq<u64>, i: int) -> u64 {
    if 0 <= i < draws.len() {
        draws[i]
    } else {
        0
    }
}

/// A draw admits a newly seen element into the sample when its top 53 bits
/// fall below `2^(53 - halvings)`: for a uniform draw this happens with
/// probability `2^-halvings` while `halvings <= 53`, and beyond that only a
/// draw whose top 53 bits are all zero is admitted.
pub open spec fn admits(u: u64, halvings: nat) -> bool {
    if halvings <= 53 {
        (u >> 11) < (1u64 << ((53 - halvings) as u64))
    } else {
        (u >> 11) == 0u64
    }
}

/// A draw lets a sample element survive a thinning round when its top bit is
/// set: probability one half for a uniform draw.
pub open spec fn survives(u: u64) -> bool {
    (u >> 11) >= (1u64 << 52u64)
}

/// Thinning of the sample: element `i` of `chi` survives according to the
/// draw at position `start + i`.
pub open spec fn thin<T>(chi: Seq<T>, draws: Seq<u64>, start: int) -> Seq<T>
    decreases chi.len(),
{
    if chi.len() == 0 {
        chi
    } else {
        let rest = thin(chi.drop_first(), draws, start + 1);
        if survives(draw_at(draws, start)) {
            seq![chi[0]] + rest
        } else {
            rest
        }
    }
}

/// Removal of the element equal to `a`, if any: the first occurrence is
/// overwritten by the last element and the last slot is dropped, as an
/// unordered sample permits.
pub open spec fn remove_seen<T>(chi: Seq<T>, a: T) -> Seq<T> {
    match chi.index_of_first(a) {
        Some(j) => chi.update(j, chi.last()).drop_last(),
        None => chi,
    }
}

/// The state before any element has been processed.
pub open spec fn init<T>() -> Run<T> {
    Run { chi: Seq::empty(), halvings: 0, used: 0, aborted: false }
}

/// Processing of one stream element: remove it from the sample if present,
/// re-admit it according to one fresh draw, and if the sample then sits at
/// the threshold, thin it with one draw per sample element and halve the
/// probability; a thinning that leaves the sample at the threshold aborts
/// the pass.
pub open spec fn step<T>(st: Run<T>, a: T, thresh: nat, draws: Seq<u64>) -> Run<T> {
    if st.aborted {
        st
    } else {
        let shrunk = remove_seen(st.chi, a);
        let chi = if admits(draw_at(draws, st.used), st.halvings) {
            shrunk.push(a)
        } else {
            shrunk
        };
        let used = st.used + 1;
        if chi.len() == thresh {
            let thinned = thin(chi, draws, used);
            Run {
                chi: thinned,
                halvings: st.halvings + 1,
                used: used + chi.len(),
                aborted: thinned.len() == thresh,
            }
        } else {
            Run { chi, halvings: st.halvings, used, aborted: false }
        }
    }
}

/// The state after processing the whole stream, left to right.
pub open spec fn run<T>(stream: Seq<T>, thresh: nat, draws: Seq<u64>) -> Run<T>
    decreases stream.len(),
{
    if stream.len() == 0 {
        init()
    } else {
        step(run(stream.drop_last(), thresh, draws), stream.last(), thresh, draws)
    }
}

/// The surviving sample size scaled back up by the final probability,
/// saturating at `usize::MAX` as the executable result must.
pub open spec fn scaled(chi_len: nat, halvings: nat) -> nat {
    if chi_len * pow2(halvings) <= usize::MAX as nat {
        chi_len * pow2(halvings)
    } else {
        usize::MAX as nat
    }
}

/// The estimate produced by a pass: zero for an aborted pass, otherwise the
/// scaled sample size.
pub open spec fn estimate_of<T>(stream: Seq<T>, thresh: nat, draws: Seq<u64>) -> nat {
    let st = run(stream, thresh, draws);
    if st.aborted {
        0
    } else {
        scaled(st.chi.len(), st.halvings)
    }
}

/// The number of distinct elements of a stream.
pub open spec fn distinct_count<T>(stream: Seq<T>) -> nat {
    stream.to_set().len()
}

/// While the probability has never been halved, every draw admits the
/// element: the initial sampling probability is one.
pub proof fn lemma_admits_all_at_zero(u: u64)
    ensures
        admits(u, 0),
{
    assert((u >> 11) < (1u64 << 53u64)) by (bit_vector);
}

/// A step never rewinds the draw cursor.
proof fn lemma_step_used<T>(st: Run<T>, a: T, thresh: nat, draws: Seq<u64>)
    ensures
        st.used <= step(st, a, thresh, draws).used,
{
}

/// What removal does to a duplicate-free sample: the removed value is gone,
/// everything else stays, and nothing appears from nowhere.
proof fn lemma_remove_seen_props<T>(chi: Seq<T>, a: T)
    requires
        chi.no_duplicates(),
    ensures
        remove_seen(chi, a).no_duplicates(),
        !remove_seen(chi, a).contains(a),
        forall|x: T| remove_seen(chi, a).contains(x) ==> chi.contains(x),
        chi.contains(a) ==> remove_seen(chi, a).len() == chi.len() - 1,
        chi.contains(a) ==> remove_seen(chi, a).to_set() == chi.to_set().remove(a),
        !chi.contains(a) ==> remove_seen(chi, a) == chi,
{
    chi.index_of_first_ensures(a);
    match chi.index_of_first(a) {
        Some(j) => {
            let r = chi.update(j, chi.last()).drop_last();
            let n: int = chi.len() as int;
            assert(r.len() == n - 1);
            assert(forall|i: int|
                0 <= i < n - 1 ==> r[i] == (if i == j {
                    chi[n - 1]
                } else {
                    chi[i]
                }));
            assert forall|x: T| r.contains(x) implies chi.contains(x) && x != a by {
                let i = choose|i: int| 0 <= i < r.len() && r[i] == x;
                if i == j {
                    assert(chi[n - 1] == x);
                } else {
                    assert(chi[i] == x);
                }
                assert(chi.contains(x));
                if x == a {
                    let w = if i == j {
                        n - 1
                    } else {
                        i
                    };
                    assert(chi[w] == a && chi[j] == a && w != j);
                    assert(false);
                }
            };
            assert forall|x: T| chi.contains(x) && x != a implies r.contains(x) by {
                let i = choose|i: int| 0 <= i < n && chi[i] == x;
                assert(i != j);
                if i < n - 1 {
                    assert(r[i] == x);
                } else {
                    assert(j < n - 1);
                    assert(r[j] == chi[n - 1]);
                    assert(r[j] == x);
                }
                assert(r.contains(x));
            };
            assert forall|i1: int, i2: int| 0 <= i1 < i2 < r.len() implies r[i1] != r[i2] by {
                let v1 = if i1 == j {
                    n - 1
                } else {
                    i1
                };
                let v2 = if i2 == j {
                    n - 1
                } else {
                    i2
                };
                assert(r[i1] == chi[v1] && r[i2] == chi[v2]);
                assert(v1 != v2);
            };
            assert(r.to_set() =~= chi.to_set().remove(a));
        },
        None => {},
    }
}

/// Thinning keeps a subsequence: no new values, no new duplicates, and the
/// sample does not grow.
proof fn lemma_thin_props<T>(chi: Seq<T>, draws: Seq<u64>, start: int)
    ensures
        forall|x: T| thin(chi, draws, start).contains(x) ==> chi.contains(x),
        chi.no_duplicates() ==> thin(chi, draws, start).no_duplicates(),
        thin(chi, draws, start).len() <= chi.len(),
    decreases chi.len(),
{
    if chi.len() != 0 {
        let tail = chi.drop_first();
        lemma_thin_props(tail, draws, start + 1);
        let rest = thin(tail, draws, start + 1);
        assert(forall|x: T| tail.contains(x) ==> chi.contains(x));
        if survives(draw_at(draws, start)) {
            let whole = seq![chi[0]] + rest;
            assert(whole[0] == chi[0]);
            assert(forall|i: int| 1 <= i < whole.len() ==> whole[i] == rest[i - 1]);
            assert forall|x: T| whole.contains(x) implies chi.contains(x) by {
                let i = choose|i: int| 0 <= i < whole.len() && whole[i] == x;
                if i == 0 {
                    assert(chi[0] == x);
                } else {
                    assert(rest.contains(x));
                }
            };
            if chi.no_duplicates() {
                assert(tail.no_duplicates()) by {
                    assert(forall|i: int| 0 <= i < tail.len() ==> tail[i] == chi[i + 1]);
                }
                assert forall|i1: int, i2: int|
                    0 <= i1 < i2 < whole.len() implies whole[i1] != whole[i2] by {
                    if i1 == 0 {
                        assert(rest.contains(rest[i2 - 1]));
                        assert(tail.contains(rest[i2 - 1]));
                        let w = choose|w: int| 0 <= w < tail.len() && tail[w] == rest[i2 - 1];
                        assert(chi[w + 1] == rest[i2 - 1]);
                        assert(chi[0] != chi[w + 1]);
                    }
                };
            }
        } else {
            if chi.no_duplicates() {
                assert(tail.no_duplicates()) by {
                    assert(forall|i: int| 0 <= i < tail.len() ==> tail[i] == chi[i + 1]);
                }
            }
        }
    }
}

/// Thinning one more trailing element appends it, or not, according to the
/// draw just past the window of the others.
pub proof fn lemma_thin_snoc<T>(c: Seq<T>, x: T, d: Seq<u64>, s: int)
    ensures
        thin(c.push(x), d, s) == thin(c, d, s) + (if survives(draw_at(d, s + c.len())) {
            seq![x]
        } else {
            Seq::<T>::empty()
        }),
    decreases c.len(),
{
    let sfx: Seq<T> = if survives(draw_at(d, s + c.len())) {
        seq![x]
    } else {
        Seq::<T>::empty()
    };
    if c.len() == 0 {
        assert(c.push(x)[0] == x);
        assert(c.push(x).drop_first() =~= Seq::<T>::empty());
        assert(thin(Seq::<T>::empty(), d, s + 1) =~= Seq::<T>::empty());
        assert(thin(c, d, s) =~= Seq::<T>::empty());
        assert(seq![x] + Seq::<T>::empty() =~= seq![x]);
        assert(Seq::<T>::empty() + sfx =~= sfx);
        assert(seq![x] =~= Seq::<T>::empty() + seq![x]);
    } else {
        let cd = c.drop_first();
        assert(c.push(x).drop_first() =~= cd.push(x));
        lemma_thin_snoc(cd, x, d, s + 1);
        assert(s + 1 + cd.len() == s + c.len());
        assert(c.push(x)[0] == c[0]);
        if survives(draw_at(d, s)) {
            assert(seq![c[0]] + (thin(cd, d, s + 1) + sfx) =~= (seq![c[0]] + thin(cd, d, s + 1))
                + sfx);
        }
    }
}

/// The standing facts of a pass: the sample is duplicate-free, holds only
/// stream elements, the draw cursor never goes negative, and an aborted pass
/// has halved at least once.
pub proof fn lemma_run_invariant<T>(stream: Seq<T>, thresh: nat, draws: Seq<u64>)
    ensures
        run(stream, thresh, draws).chi.no_duplicates(),
        forall|x: T| run(stream, thresh, draws).chi.contains(x) ==> stream.contains(x),
        0 <= run(stream, thresh, draws).used,
        run(stream, thresh, draws).aborted ==> run(stream, thresh, draws).halvings >= 1,
    decreases stream.len(),
{
    if stream.len() != 0 {
        let pre = stream.drop_last();
        let a = stream.last();
        lemma_run_invariant(pre, thresh, draws);
        let st = run(pre, thresh, draws);
        assert forall|x: T| pre.contains(x) implies stream.contains(x) by {
            let i = choose|i: int| 0 <= i < pre.len() && pre[i] == x;
            assert(stream[i] == x);
        };
        assert(stream.contains(a)) by {
            assert(stream[stream.len() - 1] == a);
        }
        if !st.aborted {
            lemma_remove_seen_props(st.chi, a);
            let shrunk = remove_seen(st.chi, a);
            let chi = if admits(draw_at(draws, st.used), st.halvings) {
                shrunk.push(a)
            } else {
                shrunk
            };
            assert(chi.no_duplicates() && forall|x: T| chi.contains(x) ==> stream.contains(x)) by {
                if admits(draw_at(draws, st.used), st.halvings) {
                    assert(forall|i: int| 0 <= i < shrunk.len() ==> chi[i] == shrunk[i]);
                    assert(chi[chi.len() - 1] == a);
                    assert forall|x: T| chi.contains(x) implies stream.contains(x) by {
                        let i = choose|i: int| 0 <= i < chi.len() && chi[i] == x;
                        if i < chi.len() - 1 {
                            assert(shrunk.contains(x));
                        }
                    };
                    assert forall|i1: int, i2: int|
                        0 <= i1 < i2 < chi.len() implies chi[i1] != chi[i2] by {
                        if i2 == chi.len() - 1 {
                            if chi[i1] == a {
                                assert(shrunk.contains(a));
                            }
                        }
                    };
                }
            }
            if chi.len() == thresh {
                lemma_thin_props(chi, draws, st.used + 1);
            }
        }
    }
}

/// The sample never holds more values than the stream has distinct elements.
pub proof fn lemma_chi_card<T>(stream: Seq<T>, thresh: nat, draws: Seq<u64>)
    ensures
        run(stream, thresh, draws).chi.len() <= distinct_count(stream),
{
    broadcast use seq_to_set_is_finite;

    lemma_run_invariant(stream, thresh, draws);
    let chi = run(stream, thresh, draws).chi;
    chi.unique_seq_to_set();
    assert(chi.to_set().subset_of(stream.to_set()));
    lemma_len_subset(chi.to_set(), stream.to_set());
}

/// Thinning reads only the draws in its own window.
pub proof fn lemma_thin_frame<T>(chi: Seq<T>, d1: Seq<u64>, d2: Seq<u64>, start: int)
    requires
        d1.is_prefix_of(d2),
        0 <= start,
        start + chi.len() <= d1.len(),
    ensures
        thin(chi, d1, start) == thin(chi, d2, start),
    decreases chi.len(),
{
    if chi.len() != 0 {
        lemma_thin_frame(chi.drop_first(), d1, d2, start + 1);
        assert(d1[start] == d2[start]);
    }
}

/// A pass reads only the draws it consumes: extending the draw sequence
/// beyond the cursor changes nothing.
pub proof fn lemma_run_frame<T>(stream: Seq<T>, thresh: nat, d1: Seq<u64>, d2: Seq<u64>)
    requires
        d1.is_prefix_of(d2),
        run(stream, thresh, d1).used <= d1.len(),
    ensures
        run(stream, thresh, d2) == run(stream, thresh, d1),
    decreases stream.len(),
{
    if stream.len() != 0 {
        let pre = stream.drop_last();
        let a = stream.last();
        let st = run(pre, thresh, d1);
        lemma_step_used(st, a, thresh, d1);
        lemma_run_frame(pre, thresh, d1, d2);
        lemma_run_invariant(pre, thresh, d1);
        if !st.aborted {
            assert(st.used < d1.len());
            assert(d1[st.used] == d2[st.used]);
            let shrunk = remove_seen(st.chi, a);
            let chi = if admits(draw_at(d1, st.used), st.halvings) {
                shrunk.push(a)
            } else {
                shrunk
            };
            if chi.len() == thresh {
                lemma_thin_frame(chi, d1, d2, st.used + 1);
            }
        }
    }
}

/// Once a pass has given up, the rest of the stream changes nothing.
pub proof fn lemma_aborted_frozen<T>(stream: Seq<T>, thresh: nat, draws: Seq<u64>, i: int)
    requires
        0 <= i <= stream.len(),
        run(stream.take(i), thresh, draws).aborted,
    ensures
        run(stream, thresh, draws) == run(stream.take(i), thresh, draws),
    decreases stream.len() - i,
{
    if i == stream.len() {
        assert(stream.take(i) =~= stream);
    } else {
        let next = stream.take(i + 1);
        assert(next.drop_last() =~= stream.take(i));
        assert(run(next, thresh, draws) == run(stream.take(i), thresh, draws));
        lemma_aborted_frozen(stream, thresh, draws, i + 1);
    }
}

/// A step never lowers the halving count.
proof fn lemma_step_halvings<T>(st: Run<T>, a: T, thresh: nat, draws: Seq<u64>)
    ensures
        st.halvings <= step(st, a, thresh, draws).halvings,
{
}

/// Along one pass the halving count only grows, so the sampling probability
/// `2^-halvings` only falls, and it is a power of two throughout.
pub proof fn lemma_halvings_monotone<T>(stream: Seq<T>, thresh: nat, draws: Seq<u64>, i: int, j: int)
    requires
        0 <= i <= j <= stream.len(),
    ensures
        run(stream.take(i), thresh, draws).halvings <= run(stream.take(j), thresh, draws).halvings,
    decreases j - i,
{
    if i < j {
        let next = stream.take(i + 1);
        assert(next.drop_last() =~= stream.take(i));
        lemma_step_halvings(run(stream.take(i), thresh, draws), next.last(), thresh, draws);
        lemma_halvings_monotone(stream, thresh, draws, i + 1, j);
    }
}

/// A stream with fewer distinct elements than the threshold is counted
/// exactly: the sample is never thinned, the probability never halved, and
/// at the end the sample holds exactly one element per distinct value,
/// whatever the draws.
pub proof fn lemma_exact_regime<T>(stream: Seq<T>, thresh: nat, draws: Seq<u64>)
    requires
        distinct_count(stream) < thresh,
    ensures
        !run(stream, thresh, draws).aborted,
        run(stream, thresh, draws).halvings == 0,
        run(stream, thresh, draws).chi.no_duplicates(),
        run(stream, thresh, draws).chi.to_set() == stream.to_set(),
        run(stream, thresh, draws).chi.len() == distinct_count(stream),
    decreases stream.len(),
{
    broadcast use seq_to_set_is_finite;

    if stream.len() == 0 {
        assert(stream.to_set() =~= Set::<T>::empty());
        assert(run(stream, thresh, draws).chi.to_set() =~= Set::<T>::empty());
    } else {
        let pre = stream.drop_last();
        let a = stream.last();
        assert(stream[stream.len() - 1] == a);
        assert forall|x: T| pre.contains(x) implies stream.contains(x) by {
            let i = choose|i: int| 0 <= i < pre.len() && pre[i] == x;
            assert(stream[i] == x);
        };
        assert forall|x: T| stream.contains(x) implies pre.contains(x) || x == a by {
            let i = choose|i: int| 0 <= i < stream.len() && stream[i] == x;
            if i < stream.len() - 1 {
                assert(pre[i] == x);
            }
        };
        assert(pre.to_set().insert(a) =~= stream.to_set());
        lemma_len_subset(pre.to_set(), stream.to_set());
        lemma_exact_regime(pre, thresh, draws);
        let st = run(pre, thresh, draws);
        lemma_remove_seen_props(st.chi, a);
        lemma_admits_all_at_zero(draw_at(draws, st.used));
        let shrunk = remove_seen(st.chi, a);
        let chi = shrunk.push(a);
        assert(run(stream, thresh, draws) == step(st, a, thresh, draws));
        assert(forall|i: int| 0 <= i < shrunk.len() ==> chi[i] == shrunk[i]);
        assert(chi[chi.len() - 1] == a);
        assert forall|i1: int, i2: int| 0 <= i1 < i2 < chi.len() implies chi[i1] != chi[i2] by {
            if i2 == chi.len() - 1 {
                if chi[i1] == a {
                    assert(shrunk.contains(a));
                }
            }
        };
        assert forall|x: T| chi.contains(x) implies shrunk.contains(x) || x == a by {
            let i = choose|i: int| 0 <= i < chi.len() && chi[i] == x;
            if i < chi.len() - 1 {
                assert(shrunk[i] == x);
            }
        };
        assert(shrunk.contains(a) || chi.contains(a)) by {
            assert(chi[chi.len() - 1] == a);
        }
        if st.chi.contains(a) {
            assert(chi.to_set() =~= stream.to_set());
            assert(st.chi.to_set().contains(a));
            assert(pre.to_set().contains(a));
            assert(pre.to_set().insert(a) =~= pre.to_set());
            chi.unique_seq_to_set();
            assert(chi.len() == distinct_count(stream));
        } else {
            assert(!pre.to_set().contains(a));
            assert(shrunk == st.chi);
            assert(chi.to_set() =~= stream.to_set());
            chi.unique_seq_to_set();
            assert(chi.len() == distinct_count(stream));
        }
        assert(chi.len() < thresh);
        assert(run(stream, thresh, draws).chi == chi);
    }
}

/// The estimate for a stream with fewer distinct elements than the
/// threshold is exactly the distinct count, whatever the draws.
pub proof fn lemma_estimate_exact<T>(stream: Seq<T>, thresh: nat, draws: Seq<u64>)
    requires
        distinct_count(stream) < thresh,
        stream.len() <= usize::MAX as nat,
    ensures
        estimate_of(stream, thresh, draws) == distinct_count(stream),
{
    lemma_exact_regime(stream, thresh, draws);
    stream.lemma_cardinality_of_set();
    vstd::arithmetic::power2::lemma2_to64();
    assert(pow2(0) == 1);
}

/// An empty stream is always estimated as zero.
pub proof fn lemma_empty_stream<T>(thresh: nat, draws: Seq<u64>)
    ensures
        estimate_of(Seq::<T>::empty(), thresh, draws) == 0,
{
    vstd::arithmetic::power2::lemma2_to64();
    assert(pow2(0) == 1);
    assert(run(Seq::<T>::empty(), thresh, draws) == init::<T>());
    assert(init::<T>().chi.len() == 0);
    assert(scaled(0, 0) == 0);
}

/// While the probability was never halved, the estimate cannot exceed the
/// number of distinct elements, and so not the stream length either.
pub proof fn lemma_estimate_bound_no_halving<T>(stream: Seq<T>, thresh: nat, draws: Seq<u64>)
    requires
        run(stream, thresh, draws).halvings == 0,
    ensures
        estimate_of(stream, thresh, draws) <= distinct_count(stream),
        distinct_count(stream) <= stream.len(),
{
    lemma_run_invariant(stream, thresh, draws);
    lemma_chi_card(stream, thresh, draws);
    stream.lemma_cardinality_of_set();
    vstd::arithmetic::power2::lemma2_to64();
    assert(pow2(0) == 1);
}

/// Determinism: the estimate is a mathematical function of the stream, the
/// threshold and the drawn values, so two passes that agree on all three
/// agree on the result. Whether two runs see the same draws is the random
/// source's affair: a generator built from the same seed repeats its draws,
/// one built from entropy does not.
pub proof fn lemma_estimate_deterministic<T>(
    s1: Seq<T>,
    s2: Seq<T>,
    thresh: nat,
    d1: Seq<u64>,
    d2: Seq<u64>,
)
    requires
        s1 == s2,
        d1 == d2,
    ensures
        estimate_of(s1, thresh, d1) == estimate_of(s2, thresh, d2),
{
}

/// Appending an element the stream has already seen never changes the
/// estimate while the distinct count stays below the threshold, for any
/// draws either pass consumes.
pub proof fn lemma_duplicate_append_exact<T>(
    stream: Seq<T>,
    a: T,
    thresh: nat,
    d1: Seq<u64>,
    d2: Seq<u64>,
)
    requires
        stream.contains(a),
        distinct_count(stream) < thresh,
        stream.len() + 1 <= usize::MAX as nat,
    ensures
        estimate_of(stream.push(a), thresh, d2) == estimate_of(stream, thresh, d1),
{
    let longer = stream.push(a);
    assert forall|x: T| longer.contains(x) implies stream.contains(x) by {
        let i = choose|i: int| 0 <= i < longer.len() && longer[i] == x;
        if i < longer.len() - 1 {
            assert(stream[i] == x);
        }
    };
    assert forall|x: T| stream.contains(x) implies longer.contains(x) by {
        let i = choose|i: int| 0 <= i < stream.len() && stream[i] == x;
        assert(longer[i] == x);
    };
    assert(longer.to_set() =~= stream.to_set());
    lemma_estimate_exact(stream, thresh, d1);
    lemma_estimate_exact(longer, thresh, d2);
}

} // verus!
