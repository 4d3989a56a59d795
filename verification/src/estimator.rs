//! The estimation pass, verified against the functional model.
use vstd::prelude::*;
use vstd::arithmetic::power2::pow2;
use vstd::arithmetic::power2::lemma_pow2_pos;
use vstd::arithmetic::power2::lemma_pow2_unfold;
use vstd::arithmetic::power2::lemma2_to64;
use vstd::std_specs::cmp::PartialEqSpec;
use crate::model::{
    Run, admits, distinct_count, draw_at, estimate_of, remove_seen, run, scaled, step, survives,
    thin,
};
use crate::model::{
    lemma_aborted_frozen, lemma_empty_stream, lemma_estimate_exact, lemma_exact_regime,
    lemma_run_frame, lemma_thin_frame, lemma_thin_snoc,
};
use crate::rng::Gen;

verus! {

/// The values behind a sequence of references.
pub open spec fn values<T>(s: Seq<&T>) -> Seq<T> {
    s.map_values(|x: &T| *x)
}

/// The executable pass state agrees with a live model state.
pub open spec fn matches_run<T>(st: Run<T>, chi: Seq<T>, halvings: nat, used: int) -> bool {
    &&& st.chi == chi
    &&& st.halvings == halvings
    &&& st.used == used
    &&& !st.aborted
}

/// Equality on `T` as executed agrees with equality as specified: what the
/// model treats as one distinct value, the code does too.
pub open spec fn eq_is_structural<T: PartialEq>() -> bool {
    &&& T::obeys_eq_spec()
    &&& forall|a: T, b: T| #[trigger] a.eq_spec(&b) <==> a == b
}

/// Whether a draw admits the element just seen into the sample.
fn admit_test(u: u64, halvings: usize) -> (r: bool)
    ensures
        r == admits(u, halvings as nat),
{
    if halvings <= 53 {
        let shift: u64 = (53 - halvings) as u64;
        (u >> 11) < (1u64 << shift)
    } else {
        (u >> 11) == 0
    }
}

/// Whether a draw lets a sample element survive a thinning round.
fn survive_test(u: u64) -> (r: bool)
    ensures
        r == survives(u),
{
    (u >> 11) >= (1u64 << 52u64)
}

/// The index of the first sample element equal to `*a`, if any.
fn find_first<T: PartialEq>(chi: &Vec<&T>, a: &T) -> (r: Option<usize>)
    requires
        eq_is_structural::<T>(),
    ensures
        match r {
            Some(j) => j < chi@.len() && values(chi@).index_of_first(*a) == Some(j as int),
            None => values(chi@).index_of_first(*a) is None,
        },
{
    let n: usize = chi.len();
    let mut j: usize = 0;
    while j < n
        invariant
            eq_is_structural::<T>(),
            n == chi@.len(),
            j <= n,
            forall|jj: int| 0 <= jj < j ==> values(chi@)[jj] != *a,
        decreases n - j,
    {
        let cj: &T = chi[j];
        let hit = *cj == *a;
        proof {
            assert(values(chi@)[j as int] == *chi@[j as int]);
        }
        if hit {
            proof {
                values(chi@).index_of_first_ensures(*a);
                assert(values(chi@)[j as int] == *a);
                assert(values(chi@).contains(*a));
                let idx = values(chi@).index_of_first(*a).unwrap();
                assert(!(idx < j)) by {
                    assert(values(chi@)[j as int] == *a);
                }
                assert(!(j < idx));
            }
            return Some(j);
        }
        j = j + 1;
    }
    proof {
        values(chi@).index_of_first_ensures(*a);
        if values(chi@).contains(*a) {
            let w = choose|w: int| 0 <= w < values(chi@).len() && values(chi@)[w] == *a;
            assert(false);
        }
    }
    None
}

/// Estimates the number of distinct elements in `stream` in one pass, in
/// space bounded by `thresh` sample slots, reading elements only through
/// references and equality tests.
///
/// `thresh` is the sample-size threshold: each element seen is kept in the
/// sample with the current sampling probability, and whenever the sample
/// reaches `thresh` it is thinned, each element surviving one fair draw, and
/// the probability is halved. A pass whose thinning leaves the sample at the
/// threshold gives up and returns 0, so a result of 0 certifies an empty
/// stream only when the stream is in fact empty.
///
/// The result equals the model estimate for the stream, the threshold and
/// the values drawn from `gen` — a generator seeded from entropy when `gen`
/// is `None` — and is therefore a function of those alone. Whenever the
/// stream has fewer distinct elements than the threshold, the sample is
/// never thinned and the result is exactly the distinct count, whatever the
/// draws.
pub fn find_n_distinct<T: PartialEq>(stream: &Vec<T>, thresh: usize, gen: Option<Gen>) -> (r:
    usize)
    requires
        eq_is_structural::<T>(),
    ensures
        exists|draws: Seq<u64>|
            r as nat == #[trigger] estimate_of(stream@, thresh as nat, draws),
        stream@.len() == 0 ==> r == 0,
        distinct_count(stream@) < thresh ==> r as nat == distinct_count(stream@),
{
    if stream.len() == 0 {
        proof {
            assert(stream@ =~= Seq::<T>::empty());
            lemma_empty_stream::<T>(thresh as nat, Seq::<u64>::empty());
            assert(0 as nat == estimate_of(stream@, thresh as nat, Seq::<u64>::empty()));
            assert(stream@.to_set() =~= Set::<T>::empty());
        }
        return 0;
    }
    let mut g = match gen {
        Some(g0) => g0,
        None => Gen::new(None),
    };
    let ghost mut draws: Seq<u64> = Seq::<u64>::empty();
    let mut chi: Vec<&T> = Vec::new();
    let mut halvings: usize = 0;
    let m: usize = stream.len();
    let mut i: usize = 0;
    proof {
        assert(stream@.take(0) =~= Seq::<T>::empty());
        assert(values(chi@) =~= Seq::<T>::empty());
    }
    while i < m
        invariant
            eq_is_structural::<T>(),
            m == stream@.len(),
            1 <= m <= usize::MAX,
            i <= m,
            halvings <= i,
            matches_run(
                run(stream@.take(i as int), thresh as nat, draws),
                values(chi@),
                halvings as nat,
                draws.len() as int,
            ),
        decreases m - i,
    {
        let ghost prefix = stream@.take(i as int);
        let ghost st0 = run(prefix, thresh as nat, draws);
        let ghost draws0 = draws;
        let ai: &T = &stream[i];

        // Remove the element from the sample if it is already there.
        let ghost chi0 = values(chi@);
        let pos = find_first(&chi, ai);
        match pos {
            Some(j) => {
                let _ = chi.swap_remove(j);
                proof {
                    assert(values(chi@) =~= chi0.update(j as int, chi0.last()).drop_last());
                    assert(values(chi@) == remove_seen(chi0, *ai));
                }
            },
            None => {
                proof {
                    assert(values(chi@) == remove_seen(chi0, *ai));
                }
            },
        }

        // One fresh draw decides whether the element enters the sample.
        let u: u64 = g.next_u64();
        proof {
            assert(draws.is_prefix_of(draws.push(u))) by {
                assert(draws =~= draws.push(u).subrange(0, draws.len() as int));
            }
            lemma_run_frame(prefix, thresh as nat, draws, draws.push(u));
            draws = draws.push(u);
            assert(draw_at(draws, st0.used) == u);
        }
        if admit_test(u, halvings) {
            let ghost shrunk = values(chi@);
            chi.push(ai);
            proof {
                assert(values(chi@) =~= shrunk.push(*ai));
            }
        }
        let ghost chi2 = values(chi@);
        let ghost draws1 = draws;

        // At the threshold: thin the sample and halve the probability.
        if chi.len() == thresh {
            let ghost start = draws1.len() as int;
            let clen: usize = chi.len();
            let mut kept: Vec<&T> = Vec::new();
            let mut t: usize = 0;
            proof {
                assert(chi2.take(0) =~= Seq::<T>::empty());
                assert(values(kept@) =~= Seq::<T>::empty());
                assert(draws1.is_prefix_of(draws)) by {
                    assert(draws1 =~= draws.subrange(0, draws1.len() as int));
                }
            }
            while t < clen
                invariant
                    clen == chi@.len(),
                    t <= clen,
                    chi2 == values(chi@),
                    start == draws1.len() as int,
                    0 <= start,
                    draws.len() == start + t,
                    draws1.is_prefix_of(draws),
                    values(kept@) == thin(chi2.take(t as int), draws, start),
                decreases clen - t,
            {
                let v: u64 = g.next_u64();
                proof {
                    assert(draws.is_prefix_of(draws.push(v))) by {
                        assert(draws =~= draws.push(v).subrange(0, draws.len() as int));
                    }
                    lemma_thin_frame(chi2.take(t as int), draws, draws.push(v), start);
                    assert(draws1.is_prefix_of(draws.push(v))) by {
                        assert(draws1 =~= draws.push(v).subrange(0, draws1.len() as int));
                    }
                    draws = draws.push(v);
                    assert(chi2.take(t as int + 1) =~= chi2.take(t as int).push(chi2[t as int]));
                    lemma_thin_snoc(chi2.take(t as int), chi2[t as int], draws, start);
                    assert(draw_at(draws, start + t) == v);
                }
                let ghost kept0 = values(kept@);
                let ct: &T = chi[t];
                proof {
                    assert(values(chi@)[t as int] == *chi@[t as int]);
                    assert(*ct == chi2[t as int]);
                }
                if survive_test(v) {
                    kept.push(ct);
                    proof {
                        assert(values(kept@) =~= kept0.push(chi2[t as int]));
                        assert(values(kept@) =~= thin(chi2.take(t as int + 1), draws, start));
                    }
                } else {
                    proof {
                        assert(kept0 + Seq::<T>::empty() =~= kept0);
                        assert(values(kept@) =~= thin(chi2.take(t as int + 1), draws, start));
                    }
                }
                t = t + 1;
            }
            proof {
                assert(chi2.take(clen as int) =~= chi2);
                assert(draws0.is_prefix_of(draws)) by {
                    assert(forall|ii: int|
                        0 <= ii < draws1.len() ==> draws[ii] == draws1[ii]);
                    assert(draws0 =~= draws.subrange(0, draws0.len() as int));
                }
                lemma_run_frame(prefix, thresh as nat, draws0, draws);
                assert(run(prefix, thresh as nat, draws) == st0);
                assert(draw_at(draws, st0.used) == u) by {
                    assert(forall|ii: int|
                        0 <= ii < draws1.len() ==> draws[ii] == draws1[ii]);
                    assert(draws1[draws0.len() as int] == u);
                }
            }
            chi = kept;
            halvings = halvings + 1;
            proof {
                let next = stream@.take(i as int + 1);
                assert(next.drop_last() =~= prefix);
                assert(next.last() == stream@[i as int]);
                assert(remove_seen(st0.chi, stream@[i as int]) == remove_seen(chi0, *ai));
                assert(thin(chi2, draws, st0.used + 1) == values(chi@));
                assert(run(next, thresh as nat, draws) == step(
                    st0,
                    stream@[i as int],
                    thresh as nat,
                    draws,
                ));
            }
            if chi.len() == thresh {
                proof {
                    let next = stream@.take(i as int + 1);
                    assert(run(next, thresh as nat, draws).aborted);
                    lemma_aborted_frozen(stream@, thresh as nat, draws, i as int + 1);
                    assert(estimate_of(stream@, thresh as nat, draws) == 0);
                    if distinct_count(stream@) < thresh as nat {
                        lemma_exact_regime(stream@, thresh as nat, draws);
                        assert(false);
                    }
                }
                return 0;
            }
            proof {
                let next = stream@.take(i as int + 1);
                assert(matches_run(
                    run(next, thresh as nat, draws),
                    values(chi@),
                    halvings as nat,
                    draws.len() as int,
                ));
            }
        } else {
            proof {
                let next = stream@.take(i as int + 1);
                assert(next.drop_last() =~= prefix);
                assert(next.last() == stream@[i as int]);
                assert(remove_seen(st0.chi, stream@[i as int]) == remove_seen(chi0, *ai));
                assert(run(next, thresh as nat, draws) == step(
                    st0,
                    stream@[i as int],
                    thresh as nat,
                    draws,
                ));
                assert(matches_run(
                    run(next, thresh as nat, draws),
                    values(chi@),
                    halvings as nat,
                    draws.len() as int,
                ));
            }
        }
        i = i + 1;
    }
    proof {
        assert(stream@.take(m as int) =~= stream@);
    }

    // Scale the surviving sample size back up by the final probability,
    // saturating at the largest representable value.
    let clen: usize = chi.len();
    let mut est: usize = clen;
    let mut h: usize = 0;
    proof {
        lemma2_to64();
        assert(scaled(clen as nat, 0) == clen as nat);
    }
    while h < halvings
        invariant
            h <= halvings,
            est as nat == scaled(clen as nat, h as nat),
        decreases halvings - h,
    {
        proof {
            lemma_pow2_pos(h as nat);
            lemma_pow2_unfold((h + 1) as nat);
            assert(clen as nat * pow2((h + 1) as nat) == 2 * (clen as nat * pow2(h as nat)))
                by (nonlinear_arith)
                requires
                    pow2((h + 1) as nat) == 2 * pow2(h as nat),
            ;
        }
        if est > usize::MAX / 2 {
            est = usize::MAX;
        } else {
            est = est * 2;
        }
        h = h + 1;
    }
    proof {
        let st = run(stream@, thresh as nat, draws);
        assert(st.chi.len() == clen as nat);
        assert(estimate_of(stream@, thresh as nat, draws) == est as nat);
        if distinct_count(stream@) < thresh as nat {
            lemma_estimate_exact(stream@, thresh as nat, draws);
        }
    }
    est
}

} // verus!
