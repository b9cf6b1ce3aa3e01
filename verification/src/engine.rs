//! Shortest-linear-recurrence recovery over the prime field, by online
//! discrepancy correction (shift-register synthesis), and the minimal
//! characteristic polynomial of the recovered recurrence.
//!
//! The whole run of the engine is modelled by the spec functions below:
//! [`engine_run`] folds [`engine_step`] over the sequence, starting from
//! [`engine_init`]. The executable functions are proved to compute exactly
//! that model, so every contract here is stated over it.

use vstd::prelude::*;
use crate::field::{
    all_elems, fadd, fdiv, fmul, fneg, fsub, is_elem, draw_element,
    felt_add, felt_div, felt_mul, felt_sub, FIELD_MODULUS,
};

verus! {

/// The state the engine threads through its single left-to-right pass.
///
/// `c` is the current candidate coefficient vector, `old_c` the candidate
/// retained from the best recorded failure, `failure` the index at which
/// `old_c` last failed to predict the sequence, and `singular` records that
/// a correction step met a zero normalizer, the one domain error.
pub ghost struct EngineState {
    pub c: Seq<u64>,
    pub old_c: Seq<u64>,
    pub failure: Option<int>,
    pub singular: bool,
}

/// Partial discrepancy: starting from `s[i]`, the first `k` products
/// `c[j] * s[i - j - 1]` have been subtracted, in order.
pub open spec fn delta_partial(s: Seq<u64>, c: Seq<u64>, i: int, k: int) -> u64
    decreases k,
{
    if k <= 0 {
        s[i]
    } else {
        fsub(delta_partial(s, c, i, k - 1), fmul(c[k - 1], s[i - k]))
    }
}

/// The discrepancy of candidate `c` at index `i`: the actual element minus
/// the value the candidate predicts from the preceding elements.
pub open spec fn discrepancy_at(s: Seq<u64>, c: Seq<u64>, i: int) -> u64 {
    delta_partial(s, c, i, c.len() as int)
}

/// The monic polynomial built from a coefficient vector: a leading ONE
/// followed by the negation of each coefficient in order. The engine uses it
/// to turn the retained candidate into a correction term, and it is also the
/// minimal characteristic polynomial of the final recurrence.
pub open spec fn characteristic_of(c: Seq<u64>) -> Seq<u64> {
    Seq::new(c.len() + 1, |j: int| if j == 0 { 1u64 } else { fneg(c[j - 1]) })
}

/// Partial normalizer sum: the first `k` products `d[j] * s[index - j]`,
/// added in order.
pub open spec fn df1_partial(d: Seq<u64>, s: Seq<u64>, index: int, k: int) -> u64
    decreases k,
{
    if k <= 0 {
        0u64
    } else {
        fadd(df1_partial(d, s, index, k - 1), fmul(d[k - 1], s[index - (k - 1)]))
    }
}

/// The normalizing denominator of a correction step: the discrepancy the
/// retained candidate assigned at its recorded failure index.
pub open spec fn normalizer_at(old_c: Seq<u64>, s: Seq<u64>, index: int) -> u64 {
    let d = characteristic_of(old_c);
    df1_partial(d, s, index, d.len() as int)
}

/// Every element multiplied by `coef`.
pub open spec fn scaled(d: Seq<u64>, coef: u64) -> Seq<u64> {
    Seq::new(d.len(), |j: int| fmul(d[j], coef))
}

/// `count` ZERO elements prepended.
pub open spec fn shifted(d: Seq<u64>, count: int) -> Seq<u64> {
    Seq::new((count + d.len()) as nat, |j: int| if j < count { 0u64 } else { d[j - count] })
}

/// The element at `j`, reading past the end as ZERO.
pub open spec fn padded_at(s: Seq<u64>, j: int) -> u64 {
    if 0 <= j < s.len() {
        s[j]
    } else {
        0u64
    }
}

/// Element-wise field sum, the shorter vector padded with trailing ZEROs.
pub open spec fn merged(c: Seq<u64>, d: Seq<u64>) -> Seq<u64> {
    Seq::new(
        if c.len() >= d.len() { c.len() } else { d.len() },
        |j: int| fadd(padded_at(c, j), padded_at(d, j)),
    )
}

/// The engine starts with an empty candidate and no recorded failure.
pub open spec fn engine_init() -> EngineState {
    EngineState { c: Seq::empty(), old_c: Seq::empty(), failure: None, singular: false }
}

/// One iteration of the engine at index `i`, taking its seed elements for the
/// bootstrap from `seed`. A singular state is frozen.
pub open spec fn engine_step(s: Seq<u64>, seed: Seq<u64>, st: EngineState, i: int) -> EngineState {
    if st.singular {
        st
    } else {
        let delta = discrepancy_at(s, st.c, i);
        if delta == 0 {
            st
        } else {
            match st.failure {
                None => EngineState {
                    c: seed.subrange(0, i + 1),
                    old_c: st.old_c,
                    failure: Some(i),
                    singular: false,
                },
                Some(index) => {
                    let df1 = normalizer_at(st.old_c, s, index);
                    if df1 == 0 {
                        EngineState { c: st.c, old_c: st.old_c, failure: st.failure, singular: true }
                    } else {
                        let coef = fdiv(delta, df1);
                        let d = shifted(scaled(characteristic_of(st.old_c), coef), i - index - 1);
                        let new_c = merged(st.c, d);
                        if i - st.c.len() > index - st.old_c.len() {
                            EngineState { c: new_c, old_c: st.c, failure: Some(i), singular: false }
                        } else {
                            EngineState { c: new_c, old_c: st.old_c, failure: st.failure, singular: false }
                        }
                    }
                }
            }
        }
    }
}

/// The state after the first `n` iterations.
pub open spec fn engine_run(s: Seq<u64>, seed: Seq<u64>, n: int) -> EngineState
    decreases n,
{
    if n <= 0 {
        engine_init()
    } else {
        engine_step(s, seed, engine_run(s, seed, n - 1), n - 1)
    }
}

/// The full pass met no zero normalizer.
pub open spec fn recovery_succeeds(s: Seq<u64>, seed: Seq<u64>) -> bool {
    !engine_run(s, seed, s.len() as int).singular
}

/// The coefficient vector the full pass ends with.
pub open spec fn recovered_coefficients(s: Seq<u64>, seed: Seq<u64>) -> Seq<u64> {
    engine_run(s, seed, s.len() as int).c
}

/// Well-formedness of the engine state before iteration `i`: all values are
/// canonical residues, the candidate never outgrows the processed prefix, and
/// the recorded failure lies strictly in the past with a candidate that fits
/// below it.
pub open spec fn state_inv(s: Seq<u64>, st: EngineState, i: int) -> bool {
    &&& all_elems(st.c)
    &&& all_elems(st.old_c)
    &&& st.c.len() <= i
    &&& (st.c.len() == 0 ==> st.failure is None)
    &&& match st.failure {
        None => st.c.len() == 0 && st.old_c.len() == 0 && !st.singular,
        Some(index) => 0 <= index < i && index < s.len() && st.old_c.len() <= index,
    }
}

/// The engine state is well formed after any prefix of the pass.
pub proof fn lemma_engine_run_inv(s: Seq<u64>, seed: Seq<u64>, n: int)
    requires
        all_elems(seed),
        seed.len() == s.len(),
        0 <= n <= s.len(),
    ensures
        state_inv(s, engine_run(s, seed, n), n),
    decreases n,
{
    if n > 0 {
        lemma_engine_run_inv(s, seed, n - 1);
        let st = engine_run(s, seed, n - 1);
        let st2 = engine_step(s, seed, st, n - 1);
        assert(state_inv(s, st2, n));
    }
}

/// The discrepancy of candidate `c` at index `i` of `series`.
fn discrepancy(series: &Vec<u64>, c: &Vec<u64>, i: usize) -> (r: u64)
    requires
        all_elems(series@),
        all_elems(c@),
        c@.len() <= i < series@.len(),
    ensures
        r == discrepancy_at(series@, c@, i as int),
        is_elem(r),
{
    let mut acc: u64 = series[i];
    let mut j: usize = 0;
    while j < c.len()
        invariant
            all_elems(series@),
            all_elems(c@),
            c@.len() <= i < series@.len(),
            j <= c@.len(),
            acc == delta_partial(series@, c@, i as int, j as int),
            is_elem(acc),
        decreases c@.len() - j,
    {
        let t = felt_mul(c[j], series[i - j - 1]);
        acc = felt_sub(acc, t);
        j += 1;
    }
    acc
}

/// The monic minimal characteristic polynomial of the recurrence described
/// by `c`: a leading ONE, then the negation of every coefficient in order.
pub fn minimal_characteristic_polynomial(c: &Vec<u64>) -> (p: Vec<u64>)
    requires
        all_elems(c@),
    ensures
        p@ == characteristic_of(c@),
        p@.len() == c@.len() + 1,
        p@[0] == 1u64,
        forall|j: int| 0 <= j < c@.len() ==> p@[j + 1] == fneg(c@[j]),
        all_elems(p@),
{
    let mut p: Vec<u64> = Vec::new();
    p.push(1);
    let mut j: usize = 0;
    while j < c.len()
        invariant
            all_elems(c@),
            j <= c@.len(),
            p@.len() == j + 1,
            p@[0] == 1u64,
            forall|k: int| 1 <= k < p@.len() ==> p@[k] == fneg(c@[k - 1]),
            all_elems(p@),
        decreases c@.len() - j,
    {
        let t = felt_sub(0, c[j]);
        p.push(t);
        j += 1;
    }
    proof {
        assert(p@ =~= characteristic_of(c@));
    }
    p
}

/// The normalizing denominator: the dot product of `d` against the elements
/// of `series` at and before `index`.
fn normalizer(d: &Vec<u64>, series: &Vec<u64>, index: usize) -> (r: u64)
    requires
        all_elems(d@),
        all_elems(series@),
        d@.len() <= index + 1,
        index < series@.len(),
    ensures
        r == df1_partial(d@, series@, index as int, d@.len() as int),
        is_elem(r),
{
    let mut acc: u64 = 0;
    let mut j: usize = 0;
    while j < d.len()
        invariant
            all_elems(d@),
            all_elems(series@),
            d@.len() <= index + 1,
            index < series@.len(),
            j <= d@.len(),
            acc == df1_partial(d@, series@, index as int, j as int),
            is_elem(acc),
        decreases d@.len() - j,
    {
        let t = felt_mul(d[j], series[index - j]);
        acc = felt_add(acc, t);
        j += 1;
    }
    acc
}

/// Every element multiplied by `coef`.
fn scale_vector(d: &Vec<u64>, coef: u64) -> (r: Vec<u64>)
    requires
        all_elems(d@),
        is_elem(coef),
    ensures
        r@ == scaled(d@, coef),
{
    let mut r: Vec<u64> = Vec::new();
    let mut j: usize = 0;
    while j < d.len()
        invariant
            all_elems(d@),
            is_elem(coef),
            j <= d@.len(),
            r@.len() == j,
            forall|k: int| 0 <= k < j ==> r@[k] == fmul(d@[k], coef),
        decreases d@.len() - j,
    {
        let t = felt_mul(d[j], coef);
        r.push(t);
        j += 1;
    }
    proof {
        assert(r@ =~= scaled(d@, coef));
    }
    r
}

/// `count` ZERO elements prepended to `d`.
fn shift_vector(d: &Vec<u64>, count: usize) -> (r: Vec<u64>)
    requires
        count + d@.len() <= usize::MAX,
    ensures
        r@ == shifted(d@, count as int),
{
    let mut r: Vec<u64> = Vec::new();
    let mut j: usize = 0;
    while j < count
        invariant
            j <= count,
            count + d@.len() <= usize::MAX,
            r@.len() == j,
            forall|k: int| 0 <= k < j ==> r@[k] == 0u64,
        decreases count - j,
    {
        r.push(0);
        j += 1;
    }
    let mut m: usize = 0;
    while m < d.len()
        invariant
            m <= d@.len(),
            count + d@.len() <= usize::MAX,
            r@.len() == count + m,
            forall|k: int| 0 <= k < count ==> r@[k] == 0u64,
            forall|k: int| count <= k < count + m ==> r@[k] == d@[k - count],
        decreases d@.len() - m,
    {
        r.push(d[m]);
        m += 1;
    }
    proof {
        assert(r@ =~= shifted(d@, count as int));
    }
    r
}

/// Element-wise field sum, the shorter vector padded with trailing ZEROs.
fn merge_vectors(c: &Vec<u64>, d: &Vec<u64>) -> (r: Vec<u64>)
    requires
        all_elems(c@),
        all_elems(d@),
    ensures
        r@ == merged(c@, d@),
{
    let n: usize = if c.len() >= d.len() { c.len() } else { d.len() };
    let mut r: Vec<u64> = Vec::new();
    let mut j: usize = 0;
    while j < n
        invariant
            all_elems(c@),
            all_elems(d@),
            n == if c@.len() >= d@.len() { c@.len() } else { d@.len() },
            j <= n,
            r@.len() == j,
            forall|k: int| 0 <= k < j ==> r@[k] == fadd(padded_at(c@, k), padded_at(d@, k)),
        decreases n - j,
    {
        let a = if j < c.len() { c[j] } else { 0 };
        let b = if j < d.len() { d[j] } else { 0 };
        let t = felt_add(a, b);
        r.push(t);
        j += 1;
    }
    proof {
        assert(r@ =~= merged(c@, d@));
    }
    r
}

/// The one domain error of the engine: a correction step met a zero
/// normalizing denominator, so the required field division is undefined.
#[derive(Clone, Copy, Debug, PartialEq, Eq, Structural)]
pub enum RecoveryError {
    SingularCorrection,
}

/// The recorded failure index as the model sees it.
pub open spec fn failure_view(f: Option<usize>) -> Option<int> {
    match f {
        None => None,
        Some(x) => Some(x as int),
    }
}

/// Once singular, the engine state is frozen for the rest of the pass.
pub proof fn lemma_singular_persists(s: Seq<u64>, seed: Seq<u64>, m: int, n: int)
    requires
        0 <= m <= n,
        engine_run(s, seed, m).singular,
    ensures
        engine_run(s, seed, n) == engine_run(s, seed, m),
    decreases n - m,
{
    if n > m {
        lemma_singular_persists(s, seed, m, n - 1);
    }
}

/// How a run's outcome reads back from the model: a returned coefficient
/// vector is exactly the one the model ends with, and the error comes
/// precisely when the model meets a zero normalizer.
pub open spec fn recovery_matches(
    s: Seq<u64>,
    seed: Seq<u64>,
    result: Result<Vec<u64>, RecoveryError>,
) -> bool {
    match result {
        Ok(c) => recovery_succeeds(s, seed) && c@ == recovered_coefficients(s, seed),
        Err(e) => !recovery_succeeds(s, seed) && e == RecoveryError::SingularCorrection,
    }
}

/// Recovers the shortest linear recurrence consistent with `series`, taking
/// the bootstrap values for the first candidate from `seed` instead of
/// drawing them: the run is then a pure function of its arguments, and the
/// result is exactly what the model computes on them.
pub fn berlekamp_massey_with_seed(
    series: &Vec<u64>,
    seed: &Vec<u64>,
) -> (result: Result<Vec<u64>, RecoveryError>)
    requires
        all_elems(series@),
        all_elems(seed@),
        seed@.len() == series@.len(),
    ensures
        recovery_matches(series@, seed@, result),
        result is Ok,
        result matches Ok(c) ==> all_elems(c@) && c@.len() <= series@.len(),
        result matches Ok(c) ==> (c@.len() == 0 <==> seq_all_zero(series@)),
        result matches Ok(c) ==> forall|t: int|
            c@.len() <= t < series@.len() ==> discrepancy_at(series@, c@, t) == 0,
{
    let mut c: Vec<u64> = Vec::new();
    let mut old_c: Vec<u64> = Vec::new();
    let mut failure: Option<usize> = None;
    let mut i: usize = 0;
    while i < series.len()
        invariant
            all_elems(series@),
            all_elems(seed@),
            seed@.len() == series@.len(),
            i <= series@.len(),
            engine_run(series@, seed@, i as int) == (EngineState {
                c: c@,
                old_c: old_c@,
                failure: failure_view(failure),
                singular: false,
            }),
            forall|t: int| c@.len() <= t < i ==> discrepancy_at(series@, c@, t) == 0,
            failure matches Some(index) ==> forall|t: int|
                old_c@.len() <= t < index ==> discrepancy_at(series@, old_c@, t) == 0,
        decreases series@.len() - i,
    {
        proof {
            lemma_engine_run_inv(series@, seed@, i as int);
        }
        let delta = discrepancy(series, &c, i);
        if delta != 0 {
            match failure {
                None => {
                    let mut boot: Vec<u64> = Vec::new();
                    let target: usize = i + 1;
                    let mut k: usize = 0;
                    while k < target
                        invariant
                            all_elems(seed@),
                            i < seed@.len(),
                            target == i + 1,
                            k <= target,
                            boot@ == seed@.subrange(0, k as int),
                        decreases target - k,
                    {
                        boot.push(seed[k]);
                        proof {
                            assert(boot@ =~= seed@.subrange(0, k + 1));
                        }
                        k += 1;
                    }
                    proof {
                        assert(c@.len() == 0 && old_c@.len() == 0);
                        assert forall|t: int| old_c@.len() <= t < i as int
                            implies discrepancy_at(series@, old_c@, t) == 0 by {
                            assert(discrepancy_at(series@, c@, t) == 0);
                            assert(discrepancy_at(series@, old_c@, t)
                                == delta_partial(series@, old_c@, t, 0));
                            assert(discrepancy_at(series@, c@, t)
                                == delta_partial(series@, c@, t, 0));
                        }
                    }
                    c = boot;
                    failure = Some(i);
                }
                Some(index) => {
                    let d0 = minimal_characteristic_polynomial(&old_c);
                    let df1 = normalizer(&d0, series, index);
                    if df1 == 0 {
                        // Unreachable on canonical inputs, as
                        // `lemma_recovery_always_succeeds` shows; the check
                        // still guards the field division below.
                        proof {
                            lemma_singular_persists(
                                series@,
                                seed@,
                                i + 1,
                                series@.len() as int,
                            );
                            lemma_recovery_always_succeeds(series@, seed@);
                        }
                        return Err(RecoveryError::SingularCorrection);
                    }
                    let coef = felt_div(delta, df1);
                    let d1 = scale_vector(&d0, coef);
                    let d2 = shift_vector(&d1, i - index - 1);
                    let new_c = merge_vectors(&c, &d2);
                    proof {
                        assert(d0@.len() == characteristic_of(old_c@).len());
                        assert(df1 == normalizer_at(old_c@, series@, index as int));
                        assert(new_c@ == merged(
                            c@,
                            shifted(
                                scaled(characteristic_of(old_c@), coef),
                                i - index - 1,
                            ),
                        ));
                        assert forall|t: int| new_c@.len() <= t <= i as int
                            implies discrepancy_at(series@, new_c@, t) == 0 by {
                            lemma_correction_discrepancy(
                                series@,
                                c@,
                                old_c@,
                                index as int,
                                i as int,
                                coef,
                                t,
                            );
                        }
                    }
                    if i - c.len() > index - old_c.len() {
                        old_c = c;
                        failure = Some(i);
                        c = new_c;
                    } else {
                        c = new_c;
                    }
                }
            }
        } else {
            proof {
                assert(discrepancy_at(series@, c@, i as int) == 0);
            }
        }
        i += 1;
    }
    proof {
        lemma_engine_run_inv(series@, seed@, series@.len() as int);
        if seq_all_zero(series@) {
            lemma_all_zero_series(series@, seed@);
        }
        if c@.len() == 0 {
            lemma_empty_recovery(series@, seed@);
        }
    }
    Ok(c)
}

/// The normalizer sum over the monic polynomial of `old_c` equals, term for
/// term, the discrepancy sum of `old_c` itself: the leading ONE contributes
/// `s[index]`, and each negated coefficient turns an addition into the
/// matching subtraction.
proof fn lemma_df1_matches_delta(old_c: Seq<u64>, s: Seq<u64>, index: int, k: int)
    requires
        all_elems(old_c),
        all_elems(s),
        0 <= index < s.len(),
        old_c.len() <= index,
        0 <= k <= old_c.len(),
    ensures
        df1_partial(characteristic_of(old_c), s, index, k + 1)
            == delta_partial(s, old_c, index, k),
    decreases k,
{
    let d = characteristic_of(old_c);
    assert(df1_partial(d, s, index, k + 1)
        == fadd(df1_partial(d, s, index, k), fmul(d[k], s[index - k])));
    if k == 0 {
        assert(d[0] == 1u64);
        assert(df1_partial(d, s, index, 0) == 0u64);
        crate::field::lemma_fmul_one(s[index]);
        crate::field::lemma_fadd_zero(s[index]);
        assert(delta_partial(s, old_c, index, 0) == s[index]);
    } else {
        lemma_df1_matches_delta(old_c, s, index, k - 1);
        let x = df1_partial(d, s, index, k);
        assert(is_elem(x)) by {
            if k - 1 > 0 {
                assert(delta_partial(s, old_c, index, k - 1)
                    == fsub(delta_partial(s, old_c, index, k - 2),
                        fmul(old_c[k - 2], s[index - (k - 1)])));
            }
        }
        crate::field::lemma_fmul_fneg(old_c[k - 1], s[index - k]);
        crate::field::lemma_fadd_fneg_is_fsub(x, fmul(old_c[k - 1], s[index - k]));
    }
}

/// The normalizing denominator of a correction step is the discrepancy the
/// retained candidate produced at its recorded failure index.
pub proof fn lemma_normalizer_is_recorded_discrepancy(old_c: Seq<u64>, s: Seq<u64>, index: int)
    requires
        all_elems(old_c),
        all_elems(s),
        0 <= index < s.len(),
        old_c.len() <= index,
    ensures
        normalizer_at(old_c, s, index) == discrepancy_at(s, old_c, index),
{
    lemma_df1_matches_delta(old_c, s, index, old_c.len() as int);
}

/// Plain integer sum of the first `k` products `c[j] * s[t - j - 1]`, reading
/// `c` past its end as ZERO. It bridges the folded field sums above to
/// ordinary integer congruences modulo the field modulus.
pub open spec fn ipsum(c: Seq<u64>, s: Seq<u64>, t: int, k: int) -> int
    decreases k,
{
    if k <= 0 {
        0
    } else {
        ipsum(c, s, t, k - 1) + padded_at(c, k - 1) * s[t - k]
    }
}

/// The folded discrepancy sum is the residue of the plain integer sum.
proof fn lemma_delta_is_mod_ipsum(s: Seq<u64>, c: Seq<u64>, t: int, k: int)
    requires
        all_elems(s),
        0 <= t < s.len(),
        0 <= k <= c.len(),
    ensures
        delta_partial(s, c, t, k)
            == ((s[t] - ipsum(c, s, t, k)) % (FIELD_MODULUS as int)) as u64,
    decreases k,
{
    let m = FIELD_MODULUS as int;
    if k == 0 {
        vstd::arithmetic::div_mod::lemma_small_mod(s[t] as nat, FIELD_MODULUS as nat);
    } else {
        lemma_delta_is_mod_ipsum(s, c, t, k - 1);
        let x = s[t] - ipsum(c, s, t, k - 1);
        let y = (c[k - 1] as int) * s[t - k];
        vstd::arithmetic::div_mod::lemma_sub_mod_noop(x, y, m);
        assert(delta_partial(s, c, t, k)
            == (((x % m) - (y % m)) % m) as u64);
    }
}

/// The folded normalizer sum is the residue of the plain integer sum.
proof fn lemma_df1_is_mod_ipsum(d: Seq<u64>, s: Seq<u64>, u: int, k: int)
    requires
        0 <= k <= d.len(),
    ensures
        df1_partial(d, s, u, k) == (ipsum(d, s, u + 1, k) % (FIELD_MODULUS as int)) as u64,
    decreases k,
{
    let m = FIELD_MODULUS as int;
    if k > 0 {
        lemma_df1_is_mod_ipsum(d, s, u, k - 1);
        let x = ipsum(d, s, u + 1, k - 1);
        let y = (d[k - 1] as int) * s[u - (k - 1)];
        vstd::arithmetic::div_mod::lemma_add_mod_noop(x, y, m);
        vstd::arithmetic::div_mod::lemma_small_mod((y % m) as nat, FIELD_MODULUS as nat);
        assert(df1_partial(d, s, u, k) == (((x % m) + (y % m)) % m) as u64);
    }
}

/// Merging two candidates adds their integer sums, modulo the field modulus.
proof fn lemma_ipsum_merge(c: Seq<u64>, d: Seq<u64>, s: Seq<u64>, t: int, k: int)
    requires
        0 <= k,
    ensures
        ipsum(merged(c, d), s, t, k) % (FIELD_MODULUS as int)
            == (ipsum(c, s, t, k) + ipsum(d, s, t, k)) % (FIELD_MODULUS as int),
    decreases k,
{
    let m = FIELD_MODULUS as int;
    if k > 0 {
        lemma_ipsum_merge(c, d, s, t, k - 1);
        let mg = merged(c, d);
        let pc = padded_at(c, k - 1) as int;
        let pd = padded_at(d, k - 1) as int;
        let x = s[t - k] as int;
        assert(padded_at(mg, k - 1) as int == (pc + pd) % m);
        let prev_m = ipsum(mg, s, t, k - 1);
        let prev_c = ipsum(c, s, t, k - 1);
        let prev_d = ipsum(d, s, t, k - 1);
        vstd::arithmetic::div_mod::lemma_add_mod_noop(prev_m, ((pc + pd) % m) * x, m);
        vstd::arithmetic::div_mod::lemma_mul_mod_noop_left(pc + pd, x, m);
        assert((pc + pd) * x == pc * x + pd * x) by (nonlinear_arith);
        vstd::arithmetic::div_mod::lemma_add_mod_noop(prev_c + prev_d, pc * x + pd * x, m);
        assert(ipsum(mg, s, t, k) % m == ((prev_m % m) + ((((pc + pd) % m) * x) % m)) % m);
        assert((ipsum(c, s, t, k) + ipsum(d, s, t, k)) % m
            == (((prev_c + prev_d) % m) + ((pc * x + pd * x) % m)) % m);
    }
}

/// Beyond the candidate's length the integer sum picks up only ZERO terms.
proof fn lemma_ipsum_pad_beyond(c: Seq<u64>, s: Seq<u64>, t: int, k: int)
    requires
        k >= c.len(),
    ensures
        ipsum(c, s, t, k) == ipsum(c, s, t, c.len() as int),
    decreases k,
{
    if k > c.len() {
        lemma_ipsum_pad_beyond(c, s, t, k - 1);
        assert(padded_at(c, k - 1) == 0u64);
        assert(ipsum(c, s, t, k) == ipsum(c, s, t, k - 1) + padded_at(c, k - 1) * s[t - k]);
    }
}

/// The ZERO prefix of a shifted candidate contributes nothing.
proof fn lemma_ipsum_shift_zero(d: Seq<u64>, s: Seq<u64>, t: int, sh: int, k: int)
    requires
        0 <= sh,
        0 <= k <= sh,
    ensures
        ipsum(shifted(d, sh), s, t, k) == 0,
    decreases k,
{
    if k > 0 {
        lemma_ipsum_shift_zero(d, s, t, sh, k - 1);
        assert(padded_at(shifted(d, sh), k - 1) == 0u64);
    }
}

/// Shifting a candidate re-indexes its integer sum.
proof fn lemma_ipsum_shift(d: Seq<u64>, s: Seq<u64>, t: int, sh: int, k: int)
    requires
        0 <= sh,
        0 <= k <= d.len(),
    ensures
        ipsum(shifted(d, sh), s, t, sh + k) == ipsum(d, s, t - sh, k),
    decreases k,
{
    if k == 0 {
        lemma_ipsum_shift_zero(d, s, t, sh, sh);
    } else {
        lemma_ipsum_shift(d, s, t, sh, k - 1);
        assert(padded_at(shifted(d, sh), sh + k - 1) == padded_at(d, k - 1));
    }
}

/// Scaling a candidate scales its integer sum, modulo the field modulus.
proof fn lemma_ipsum_scaled(d: Seq<u64>, s: Seq<u64>, t: int, coef: u64, k: int)
    requires
        0 <= k,
    ensures
        ipsum(scaled(d, coef), s, t, k) % (FIELD_MODULUS as int)
            == ((coef as int) * ipsum(d, s, t, k)) % (FIELD_MODULUS as int),
    decreases k,
{
    let m = FIELD_MODULUS as int;
    if k > 0 {
        lemma_ipsum_scaled(d, s, t, coef, k - 1);
        let sc = scaled(d, coef);
        let pd = padded_at(d, k - 1) as int;
        let x = s[t - k] as int;
        assert(padded_at(sc, k - 1) as int == (pd * (coef as int)) % m);
        let prev_s = ipsum(sc, s, t, k - 1);
        let prev_d = ipsum(d, s, t, k - 1);
        vstd::arithmetic::div_mod::lemma_add_mod_noop(prev_s, ((pd * (coef as int)) % m) * x, m);
        vstd::arithmetic::div_mod::lemma_mul_mod_noop_left(pd * (coef as int), x, m);
        vstd::arithmetic::div_mod::lemma_add_mod_noop(
            (coef as int) * prev_d,
            (coef as int) * (pd * x),
            m,
        );
        assert(pd * (coef as int) * x == (coef as int) * (pd * x)) by (nonlinear_arith);
        assert((coef as int) * (prev_d + pd * x)
            == (coef as int) * prev_d + (coef as int) * (pd * x)) by (nonlinear_arith);
        assert(ipsum(sc, s, t, k) % m == ((prev_s % m) + ((((pd * (coef as int)) % m) * x) % m)) % m);
        assert(((coef as int) * ipsum(d, s, t, k)) % m
            == ((((coef as int) * prev_d) % m) + (((coef as int) * (pd * x)) % m)) % m) by {
            vstd::arithmetic::div_mod::lemma_mul_mod_noop_right(coef as int, prev_d, m);
        }
        assert((((coef as int) * prev_d) % m) == prev_s % m) by {
            vstd::arithmetic::div_mod::lemma_mul_mod_noop_right(coef as int, prev_d, m);
        }
    }
}

/// After a correction step the merged candidate has zero discrepancy at
/// every index `t` it covers up to and including the current one: where the
/// previous candidate already predicted the sequence the shifted correction
/// term contributes nothing, and at the current index it contributes exactly
/// the outstanding discrepancy.
#[verifier::rlimit(30)]
proof fn lemma_correction_discrepancy(
    s: Seq<u64>,
    c: Seq<u64>,
    oc: Seq<u64>,
    index: int,
    i: int,
    coef: u64,
    t: int,
)
    requires
        all_elems(s),
        all_elems(c),
        all_elems(oc),
        0 <= index < i < s.len(),
        oc.len() <= index,
        c.len() <= i,
        fmul(coef, normalizer_at(oc, s, index)) == discrepancy_at(s, c, i),
        forall|r: int| c.len() <= r < i ==> discrepancy_at(s, c, r) == 0,
        forall|r: int| oc.len() <= r < index ==> discrepancy_at(s, oc, r) == 0,
        merged(c, shifted(scaled(characteristic_of(oc), coef), i - index - 1)).len() <= t <= i,
    ensures
        discrepancy_at(
            s,
            merged(c, shifted(scaled(characteristic_of(oc), coef), i - index - 1)),
            t,
        ) == 0,
{
    let m = FIELD_MODULUS as int;
    let big = characteristic_of(oc);
    let sh = i - index - 1;
    let d1 = scaled(big, coef);
    let d2 = shifted(d1, sh);
    let mg = merged(c, d2);
    let ln = mg.len() as int;
    let u = t - sh - 1;
    assert(d2.len() == sh + oc.len() + 1);
    assert(ln >= c.len() && ln >= d2.len());
    assert(oc.len() <= u <= index);

    // The merged candidate's discrepancy as one integer congruence.
    lemma_delta_is_mod_ipsum(s, mg, t, ln);
    lemma_ipsum_merge(c, d2, s, t, ln);
    lemma_ipsum_pad_beyond(c, s, t, ln);
    lemma_ipsum_pad_beyond(d2, s, t, ln);
    lemma_ipsum_shift(d1, s, t, sh, big.len() as int);
    lemma_ipsum_scaled(big, s, t - sh, coef, big.len() as int);
    lemma_df1_is_mod_ipsum(big, s, u, big.len() as int);
    lemma_df1_matches_delta(oc, s, u, oc.len() as int);
    lemma_delta_is_mod_ipsum(s, c, t, c.len() as int);

    let sum_c = ipsum(c, s, t, c.len() as int);
    let sum_big = ipsum(big, s, u + 1, big.len() as int);
    let sum_d2 = ipsum(d2, s, t, d2.len() as int);
    assert(sum_d2 == ipsum(d1, s, t - sh, big.len() as int));
    assert(sum_d2 % m == ((coef as int) * sum_big) % m);
    // The correction term's residue is `coef` times the old candidate's
    // discrepancy at the matching earlier index.
    assert(df1_partial(big, s, u, big.len() as int) == discrepancy_at(s, oc, u));
    assert(discrepancy_at(s, oc, u) as int == sum_big % m);
    vstd::arithmetic::div_mod::lemma_mul_mod_noop_right(coef as int, sum_big, m);
    assert(((coef as int) * sum_big) % m == ((coef as int) * (sum_big % m)) % m);

    // Combine: discrepancy of the merged candidate at `t`.
    vstd::arithmetic::div_mod::lemma_sub_mod_noop_right(s[t] as int, ipsum(mg, s, t, ln), m);
    assert((s[t] - ipsum(mg, s, t, ln)) % m == (s[t] - (ipsum(mg, s, t, ln) % m)) % m);
    vstd::arithmetic::div_mod::lemma_sub_mod_noop_right(s[t] as int, sum_c + sum_d2, m);
    assert((s[t] - (sum_c + sum_d2)) % m == (s[t] - ((sum_c + sum_d2) % m)) % m);
    assert(discrepancy_at(s, mg, t) as int == (s[t] - sum_c - sum_d2) % m);
    vstd::arithmetic::div_mod::lemma_sub_mod_noop(s[t] - sum_c, sum_d2, m);
    assert((s[t] - sum_c - sum_d2) % m
        == (((s[t] - sum_c) % m) - (sum_d2 % m)) % m);
    assert((s[t] - sum_c) % m == discrepancy_at(s, c, t) as int);

    if t < i {
        assert(discrepancy_at(s, c, t) == 0);
        assert(u < index);
        assert(discrepancy_at(s, oc, u) == 0);
        assert(((coef as int) * (sum_big % m)) % m == 0) by {
            assert(sum_big % m == 0);
        }
        assert((0 - 0) % m == 0);
    } else {
        assert(u == index);
        let df1 = normalizer_at(oc, s, index);
        assert(df1 as int == sum_big % m);
        let delta = discrepancy_at(s, c, i);
        assert(fmul(coef, df1) as int == ((coef as int) * (df1 as int)) % m);
        assert(sum_d2 % m == delta as int);
        assert((delta as int - delta as int) % m == 0);
    }
}

/// Soundness of the recorded history: the retained candidate really did fail
/// at its recorded index, and the pass has met no zero normalizer.
pub open spec fn state_sound(s: Seq<u64>, st: EngineState) -> bool {
    &&& !st.singular
    &&& match st.failure {
        None => true,
        Some(index) => discrepancy_at(s, st.old_c, index) != 0,
    }
}

/// After any prefix of the pass the recorded history is sound: `old_c` was
/// recorded together with its own nonzero discrepancy, so the normalizer of
/// every correction step is nonzero and the engine never turns singular.
pub proof fn lemma_engine_run_sound(s: Seq<u64>, seed: Seq<u64>, n: int)
    requires
        all_elems(s),
        all_elems(seed),
        seed.len() == s.len(),
        0 <= n <= s.len(),
    ensures
        state_sound(s, engine_run(s, seed, n)),
    decreases n,
{
    if n > 0 {
        lemma_engine_run_sound(s, seed, n - 1);
        lemma_engine_run_inv(s, seed, n - 1);
        let st = engine_run(s, seed, n - 1);
        let delta = discrepancy_at(s, st.c, n - 1);
        if delta != 0 {
            match st.failure {
                None => {
                    assert(st.c =~= Seq::<u64>::empty());
                }
                Some(index) => {
                    lemma_normalizer_is_recorded_discrepancy(st.old_c, s, index);
                }
            }
        }
    }
}

/// The one domain error cannot actually arise: on canonical inputs every
/// correction step divides by the nonzero discrepancy recorded with the
/// retained candidate, so the whole pass succeeds whatever seed is used.
pub proof fn lemma_recovery_always_succeeds(s: Seq<u64>, seed: Seq<u64>)
    requires
        all_elems(s),
        all_elems(seed),
        seed.len() == s.len(),
    ensures
        recovery_succeeds(s, seed),
{
    lemma_engine_run_sound(s, seed, s.len() as int);
}

/// Every element of the sequence is the additive identity.
pub open spec fn seq_all_zero(s: Seq<u64>) -> bool {
    forall|i: int| 0 <= i < s.len() ==> #[trigger] s[i] == 0u64
}

/// On an all-zero prefix the engine never sees a discrepancy and stays in
/// its initial state.
proof fn lemma_zero_prefix_stays_initial(s: Seq<u64>, seed: Seq<u64>, n: int)
    requires
        0 <= n <= s.len(),
        seq_all_zero(s),
    ensures
        engine_run(s, seed, n) == engine_init(),
    decreases n,
{
    if n > 0 {
        lemma_zero_prefix_stays_initial(s, seed, n - 1);
    }
}

/// An all-zero series of any length produces no discrepancy at all: the
/// recovery succeeds and returns the empty coefficient vector.
pub proof fn lemma_all_zero_series(s: Seq<u64>, seed: Seq<u64>)
    requires
        seq_all_zero(s),
    ensures
        recovery_succeeds(s, seed),
        recovered_coefficients(s, seed) == Seq::<u64>::empty(),
{
    lemma_zero_prefix_stays_initial(s, seed, s.len() as int);
}

/// A candidate that is still empty after `n` iterations means every element
/// of the processed prefix was ZERO.
proof fn lemma_empty_candidate_prefix(s: Seq<u64>, seed: Seq<u64>, n: int)
    requires
        all_elems(seed),
        seed.len() == s.len(),
        0 <= n <= s.len(),
        !engine_run(s, seed, n).singular,
        engine_run(s, seed, n).c.len() == 0,
    ensures
        forall|i: int| 0 <= i < n ==> #[trigger] s[i] == 0u64,
    decreases n,
{
    if n > 0 {
        lemma_engine_run_inv(s, seed, n - 1);
        let st = engine_run(s, seed, n - 1);
        let st2 = engine_run(s, seed, n);
        assert(st2 == engine_step(s, seed, st, n - 1));
        assert(!st.singular && st.c.len() == 0) by {
            if st.singular {
                assert(st2 == st);
            } else if st.c.len() > 0 {
                let delta = discrepancy_at(s, st.c, n - 1);
                if delta != 0 {
                    match st.failure {
                        None => {
                            assert(st2.c.len() == n);
                        }
                        Some(index) => {
                            if normalizer_at(st.old_c, s, index) != 0 {
                                assert(st2.c.len() >= st.c.len());
                            }
                        }
                    }
                }
            }
        }
        lemma_empty_candidate_prefix(s, seed, n - 1);
        assert(discrepancy_at(s, st.c, n - 1) == s[n - 1]);
        assert(s[n - 1] == 0u64) by {
            if s[n - 1] != 0u64 {
                assert(st2.c.len() == n);
            }
        }
    }
}

/// Only an all-zero series comes back with an empty coefficient vector: a
/// successful recovery whose result is empty means every element was ZERO.
pub proof fn lemma_empty_recovery(s: Seq<u64>, seed: Seq<u64>)
    requires
        all_elems(seed),
        seed.len() == s.len(),
        recovery_succeeds(s, seed),
        recovered_coefficients(s, seed).len() == 0,
    ensures
        seq_all_zero(s),
{
    lemma_empty_candidate_prefix(s, seed, s.len() as int);
}

/// Recovers the shortest linear recurrence consistent with `series`,
/// bootstrapping the first candidate with freshly drawn field elements as an
/// arbitrary non-zero-biased seed. Whatever values are drawn, the result is
/// the model's run on `series` and some valid seed of the same length.
pub fn berlekamp_massey(series: &Vec<u64>) -> (result: Result<Vec<u64>, RecoveryError>)
    requires
        all_elems(series@),
    ensures
        exists|seed: Seq<u64>|
            all_elems(seed) && seed.len() == series@.len()
                && #[trigger] recovery_matches(series@, seed, result),
        result is Ok,
        result matches Ok(c) ==> all_elems(c@) && c@.len() <= series@.len(),
        result matches Ok(c) ==> (c@.len() == 0 <==> seq_all_zero(series@)),
        result matches Ok(c) ==> forall|t: int|
            c@.len() <= t < series@.len() ==> discrepancy_at(series@, c@, t) == 0,
{
    let mut seed: Vec<u64> = Vec::new();
    let mut k: usize = 0;
    while k < series.len()
        invariant
            k <= series@.len(),
            seed@.len() == k,
            all_elems(seed@),
        decreases series@.len() - k,
    {
        let x = draw_element();
        seed.push(x);
        k += 1;
    }
    let result = berlekamp_massey_with_seed(series, &seed);
    proof {
        assert(all_elems(seed@) && seed@.len() == series@.len()
            && recovery_matches(series@, seed@, result));
    }
    result
}

} // verus!
