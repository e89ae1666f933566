use ebi_arithmetic::fraction::approximate::Approximate;
use ebi_arithmetic::fraction::fraction_enum::FractionEnum;
use ebi_objects::{ActivityKey, EventLog, FiniteStochasticLanguage, StochasticDeterministicFiniteAutomaton};
use ebi_objects::TranslateActivityKey;
use gain_metrics::automaton::Sdfa;
use gain_metrics::entropy::{
    entropy_calculate, entropy_computable, entropy_eventlog, language_entropy_computable, StochasticLanguage,
};
use gain_metrics::fraction::Fraction;
use gain_metrics::gain::{
    comparison_outcomes, gain_computable, gain_numerator, gain_numerator_by, log_div_min, log_div_min_by,
};
use gain_metrics::logdiv::LogDiv;
use gain_metrics::matrix::{identity_minus, invert, row_times_matrix};
use gain_metrics::model_entropy::{entropy_sdfa, sdfa_entropy_computable};
use gain_metrics::potential_gain::{
    default_lambda, potential_gain_precision, potential_gain_precision_default, potential_gain_recall,
    potential_gain_recall_default,
};
use gain_metrics::validity::{is_valid_sdfa, GainError};
use gain_metrics::visits::c_s;

// [] x2 + [a] x8
fn xes_l1() -> &'static str {
    r#"<?xml version="1.0" encoding="UTF-8" ?>
        <log xmlns="http://www.xes-standard.org/">
            <trace></trace>
            <trace></trace>
            <trace><event><string key="concept:name" value="a"/></event></trace>
            <trace><event><string key="concept:name" value="a"/></event></trace>
            <trace><event><string key="concept:name" value="a"/></event></trace>
            <trace><event><string key="concept:name" value="a"/></event></trace>
            <trace><event><string key="concept:name" value="a"/></event></trace>
            <trace><event><string key="concept:name" value="a"/></event></trace>
            <trace><event><string key="concept:name" value="a"/></event></trace>
            <trace><event><string key="concept:name" value="a"/></event></trace>
        </log>"#
}

// [] x1 + [a] x2 + [a,a] x1 + [a,a,a] x6
fn xes_l2() -> &'static str {
    r#"<?xml version="1.0" encoding="UTF-8" ?>
        <log xmlns="http://www.xes-standard.org/">
        <trace></trace>
        <trace><event><string key="concept:name" value="a"/></event></trace>
        <trace><event><string key="concept:name" value="a"/></event></trace>
        <trace>
            <event><string key="concept:name" value="a"/></event>
            <event><string key="concept:name" value="a"/></event>
        </trace>
        <trace>
            <event><string key="concept:name" value="a"/></event>
            <event><string key="concept:name" value="a"/></event>
            <event><string key="concept:name" value="a"/></event>
        </trace>
        <trace>
            <event><string key="concept:name" value="a"/></event>
            <event><string key="concept:name" value="a"/></event>
            <event><string key="concept:name" value="a"/></event>
        </trace>
        <trace>
            <event><string key="concept:name" value="a"/></event>
            <event><string key="concept:name" value="a"/></event>
            <event><string key="concept:name" value="a"/></event>
        </trace>
        <trace>
            <event><string key="concept:name" value="a"/></event>
            <event><string key="concept:name" value="a"/></event>
            <event><string key="concept:name" value="a"/></event>
        </trace>
        <trace>
            <event><string key="concept:name" value="a"/></event>
            <event><string key="concept:name" value="a"/></event>
            <event><string key="concept:name" value="a"/></event>
        </trace>
        <trace>
            <event><string key="concept:name" value="a"/></event>
            <event><string key="concept:name" value="a"/></event>
            <event><string key="concept:name" value="a"/></event>
        </trace>
        </log>"#
}

fn fraction_of(f: &FractionEnum) -> Fraction {
    match f {
        FractionEnum::Exact(r) => Fraction::from_limbs(
            *r < 0u32,
            r.numerator_ref().to_limbs_asc(),
            r.denominator_ref().to_limbs_asc(),
        ),
        _ => panic!("expected an exact fraction"),
    }
}

fn f(n: u64, d: u64) -> Fraction {
    Fraction::new(n, d)
}

/// The stochastic language of the log, with activities numbered by `key`.
fn language_of(log: &EventLog, key: &mut ActivityKey) -> StochasticLanguage {
    let mut fsl = FiniteStochasticLanguage::from(log.clone());
    fsl.translate_using_activity_key(key);
    let traces = fsl
        .traces
        .iter()
        .map(|(trace, p)| (trace.iter().map(|a| key.get_id_from_activity(a)).collect(), fraction_of(p)))
        .collect();
    StochasticLanguage { traces }
}

fn sdfa_of(s: &StochasticDeterministicFiniteAutomaton) -> Sdfa {
    Sdfa {
        initial_state: s.initial_state.map(|x| x.0),
        sources: s.sources.iter().map(|x| x.0).collect(),
        targets: s.targets.iter().map(|x| x.0).collect(),
        activities: s.activities.iter().map(|a| s.activity_key.get_id_from_activity(a)).collect(),
        probabilities: s.probabilities.iter().map(fraction_of).collect(),
        terminating_probabilities: s.terminating_probabilities.iter().map(fraction_of).collect(),
    }
}

/// The SDFA built from the log, and the log's language in the SDFA's activities.
fn model_of(log: &EventLog) -> (StochasticLanguage, Sdfa) {
    let mut ebi: StochasticDeterministicFiniteAutomaton = log.clone().into();
    let lang = language_of(log, &mut ebi.activity_key);
    (lang, sdfa_of(&ebi))
}

fn minus_n_log_n(n: u64, d: u64) -> LogDiv {
    LogDiv::zero().sub(&LogDiv::n_log_n(&f(n, d)).unwrap())
}

fn approx(x: &LogDiv) -> f64 {
    x.polynomial().clone().approximate().unwrap()
}

/// s0 --a (8/10)--> s1, s1 --a (1/2)--> s1; s0 terminates with 2/10, s1 with 1/2.
fn two_state_sdfa() -> Sdfa {
    Sdfa {
        initial_state: Some(0),
        sources: vec![0, 1],
        targets: vec![1, 1],
        activities: vec![0, 0],
        probabilities: vec![f(8, 10), f(5, 10)],
        terminating_probabilities: vec![f(2, 10), f(1, 2)],
    }
}

#[test]
fn test_entropy_eventlog() {
    let lambda0 = Fraction::zero();
    let event1: EventLog = xes_l1().parse().unwrap();
    let event2: EventLog = xes_l2().parse().unwrap();
    let mut key1 = event1.activity_key.clone();
    let mut key2 = event2.activity_key.clone();

    let entropy1 = entropy_eventlog(&language_of(&event1, &mut key1), &lambda0);
    let entropy2 = entropy_eventlog(&language_of(&event2, &mut key2), &lambda0);

    // - (2/10 * log2(2/10) + 8/10 * log2(8/10))
    let x = LogDiv::n_log_n(&f(2, 10)).unwrap();
    let y = LogDiv::n_log_n(&f(8, 10)).unwrap();
    let expected1 = LogDiv::zero().sub(&x).add(&LogDiv::zero().sub(&y));

    // - (1/10 * log2(1/10) + 2/10 * log2(2/10) + 1/10 * log2(1/10) + 6/10 * log2(6/10))
    let a = LogDiv::n_log_n(&f(1, 10)).unwrap();
    let b = LogDiv::n_log_n(&f(2, 10)).unwrap();
    let c = LogDiv::n_log_n(&f(1, 10)).unwrap();
    let d = LogDiv::n_log_n(&f(6, 10)).unwrap();
    let expected2 = LogDiv::zero().sub(&a.add(&b).add(&c).add(&d));

    assert!(entropy1.equals(&expected1));
    assert!(entropy2.equals(&expected2));
}

#[test]
fn test_gain_numerator() {
    let lambda0 = Fraction::zero();
    let event1: EventLog = xes_l1().parse().unwrap();
    let event2: EventLog = xes_l2().parse().unwrap();

    let (lang1, sdfa) = model_of(&event1);
    let mut ebi: StochasticDeterministicFiniteAutomaton = event1.clone().into();
    let lang2 = language_of(&event2, &mut ebi.activity_key);

    let gain1 = gain_numerator(&lang1, &sdfa, &lambda0);
    let gain2 = gain_numerator(&lang2, &sdfa, &lambda0);

    // case 1: gain_numerator(event1, sdfa_from_event1) == entropy(event1)
    let entropy1 = entropy_eventlog(&lang1, &lambda0);
    assert!(entropy1.equals(&gain1));

    // case 2: gain(event2, sdfa_from_event1)
    let g1 = minus_n_log_n(2, 10);
    let g2 = minus_n_log_n(1, 10);
    let gain_num1 = log_div_min(&g1, &g2);
    let a1 = minus_n_log_n(8, 10);
    let a2 = minus_n_log_n(2, 10);
    let gain_num2 = log_div_min(&a1, &a2);
    let gain_num = gain_num1.add(&gain_num2);

    assert!(gain2.equals(&gain_num));
}

#[test]
fn test_entropy_sdfa() -> Result<(), GainError> {
    let event1: EventLog = xes_l1().parse().unwrap();
    let (lang1, sdfa1) = model_of(&event1);
    let lambda0 = Fraction::zero();

    let h1 = entropy_sdfa(&sdfa1, &lambda0)?;
    let entropy1 = entropy_eventlog(&lang1, &lambda0);
    println!("eventlog entropy ≈ {:.12} bits", approx(&entropy1));
    assert_eq!(approx(&h1), approx(&entropy1));
    Ok(())
}

#[test]
fn test_entropy_eventlog_with_lambda() {
    let lambda0 = Fraction::zero();
    let lambda = default_lambda();
    let event1: EventLog = xes_l1().parse().unwrap();
    let mut key = event1.activity_key.clone();
    let lang = language_of(&event1, &mut key);

    let h0 = entropy_eventlog(&lang, &lambda0);
    let h_lambda = entropy_eventlog(&lang, &lambda);

    let a = approx(&h_lambda);
    let b = approx(&h0);
    assert!(a >= b, "H(L, λ) = {:?} < H(L, 0) = {:?}", a, b);
}

#[test]
fn test_entropy_sdfa_with_lambda() -> Result<(), GainError> {
    let event1: EventLog = xes_l1().parse().unwrap();
    let (_, sdfa1) = model_of(&event1);
    let lambda0 = Fraction::zero();
    let lambda = default_lambda();

    let h0 = entropy_sdfa(&sdfa1, &lambda0)?;
    let h_lambda = entropy_sdfa(&sdfa1, &lambda)?;

    let a = approx(&h_lambda);
    let b = approx(&h0);
    assert!(a >= b, "H(A, λ) = {:?} < H(A, 0) = {:?}", a, b);
    Ok(())
}

#[test]
fn fraction_is_kept_in_lowest_terms() {
    let x = f(2, 10);
    assert_eq!(x.numerator_limbs(), &vec![1u64]);
    assert_eq!(x.denominator_limbs(), &vec![5u64]);
    let z = Fraction::zero();
    assert!(z.numerator_limbs().is_empty());
    assert_eq!(z.denominator_limbs(), &vec![1u64]);
}

#[test]
fn fraction_arithmetic_is_exact() {
    let sum = f(1, 5).add(&f(4, 5));
    assert!(sum.is_one());
    let diff = f(1, 3).sub(&f(1, 2));
    assert!(diff.is_negative());
    assert_eq!(diff.numerator_limbs(), &vec![1u64]);
    assert_eq!(diff.denominator_limbs(), &vec![6u64]);
    let prod = f(2, 3).mul(&f(3, 4));
    assert_eq!(prod.numerator_limbs(), &vec![1u64]);
    assert_eq!(prod.denominator_limbs(), &vec![2u64]);
    assert!(f(0, 7).is_zero());
    assert!(!f(1, 7).is_zero());
    let big = Fraction::from_limbs(false, vec![0, 1], vec![2]);
    assert_eq!(big.numerator_limbs(), &vec![1u64 << 63]);
}

#[test]
fn entropy_of_zero_probability_is_zero() {
    let h = entropy_calculate(&Fraction::zero());
    assert!(h.is_zero());
    let h1 = entropy_calculate(&Fraction::one());
    assert!(h1.is_zero());
    assert!(!entropy_calculate(&f(1, 2)).is_zero());
}

#[test]
fn n_log_n_rejects_non_positive_arguments() {
    assert!(LogDiv::n_log_n(&Fraction::zero()).is_none());
    assert!(LogDiv::n_log_n(&f(1, 3).sub(&f(1, 2))).is_none());
    // 1/2 * log2(1/2) = -1/2
    let half = LogDiv::n_log_n(&f(1, 2)).unwrap();
    assert!((approx(&half) + 0.5).abs() < 1e-12);
}

#[test]
fn scale_multiplies_every_weight() {
    let h = entropy_calculate(&f(1, 2));
    let doubled = h.scale(&f(2, 1));
    assert!(doubled.equals(&h.add(&h)));
    assert!(!doubled.equals(&h));
    assert!(h.scale(&Fraction::zero()).is_zero());
}

#[test]
fn sum_minus_itself_is_zero() {
    let h = entropy_calculate(&f(1, 3));
    assert!(h.sub(&h).is_zero());
}

#[test]
fn division_keeps_the_exact_quotient() {
    let h = entropy_calculate(&f(1, 3));
    let q = h.copy().div(h.copy());
    assert!(q.is_one());
    assert!(q.numerator.equals(&h));
    assert!(q.denominator.equals(&h));
    assert!(!h.copy().div(LogDiv::zero()).is_one());
    let half = h.copy().div(h.add(&h));
    assert!(!half.is_one());
    assert!((approx(&half.numerator) / approx(&half.denominator) - 0.5).abs() < 1e-12);
}

#[test]
fn log_div_min_picks_the_smaller() {
    let small = entropy_calculate(&f(1, 10));
    let large = entropy_calculate(&f(1, 2));
    assert!(log_div_min(&small, &large).equals(&small));
    assert!(log_div_min(&large, &small).equals(&small));
    assert!(log_div_min_by(&small, &large, false).equals(&large));
    assert!(log_div_min_by(&small, &large, true).equals(&small));
}

#[test]
fn trace_probabilities_follow_the_automaton() {
    let sdfa = two_state_sdfa();
    assert!(sdfa.is_well_formed());
    // [] -> 2/10
    let p0 = sdfa.prob_of_trace(&vec![]);
    assert_eq!(p0.numerator_limbs(), &vec![1u64]);
    assert_eq!(p0.denominator_limbs(), &vec![5u64]);
    // [a, a] -> 8/10 * 1/2 * 1/2 = 1/5
    let p2 = sdfa.prob_of_trace(&vec![0, 0]);
    assert_eq!(p2.numerator_limbs(), &vec![1u64]);
    assert_eq!(p2.denominator_limbs(), &vec![5u64]);
    // unknown activity -> 0
    assert!(sdfa.prob_of_trace(&vec![1]).is_zero());
    assert_eq!(sdfa.binary_search(1, 0), (true, 1));
    assert_eq!(sdfa.binary_search(0, 1), (false, 1));
    assert_eq!(sdfa.binary_search(2, 0), (false, 2));
}

#[test]
fn ill_formed_sdfa_is_detected() {
    let mut sdfa = two_state_sdfa();
    sdfa.sources = vec![1, 0];
    assert!(!sdfa.is_well_formed());
    let mut sdfa = two_state_sdfa();
    sdfa.targets = vec![1, 5];
    assert!(!sdfa.is_well_formed());
}

#[test]
fn validity_errors() {
    assert!(is_valid_sdfa(&two_state_sdfa()).is_ok());

    let mut s = two_state_sdfa();
    s.initial_state = None;
    assert!(matches!(is_valid_sdfa(&s), Err(GainError::NoInitialState)));

    let mut s = two_state_sdfa();
    s.terminating_probabilities = vec![f(2, 10), f(1, 4)];
    match is_valid_sdfa(&s) {
        Err(GainError::InvalidProbabilitySum { state, total }) => {
            assert_eq!(state, 1);
            assert_eq!(total.numerator_limbs(), &vec![3u64]);
            assert_eq!(total.denominator_limbs(), &vec![4u64]);
        },
        _ => panic!("expected an invalid probability sum"),
    }

    let mut s = two_state_sdfa();
    s.probabilities = vec![f(8, 10), f(0, 1)];
    s.terminating_probabilities = vec![f(2, 10), f(1, 1)];
    assert!(matches!(is_valid_sdfa(&s), Err(GainError::InvalidTransitionProbability { index: 1, .. })));

    let s = Sdfa {
        initial_state: Some(0),
        sources: vec![0],
        targets: vec![0],
        activities: vec![0],
        probabilities: vec![f(1, 1)],
        terminating_probabilities: vec![f(0, 1)],
    };
    assert!(matches!(is_valid_sdfa(&s), Err(GainError::NoTerminatingState)));
}

#[test]
fn expected_visits_of_two_state_sdfa() {
    let c = c_s(&two_state_sdfa()).unwrap();
    assert_eq!(c.len(), 2);
    assert!(c[0].is_one());
    assert_eq!(c[1].numerator_limbs(), &vec![8u64]);
    assert_eq!(c[1].denominator_limbs(), &vec![5u64]);

    let mut s = two_state_sdfa();
    s.initial_state = None;
    assert!(matches!(c_s(&s), Err(GainError::NoStartState)));
}

#[test]
fn expected_visits_solve_the_visit_equation() {
    // c (I - P) = e_0
    let c = c_s(&two_state_sdfa()).unwrap();
    let p = vec![vec![f(0, 1), f(8, 10)], vec![f(0, 1), f(1, 2)]];
    let m = identity_minus(&p);
    let e = row_times_matrix(&c, &m);
    assert!(e[0].is_one());
    assert!(e[1].is_zero());
}

#[test]
fn inversion_of_matrices() {
    let m = vec![vec![f(1, 1), f(0, 1)], vec![f(1, 2), f(1, 1)]];
    let inv = invert(&m).unwrap();
    assert!(inv[0][0].is_one());
    assert!(inv[0][1].is_zero());
    assert!(inv[1][0].is_negative());
    assert!(inv[1][1].is_one());
    let singular = vec![vec![f(1, 1), f(1, 2)], vec![f(0, 1), f(0, 1)]];
    assert!(invert(&singular).is_none());
}

#[test]
fn singular_visit_matrix_is_reported() {
    // s1 loops forever with probability 1
    let s = Sdfa {
        initial_state: Some(0),
        sources: vec![0, 1],
        targets: vec![1, 1],
        activities: vec![0, 0],
        probabilities: vec![f(1, 2), f(1, 1)],
        terminating_probabilities: vec![f(1, 2), f(0, 1)],
    };
    assert!(is_valid_sdfa(&s).is_ok());
    assert!(matches!(c_s(&s), Err(GainError::NotInvertible)));
    assert!(matches!(entropy_sdfa(&s, &Fraction::zero()), Err(GainError::NotInvertible)));
}

#[test]
fn entropy_of_sdfa_built_from_log_equals_log_entropy() {
    let event1: EventLog = xes_l1().parse().unwrap();
    let (lang1, sdfa1) = model_of(&event1);
    let lambda0 = Fraction::zero();
    let h1 = entropy_sdfa(&sdfa1, &lambda0).unwrap();
    assert!(h1.equals(&entropy_eventlog(&lang1, &lambda0)));
}

#[test]
fn entropy_sdfa_of_two_state_sdfa() {
    // transitions: h(8/10) * 1 + h(1/2) * 8/5; terminations: h(2/10) * 1 + h(1/2) * 8/5
    let h = entropy_sdfa(&two_state_sdfa(), &Fraction::zero()).unwrap();
    let expected = entropy_calculate(&f(8, 10))
        .add(&entropy_calculate(&f(1, 2)).scale(&f(8, 5)))
        .add(&entropy_calculate(&f(2, 10)))
        .add(&entropy_calculate(&f(1, 2)).scale(&f(8, 5)));
    assert!(h.equals(&expected));
}

#[test]
fn smoothed_entropy_splits_each_probability() {
    let lang = StochasticLanguage { traces: vec![(vec![], f(1, 2)), (vec![0], f(1, 2))] };
    let lambda = default_lambda();
    assert_eq!(lambda.numerator_limbs(), &vec![1u64]);
    assert_eq!(lambda.denominator_limbs(), &vec![1_000_000u64]);
    let h = entropy_eventlog(&lang, &lambda);
    // each 1/2 splits into 999999/2000000 and 1/2000000
    let part = entropy_calculate(&f(999_999, 2_000_000)).add(&entropy_calculate(&f(1, 2_000_000)));
    assert!(h.equals(&part.add(&part)));
}

#[test]
fn precision_of_reproducing_model_is_one() {
    let event1: EventLog = xes_l1().parse().unwrap();
    let (lang1, sdfa1) = model_of(&event1);
    let p = potential_gain_precision(&lang1, &sdfa1, &Fraction::zero()).unwrap();
    assert!(p.is_one());
    let pd = potential_gain_precision_default(&lang1, &sdfa1).unwrap();
    assert!(pd.is_one());
}

#[test]
fn recall_of_model_built_from_log_is_one() {
    let event1: EventLog = xes_l1().parse().unwrap();
    let (lang1, sdfa1) = model_of(&event1);
    let r = potential_gain_recall(&lang1, &sdfa1, &Fraction::zero()).unwrap();
    assert!(r.is_one());
    let rd = potential_gain_recall_default(&lang1, &sdfa1).unwrap();
    assert!(rd.is_one());
}

#[test]
fn precision_and_recall_of_other_log() {
    let event1: EventLog = xes_l1().parse().unwrap();
    let event2: EventLog = xes_l2().parse().unwrap();
    let mut ebi: StochasticDeterministicFiniteAutomaton = event1.clone().into();
    let lang2 = language_of(&event2, &mut ebi.activity_key);
    let sdfa1 = sdfa_of(&ebi);
    let lambda0 = Fraction::zero();
    let num = gain_numerator(&lang2, &sdfa1, &lambda0);
    let p = potential_gain_precision(&lang2, &sdfa1, &lambda0).unwrap();
    assert!(p.numerator.equals(&num));
    assert!(p.denominator.equals(&entropy_eventlog(&lang2, &lambda0)));
    let precision = approx(&p.numerator) / approx(&p.denominator);
    assert!(0.0 <= precision && precision <= 1.0);
    let r = potential_gain_recall(&lang2, &sdfa1, &lambda0).unwrap();
    assert!(r.numerator.equals(&num));
    assert!(r.denominator.equals(&entropy_sdfa(&sdfa1, &lambda0).unwrap()));
    let recall = approx(&r.numerator) / approx(&r.denominator);
    assert!(0.0 <= recall && recall <= 1.0);
}

#[test]
fn zero_entropies_are_reported() {
    // a single trace: the log and the SDFA both have entropy zero
    let lang = StochasticLanguage { traces: vec![(vec![], Fraction::one())] };
    let s = Sdfa {
        initial_state: Some(0),
        sources: vec![],
        targets: vec![],
        activities: vec![],
        probabilities: vec![],
        terminating_probabilities: vec![Fraction::one()],
    };
    assert!(matches!(potential_gain_precision(&lang, &s, &Fraction::zero()), Err(GainError::ZeroEventLogEntropy)));
    assert!(matches!(potential_gain_recall(&lang, &s, &Fraction::zero()), Err(GainError::ZeroModelEntropy)));
    let mut bad = s;
    bad.initial_state = None;
    assert!(matches!(potential_gain_precision(&lang, &bad, &Fraction::zero()), Err(GainError::NoInitialState)));
    assert!(matches!(potential_gain_recall(&lang, &bad, &Fraction::zero()), Err(GainError::NoInitialState)));
}

#[test]
fn gain_skips_traces_the_model_cannot_produce() {
    let lang = StochasticLanguage { traces: vec![(vec![1, 1], f(1, 1))] };
    let g = gain_numerator(&lang, &two_state_sdfa(), &Fraction::zero());
    assert!(g.is_zero());
}

#[test]
fn computability_checks() {
    assert!(entropy_computable(&f(1, 2)));
    assert!(entropy_computable(&Fraction::zero()));
    assert!(!entropy_computable(&Fraction::from_limbs(true, vec![1], vec![2])));
    // 2^128 + 1 is too large for an exact logarithm
    let huge = Fraction::from_limbs(false, vec![1, 0, 1], vec![1]);
    assert!(!entropy_computable(&huge));
    let lambda0 = Fraction::zero();
    let lang = StochasticLanguage { traces: vec![(vec![], f(1, 2)), (vec![0], f(1, 2))] };
    assert!(language_entropy_computable(&lang, &lambda0));
    assert!(language_entropy_computable(&lang, &default_lambda()));
    let bad = StochasticLanguage { traces: vec![(vec![], Fraction::from_limbs(false, vec![1, 0, 1], vec![1]))] };
    assert!(!language_entropy_computable(&bad, &lambda0));
    let s = two_state_sdfa();
    assert!(gain_computable(&lang, &s, &lambda0));
    assert!(sdfa_entropy_computable(&s, &lambda0));
    assert!(sdfa_entropy_computable(&s, &default_lambda()));
    let lang_huge = StochasticLanguage { traces: vec![(vec![], Fraction::from_limbs(false, vec![1, 0, 1], vec![1]))] };
    // the empty trace has model probability 2/10, so its log probability must be computable
    assert!(!gain_computable(&lang_huge, &s, &lambda0));
    // a trace the model cannot produce is skipped
    let lang_skip = StochasticLanguage { traces: vec![(vec![1], Fraction::from_limbs(false, vec![1, 0, 1], vec![1]))] };
    assert!(gain_computable(&lang_skip, &s, &lambda0));
}

#[test]
fn smoothing_adds_binary_entropy_to_log() {
    let event1: EventLog = xes_l1().parse().unwrap();
    let (lang1, _) = model_of(&event1);
    let lambda = default_lambda();
    let h0 = entropy_eventlog(&lang1, &Fraction::zero());
    let h = entropy_eventlog(&lang1, &lambda);
    let binary = entropy_calculate(&Fraction::one().sub(&lambda)).add(&entropy_calculate(&lambda));
    assert!(h.equals(&h0.add(&binary)));
    assert!(!h.equals(&h0));
}

#[test]
fn smoothing_adds_binary_entropy_to_model() {
    let lambda = f(1, 4);
    let binary = entropy_calculate(&f(3, 4)).add(&entropy_calculate(&f(1, 4)));
    let s = two_state_sdfa();
    let h0 = entropy_sdfa(&s, &Fraction::zero()).unwrap();
    let h = entropy_sdfa(&s, &lambda).unwrap();
    assert!(h.equals(&h0.add(&binary)));
    let event1: EventLog = xes_l1().parse().unwrap();
    let (_, sdfa1) = model_of(&event1);
    let h0 = entropy_sdfa(&sdfa1, &Fraction::zero()).unwrap();
    let h = entropy_sdfa(&sdfa1, &lambda).unwrap();
    assert!(h.equals(&h0.add(&binary)));
}

#[test]
fn gain_with_given_comparison_outcomes() {
    let event1: EventLog = xes_l1().parse().unwrap();
    let event2: EventLog = xes_l2().parse().unwrap();
    let mut ebi: StochasticDeterministicFiniteAutomaton = event1.clone().into();
    let lang2 = language_of(&event2, &mut ebi.activity_key);
    let sdfa1 = sdfa_of(&ebi);
    let lambda0 = Fraction::zero();
    let outcomes = comparison_outcomes(&lang2, &sdfa1, &lambda0);
    assert_eq!(outcomes.len(), lang2.traces.len());
    assert!(gain_numerator_by(&lang2, &sdfa1, &lambda0, &outcomes).equals(&gain_numerator(&lang2, &sdfa1, &lambda0)));
    // always the log's side: [] with 1/10 and [a] with 2/10; the other traces are not in the model
    let logs = vec![(true, true); lang2.traces.len()];
    let expected = entropy_calculate(&f(1, 10)).add(&entropy_calculate(&f(2, 10)));
    assert!(gain_numerator_by(&lang2, &sdfa1, &lambda0, &logs).equals(&expected));
    // always the model's side: 2/10 for [] and 8/10 for [a]
    let models = vec![(false, false); lang2.traces.len()];
    let expected = entropy_calculate(&f(2, 10)).add(&entropy_calculate(&f(8, 10)));
    assert!(gain_numerator_by(&lang2, &sdfa1, &lambda0, &models).equals(&expected));
}

#[test]
fn entropy_ignores_trace_order() {
    let event2: EventLog = xes_l2().parse().unwrap();
    let mut key = event2.activity_key.clone();
    let lang = language_of(&event2, &mut key);
    let reversed = StochasticLanguage {
        traces: lang.traces.iter().rev().map(|(t, p)| (t.clone(), p.copy())).collect(),
    };
    for lambda in [Fraction::zero(), default_lambda()] {
        assert!(entropy_eventlog(&reversed, &lambda).equals(&entropy_eventlog(&lang, &lambda)));
    }
}
