//! The scoring kernel.

use entropyx_core::metric::{classify as core_classify, ScoreWeights, SignalClass as CoreClass};
use entropyx_core::MetricComponents;
use exsurvey::kernel::{
    class_code, class_names, contract_version, default_weights, metric_columns, Kernel,
    CLASS_FROZEN_NEGLECT, CLASS_INCIDENT_AFTERSHOCK, CLASS_NONE,
};
use exsurvey::signal::{classify, Axes, SignalClass};

fn row(vals: [f64; 7]) -> Vec<u64> {
    let mut v: Vec<u64> = vals.iter().map(|x| x.to_bits()).collect();
    v.push(0);
    v
}

fn components(a: &Axes) -> MetricComponents {
    MetricComponents {
        change_density: f64::from_bits(a.change_density),
        author_entropy: f64::from_bits(a.author_entropy),
        temporal_volatility: f64::from_bits(a.temporal_volatility),
        coupling_stress: f64::from_bits(a.coupling_stress),
        blame_youth: f64::from_bits(a.blame_youth),
        semantic_drift: f64::from_bits(a.semantic_drift),
        test_cooevolution: f64::from_bits(a.test_cooevolution),
    }
}

fn weights(bits: &[u64]) -> ScoreWeights {
    ScoreWeights {
        theta_d: f64::from_bits(bits[0]),
        theta_h: f64::from_bits(bits[1]),
        theta_v: f64::from_bits(bits[2]),
        theta_c: f64::from_bits(bits[3]),
        theta_b: f64::from_bits(bits[4]),
        theta_s: f64::from_bits(bits[5]),
        theta_t: f64::from_bits(bits[6]),
    }
}

/// Score the rows under the weights, with the composites of the core crate.
fn rescore(k: &mut Kernel, w: &[u64]) -> Result<(), String> {
    let mut composites = Vec::new();
    if w.len() == 7 {
        for i in 0..k.len() {
            composites.push(components(&k.axes(i)).composite(weights(w)).to_bits());
        }
    }
    k.try_rescore(w, &composites)
}

fn composites(k: &Kernel) -> Vec<f64> {
    k.composites().into_iter().map(f64::from_bits).collect()
}

#[test]
fn rescore_matches_core_composite() {
    let axes = [0.4, 0.2, 0.5, 0.8, 0.1, 0.7, 0.3];
    let mut k = Kernel::new();
    k.try_load(&row(axes), &[0]).unwrap();
    rescore(&mut k, &default_weights()).unwrap();

    let m = MetricComponents {
        change_density: axes[0],
        author_entropy: axes[1],
        temporal_volatility: axes[2],
        coupling_stress: axes[3],
        blame_youth: axes[4],
        semantic_drift: axes[5],
        test_cooevolution: axes[6],
    };
    let expected = m.composite(MetricComponents::DEFAULT_WEIGHTS);
    assert_eq!(composites(&k)[0], expected, "kernel must not drift from core");
}

#[test]
fn incident_flag_overrides_static_class() {
    // Volatile file that would otherwise classify as ApiDrift.
    let axes = [0.5, 0.5, 0.9, 0.1, 0.1, 0.9, 0.1];
    let mut k = Kernel::new();
    k.try_load(&row(axes), &[0]).unwrap();
    rescore(&mut k, &default_weights()).unwrap();
    assert_ne!(k.classes()[0], CLASS_INCIDENT_AFTERSHOCK);

    let mut k2 = Kernel::new();
    k2.try_load(&row(axes), &[1]).unwrap();
    rescore(&mut k2, &default_weights()).unwrap();
    assert_eq!(k2.classes()[0], CLASS_INCIDENT_AFTERSHOCK);
}

#[test]
fn low_volatility_incident_does_not_override() {
    // incident flag set, but V_t below threshold — static rules win.
    let axes = [0.5, 0.5, 0.1, 0.1, 0.1, 0.9, 0.1];
    let mut k = Kernel::new();
    k.try_load(&row(axes), &[1]).unwrap();
    rescore(&mut k, &default_weights()).unwrap();
    assert_ne!(k.classes()[0], CLASS_INCIDENT_AFTERSHOCK);
}

#[test]
fn rank_is_composite_descending_and_stable() {
    let mut vals = Vec::new();
    for s in [0.1, 0.9, 0.5] {
        vals.extend(row([0.0, 0.0, 0.0, 0.0, 0.0, s, 0.0]));
    }
    let mut k = Kernel::new();
    k.try_load(&vals, &[0, 0, 0]).unwrap();
    rescore(&mut k, &default_weights()).unwrap();
    assert_eq!(k.rank(), vec![1, 2, 0]);
}

#[test]
fn load_rejects_ragged_input() {
    let mut k = Kernel::new();
    assert!(k.try_load(&[0; 7], &[0]).is_err());
    assert!(k.try_load(&[0; 8], &[0, 0]).is_err());
}

#[test]
fn default_weights_are_convex() {
    let s = weights(&default_weights()).sum_positive();
    assert!(
        (s - 1.0).abs() < 1e-12,
        "positive weights must sum to 1, got {s}"
    );
}

#[test]
fn class_names_cover_every_code() {
    assert_eq!(class_names().len(), 7);
    assert_eq!(
        class_names()[CLASS_FROZEN_NEGLECT as usize],
        "frozen_neglect"
    );
}

#[test]
fn metric_columns_match_tq_contract() {
    assert_eq!(metric_columns(), entropyx_tq::Dict::METRIC_COLUMNS.to_vec());
}

#[test]
fn refusals_are_spelled_out_and_change_nothing() {
    let mut k = Kernel::new();
    k.try_load(&row([0.5; 7]), &[1]).unwrap();
    assert_eq!(
        k.try_load(&[0; 13], &[0]).unwrap_err(),
        "values length 13 is not a multiple of 8"
    );
    assert_eq!(
        k.try_load(&[0; 16], &[0, 0, 0]).unwrap_err(),
        "incident length 3 does not match row count 2"
    );
    assert_eq!(
        k.try_rescore(&[0; 6], &[]).unwrap_err(),
        "expected 7 weights, got 6"
    );
    assert_eq!(k.len(), 1);
    assert!(!k.is_empty());
    assert_eq!(k.axes(0).author_entropy, 0.5f64.to_bits());
}

#[test]
fn a_fresh_load_has_no_scores() {
    let mut k = Kernel::default();
    assert!(k.is_empty());
    assert_eq!(k.try_load(&row([0.9; 7]), &[0]).unwrap(), 1);
    assert_eq!(k.composites(), vec![0]);
    assert_eq!(k.classes(), vec![CLASS_NONE]);
}

#[test]
fn classes_do_not_depend_on_the_weights() {
    let mut vals = Vec::new();
    for i in 0..6 {
        let x = f64::from(i) / 6.0;
        vals.extend(row([x, 1.0 - x, x, x, 0.2, 1.0 - x, 0.1]));
    }
    let mut a = Kernel::new();
    a.try_load(&vals, &[0, 1, 0, 1, 0, 1]).unwrap();
    rescore(&mut a, &default_weights()).unwrap();
    let first = a.classes();
    rescore(&mut a, &[0; 7]).unwrap();
    assert_eq!(a.classes(), first);
    assert_eq!(a.composites(), vec![0; 6]);
    // And what was scored before leaves no trace.
    rescore(&mut a, &default_weights()).unwrap();
    let mut b = Kernel::new();
    b.try_load(&vals, &[0, 1, 0, 1, 0, 1]).unwrap();
    rescore(&mut b, &default_weights()).unwrap();
    assert_eq!(a.composites(), b.composites());
}

#[test]
fn ties_keep_load_order_and_zeros_are_equal() {
    let mut k = Kernel::new();
    let mut vals = Vec::new();
    for _ in 0..5 {
        vals.extend(row([0.0; 7]));
    }
    k.try_load(&vals, &[0; 5]).unwrap();
    let scores = [0.0, -0.0, -1.5, 2.0, 0.0].map(f64::to_bits);
    k.try_rescore(&default_weights(), &scores).unwrap();
    assert_eq!(k.rank(), vec![3, 0, 1, 4, 2]);
}

#[test]
fn a_score_that_is_no_number_is_listed_too() {
    let mut k = Kernel::new();
    k.try_load(&row([0.0; 7]), &[0]).unwrap();
    k.try_rescore(&default_weights(), &[f64::NAN.to_bits()]).unwrap();
    assert_eq!(k.rank(), vec![0]);
    let mut vals = Vec::new();
    for _ in 0..4 {
        vals.extend(row([0.0; 7]));
    }
    k.try_load(&vals, &[0; 4]).unwrap();
    let scores = [0.5, f64::NAN, 0.7, -f64::NAN].map(f64::to_bits);
    k.try_rescore(&default_weights(), &scores).unwrap();
    let mut rows = k.rank();
    rows.sort();
    assert_eq!(rows, vec![0, 1, 2, 3]);
}

#[test]
fn the_histogram_counts_every_row() {
    let mut k = Kernel::new();
    let mut vals = row([0.5, 0.5, 0.9, 0.1, 0.1, 0.9, 0.1]);
    vals.extend(row([0.0; 7]));
    vals.extend(row([0.5; 7]));
    vals.extend(row([0.5, 0.5, 0.9, 0.1, 0.1, 0.9, 0.1]));
    k.try_load(&vals, &[0, 0, 0, 9]).unwrap();
    rescore(&mut k, &default_weights()).unwrap();
    assert_eq!(k.class_histogram(), vec![1, 0, 1, 0, 1, 0, 1]);
}

fn core_code(c: Option<CoreClass>) -> Option<SignalClass> {
    c.map(|c| match c {
        CoreClass::RefactorConvergence => SignalClass::RefactorConvergence,
        CoreClass::ApiDrift => SignalClass::ApiDrift,
        CoreClass::OwnershipFragmentation => SignalClass::OwnershipFragmentation,
        CoreClass::IncidentAftershock => SignalClass::IncidentAftershock,
        CoreClass::CoupledAmplifier => SignalClass::CoupledAmplifier,
        CoreClass::FrozenNeglect => SignalClass::FrozenNeglect,
    })
}

#[test]
fn classes_agree_with_the_core_crate() {
    // Every threshold, its neighbours, and what is no ordinary number.
    let mut points = vec![0.0, -0.0, 1.0, -1.0, f64::NAN, f64::INFINITY, f64::NEG_INFINITY];
    for t in [0.15f64, 0.3, 0.4, 0.6, 0.7, 0.8] {
        let b = t.to_bits();
        points.extend([t, f64::from_bits(b - 1), f64::from_bits(b + 1)]);
    }
    for &d in &points {
        for &h in &points {
            for &s in &points {
                for &c in &[0.1, 0.7, f64::from_bits(0.7f64.to_bits() + 1)] {
                    for &v in &[0.1f64, 0.15] {
                        let a = Axes {
                            change_density: d.to_bits(),
                            author_entropy: h.to_bits(),
                            temporal_volatility: v.to_bits(),
                            coupling_stress: c.to_bits(),
                            blame_youth: 0,
                            semantic_drift: s.to_bits(),
                            test_cooevolution: 0,
                        };
                        assert_eq!(classify(&a), core_code(core_classify(&components(&a))));
                    }
                }
            }
        }
    }
}

#[test]
fn codes_and_names_line_up() {
    let names = class_names();
    assert_eq!(names[class_code(None) as usize], "");
    let all = [
        (SignalClass::RefactorConvergence, "refactor_convergence"),
        (SignalClass::ApiDrift, "api_drift"),
        (SignalClass::OwnershipFragmentation, "ownership_fragmentation"),
        (SignalClass::IncidentAftershock, "incident_aftershock"),
        (SignalClass::CoupledAmplifier, "coupled_amplifier"),
        (SignalClass::FrozenNeglect, "frozen_neglect"),
    ];
    for (c, n) in all {
        assert_eq!(names[class_code(Some(c)) as usize], n);
    }
    assert_eq!(contract_version(), "0.1.0");
    assert_eq!(default_weights()[5], 0.30f64.to_bits());
    assert_eq!(metric_columns()[7], "composite");
}
