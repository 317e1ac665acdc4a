use auxein_core::contraction::{Contraction, LayerValues};
use auxein_core::growth::has_redundant_terminal_layer;
use auxein_core::material::{LayerCounts, Ledger, ScalarKind};
use auxein_core::types::{Budget, Error, Mode};

fn layer(sigma: usize, cells: usize, temporal_sigma: usize, temporal_cells: usize) -> LayerCounts {
    LayerCounts { sigma, cells, temporal_sigma, temporal_cells }
}

fn values(geometric: &[u64], temporal: &[u64]) -> LayerValues {
    LayerValues { geometric: geometric.to_vec(), temporal: temporal.to_vec() }
}

#[test]
fn ledger_growth_is_all_or_nothing() {
    let mut small = Ledger::new(1, ScalarKind::F64, Mode::Geometry, Budget::kernels("1")).unwrap();
    assert_eq!(small.commit_growth(&vec![(2, 0)], false).unwrap(), false);
    assert_eq!(small.layers[0].sigma, 0);
    assert_eq!(small.maintenance_units().unwrap(), 66);

    let mut roomy = Ledger::new(1, ScalarKind::F64, Mode::Geometry, Budget::kernels("2")).unwrap();
    assert_eq!(roomy.commit_growth(&vec![(2, 0)], false).unwrap(), true);
    assert_eq!(roomy.layers[0].sigma, 2);
    assert_eq!(roomy.maintenance_units().unwrap(), 66 + 48);
}

#[test]
fn growth_prices_seeds_and_the_frontier_layer() {
    let n = Ledger::new(1, ScalarKind::F64, Mode::Predictive, Budget::units(1000)).unwrap();
    assert_eq!(n.growth_units(2, 3, false).unwrap(), 2 * 24 + 3 * 32);
    assert_eq!(n.growth_units(0, 0, true).unwrap(), 57);
    let mut n = n;
    let before = n.maintenance_units().unwrap();
    assert!(n.commit_growth(&vec![(1, 2)], true).unwrap());
    assert_eq!(n.layers.len(), 2);
    assert_eq!(n.layers[0].temporal_sigma, 2);
    assert_eq!(n.maintenance_units().unwrap(), before + 24 + 64 + 57);
    let huge = n.growth_units(u64::MAX, 0, false).unwrap_err();
    assert!(matches!(huge, Error::Invalid(m) if m == "material accounting overflow"));
}

fn insolvent_ledger(budget: u64) -> (Ledger, Vec<LayerValues>) {
    let mut l = Ledger::new(1, ScalarKind::F64, Mode::Geometry, Budget::units(10_000)).unwrap();
    l.layers = vec![layer(2, 3, 0, 0), layer(1, 0, 0, 0)];
    l.budget_units = budget;
    (l, vec![values(&[5, 2, 5], &[]), values(&[], &[])])
}

#[test]
fn ledger_forced_solvency_destroys_work_then_knowledge() {
    let (mut l, mut v) = insolvent_ledger(66);
    assert_eq!(l.maintenance_units().unwrap(), 226);
    let report = l.force_solvency(&mut v).unwrap();
    assert_eq!(
        report,
        Contraction {
            contracted: true,
            cleared_sigma: 3,
            trimmed: 1,
            destroyed: 3,
            waves: 2,
            cutoff: Some(5),
            trimmed_after: 0,
        }
    );
    assert_eq!(l.layers.len(), 1);
    assert_eq!(l.layers[0].cells, 0);
    assert_eq!(l.layers[0].sigma, 0);
    assert_eq!(l.maintenance_units().unwrap(), 66);
    assert!(v[0].geometric.is_empty());
}

#[test]
fn forced_solvency_stops_at_the_first_sufficient_wave() {
    let (mut l, mut v) = insolvent_ledger(114);
    let report = l.force_solvency(&mut v).unwrap();
    assert_eq!(report.cutoff, Some(2));
    assert_eq!(report.destroyed, 1);
    assert_eq!(report.waves, 1);
    assert_eq!(v[0].geometric, vec![5, 5]);
    assert_eq!(l.maintenance_units().unwrap(), 114);
}

#[test]
fn emptying_sigma_may_be_enough() {
    let (mut l, mut v) = insolvent_ledger(138);
    let report = l.force_solvency(&mut v).unwrap();
    assert_eq!(report.cutoff, None);
    assert_eq!(report.cleared_sigma, 3);
    assert_eq!(report.trimmed, 1);
    assert_eq!(v[0].geometric, vec![5, 2, 5]);
    assert_eq!(l.maintenance_units().unwrap(), 138);
}

#[test]
fn solvent_state_is_left_alone() {
    let (mut l, mut v) = insolvent_ledger(226);
    let report = l.force_solvency(&mut v).unwrap();
    assert!(!report.contracted);
    assert_eq!(l.layers.len(), 2);
    assert_eq!(l.maintenance_units().unwrap(), 226);
}

#[test]
fn unreachable_budget_is_inexecutable() {
    let (mut l, mut v) = insolvent_ledger(10);
    let e = l.force_solvency(&mut v).unwrap_err();
    assert!(matches!(e, Error::Inexecutable(m) if m == "forced solvency did not reach the budget"));
    assert_eq!(l.layers.len(), 1);

    let mut bare = Ledger::new(1, ScalarKind::F64, Mode::Geometry, Budget::units(100)).unwrap();
    bare.layers = vec![layer(3, 0, 0, 0)];
    bare.budget_units = 10;
    let mut none = vec![values(&[], &[])];
    let e = bare.force_solvency(&mut none).unwrap_err();
    assert!(matches!(
        e,
        Error::Inexecutable(m) if m == "minimal Auxein state exceeds the execution budget"
    ));
    assert_eq!(bare.layers[0].sigma, 0);
}

#[test]
fn equal_values_fall_together_across_spaces() {
    let mut l = Ledger::new(1, ScalarKind::F64, Mode::Predictive, Budget::units(10_000)).unwrap();
    l.layers = vec![layer(0, 2, 0, 1), layer(0, 1, 0, 1)];
    let mut v = vec![values(&[3, 7], &[3]), values(&[7], &[9])];
    // 50 + (57 + 48 + 32) + (57 + 24 + 32) = 300
    assert_eq!(l.maintenance_units().unwrap(), 300);
    l.budget_units = 250;
    let report = l.force_solvency(&mut v).unwrap();
    assert_eq!(report.cutoff, Some(3));
    assert_eq!(report.destroyed, 2);
    assert_eq!(v[0].geometric, vec![7]);
    assert!(v[0].temporal.is_empty());
    assert_eq!(l.maintenance_units().unwrap(), 300 - 24 - 32);
    l.budget_units = 200;
    let report = l.force_solvency(&mut v).unwrap();
    // rank 7 takes one CELL from each layer; layer 1 keeps its temporal CELL
    assert_eq!(report.cutoff, Some(7));
    assert_eq!(report.waves, 1);
    assert_eq!(report.destroyed, 2);
    assert_eq!(l.layers.len(), 2);
    assert_eq!(l.maintenance_units().unwrap(), 50 + 57 + 57 + 32);
    l.budget_units = 150;
    let report = l.force_solvency(&mut v).unwrap();
    assert_eq!(report.cutoff, Some(9));
    assert_eq!(report.trimmed_after, 1);
    assert_eq!(l.layers.len(), 1);
    assert_eq!(l.maintenance_units().unwrap(), 107);
}

#[test]
fn promotion_is_free() {
    let mut l = Ledger::new(2, ScalarKind::F32, Mode::Predictive, Budget::units(10_000)).unwrap();
    l.layers = vec![layer(3, 1, 2, 0)];
    let before = l.maintenance_units().unwrap();
    l.layers = vec![layer(1, 3, 0, 2)];
    assert_eq!(l.maintenance_units().unwrap(), before);
}

fn counts(sigma: usize, cells: usize) -> LayerCounts {
    layer(sigma, cells, 0, 0)
}

#[test]
fn an_empty_top_layer_above_no_cells_is_redundant() {
    assert!(!has_redundant_terminal_layer(&[counts(0, 0)]));
    assert!(has_redundant_terminal_layer(&[counts(2, 0), counts(0, 0)]));
    assert!(!has_redundant_terminal_layer(&[counts(0, 1), counts(0, 0)]));
    assert!(!has_redundant_terminal_layer(&[counts(0, 0), counts(1, 0)]));
    assert!(!has_redundant_terminal_layer(&[counts(0, 0), layer(0, 0, 1, 0)]));
}
