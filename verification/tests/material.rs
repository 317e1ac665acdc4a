use auxein_core::material::{LayerCounts, Ledger, ScalarKind};
use auxein_core::ratio::ratio_string;
use auxein_core::types::{set_budget_once, Budget, Error, Mode, Space};

fn invalid_message(e: Error) -> String {
    match e {
        Error::Invalid(m) => m,
        other => panic!("unexpected error kind: {other:?}"),
    }
}

fn layer(sigma: usize, cells: usize, temporal_sigma: usize, temporal_cells: usize) -> LayerCounts {
    LayerCounts { sigma, cells, temporal_sigma, temporal_cells }
}

#[test]
fn packing() {
    let n = Ledger::new(1, ScalarKind::F64, Mode::Geometry, Budget::kernels("0")).unwrap();
    assert_eq!(n.kernel_units().unwrap(), 24);
    assert_eq!(n.network_units().unwrap(), 50);
    assert_eq!(n.min_units().unwrap(), 66);
    assert_eq!(n.budget_units, 66);
    assert_eq!(n.maintenance_units().unwrap(), 66);
}

#[test]
fn predictive_packing() {
    let n = Ledger::new(1, ScalarKind::F64, Mode::Predictive, Budget::kernels("0")).unwrap();
    assert_eq!(n.temporal_kernel_units().unwrap(), 32);
    assert_eq!(n.layer_units().unwrap(), 57);
    assert_eq!(n.min_units().unwrap(), 107);
}

#[test]
fn f32_packing_uses_four_byte_reals() {
    let n = Ledger::new(3, ScalarKind::F32, Mode::Predictive, Budget::units(10_000)).unwrap();
    assert_eq!(n.kernel_units().unwrap(), 20);
    assert_eq!(n.temporal_kernel_units().unwrap(), 32);
    assert_eq!(n.network_units().unwrap(), 42);
    assert_eq!(n.layer_units().unwrap(), 53);
    assert_eq!(n.min_units().unwrap(), 95);
    assert_eq!(ScalarKind::F32.name(), "f32");
    assert_eq!(ScalarKind::F64.bytes(), 8);
}

#[test]
fn maintenance_counts_every_kernel() {
    let mut n = Ledger::new(1, ScalarKind::F64, Mode::Predictive, Budget::units(10_000)).unwrap();
    n.layers = vec![layer(1, 2, 3, 4), layer(0, 1, 0, 0)];
    // 50 + (57 + 3 * 24 + 7 * 32) + (57 + 24)
    assert_eq!(n.maintenance_units().unwrap(), 50 + 57 + 72 + 224 + 57 + 24);
    let mut g = Ledger::new(1, ScalarKind::F64, Mode::Geometry, Budget::units(10_000)).unwrap();
    g.layers = vec![layer(1, 2, 3, 4), layer(0, 1, 0, 0)];
    // temporal populations carry no weight in geometry mode
    assert_eq!(g.maintenance_units().unwrap(), 50 + 16 + 72 + 16 + 24);
}

#[test]
fn oversized_dimension_is_refused() {
    let n = Ledger {
        dimension: usize::MAX,
        scalar: ScalarKind::F64,
        mode: Mode::Geometry,
        budget_units: 0,
        layers: vec![layer(0, 0, 0, 0)],
    };
    assert_eq!(
        invalid_message(n.kernel_units().unwrap_err()),
        "dimension is too large for material accounting"
    );
    assert_eq!(n.min_units().unwrap(), 66);
    let p = Ledger { mode: Mode::Predictive, ..n };
    assert_eq!(
        invalid_message(p.min_units().unwrap_err()),
        "dimension is too large for material accounting"
    );
}

#[test]
fn budgets_resolve_to_units() {
    let n = Ledger::new(1, ScalarKind::F64, Mode::Geometry, Budget::kernels("2.5")).unwrap();
    assert_eq!(n.budget_units, 66 + 60);
    assert_eq!(n.resolve_budget(Budget::units(7)).unwrap(), 7);
    assert_eq!(n.resolve_budget(Budget::kernels("100")).unwrap(), 66 + 2400);
    assert_eq!(n.resolve_budget(Budget::kernels(" +1.9 ")).unwrap(), 66 + 45);
}

#[test]
fn budget_below_minimum_is_refused_and_changes_nothing() {
    let mut n = Ledger::new(1, ScalarKind::F64, Mode::Geometry, Budget::kernels("1")).unwrap();
    let before = n.budget_units;
    let e = n.set_budget(Budget::units(65)).unwrap_err();
    assert_eq!(invalid_message(e), "budget is below the minimal executable state");
    assert_eq!(n.budget_units, before);
    n.set_budget(Budget::units(66)).unwrap();
    assert_eq!(n.budget_units, 66);
    let e = n.set_budget(Budget::kernels("-1")).unwrap_err();
    assert_eq!(invalid_message(e), "budget must be finite and nonnegative");
    assert_eq!(n.budget_units, 66);
    let e = Ledger::new(0, ScalarKind::F64, Mode::Geometry, Budget::units(100)).unwrap_err();
    assert_eq!(invalid_message(e), "dimension must be a positive integer");
    let e = Ledger::new(1, ScalarKind::F64, Mode::Predictive, Budget::units(100)).unwrap_err();
    assert_eq!(invalid_message(e), "budget is below the minimal executable state");
}

#[test]
fn budget_equivalent_is_exact() {
    let mut n = Ledger::new(1, ScalarKind::F64, Mode::Geometry, Budget::kernels("100.5")).unwrap();
    assert_eq!(n.budget_equivalent().unwrap(), "2412/24");
    n.set_budget(Budget::units(66 + 8)).unwrap();
    assert_eq!(n.budget_equivalent().unwrap(), "8/24");
    n.set_budget(Budget::units(66 + 6)).unwrap();
    assert_eq!(n.budget_equivalent().unwrap(), "6/24");
    n.set_budget(Budget::units(66 + 3)).unwrap();
    assert_eq!(n.budget_equivalent().unwrap(), "3/24");
    n.set_budget(Budget::units(66)).unwrap();
    assert_eq!(n.budget_equivalent().unwrap(), "0");
    let mut m = Ledger::new(2, ScalarKind::F64, Mode::Geometry, Budget::units(66 + 8)).unwrap();
    // U_H = 32 here; 8/32 terminates
    assert_eq!(m.budget_equivalent().unwrap(), "0.25");
    m.set_budget(Budget::units(66 + 8 + 1)).unwrap();
    assert_eq!(m.budget_equivalent().unwrap(), "0.28125");
}

#[test]
fn ratio_strings() {
    assert_eq!(ratio_string(10, 5).unwrap(), "2");
    assert_eq!(ratio_string(1, 8).unwrap(), "0.125");
    assert_eq!(ratio_string(7, 40).unwrap(), "0.175");
    assert_eq!(ratio_string(1, 3).unwrap(), "1/3");
    assert_eq!(ratio_string(3, 6).unwrap(), "3/6");
    assert_eq!(ratio_string(0, 7).unwrap(), "0");
    assert_eq!(ratio_string(u64::MAX, 1 << 63).unwrap(), "1.999999999999999999891579782751449556599254719913005828857421875");
    assert_eq!(invalid_message(ratio_string(1, 0).unwrap_err()), "zero budget unit");
}

#[test]
fn mode_is_geometry_by_default_and_strict() {
    assert_eq!(Mode::parse("geometry").unwrap(), Mode::Geometry);
    assert_eq!(Mode::parse("predictive").unwrap(), Mode::Predictive);
    assert!(Mode::parse("temporal").is_err());
    assert_eq!(
        invalid_message(Mode::parse("temporal").unwrap_err()),
        "mode must be 'geometry' or 'predictive'"
    );
}

#[test]
fn names_round_trip() {
    for m in [Mode::Geometry, Mode::Predictive] {
        assert_eq!(Mode::parse(m.as_str()).unwrap(), m);
    }
    assert!(Mode::Predictive.predictive());
    assert!(!Mode::Geometry.predictive());
    assert_eq!(Space::Geometry.as_str(), "geometry");
    assert_eq!(Space::Temporal.as_str(), "temporal");
}

#[test]
fn error_messages_carry_their_kind() {
    assert_eq!(Error::Invalid("x".into()).message(), "invalid Auxein input: x");
    assert_eq!(Error::Json("x".into()).message(), "invalid JSON: x");
    assert_eq!(Error::Io("x".into()).message(), "I/O error: x");
    assert_eq!(Error::Inexecutable("x".into()).message(), "inexecutable Auxein state: x");
}

#[test]
fn only_one_budget_per_command_line() {
    let mut slot = None;
    set_budget_once(&mut slot, Budget::kernels("3")).unwrap();
    assert_eq!(slot, Some(Budget::Kernels("3".into())));
    let e = set_budget_once(&mut slot, Budget::units(4)).unwrap_err();
    assert_eq!(invalid_message(e), "provide exactly one of --budget or --budget-units");
    assert_eq!(slot, Some(Budget::Kernels("3".into())));
}

#[test]
fn budget_equivalent_reads_back_to_the_same_units() {
    for (dimension, units) in [(2usize, 66u64 + 9), (1, 66 + 48), (2, 66), (6, 66 + 1000)] {
        let mut n = Ledger::new(dimension, ScalarKind::F64, Mode::Geometry, Budget::units(units))
            .unwrap();
        let text = n.budget_equivalent().unwrap();
        assert!(!text.contains('/'), "{text}");
        n.set_budget(Budget::kernels(&text)).unwrap();
        assert_eq!(n.budget_units, units);
    }
}
