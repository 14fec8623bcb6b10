use calc_spreadsheet::schedule::{resolve_thresholds, should_use_parallel, WorkTable};
use calc_spreadsheet::ParallelThresholds;

#[test]
fn narrow_light_layer_stays_sequential() {
    let layer: Vec<String> = (0..40).map(|i| format!("C{i}")).collect();
    let mut refs = WorkTable::new();
    for name in &layer {
        refs.insert(name.clone(), 10);
    }
    assert!(!should_use_parallel(&layer, &refs, ParallelThresholds::default()));
}

#[test]
fn wide_heavy_layer_uses_parallel() {
    let thresholds = ParallelThresholds::default();
    let layer: Vec<String> = (0..thresholds.min_layer_width).map(|i| format!("C{i}")).collect();
    let refs_per = thresholds.min_layer_work / thresholds.min_layer_width;
    let mut refs = WorkTable::new();
    for name in &layer {
        refs.insert(name.clone(), refs_per);
    }
    assert!(should_use_parallel(&layer, &refs, thresholds));
}

#[test]
fn wide_but_light_layer_stays_sequential() {
    let thresholds = ParallelThresholds::default();
    let layer: Vec<String> = (0..thresholds.min_layer_width).map(|i| format!("C{i}")).collect();
    let mut refs = WorkTable::new();
    for name in &layer {
        refs.insert(name.clone(), 1);
    }
    assert!(!should_use_parallel(&layer, &refs, thresholds));
}

#[test]
fn custom_low_thresholds_enable_parallel_on_small_layer() {
    let thresholds = ParallelThresholds { min_layer_width: 2, min_layer_work: 4 };
    let layer = vec!["A1".to_string(), "A2".to_string()];
    let mut refs = WorkTable::new();
    refs.insert("A1".into(), 2);
    refs.insert("A2".into(), 2);
    assert!(should_use_parallel(&layer, &refs, thresholds));
}

#[test]
fn custom_high_thresholds_keep_default_sized_layer_sequential() {
    let thresholds = ParallelThresholds { min_layer_width: usize::MAX, min_layer_work: usize::MAX };
    let defaults = ParallelThresholds::default();
    let layer: Vec<String> = (0..defaults.min_layer_width).map(|i| format!("C{i}")).collect();
    let refs_per = defaults.min_layer_work / defaults.min_layer_width;
    let mut refs = WorkTable::new();
    for name in &layer {
        refs.insert(name.clone(), refs_per);
    }
    assert!(!should_use_parallel(&layer, &refs, thresholds));
}

// --- further cases -------------------------------------------------------

#[test]
fn default_thresholds() {
    let t = ParallelThresholds::default();
    assert_eq!(t.min_layer_width, 4096);
    assert_eq!(t.min_layer_work, 327_680);
}

#[test]
fn missing_cells_count_no_work_and_sums_saturate() {
    let thresholds = ParallelThresholds { min_layer_width: 1, min_layer_work: usize::MAX };
    let layer = vec!["A1".to_string(), "A2".to_string(), "A3".to_string()];
    let mut refs = WorkTable::new();
    refs.insert("A1".into(), usize::MAX);
    refs.insert("A2".into(), 5);
    assert_eq!(refs.get("A3"), 0);
    assert!(should_use_parallel(&layer, &refs, thresholds));
    let exact = ParallelThresholds { min_layer_width: 3, min_layer_work: 7 };
    let mut small = WorkTable::new();
    small.insert("A1".into(), 3);
    small.insert("A2".into(), 4);
    assert!(should_use_parallel(&layer, &small, exact));
    let above = ParallelThresholds { min_layer_width: 3, min_layer_work: 8 };
    assert!(!should_use_parallel(&layer, &small, above));
}

#[test]
fn thresholds_from_overrides() {
    let t = resolve_thresholds(None, None).unwrap();
    assert_eq!(t, ParallelThresholds::default());
    let t = resolve_thresholds(Some(2), None).unwrap();
    assert_eq!(t, ParallelThresholds { min_layer_width: 2, min_layer_work: 327_680 });
    let t = resolve_thresholds(Some(0), Some(7)).unwrap();
    assert_eq!(t, ParallelThresholds { min_layer_width: 0, min_layer_work: 7 });
    assert_eq!(resolve_thresholds(Some(-1), Some(-1)).unwrap_err(), "min_layer_width must be >= 0");
    assert_eq!(resolve_thresholds(None, Some(-5)).unwrap_err(), "min_layer_work must be >= 0");
}
