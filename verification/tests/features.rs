use reflexo_typst::features::{
    BuiltinFeature, CompileFeature, DiagFmtFeature, DiagnosticFormat, FeatureSet, FeatureSlot, LazySlot,
    SlotAllocator,
};

#[test]
fn diagnostic_format_defaults_to_human() {
    let fs = FeatureSet::new();
    assert!(matches!(DiagFmtFeature.retrieve(&fs), DiagnosticFormat::Human));
    assert!(matches!(DiagnosticFormat::default_format(), DiagnosticFormat::Human));
}

#[test]
fn diagnostic_format_round_trips() {
    let fs = FeatureSet::new().configure(&DiagFmtFeature, DiagnosticFormat::Short);
    assert!(matches!(DiagFmtFeature.retrieve(&fs), DiagnosticFormat::Short));
    assert_eq!(fs.slot(FeatureSlot(0)).map(|s| s.as_str()), Some("s"));
    let fs = fs.configure(&DiagFmtFeature, DiagnosticFormat::Human);
    assert!(matches!(DiagFmtFeature.retrieve(&fs), DiagnosticFormat::Human));
    assert_eq!(fs.slot(FeatureSlot(0)).map(|s| s.as_str()), Some(""));
}

#[test]
fn builtin_feature_round_trips() {
    let feat = BuiltinFeature::<bool>::new(FeatureSlot(3));
    let fs = FeatureSet::new();
    assert!(!feat.retrieve(&fs));
    let fs = fs.configure(&feat, true);
    assert!(feat.retrieve(&fs));
    assert_eq!(fs.slot(FeatureSlot(3)).map(|s| s.as_str()), Some("1"));
    let fs = fs.configure(&feat, false);
    assert!(!feat.retrieve(&fs));
}

#[test]
fn configure_slot_fills_gaps_with_empty_text() {
    let fs = FeatureSet::new().configure_slot(FeatureSlot(2), "x".to_owned());
    assert_eq!(fs.slot(FeatureSlot(0)).map(|s| s.as_str()), Some(""));
    assert_eq!(fs.slot(FeatureSlot(1)).map(|s| s.as_str()), Some(""));
    assert_eq!(fs.slot(FeatureSlot(2)).map(|s| s.as_str()), Some("x"));
    assert!(fs.slot(FeatureSlot(3)).is_none());
}

#[test]
fn features_in_different_slots_are_independent() {
    let feat = BuiltinFeature::<bool>::new(FeatureSlot(1));
    let fs = FeatureSet::new()
        .configure(&DiagFmtFeature, DiagnosticFormat::Short)
        .configure(&feat, true);
    assert!(matches!(DiagFmtFeature.retrieve(&fs), DiagnosticFormat::Short));
    assert!(feat.retrieve(&fs));
    let fs = fs.configure(&DiagFmtFeature, DiagnosticFormat::Human);
    assert!(feat.retrieve(&fs));
}

#[test]
fn clone_set_copies_every_slot() {
    let fs = FeatureSet::new().configure_slot(FeatureSlot(1), "v".to_owned());
    let copy = fs.clone_set();
    assert_eq!(copy.slot(FeatureSlot(1)).map(|s| s.as_str()), Some("v"));
    assert_eq!(copy.slot(FeatureSlot(0)).map(|s| s.as_str()), Some(""));
}

#[test]
fn lazy_slots_are_allocated_once_in_order() {
    let mut alloc = SlotAllocator::new();
    let mut a = LazySlot::new();
    let mut b = LazySlot::new();
    assert_eq!(a.get(&mut alloc).0, 1);
    assert_eq!(b.get(&mut alloc).0, 2);
    assert_eq!(a.get(&mut alloc).0, 1);
    assert_eq!(alloc.next, 3);
    let mut last = SlotAllocator { next: u16::MAX };
    assert_eq!(last.allocate().0, u16::MAX);
    assert_eq!(last.next, 0);
}
