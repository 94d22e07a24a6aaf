use spellsearch::report::report;
use spellsearch::spells::{Catalog, SearchError, SpellRecord};

fn rec(name: &str, damage: i32, enabled: bool) -> SpellRecord {
    SpellRecord { name: name.to_string(), damage, enabled }
}

#[test]
fn build_filters_and_sorts_stably() {
    let records = vec![
        rec("weak", 10, true),
        rec("off", 50, false),
        rec("first fifty", 50, true),
        rec("second fifty", 50, true),
    ];
    let catalog = Catalog::build(records).unwrap();
    assert_eq!(catalog.len(), 3);
    assert_eq!(catalog.name_at(0).as_str(), "first fifty");
    assert_eq!(catalog.damage_at(0), 50);
    assert_eq!(catalog.name_at(1).as_str(), "second fifty");
    assert_eq!(catalog.damage_at(1), 50);
    assert_eq!(catalog.name_at(2).as_str(), "weak");
    assert_eq!(catalog.damage_at(2), 10);
}

#[test]
fn build_rejects_empty_selection() {
    let records = vec![rec("off", 50, false)];
    match Catalog::build(records) {
        Err(SearchError::EmptyCatalog) => {}
        _ => panic!("expected the empty-catalog error"),
    }
}

#[test]
fn build_rejects_no_records_at_all() {
    match Catalog::build(Vec::new()) {
        Err(SearchError::EmptyCatalog) => {}
        _ => panic!("expected the empty-catalog error"),
    }
}

#[test]
fn build_rejects_non_positive_damage() {
    let records = vec![rec("broken", 0, true)];
    match Catalog::build(records) {
        Err(SearchError::InvalidConfiguration) => {}
        _ => panic!("expected the invalid-configuration error"),
    }
}

#[test]
fn build_ignores_disabled_non_positive_damage() {
    let records = vec![rec("broken", -3, false), rec("fine", 4, true)];
    let catalog = Catalog::build(records).unwrap();
    assert_eq!(catalog.len(), 1);
    assert_eq!(catalog.name_at(0).as_str(), "fine");
}

#[test]
fn report_run_length_encodes_in_application_order() {
    let records = vec![rec("c", 50, true), rec("d", 50, true), rec("a", 10, true)];
    let catalog = Catalog::build(records).unwrap();
    let path: Vec<usize> = vec![0, 0, 1, 0, 2, 2];
    let r = report(&catalog, &path, 3);
    assert_eq!(r.remainder, 3);
    assert_eq!(r.entries.len(), 4);
    assert_eq!(r.entries[0].name, "c");
    assert_eq!(r.entries[0].count, 2);
    assert_eq!(r.entries[0].subtotal, 100);
    assert_eq!(r.entries[1].name, "d");
    assert_eq!(r.entries[1].count, 1);
    assert_eq!(r.entries[1].subtotal, 50);
    assert_eq!(r.entries[2].name, "c");
    assert_eq!(r.entries[2].count, 1);
    assert_eq!(r.entries[2].subtotal, 50);
    assert_eq!(r.entries[3].name, "a");
    assert_eq!(r.entries[3].count, 2);
    assert_eq!(r.entries[3].subtotal, 20);
}

#[test]
fn report_empty_path_is_no_solution() {
    let catalog = Catalog::build(vec![rec("a", 10, true)]).unwrap();
    let path: Vec<usize> = Vec::new();
    let r = report(&catalog, &path, 7);
    assert!(r.entries.is_empty());
    assert_eq!(r.remainder, 7);
}

#[test]
fn report_is_idempotent_and_does_not_mutate() {
    let records = vec![rec("c", 50, true), rec("a", 10, true)];
    let catalog = Catalog::build(records).unwrap();
    let path: Vec<usize> = vec![0, 1, 1];
    let path_copy = path.clone();
    let first = report(&catalog, &path, 5);
    let second = report(&catalog, &path, 5);
    assert_eq!(path, path_copy);
    assert_eq!(first.remainder, second.remainder);
    assert_eq!(first.entries.len(), second.entries.len());
    for (a, b) in first.entries.iter().zip(second.entries.iter()) {
        assert_eq!(a.name, b.name);
        assert_eq!(a.count, b.count);
        assert_eq!(a.subtotal, b.subtotal);
    }
}
