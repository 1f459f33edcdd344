use memtable::memory_management::{HazarPointerRecord, HprRegistry};

#[test]
fn test_creation_of_head_hazard_pointer_record() {
    let mut reg = HprRegistry::new();

    let hp_record = HazarPointerRecord::allocate_hp_record(&mut reg, 5);

    assert_eq!(hp_record, 0);
    assert!(reg.records[hp_record].active);
    assert_eq!(5, reg.total_hp_count);
}

#[test]
fn test_creation_of_two_hazard_pointer_record() {
    let mut reg = HprRegistry::new();

    let _hp_record = HazarPointerRecord::allocate_hp_record(&mut reg, 5);
    let hp_record = HazarPointerRecord::allocate_hp_record(&mut reg, 5);

    assert_eq!(hp_record, 1);
    assert!(reg.records[hp_record].active);
    assert_eq!(10, reg.total_hp_count);

    let mut count = 0;
    for rec in reg.records.iter() {
        if rec.active {
            count += 1;
        }
    }
    assert_eq!(count, 2);
}

#[test]
fn test_retiring_node_marks_it_inactive() {
    let mut reg = HprRegistry::new();
    let rec = HazarPointerRecord::allocate_hp_record(&mut reg, 5);

    HazarPointerRecord::protect(&mut reg, rec, 0, 10);
    HazarPointerRecord::protect(&mut reg, rec, 1, 10);

    HazarPointerRecord::retire_hp_record(&mut reg, rec);

    assert!(!reg.records[rec].active);
    assert_eq!(reg.records[rec].hazard_pointers[0], None);
    assert_eq!(reg.records[rec].hazard_pointers[1], None);
}

#[test]
fn test_retire_node_should_not_raise_exception() {
    let mut reg = HprRegistry::new();
    let rec = HazarPointerRecord::allocate_hp_record(&mut reg, 5);

    let _freed = HazarPointerRecord::retire_node(&mut reg, rec, 10, 0);
}

#[test]
fn test_released_record_is_reused() {
    let mut reg = HprRegistry::new();
    let first = HazarPointerRecord::allocate_hp_record(&mut reg, 5);
    HazarPointerRecord::retire_hp_record(&mut reg, first);
    let second = HazarPointerRecord::allocate_hp_record(&mut reg, 5);
    assert_eq!(first, second);
    assert_eq!(reg.total_hp_count, 5);
}

// A protected node survives a scan; an unprotected one is freed.
#[test]
fn test_node_pointed_by_hazard_pointer_should_not_be_freed() {
    let mut reg = HprRegistry::new();
    let rec = HazarPointerRecord::allocate_hp_record(&mut reg, 5);

    HazarPointerRecord::protect(&mut reg, rec, 0, 42);
    let freed = HazarPointerRecord::retire_node(&mut reg, rec, 42, 1);
    assert!(!freed.contains(&42));
    assert!(reg.records[rec].r_list.contains(&42));

    let freed = HazarPointerRecord::retire_node(&mut reg, rec, 77, 1);
    assert!(freed.contains(&77));
    assert!(!freed.contains(&42));
}

// Draining a released record's retired set through a helper scan frees
// what no slot protects.
#[test]
fn test_help_scan_drains_inactive_records() {
    let mut reg = HprRegistry::new();
    let first = HazarPointerRecord::allocate_hp_record(&mut reg, 5);
    let second = HazarPointerRecord::allocate_hp_record(&mut reg, 5);
    let _freed = HazarPointerRecord::retire_node(&mut reg, first, 5, 100);
    HazarPointerRecord::retire_hp_record(&mut reg, first);

    let freed = HazarPointerRecord::help_scan(&mut reg, second, 1);
    assert!(freed.contains(&5));
    assert!(reg.records[first].r_list.is_empty());
    assert!(reg.records[second].r_list.is_empty());
}

// Below the threshold nothing is scanned: the node joins the retired set
// once, and retiring it again changes nothing.
#[test]
fn test_retire_below_threshold_is_exact() {
    let mut reg = HprRegistry::new();
    let rec = HazarPointerRecord::allocate_hp_record(&mut reg, 5);

    let freed = HazarPointerRecord::retire_node(&mut reg, rec, 10, 100);
    assert!(freed.is_empty());
    assert_eq!(reg.records[rec].r_list, vec![10]);
    assert_eq!(reg.records[rec].r_count, 1);

    let freed = HazarPointerRecord::retire_node(&mut reg, rec, 10, 100);
    assert!(freed.is_empty());
    assert_eq!(reg.records[rec].r_list, vec![10]);
    assert_eq!(reg.records[rec].r_count, 1);
}

// Once the threshold is crossed, every unprotected retired node of the
// record is freed, exactly once.
#[test]
fn test_retire_at_threshold_frees_unprotected() {
    let mut reg = HprRegistry::new();
    let rec = HazarPointerRecord::allocate_hp_record(&mut reg, 5);
    HazarPointerRecord::protect(&mut reg, rec, 0, 7);

    let freed = HazarPointerRecord::retire_node(&mut reg, rec, 7, 3);
    assert!(freed.is_empty());
    let freed = HazarPointerRecord::retire_node(&mut reg, rec, 8, 3);
    assert!(freed.is_empty());
    let freed = HazarPointerRecord::retire_node(&mut reg, rec, 9, 3);
    assert_eq!(freed.len(), 2);
    assert!(freed.contains(&8) && freed.contains(&9) && !freed.contains(&7));
    assert_eq!(reg.records[rec].r_list, vec![7]);
}
