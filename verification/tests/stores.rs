use daila::activities::{
    activity_options, ActivitiesStore, Activity, ActivityType, ActivityTypesStore,
};
use daila::date::Date;

fn d(year: u16, month: u8, day: u8) -> Date {
    Date::new(year, month, day).unwrap()
}

#[test]
fn fresh_ids_count_up_from_zero() {
    let mut catalog = ActivityTypesStore::new();
    assert_eq!(catalog.create_new_activity("Run".to_string()), 0);
    assert_eq!(catalog.create_new_activity("Read".to_string()), 1);
    assert_eq!(catalog.create_new_activity("Stretch".to_string()), 2);
    let types = catalog.activity_types();
    assert_eq!(types.len(), 3);
    assert_eq!(types[0].name, "Run");
    assert_eq!(types[2].id, 2);
}

#[test]
fn fresh_id_is_one_past_the_maximum() {
    let catalog_types = vec![
        ActivityType { id: 7, name: "Swim".to_string() },
        ActivityType { id: 3, name: "Cook".to_string() },
    ];
    let mut catalog = ActivityTypesStore::from_types(catalog_types);
    assert_eq!(catalog.create_new_activity("Walk".to_string()), 8);
}

#[test]
fn add_is_idempotent() {
    let mut log = ActivitiesStore::new();
    let rec = Activity::new(0, d(2024, 3, 1));
    log.add_activity(rec);
    log.add_activity(rec);
    assert_eq!(log.len(), 1);
}

#[test]
fn remove_of_absent_record_is_a_no_op() {
    let mut log = ActivitiesStore::new();
    log.add_activity(Activity::new(0, d(2024, 3, 1)));
    log.remove_activity(Activity::new(1, d(2024, 3, 1)));
    assert_eq!(log.len(), 1);
}

#[test]
fn toggle_twice_restores_the_log() {
    let mut log = ActivitiesStore::new();
    let other = Activity::new(2, d(2024, 1, 5));
    let rec = Activity::new(0, d(2024, 3, 1));
    log.add_activity(other);
    // toggle on, then off
    assert!(!log.contains(rec));
    log.add_activity(rec);
    assert!(log.contains(rec));
    assert_eq!(log.len(), 2);
    log.remove_activity(rec);
    assert!(!log.contains(rec));
    assert!(log.contains(other));
    assert_eq!(log.len(), 1);
}

#[test]
fn dates_of_one_activity_in_log_order() {
    let mut log = ActivitiesStore::new();
    log.add_activity(Activity::new(0, d(2024, 3, 1)));
    log.add_activity(Activity::new(1, d(2024, 3, 2)));
    log.add_activity(Activity::new(0, d(2024, 3, 3)));
    let t = ActivityType { id: 0, name: "Run".to_string() };
    let dates = log.activities_with_type(&t);
    assert_eq!(dates, vec![d(2024, 3, 1), d(2024, 3, 3)]);
}

#[test]
fn projection_reflects_catalog_order_and_log() {
    let catalog = ActivityTypesStore::from_types(vec![
        ActivityType { id: 4, name: "Swim".to_string() },
        ActivityType { id: 1, name: "Cook".to_string() },
    ]);
    let mut log = ActivitiesStore::new();
    log.add_activity(Activity::new(1, d(2024, 3, 1)));
    let options = activity_options(&catalog, &log, d(2024, 3, 1));
    assert_eq!(options.len(), 2);
    assert_eq!(options[0].activity_id(), 4);
    assert!(!options[0].completed());
    assert_eq!(options[1].activity_id(), 1);
    assert!(options[1].completed());
}

#[test]
fn projection_is_deterministic() {
    let catalog = ActivityTypesStore::from_types(vec![
        ActivityType { id: 0, name: "Run".to_string() },
        ActivityType { id: 1, name: "Cook".to_string() },
    ]);
    let mut log = ActivitiesStore::new();
    log.add_activity(Activity::new(0, d(2024, 3, 1)));
    let first = activity_options(&catalog, &log, d(2024, 3, 1));
    let second = activity_options(&catalog, &log, d(2024, 3, 1));
    assert_eq!(first, second);
}
