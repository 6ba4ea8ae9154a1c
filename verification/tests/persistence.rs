use daila::activities::{ActivitiesStore, Activity, ActivityType, ActivityTypesStore};
use daila::date::Date;

fn d(year: u16, month: u8, day: u8) -> Date {
    Date::new(year, month, day).unwrap()
}

#[test]
fn catalog_survives_a_save_and_reload() {
    let catalog = ActivityTypesStore::from_types(vec![
        ActivityType { id: 0, name: "Meditate".to_string() },
        ActivityType { id: 3, name: "Run far".to_string() },
        ActivityType { id: 1, name: "".to_string() },
    ]);
    let text = catalog.encode();
    let reloaded = ActivityTypesStore::decode(&text).unwrap();
    let types = reloaded.activity_types();
    assert_eq!(types.len(), 3);
    assert_eq!(types[0].id, 0);
    assert_eq!(types[0].name, "Meditate");
    assert_eq!(types[1].id, 3);
    assert_eq!(types[1].name, "Run far");
    assert_eq!(types[2].id, 1);
    assert_eq!(types[2].name, "");
}

#[test]
fn catalog_names_may_hold_any_characters() {
    let name = "caf\u{e9} \u{2600} \u{1f3de} 0123456789:;";
    let catalog = ActivityTypesStore::from_types(vec![ActivityType {
        id: 42,
        name: name.to_string(),
    }]);
    let text = catalog.encode();
    let reloaded = ActivityTypesStore::decode(&text).unwrap();
    assert_eq!(reloaded.activity_types()[0].name, name);
}

#[test]
fn log_survives_a_save_and_reload() {
    let mut log = ActivitiesStore::new();
    log.add_activity(Activity::new(0, d(2024, 3, 1)));
    log.add_activity(Activity::new(7, d(2023, 12, 31)));
    log.add_activity(Activity::new(0, d(2024, 2, 29)));
    let text = log.encode();
    let reloaded = ActivitiesStore::decode(&text).unwrap();
    assert_eq!(reloaded.records(), log.records());
}

#[test]
fn empty_stores_round_trip() {
    let catalog = ActivityTypesStore::new();
    assert!(catalog.encode().is_empty());
    let reloaded = ActivityTypesStore::decode(&catalog.encode()).unwrap();
    assert_eq!(reloaded.activity_types().len(), 0);
    let log = ActivitiesStore::new();
    let reloaded = ActivitiesStore::decode(&log.encode()).unwrap();
    assert_eq!(reloaded.records().len(), 0);
}

#[test]
fn corrupt_catalog_text_is_rejected() {
    // too short to hold a record header
    assert!(ActivityTypesStore::decode(&"123".chars().collect()).is_none());
    // non-digit where the id belongs
    let mut text: Vec<char> = Vec::new();
    for _ in 0..40 {
        text.push('x');
    }
    assert!(ActivityTypesStore::decode(&text).is_none());
    // a name length pointing past the end
    let catalog = ActivityTypesStore::from_types(vec![ActivityType {
        id: 1,
        name: "ab".to_string(),
    }]);
    let mut text = catalog.encode();
    text.truncate(41);
    assert!(ActivityTypesStore::decode(&text).is_none());
}

#[test]
fn catalog_with_repeated_ids_is_rejected() {
    let catalog = ActivityTypesStore::from_types(vec![
        ActivityType { id: 5, name: "one".to_string() },
        ActivityType { id: 5, name: "two".to_string() },
    ]);
    assert!(ActivityTypesStore::decode(&catalog.encode()).is_none());
}

#[test]
fn corrupt_log_text_is_rejected() {
    // truncated record
    let mut log = ActivitiesStore::new();
    log.add_activity(Activity::new(0, d(2024, 3, 1)));
    let mut text = log.encode();
    text.pop();
    assert!(ActivitiesStore::decode(&text).is_none());
    // a day that is no calendar day
    let bad = ActivitiesStore::from_records(vec![Activity {
        activity_id: 0,
        date: Date { year: 2023, month: 2, day: 29 },
    }]);
    assert!(ActivitiesStore::decode(&bad.encode()).is_none());
}

#[test]
fn log_with_repeated_records_is_rejected() {
    let rec = Activity::new(4, d(2024, 1, 2));
    let log = ActivitiesStore::from_records(vec![rec, rec]);
    assert!(ActivitiesStore::decode(&log.encode()).is_none());
}
