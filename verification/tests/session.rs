use daila::activities::{ActivitiesStore, Activity, ActivityType, ActivityTypesStore};
use daila::date::Date;
use daila::session::{classify_key, Command, Daila, Step};

fn d(year: u16, month: u8, day: u8) -> Date {
    Date::new(year, month, day).unwrap()
}

fn catalog_of(ids: &[u64]) -> ActivityTypesStore {
    let types = ids
        .iter()
        .map(|&id| ActivityType { id, name: format!("activity {id}") })
        .collect();
    ActivityTypesStore::from_types(types)
}

fn session_of(ids: &[u64], active: Date) -> Daila {
    Daila::new(catalog_of(ids), ActivitiesStore::new(), active)
}

#[test]
fn empty_catalog_gets_one_default_activity() {
    let session = Daila::new(ActivityTypesStore::new(), ActivitiesStore::new(), d(2024, 3, 1));
    let types = session.activity_types.activity_types();
    assert_eq!(types.len(), 1);
    assert_eq!(types[0].id, 0);
    assert_eq!(types[0].name, "\u{1f3de}\u{fe0f}  Meditate");
    assert_eq!(session.heatmap_activity_type.id, 0);
    assert!(!session.popup_visible);
}

#[test]
fn heatmap_cursor_starts_on_the_lowest_id() {
    let session = session_of(&[5, 2, 9], d(2024, 3, 1));
    assert_eq!(session.heatmap_activity_type.id, 2);
}

#[test]
fn digit_toggles_completion_on_and_off() {
    // catalog = [{id: 0, "Meditate"}], log = {}, active date 2024-03-01
    let catalog = ActivityTypesStore::from_types(vec![ActivityType {
        id: 0,
        name: "Meditate".to_string(),
    }]);
    let mut session = Daila::new(catalog, ActivitiesStore::new(), d(2024, 3, 1));
    let today = d(2024, 3, 1);
    let step = session.dispatch(Command::Digit(1), today);
    assert_eq!(step, Step::Continue);
    assert_eq!(session.activities.len(), 1);
    assert!(session.activities.contains(Activity::new(0, d(2024, 3, 1))));
    let step = session.dispatch(Command::Digit(1), today);
    assert_eq!(step, Step::Continue);
    assert_eq!(session.activities.len(), 0);
}

#[test]
fn out_of_range_digit_is_a_no_op() {
    let mut session = session_of(&[0], d(2024, 3, 1));
    let today = d(2024, 3, 1);
    session.dispatch(Command::Digit(0), today);
    session.dispatch(Command::Digit(2), today);
    session.dispatch(Command::Digit(9), today);
    assert_eq!(session.activities.len(), 0);
}

#[test]
fn heatmap_cursor_steps_and_wraps() {
    // catalog ids [0, 1, 2] in that order, cursor on 0
    let mut session = session_of(&[0, 1, 2], d(2024, 3, 1));
    let today = d(2024, 3, 1);
    assert_eq!(session.heatmap_activity_type.id, 0);
    session.dispatch(Command::NextHeatmapActivity, today);
    assert_eq!(session.heatmap_activity_type.id, 1);
    session.dispatch(Command::PrevHeatmapActivity, today);
    session.dispatch(Command::PrevHeatmapActivity, today);
    assert_eq!(session.heatmap_activity_type.id, 2);
}

#[test]
fn heatmap_cursor_returns_after_a_full_round() {
    let mut session = session_of(&[4, 0, 7], d(2024, 3, 1));
    let today = d(2024, 3, 1);
    let start = session.heatmap_activity_type.id;
    for _ in 0..3 {
        session.dispatch(Command::NextHeatmapActivity, today);
    }
    assert_eq!(session.heatmap_activity_type.id, start);
}

#[test]
fn day_navigation_and_jump_to_today() {
    let mut session = session_of(&[0], d(2024, 2, 29));
    let today = d(2024, 6, 10);
    session.dispatch(Command::NextDay, today);
    assert_eq!(session.active_date, d(2024, 3, 1));
    session.dispatch(Command::PreviousDay, today);
    assert_eq!(session.active_date, d(2024, 2, 29));
    session.dispatch(Command::JumpToToday, today);
    assert_eq!(session.active_date, today);
}

#[test]
fn popup_toggles_without_touching_cursors() {
    let mut session = session_of(&[0, 1], d(2024, 3, 1));
    let today = d(2024, 3, 1);
    assert!(!session.popup_visible);
    session.dispatch(Command::TogglePopup, today);
    assert!(session.popup_visible);
    assert_eq!(session.active_date, d(2024, 3, 1));
    assert_eq!(session.heatmap_activity_type.id, 0);
    session.dispatch(Command::TogglePopup, today);
    assert!(!session.popup_visible);
}

#[test]
fn quit_commands_end_the_loop() {
    let mut session = session_of(&[0], d(2024, 3, 1));
    let today = d(2024, 3, 1);
    assert_eq!(session.dispatch(Command::QuitWithoutSaving, today), Step::Quit);
    assert_eq!(session.dispatch(Command::SaveAndQuit, today), Step::SaveAndQuit);
    assert_eq!(session.dispatch(Command::Other, today), Step::Continue);
}

#[test]
fn keys_classify_as_in_the_command_table() {
    assert_eq!(classify_key('q'), Command::QuitWithoutSaving);
    assert_eq!(classify_key('s'), Command::SaveAndQuit);
    assert_eq!(classify_key('p'), Command::TogglePopup);
    assert_eq!(classify_key('j'), Command::PreviousDay);
    assert_eq!(classify_key('k'), Command::NextDay);
    assert_eq!(classify_key('t'), Command::JumpToToday);
    assert_eq!(classify_key('n'), Command::PrevHeatmapActivity);
    assert_eq!(classify_key('m'), Command::NextHeatmapActivity);
    assert_eq!(classify_key('0'), Command::Digit(0));
    assert_eq!(classify_key('7'), Command::Digit(7));
    assert_eq!(classify_key('x'), Command::Other);
    assert_eq!(classify_key(' '), Command::Other);
}

#[test]
fn instructions_list_every_binding() {
    let session = session_of(&[0], d(2024, 3, 1));
    let lines = session.instructions_block();
    assert_eq!(lines.len(), 9);
    assert_eq!(lines[0], "j: previous day");
    assert_eq!(lines[8], "q: quit without saving");
}
