use canyon_raider::cheats::Cheats;
use canyon_raider::palette::TimeOfDay;

fn typed(s: &str) -> Vec<char> {
    s.chars().collect()
}

#[test]
fn new_cheats_are_off() {
    let c = Cheats::new();
    assert!(!c.unlimited_fuel);
    assert_eq!(c.theme_override, None);
    assert_eq!(c.wind_multiplier, 1);
    assert!(c.buffer.is_empty());
}

#[test]
fn petrol_toggles_fuel_and_twice_restores_it() {
    let mut c = Cheats::new();
    c.update(&typed("petrol"));
    assert!(c.unlimited_fuel);
    assert!(c.buffer.is_empty());
    c.update(&typed("pet"));
    c.update(&typed("rol"));
    assert!(!c.unlimited_fuel);
}

#[test]
fn theme_codes_lock_and_release_theme() {
    let mut c = Cheats::new();
    c.update(&typed("111"));
    assert_eq!(c.theme_override, Some(TimeOfDay::Dawn));
    c.update(&typed("xx222"));
    assert_eq!(c.theme_override, Some(TimeOfDay::Midday));
    c.update(&typed("333"));
    assert_eq!(c.theme_override, Some(TimeOfDay::Dusk));
    c.update(&typed("444"));
    assert_eq!(c.theme_override, Some(TimeOfDay::Night));
    assert_eq!(c.current_theme(TimeOfDay::Dawn), TimeOfDay::Night);
    c.update(&typed("555"));
    assert_eq!(c.theme_override, None);
    assert_eq!(c.current_theme(TimeOfDay::Dusk), TimeOfDay::Dusk);
}

#[test]
fn baufort_codes_set_wind_multiplier() {
    let mut c = Cheats::new();
    c.update(&typed("baufort10"));
    assert_eq!(c.wind_multiplier, 10);
    c.update(&typed("baufort0"));
    assert_eq!(c.wind_multiplier, 0);
}

#[test]
fn control_characters_are_dropped_from_buffer() {
    let mut c = Cheats::new();
    c.update(&typed("pe\ntr\u{7f}ol"));
    assert!(c.unlimited_fuel);
}

#[test]
fn non_ascii_characters_are_dropped_from_buffer() {
    let mut c = Cheats::new();
    c.update(&typed("ab\u{e9}c"));
    assert_eq!(c.buffer, vec!['a', 'b', 'c']);
}

#[test]
fn buffer_keeps_last_sixteen_characters() {
    let mut c = Cheats::new();
    c.update(&typed("abcdefghijklmnopqrstuvwxyz"));
    assert_eq!(c.buffer.len(), 16);
    assert_eq!(c.buffer.iter().collect::<String>(), "klmnopqrstuvwxyz");
    c.update(&typed("petrol"));
    assert!(c.unlimited_fuel);
    assert!(c.buffer.is_empty());
}

#[test]
fn unknown_text_changes_nothing() {
    let mut c = Cheats::new();
    c.update(&typed("hello"));
    assert!(!c.unlimited_fuel);
    assert_eq!(c.wind_multiplier, 1);
    assert_eq!(c.buffer.iter().collect::<String>(), "hello");
}
