use canyon_raider::phase::{FrameInput, GamePhase, PhaseAction};
use canyon_raider::scores::Scores;

fn keys(space: bool, enter: bool, escape: bool, backspace: bool, typed: &str) -> FrameInput {
    FrameInput { space, enter, escape, backspace, typed: typed.chars().collect() }
}

fn full_board() -> Scores {
    let mut s = Scores::new();
    for i in 1u32..=5 {
        s.insert(format!("P{i}"), i * 100);
    }
    s
}

#[test]
fn death_with_qualifying_score_opens_name_prompt() {
    let s = Scores::new();
    match GamePhase::after_death(&s, 0) {
        GamePhase::EnteringName { score, buf } => {
            assert_eq!(score, 0);
            assert!(buf.is_empty());
        }
        _ => panic!("expected the name prompt"),
    }
}

#[test]
fn death_with_low_score_shows_game_over() {
    let s = full_board();
    assert!(matches!(GamePhase::after_death(&s, 100), GamePhase::Dead { score: 100 }));
    assert!(matches!(GamePhase::after_death(&s, 101), GamePhase::EnteringName { score: 101, .. }));
}

#[test]
fn space_starts_run_from_title() {
    let (p, a) = GamePhase::Title.on_keys(&keys(true, false, false, false, ""));
    assert!(matches!(p, GamePhase::Playing));
    assert_eq!(a, PhaseAction::StartRun);
    let (p, a) = GamePhase::Title.on_keys(&keys(false, true, false, false, "x"));
    assert!(matches!(p, GamePhase::Title));
    assert_eq!(a, PhaseAction::Stay);
}

#[test]
fn space_leaves_game_over_for_title() {
    let (p, _) = GamePhase::Dead { score: 9 }.on_keys(&keys(true, false, false, false, ""));
    assert!(matches!(p, GamePhase::Title));
    let (p, _) = GamePhase::Dead { score: 9 }.on_keys(&keys(false, false, false, false, ""));
    assert!(matches!(p, GamePhase::Dead { score: 9 }));
}

#[test]
fn playing_is_left_to_the_flight() {
    let (p, a) = GamePhase::Playing.on_keys(&keys(true, true, true, true, "abc"));
    assert!(matches!(p, GamePhase::Playing));
    assert_eq!(a, PhaseAction::Stay);
}

fn name_of(p: &GamePhase) -> String {
    match p {
        GamePhase::EnteringName { buf, .. } => buf.clone(),
        _ => panic!("expected the name prompt"),
    }
}

#[test]
fn name_prompt_takes_printable_characters_up_to_eight() {
    let p = GamePhase::EnteringName { score: 5, buf: String::new() };
    let (p, _) = p.on_keys(&keys(false, false, false, false, "AB|C\nD\u{e9}EFGHIJK"));
    assert_eq!(name_of(&p), "ABCDEFGH");
}

#[test]
fn name_prompt_backspace_removes_last_character() {
    let p = GamePhase::EnteringName { score: 5, buf: "LE".into() };
    let (p, _) = p.on_keys(&keys(false, false, false, true, "S"));
    assert_eq!(name_of(&p), "LE");
    let p = GamePhase::EnteringName { score: 5, buf: String::new() };
    let (p, _) = p.on_keys(&keys(false, false, false, true, ""));
    assert_eq!(name_of(&p), "");
}

#[test]
fn enter_with_name_saves_score() {
    let mut s = Scores::new();
    let p = GamePhase::EnteringName { score: 4200, buf: "LES".into() };
    let (p, saved) = p.settle_name_entry(&keys(false, true, false, false, ""), &mut s);
    assert!(matches!(p, GamePhase::Title));
    assert!(saved);
    assert_eq!(s.serialize(), "LES|4200");
}

#[test]
fn enter_with_empty_name_or_escape_discards() {
    let mut s = Scores::new();
    let p = GamePhase::EnteringName { score: 4200, buf: String::new() };
    let (p, saved) = p.settle_name_entry(&keys(false, true, false, false, ""), &mut s);
    assert!(matches!(p, GamePhase::Title));
    assert!(!saved);
    let p = GamePhase::EnteringName { score: 4200, buf: "LES".into() };
    let (p, saved) = p.settle_name_entry(&keys(false, false, true, false, ""), &mut s);
    assert!(matches!(p, GamePhase::Title));
    assert!(!saved);
    assert_eq!(s.entries.len(), 0);
}

#[test]
fn name_prompt_waits_without_enter_or_escape() {
    let mut s = Scores::new();
    let p = GamePhase::EnteringName { score: 1, buf: "A".into() };
    let (p, saved) = p.settle_name_entry(&keys(true, false, false, false, ""), &mut s);
    assert_eq!(name_of(&p), "A");
    assert!(!saved);
    let (p, saved) = GamePhase::Dead { score: 3 }.settle_name_entry(&keys(false, true, true, false, ""), &mut s);
    assert!(matches!(p, GamePhase::Dead { score: 3 }));
    assert!(!saved);
}

#[test]
fn escape_quits_except_at_name_prompt() {
    assert!(GamePhase::Title.quits_on(true));
    assert!(GamePhase::Playing.quits_on(true));
    assert!(!GamePhase::Title.quits_on(false));
    assert!(!GamePhase::EnteringName { score: 0, buf: String::new() }.quits_on(true));
}
