use canyon_raider::hud::{leaderboard_lines, score_text};
use canyon_raider::palette::TimeOfDay;
use canyon_raider::scores::Scores;
use canyon_raider::world::{dither_bayer, dither_jitter, DepotSchedule};

#[test]
fn score_text_pads_to_six_digits() {
    assert_eq!(score_text(0), "000000");
    assert_eq!(score_text(4200), "004200");
    assert_eq!(score_text(123456), "123456");
    assert_eq!(score_text(1234567), "1234567");
    assert_eq!(score_text(4200), format!("{:06}", 4200));
}

#[test]
fn leaderboard_of_empty_board_shows_dashes() {
    let lines = leaderboard_lines(&Scores::new());
    assert_eq!(lines.len(), 5);
    assert_eq!(lines[0], "1. ---      000000");
    assert_eq!(lines[4], "5. ---      000000");
}

#[test]
fn leaderboard_shows_rows_best_first() {
    let mut s = Scores::new();
    s.insert("ACE".into(), 3100);
    s.insert("LES".into(), 4200);
    s.insert("LONGNAME9".into(), 7);
    let lines = leaderboard_lines(&s);
    assert_eq!(lines[0], format!("{}. {:<8} {:>06}", 1, "LES", 4200));
    assert_eq!(lines[1], "2. ACE      003100");
    assert_eq!(lines[2], "3. LONGNAME9 000007");
    assert_eq!(lines[3], "4. ---      000000");
}

#[test]
fn theme_cycle_and_names() {
    let order = [TimeOfDay::Dawn, TimeOfDay::Midday, TimeOfDay::Dusk, TimeOfDay::Night];
    for n in 0..12usize {
        assert_eq!(TimeOfDay::from_cycle(n), order[n % 4]);
    }
    assert_eq!(TimeOfDay::Dawn.name(), "DAWN");
    assert_eq!(TimeOfDay::Midday.name(), "MIDDAY");
    assert_eq!(TimeOfDay::Dusk.name(), "DUSK");
    assert_eq!(TimeOfDay::Night.name(), "NIGHT");
}

#[test]
fn first_depot_after_fifteen_slices() {
    let mut d = DepotSchedule::new();
    for _ in 0..15 {
        assert!(!d.advance());
    }
    assert!(d.advance());
    assert!(d.countdown >= 12 && d.countdown < 28);
}

#[test]
fn depot_gaps_stay_in_range() {
    let mut d = DepotSchedule::new();
    let mut gap = 0u32;
    let mut depots = 0;
    for _ in 0..2000 {
        if d.advance() {
            if depots > 0 {
                assert!((12..28).contains(&gap), "gap {gap}");
            }
            depots += 1;
            gap = 0;
        } else {
            gap += 1;
        }
    }
    assert!(depots > 50);
}

#[test]
fn advance_with_restarts_from_given_interval() {
    let mut d = DepotSchedule { countdown: 0 };
    assert!(d.advance_with(20));
    assert_eq!(d.countdown, 20);
    assert!(!d.advance_with(3));
    assert_eq!(d.countdown, 19);
}

#[test]
fn bayer_is_a_checkerboard() {
    assert!(dither_bayer(0, 0));
    assert!(!dither_bayer(1, 0));
    assert!(!dither_bayer(0, 1));
    assert!(dither_bayer(1, 1));
    assert!(dither_bayer(-3, 1));
    assert!(!dither_bayer(-4, 1));
}

#[test]
fn jitter_matches_wrapping_formula() {
    for cx in -40i32..40 {
        for cy in [-100000i32, -7, 0, 3, 1 << 20, i32::MAX, i32::MIN] {
            let expected = ((cx.wrapping_mul(7919) ^ cy.wrapping_mul(6151)) & 0xff) as u8;
            assert_eq!(dither_jitter(cx, cy), expected);
        }
    }
}
