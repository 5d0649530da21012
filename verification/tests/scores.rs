use canyon_raider::scores::{Entry, Scores};

#[test]
fn serialize_empty_is_empty_string() {
    let s = Scores::new();
    assert_eq!(s.serialize(), "");
}

#[test]
fn serialize_single_entry() {
    let mut s = Scores::new();
    s.entries.push(Entry { name: "LES".into(), score: 4200 });
    assert_eq!(s.serialize(), "LES|4200");
}

#[test]
fn serialize_multiple_entries() {
    let mut s = Scores::new();
    s.entries.push(Entry { name: "LES".into(), score: 4200 });
    s.entries.push(Entry { name: "ACE".into(), score: 3100 });
    assert_eq!(s.serialize(), "LES|4200\nACE|3100");
}

#[test]
fn parse_empty_string_gives_empty_board() {
    let s = Scores::parse("");
    assert_eq!(s.entries.len(), 0);
}

#[test]
fn parse_valid_lines() {
    let s = Scores::parse("LES|4200\nACE|3100");
    assert_eq!(s.entries.len(), 2);
    assert_eq!(s.entries[0].name, "LES");
    assert_eq!(s.entries[0].score, 4200);
    assert_eq!(s.entries[1].name, "ACE");
    assert_eq!(s.entries[1].score, 3100);
}

#[test]
fn parse_skips_malformed_lines() {
    let s = Scores::parse("LES|4200\nbad_line\nACE|3100");
    assert_eq!(s.entries.len(), 2);
}

#[test]
fn parse_skips_non_numeric_score() {
    let s = Scores::parse("LES|abc");
    assert_eq!(s.entries.len(), 0);
}

#[test]
fn round_trip() {
    let raw = "LES|4200\nACE|3100";
    assert_eq!(Scores::parse(raw).serialize(), raw);
}

#[test]
fn is_high_score_when_board_empty() {
    assert!(Scores::new().is_high_score(0));
}

#[test]
fn is_high_score_when_fewer_than_five_entries() {
    let mut s = Scores::new();
    s.entries.push(Entry { name: "A".into(), score: 100 });
    assert!(s.is_high_score(1));
}

#[test]
fn is_high_score_beats_last_on_full_board() {
    let mut s = Scores::new();
    for i in (1u32..=5).rev() {
        s.entries.push(Entry { name: "X".into(), score: i * 100 });
    }
    assert!(s.is_high_score(101));
    assert!(!s.is_high_score(100));
    assert!(!s.is_high_score(50));
}

#[test]
fn insert_keeps_sorted_descending() {
    let mut s = Scores::new();
    s.insert("B".into(), 200);
    s.insert("A".into(), 300);
    s.insert("C".into(), 100);
    assert_eq!(s.entries[0].score, 300);
    assert_eq!(s.entries[1].score, 200);
    assert_eq!(s.entries[2].score, 100);
}

#[test]
fn insert_trims_to_five() {
    let mut s = Scores::new();
    for i in 0..7u32 {
        s.insert(format!("P{i}"), i * 100);
    }
    assert_eq!(s.entries.len(), 5);
    assert_eq!(s.entries[0].score, 600);
    assert_eq!(s.entries[4].score, 200);
}

#[test]
fn entries_returns_slice() {
    let mut s = Scores::new();
    s.insert("X".into(), 42);
    assert_eq!(s.entries().len(), 1);
    assert_eq!(s.entries()[0].score, 42);
}

#[test]
fn insert_equal_score_goes_after_earlier_rows() {
    let mut s = Scores::new();
    s.insert("OLD".into(), 500);
    s.insert("NEW".into(), 500);
    assert_eq!(s.entries[0].name, "OLD");
    assert_eq!(s.entries[1].name, "NEW");
}

#[test]
fn insert_sorts_an_unsorted_board_stably() {
    let mut s = Scores::parse("A|1\nB|3\nC|1\nD|2\nE|3\nF|9");
    s.insert("G".into(), 2);
    let names: Vec<&str> = s.entries.iter().map(|e| e.name.as_str()).collect();
    assert_eq!(names, vec!["F", "B", "E", "D", "G"]);
}

#[test]
fn qualifying_score_lands_on_full_board() {
    let mut s = Scores::new();
    for i in 1u32..=5 {
        s.insert(format!("P{i}"), i * 100);
    }
    assert!(s.is_high_score(150));
    s.insert("NEW".into(), 150);
    assert!(s.entries.iter().any(|e| e.name == "NEW" && e.score == 150));
    assert_eq!(s.entries.len(), 5);
}

#[test]
fn non_qualifying_score_leaves_board() {
    let mut s = Scores::new();
    for i in 1u32..=5 {
        s.insert(format!("P{i}"), i * 100);
    }
    let before = s.serialize();
    assert!(!s.is_high_score(100));
    s.insert("LOW".into(), 100);
    assert_eq!(s.serialize(), before);
}

#[test]
fn parse_accepts_plus_sign_and_leading_zeros() {
    let s = Scores::parse("A|+42\nB|007");
    assert_eq!(s.entries.len(), 2);
    assert_eq!(s.entries[0].score, 42);
    assert_eq!(s.entries[1].score, 7);
}

#[test]
fn parse_rejects_signs_and_overflow() {
    let s = Scores::parse("A|-1\nB|+\nC|\nD|4294967296\nE|4294967295");
    assert_eq!(s.entries.len(), 1);
    assert_eq!(s.entries[0].name, "E");
    assert_eq!(s.entries[0].score, u32::MAX);
}

#[test]
fn parse_splits_at_first_bar() {
    let s = Scores::parse("A|B|5\n|7");
    assert_eq!(s.entries.len(), 1);
    assert_eq!(s.entries[0].name, "");
    assert_eq!(s.entries[0].score, 7);
}

#[test]
fn parse_handles_crlf_and_trailing_newline() {
    let s = Scores::parse("LES|4200\r\nACE|3100\n");
    assert_eq!(s.entries.len(), 2);
    assert_eq!(s.entries[1].score, 3100);
    let t = Scores::parse("LES|4200\r");
    assert_eq!(t.entries.len(), 0);
}

#[test]
fn round_trip_of_inserted_board() {
    let mut s = Scores::new();
    s.insert("ZED".into(), 7);
    s.insert("ANNA BEL".into(), 0);
    s.insert("Q".into(), u32::MAX);
    let text = s.serialize();
    assert_eq!(text, "Q|4294967295\nZED|7\nANNA BEL|0");
    assert_eq!(Scores::parse(&text).serialize(), text);
}
