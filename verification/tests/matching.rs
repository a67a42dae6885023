use race_arb::matching::{canonical_race_key, group_by_race, normalize_runner, normalize_track};
use race_arb::{RaceDate, RaceKey};

#[test]
fn runner_normalize_punctuation() {
    assert_eq!(
        normalize_runner("  Thunder-Bay's  Dream  "),
        "THUNDER BAYS DREAM"
    );
    assert_eq!(normalize_runner("SEA BISCUIT"), normalize_runner("Sea Biscuit"));
    assert_eq!(normalize_runner("O'Connor"), "OCONNOR");
}

#[test]
fn track_normalize() {
    assert_eq!(normalize_track(" sa "), "SA");
    assert_eq!(normalize_track("Santa Anita"), "SANTAANITA");
}

#[test]
fn runner_separators_collapse_and_never_lead_or_trail() {
    assert_eq!(normalize_runner("-- Mr. Ed --"), "MR ED");
    assert_eq!(normalize_runner("a - . b"), "A B");
    assert_eq!(normalize_runner("Dr.Jekyll"), "DR JEKYLL");
    assert_eq!(normalize_runner("  "), "");
    assert_eq!(normalize_runner(""), "");
}

#[test]
fn runner_other_punctuation_is_dropped_without_space() {
    assert_eq!(normalize_runner("Sea,Biscuit!"), "SEABISCUIT");
    assert_eq!(normalize_runner("Sea, Biscuit"), "SEA BISCUIT");
    assert_eq!(normalize_runner("#1 Pick (IRE)"), "1 PICK IRE");
}

#[test]
fn runner_unicode_whitespace_and_case() {
    // A no-break space separates words; German sharp s upper-cases to SS.
    assert_eq!(normalize_runner("Stra\u{df}e\u{a0}Star"), "STRASSE STAR");
    assert_eq!(normalize_runner("\u{3000}Zen\u{3000}"), "ZEN");
    assert_eq!(normalize_runner("Caf\u{e9} Noir"), "CAF NOIR");
}

#[test]
fn runner_normalization_is_idempotent_on_examples() {
    for name in ["  Thunder-Bay's  Dream  ", "O'Connor", "a - . b", "Mr. Ed", ""] {
        let once = normalize_runner(name);
        assert_eq!(normalize_runner(&once), once);
    }
}

#[test]
fn track_keeps_letters_and_digits_only() {
    assert_eq!(normalize_track("Del Mar #2"), "DELMAR2");
    assert_eq!(normalize_track("\t"), "");
    assert_eq!(normalize_track(&normalize_track(" sa ")), "SA");
}

#[test]
fn canonical_key_joins_track_date_and_number() {
    let date = RaceDate::from_ymd(2026, 9, 13).unwrap();
    let race = RaceKey::new(" sa ", date, 5);
    assert_eq!(canonical_race_key(&race), "SA|2026-09-13|5");
    let other = RaceKey::new("SA", date, 5);
    assert_eq!(canonical_race_key(&race), canonical_race_key(&other));
    let later = RaceKey::new("SA", date, 15);
    assert_ne!(canonical_race_key(&race), canonical_race_key(&later));
}

#[test]
fn canonical_key_writes_years_as_chrono_does() {
    let early = RaceDate::from_ymd(7, 1, 2).unwrap();
    assert_eq!(canonical_race_key(&RaceKey::new("x", early, 0)), "X|0007-01-02|0");
    let far = RaceDate::from_ymd(10000, 12, 31).unwrap();
    assert_eq!(canonical_race_key(&RaceKey::new("x", far, 123)), "X|+10000-12-31|123");
    let before = RaceDate::from_ymd(-1, 1, 1).unwrap();
    assert_eq!(canonical_race_key(&RaceKey::new("x", before, 4294967295)), "X|-0001-01-01|4294967295");
}

#[test]
fn group_by_race_keeps_first_appearance_order() {
    let date = RaceDate::from_ymd(2026, 9, 13).unwrap();
    let items = vec![("SA", 5, 'a'), ("GG", 1, 'b'), (" sa", 5, 'c'), ("SA", 6, 'd')];
    let groups = group_by_race(items, |it: &(&str, u32, char)| RaceKey::new(it.0, date, it.1));
    assert_eq!(groups.len(), 3);
    assert_eq!(groups[0].0, "SA|2026-09-13|5");
    assert_eq!(groups[0].1.iter().map(|x| x.2).collect::<String>(), "ac");
    assert_eq!(groups[1].0, "GG|2026-09-13|1");
    assert_eq!(groups[1].1.len(), 1);
    assert_eq!(groups[2].0, "SA|2026-09-13|6");
    assert_eq!(groups[2].1[0].2, 'd');
}

#[test]
fn runner_hyphen_and_dot_match_a_space() {
    assert_eq!(normalize_runner("Mr-Ed"), normalize_runner("Mr Ed"));
    assert_eq!(normalize_runner("Mr.Ed"), normalize_runner("Mr Ed"));
    assert_eq!(normalize_runner("St. Elmo-Fire."), normalize_runner("St  Elmo Fire "));
    assert_eq!(normalize_runner("Mr-Ed"), "MR ED");
}

#[test]
fn runner_apostrophes_can_be_removed() {
    assert_eq!(normalize_runner("O'Connor"), normalize_runner("OConnor"));
    assert_eq!(normalize_runner("Bay's ' Gift'"), normalize_runner("Bays  Gift"));
    assert_eq!(normalize_runner("' Lad"), "LAD");
}

#[test]
fn runner_case_does_not_matter() {
    assert_eq!(normalize_runner("sea biscuit"), normalize_runner("SEA BISCUIT"));
    assert_eq!(normalize_runner("mIsTeR eD"), normalize_runner("Mister Ed"));
}
