use top_cards::{
    days_since_epoch, epoch_day, extract_date_from_path, file_date_of_path, finish_search,
    format_matches, path_age_days, path_within_age, process_file, record_matches, search_file_for_decks,
    AgedTally, Card, CardCriterion, Deck, DecklistFile, Tournament,
};

fn today_days() -> i64 {
    let secs = std::time::SystemTime::now()
        .duration_since(std::time::UNIX_EPOCH)
        .unwrap()
        .as_secs();
    epoch_day(secs)
}

fn cards(list: &[(u32, &str)]) -> Vec<Card> {
    list.iter().map(|(count, name)| Card { count: *count, name: name.to_string() }).collect()
}

/// The record: Modern, "Test Tournament", 2025-01-10, decks of Alice and Bob.
fn sample_tournament() -> DecklistFile {
    DecklistFile {
        tournament: Tournament {
            format: Some("Modern".to_string()),
            name: Some("Test Tournament".to_string()),
            date: Some("2025-01-10".to_string()),
        },
        decks: Some(vec![
            Deck {
                player: Some("Alice".to_string()),
                result: Some("1st".to_string()),
                url: None,
                mainboard: Some(cards(&[
                    (4, "Lightning Bolt"),
                    (4, "Ragavan, Nimble Pilferer"),
                    (20, "Mountain"),
                ])),
                sideboard: Some(cards(&[(2, "Blood Moon")])),
            },
            Deck {
                player: Some("Bob".to_string()),
                result: Some("2nd".to_string()),
                url: None,
                mainboard: Some(cards(&[(2, "Lightning Bolt"), (4, "Thoughtseize"), (20, "Swamp")])),
                sideboard: Some(vec![]),
            },
        ]),
    }
}

const SAMPLE_PATH: &str = "/tmp/corpus/2025/01/10/tournament.json";

fn bolt_record(format: &str, count: u32) -> DecklistFile {
    DecklistFile {
        tournament: Tournament { format: Some(format.to_string()), name: None, date: None },
        decks: Some(vec![Deck {
            player: None,
            result: None,
            url: None,
            mainboard: Some(cards(&[(count, "Lightning Bolt")])),
            sideboard: None,
        }]),
    }
}

fn path_for_day(day: i64) -> String {
    // Months and days are not validated, so a day past 30 in December fills the counter's gap
    // at the end of each year.
    for year in 1970..3000 {
        let off = day - days_since_epoch(year, 1, 0);
        if (1..=429).contains(&off) {
            let month = std::cmp::min(12, 1 + (off - 1) / 30);
            let d = off - (month - 1) * 30;
            let path = format!("/corpus/{:04}/{:02}/{:02}/t.json", year, month, d);
            assert_eq!(path_age_days(&path, day), Some(0));
            return path;
        }
    }
    panic!("no path for day {}", day);
}

#[test]
fn test_search_file_for_decks_finds_matching_deck() {
    let criteria = vec![CardCriterion { name: "Lightning Bolt".to_string(), count: Some(4) }];

    let matches = search_file_for_decks(
        SAMPLE_PATH,
        &sample_tournament(),
        &["Modern".to_string()],
        today_days(),
        1825,
        &criteria,
        false,
        false,
    );

    assert_eq!(matches.len(), 1);
    assert_eq!(matches[0].player, Some("Alice".to_string()));
}

#[test]
fn test_search_file_for_decks_respects_format_filter() {
    let criteria = vec![CardCriterion { name: "Lightning Bolt".to_string(), count: None }];

    // Search with wrong format
    let matches = search_file_for_decks(
        SAMPLE_PATH,
        &sample_tournament(),
        &["Standard".to_string()],
        today_days(),
        1825,
        &criteria,
        false,
        false,
    );

    assert_eq!(matches.len(), 0);
}

#[test]
fn test_process_file_aggregates_card_counts() {
    let tally = process_file(SAMPLE_PATH, &sample_tournament(), &["Modern".to_string()], today_days(), 1825)
        .unwrap();
    // No weighting: every record weighs 1.
    let weight = 1.0_f64;
    let weighted = |name: &str| tally.cards.count(name).map(|c| c as f64 * weight);

    // Lightning Bolt: 4 (Alice) + 2 (Bob) = 6
    assert_eq!(weighted("Lightning Bolt"), Some(6.0));
    // Mountain: 20 (Alice only)
    assert_eq!(weighted("Mountain"), Some(20.0));
    // Swamp: 20 (Bob only)
    assert_eq!(weighted("Swamp"), Some(20.0));
}

#[test]
fn test_extract_date_from_path() {
    let date = extract_date_from_path("/data/2025/01/15/tournament.json");
    assert_eq!(date, Some((2025, 1, 15)));

    let no_date = extract_date_from_path("/data/tournament.json");
    assert_eq!(no_date, None);
}

#[test]
fn test_days_since_epoch_ordering() {
    let day1 = days_since_epoch(2025, 1, 1);
    let day2 = days_since_epoch(2025, 1, 2);
    let day_later = days_since_epoch(2025, 6, 15);

    assert!(day2 > day1);
    assert!(day_later > day2);
}

#[test]
fn day_counter_values() {
    assert_eq!(days_since_epoch(1970, 1, 1), 1);
    assert_eq!(days_since_epoch(2025, 1, 15), 55 * 365 + 14 + 15);
    // Before 1969 the leap term rounds toward zero.
    assert_eq!(days_since_epoch(1960, 3, 1), -10 * 365 - 2 + 60 + 1);
    assert_eq!(epoch_day(86400 * 3 + 5), 3);
}

#[test]
fn first_date_segment_wins_and_is_not_validated() {
    assert_eq!(extract_date_from_path("/a/2024/13/40/b/2023/01/01/c.json"), Some((2024, 13, 40)));
    assert_eq!(extract_date_from_path("/a/202/01/01/2021/02/03/x"), Some((2021, 2, 3)));
    assert_eq!(extract_date_from_path("2025/01/15/t.json"), None);
    assert_eq!(extract_date_from_path("/2025/1/15/t.json"), None);
    let fd = file_date_of_path("/corpus/0999/02/07/t.json").unwrap();
    assert_eq!(fd.text, "0999-02-07");
    assert_eq!((fd.year, fd.month, fd.day), (999, 2, 7));
}

#[test]
fn format_patterns_match_by_lowercase_substring() {
    assert!(format_matches("Modern", &["modern".to_string()]));
    assert!(format_matches("Modern", &["mod".to_string()]));
    assert!(!format_matches("Modern", &["pioneer".to_string()]));
    assert!(format_matches("Modern League", &["Pioneer".to_string(), "MODERN".to_string()]));
    assert!(!format_matches("Modern", &[]));
    let mut no_format = sample_tournament();
    no_format.tournament.format = None;
    assert!(!record_matches(&no_format, &["".to_string()]));
}

#[test]
fn two_records_ninety_days_apart_weigh_five() {
    let today = today_days();
    let recent = path_for_day(today);
    let older = path_for_day(today - 90);
    let patterns = ["Modern".to_string()];
    let a = process_file(&recent, &bolt_record("Modern", 4), &patterns, today, 1825).unwrap();
    let b = process_file(&older, &bolt_record("Modern", 4), &patterns, today, 1825).unwrap();
    assert_eq!(a.age, 0);
    assert_eq!(b.age, 90);

    let mut total = AgedTally::from_file(a);
    total.merge(AgedTally::from_file(b));
    let half_life = 45.0_f64;
    let mut weight = 0.0_f64;
    for (age, rows) in total.groups() {
        for (name, count) in rows {
            assert_eq!(name, "Lightning Bolt");
            weight += count as f64 * 2.0_f64.powf(-(age as f64) / half_life);
        }
    }
    assert!((weight - 5.0).abs() < 1e-9);
    assert_eq!(format!("{:.2}", weight), "5.00");
}

#[test]
fn records_older_than_max_age_are_excluded() {
    let today = today_days();
    let old_path = path_for_day(today - 100);
    let patterns = ["Modern".to_string()];
    let criteria = vec![CardCriterion { name: "Lightning Bolt".to_string(), count: None }];
    assert!(process_file(&old_path, &bolt_record("Modern", 4), &patterns, today, 99).is_none());
    assert!(process_file(&old_path, &bolt_record("Modern", 4), &patterns, today, 100).is_some());
    assert_eq!(
        search_file_for_decks(&old_path, &bolt_record("Modern", 4), &patterns, today, 99, &criteria, false, false).len(),
        0
    );
    assert_eq!(
        search_file_for_decks(&old_path, &bolt_record("Modern", 4), &patterns, today, 100, &criteria, false, false).len(),
        1
    );
    assert_eq!(path_age_days(&old_path, today), Some(100));
    assert!(path_within_age(&old_path, today, 100));
    assert!(!path_within_age(&old_path, today, 99));
    assert!(!path_within_age("/undated/t.json", today, 1825));
    assert!(process_file("/no/date/here.json", &bolt_record("Modern", 4), &patterns, today, 1825).is_none());
}

#[test]
fn merge_is_order_independent() {
    let patterns = ["Modern".to_string()];
    let today = days_since_epoch(2025, 3, 1);
    let a = || process_file("/c/2025/03/01/a.json", &sample_tournament(), &patterns, today, 1825).unwrap();
    let b = || process_file("/c/2025/02/01/b.json", &bolt_record("Modern", 3), &patterns, today, 1825).unwrap();
    let c = || process_file("/c/2025/03/01/c.json", &bolt_record("Modern", 1), &patterns, today, 1825).unwrap();

    let collect = |t: AgedTally| {
        let mut rows: Vec<(i64, String, u64)> = Vec::new();
        for (age, group) in t.groups() {
            for (name, count) in group {
                rows.push((age, name, count));
            }
        }
        rows.sort();
        rows
    };
    let mut left = AgedTally::from_file(a());
    left.merge(AgedTally::from_file(b()));
    left.merge(AgedTally::from_file(c()));
    let mut bc = AgedTally::from_file(c());
    bc.merge(AgedTally::from_file(b()));
    let mut right = AgedTally::from_file(a());
    right.merge(bc);
    let l = collect(left);
    assert_eq!(l, collect(right));
    assert!(l.contains(&(0, "Lightning Bolt".to_string(), 7)));
    assert!(l.contains(&(30, "Lightning Bolt".to_string(), 3)));
    assert!(l.contains(&(0, "Blood Moon".to_string(), 2)));
}

#[test]
fn tally_keeps_first_seen_order_and_exact_case() {
    let mut record = sample_tournament();
    record.decks.as_mut().unwrap()[1].mainboard.as_mut().unwrap().push(Card { count: 1, name: "lightning bolt".to_string() });
    let t = process_file(SAMPLE_PATH, &record, &["modern".to_string()], days_since_epoch(2025, 1, 10), 10).unwrap();
    let names: Vec<String> = t.cards.entries().into_iter().map(|(n, _)| n).collect();
    assert_eq!(
        names,
        vec!["Lightning Bolt", "Ragavan, Nimble Pilferer", "Mountain", "Blood Moon", "Thoughtseize", "Swamp", "lightning bolt"]
    );
    assert_eq!(t.cards.count("lightning bolt"), Some(1));
    assert_eq!(t.cards.count("Lightning Bolt"), Some(6));
    assert_eq!(t.cards.len(), 7);
}

#[test]
fn search_reports_context_and_orders_by_date() {
    let criteria = vec![CardCriterion { name: "Lightning Bolt".to_string(), count: None }];
    let patterns = ["Modern".to_string()];
    let today = days_since_epoch(2025, 3, 1);
    let mut all = Vec::new();
    all.extend(search_file_for_decks("/c/2024/12/30/x.json", &bolt_record("Modern", 1), &patterns, today, 1825, &criteria, false, false));
    all.extend(search_file_for_decks(SAMPLE_PATH, &sample_tournament(), &patterns, today, 1825, &criteria, false, false));
    all.extend(search_file_for_decks("/c/2025/02/11/y.json", &bolt_record("Modern", 2), &patterns, today, 1825, &criteria, false, false));
    assert_eq!(all.len(), 4);
    assert_eq!(all[1].file_date, "2025-01-10");
    assert_eq!(all[1].tournament.name, Some("Test Tournament".to_string()));
    assert_eq!(all[1].mainboard.len(), 3);
    assert_eq!(all[1].sideboard.len(), 1);
    assert_eq!(all[2].player, Some("Bob".to_string()));
    assert_eq!(all[2].matched_cards[0].found_main, 2);

    let top = finish_search(all, 3);
    let dates: Vec<&str> = top.iter().map(|m| m.file_date.as_str()).collect();
    assert_eq!(dates, vec!["2025-02-11", "2025-01-10", "2025-01-10"]);
    assert_eq!(finish_search(Vec::new(), 5).len(), 0);
}
