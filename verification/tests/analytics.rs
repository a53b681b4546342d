use overengineering::models::{Hit, NewHit, SiteStats};

fn hit(id: i32, visitor: u8, slug: &str, timestamp: i64) -> Hit {
    Hit { id, ip_hash: vec![visitor, 0xab], slug: slug.to_string(), timestamp }
}

fn numbers(record: &SiteStats) -> (i32, i32, i32, i32) {
    (
        record.first_visit_users,
        record.returning_users,
        record.total_unique_visitors,
        record.driven_to_others,
    )
}

fn computed(hits: Vec<Hit>) -> Vec<SiteStats> {
    SiteStats::fetch(&hits).expect("the log has few visitors")
}

fn of<'a>(stats: &'a [SiteStats], slug: &str) -> &'a SiteStats {
    let matching: Vec<&SiteStats> = stats.iter().filter(|record| record.slug == slug).collect();
    assert_eq!(matching.len(), 1);
    matching[0]
}

#[test]
fn visitor_who_moves_on_is_driven() {
    let stats = computed(vec![hit(1, 1, "A", 100), hit(2, 1, "B", 200)]);
    assert_eq!(stats.len(), 2);
    assert_eq!(numbers(of(&stats, "A")), (1, 0, 1, 1));
    assert_eq!(numbers(of(&stats, "B")), (0, 1, 1, 0));
}

#[test]
fn repeated_visit_counts_once() {
    let stats = computed(vec![hit(1, 1, "A", 100), hit(2, 1, "A", 200)]);
    assert_eq!(stats.len(), 1);
    assert_eq!(stats[0].slug, "A");
    assert_eq!(numbers(&stats[0]), (1, 0, 1, 0));
}

#[test]
fn empty_log_has_no_records() {
    assert!(computed(Vec::new()).is_empty());
}

#[test]
fn member_without_hits_has_no_record() {
    let stats = computed(vec![hit(1, 1, "A", 100)]);
    assert!(stats.iter().all(|record| record.slug != "B"));
}

#[test]
fn default_record_is_all_zero() {
    let record = SiteStats::default_for_slug("quiet");
    assert_eq!(record.slug, "quiet");
    assert_eq!(numbers(&record), (0, 0, 0, 0));
}

#[test]
fn records_follow_first_appearance() {
    let stats = computed(vec![
        hit(1, 1, "zeta", 1),
        hit(2, 2, "alpha", 2),
        hit(3, 3, "zeta", 3),
        hit(4, 1, "mid", 4),
    ]);
    let slugs: Vec<&str> = stats.iter().map(|record| record.slug.as_str()).collect();
    assert_eq!(slugs, vec!["zeta", "alpha", "mid"]);
}

#[test]
fn entry_goes_by_row_identifier() {
    // The hit with the lowest row identifier is the entry, wherever it stands.
    let stats = computed(vec![hit(9, 1, "B", 50), hit(3, 1, "A", 900)]);
    assert_eq!(numbers(of(&stats, "A")), (1, 0, 1, 1));
    assert_eq!(numbers(of(&stats, "B")), (0, 1, 1, 0));
}

#[test]
fn equal_identifiers_go_by_position() {
    let stats = computed(vec![hit(5, 1, "B", 50), hit(5, 1, "A", 10)]);
    assert_eq!(numbers(of(&stats, "B")), (1, 0, 1, 1));
    assert_eq!(numbers(of(&stats, "A")), (0, 1, 1, 0));
}

#[test]
fn visitors_differ_by_their_whole_digest() {
    let mut short = hit(1, 1, "A", 1);
    short.ip_hash = vec![1];
    let mut long = hit(2, 1, "A", 2);
    long.ip_hash = vec![1, 0];
    let stats = computed(vec![short, long]);
    assert_eq!(numbers(&stats[0]), (2, 0, 2, 0));
}

fn sample_log() -> Vec<Hit> {
    vec![
        hit(1, 1, "A", 1),
        hit(2, 2, "A", 2),
        hit(3, 1, "B", 3),
        hit(4, 3, "B", 4),
        hit(5, 2, "A", 5),
        hit(6, 3, "C", 6),
        hit(7, 3, "A", 7),
        hit(8, 4, "C", 8),
        hit(9, 1, "C", 9),
        hit(10, 5, "D", 10),
    ]
}

#[test]
fn sample_log_has_the_expected_numbers() {
    let stats = computed(sample_log());
    assert_eq!(stats.len(), 4);
    // Entries: visitors 1 and 2 at A, 3 at B, 4 at C, 5 at D.
    assert_eq!(numbers(of(&stats, "A")), (2, 1, 3, 1));
    assert_eq!(numbers(of(&stats, "B")), (1, 1, 2, 1));
    assert_eq!(numbers(of(&stats, "C")), (1, 2, 3, 0));
    assert_eq!(numbers(of(&stats, "D")), (1, 0, 1, 0));
}

#[test]
fn first_visits_add_up_to_the_visitors() {
    let stats = computed(sample_log());
    let first: i32 = stats.iter().map(|record| record.first_visit_users).sum();
    assert_eq!(first, 5);
}

#[test]
fn total_is_first_plus_returning() {
    for record in computed(sample_log()) {
        assert_eq!(
            record.total_unique_visitors,
            record.first_visit_users + record.returning_users
        );
    }
}

#[test]
fn driven_never_exceeds_first() {
    for record in computed(sample_log()) {
        assert!(record.driven_to_others <= record.first_visit_users);
        assert!(record.driven_to_others >= 0);
    }
}

#[test]
fn log_with_few_visitors_gives_statistics() {
    assert!(SiteStats::fetch(&sample_log()).is_ok());
    assert!(SiteStats::fetch(&Vec::new()).is_ok());
}

#[test]
fn new_hit_holds_what_is_appended() {
    let digest = [7u8, 8, 9];
    let new_hit = NewHit { slug: "A", ip_hash: &digest, timestamp: 1_700_000_000_000_000 };
    assert_eq!(new_hit.slug, "A");
    assert_eq!(new_hit.ip_hash, &[7u8, 8, 9]);
    assert_eq!(new_hit.timestamp, 1_700_000_000_000_000);
}
