use overengineering::health::{check_health, scan_embeds, Health};

const PREFIX: &str = "https://overengineering.kognise.dev/embed/";

fn mismatch(health: Health) -> String {
    match health {
        Health::SlugMismatch(observed) => observed,
        _ => panic!("expected a slug mismatch"),
    }
}

#[test]
fn mismatching_slug_is_reported() {
    let body = "<a href='https://overengineering.kognise.dev/embed/other-slug'>ring</a>";
    assert_eq!(mismatch(check_health(Some(body), "my-slug")), "other-slug");
}

#[test]
fn body_without_embed_is_missing() {
    assert!(matches!(check_health(Some("<html></html>"), "my-slug"), Health::NoWebringEmbed));
    assert!(matches!(check_health(Some(""), "my-slug"), Health::NoWebringEmbed));
}

#[test]
fn failed_request_is_unreachable() {
    assert!(matches!(check_health(None, "my-slug"), Health::SiteUnreachable));
}

#[test]
fn matching_embed_is_healthy() {
    let body = format!("<iframe src=\"{}my-slug\"></iframe>", PREFIX);
    assert!(matches!(check_health(Some(&body), "my-slug"), Health::Healthy));
}

#[test]
fn every_terminator_ends_the_slug() {
    for end in ["'", "\"", "?text_color=red"] {
        let body = format!("x{}my-slug{} y", PREFIX, end);
        assert!(matches!(scan_embeds(&body, "my-slug"), Health::Healthy));
    }
}

#[test]
fn end_of_body_ends_the_slug() {
    let body = format!("{}my-slug", PREFIX);
    assert!(matches!(scan_embeds(&body, "my-slug"), Health::Healthy));
    assert_eq!(mismatch(scan_embeds(&body, "my")), "my-slug");
    assert_eq!(mismatch(scan_embeds(PREFIX, "my-slug")), "");
}

#[test]
fn slug_is_capped_at_64_characters() {
    let long = "a".repeat(70);
    let body = format!("{}{}'", PREFIX, long);
    assert_eq!(mismatch(scan_embeds(&body, "my-slug")), "a".repeat(64));
    assert!(matches!(scan_embeds(&body, &"a".repeat(64)), Health::Healthy));
    let exact = format!("{}{}'", PREFIX, "b".repeat(64));
    assert!(matches!(scan_embeds(&exact, &"b".repeat(64)), Health::Healthy));
}

#[test]
fn cap_counts_characters_not_bytes() {
    let long = "é".repeat(70);
    let body = format!("{}{}'", PREFIX, long);
    assert_eq!(mismatch(scan_embeds(&body, "my-slug")), "é".repeat(64));
}

#[test]
fn first_mismatch_wins() {
    let body = format!("{p}my-slug' {p}second' {p}third'", p = PREFIX);
    assert_eq!(mismatch(scan_embeds(&body, "my-slug")), "second");
}

#[test]
fn all_embeds_must_match() {
    let body = format!("{p}my-slug' {p}my-slug\" {p}my-slug?x", p = PREFIX);
    assert!(matches!(scan_embeds(&body, "my-slug"), Health::Healthy));
}

#[test]
fn prefix_cut_short_is_no_embed() {
    let body = "https://overengineering.kognise.dev/embed";
    assert!(matches!(scan_embeds(body, "my-slug"), Health::NoWebringEmbed));
}

#[test]
fn non_ascii_body_is_scanned() {
    let body = format!("héllo wörld — {}my-slug'", PREFIX);
    assert!(matches!(scan_embeds(&body, "my-slug"), Health::Healthy));
}

#[test]
fn duplicate_keeps_the_status() {
    let status = Health::SlugMismatch("elsewhere".to_string());
    assert_eq!(mismatch(status.duplicate()), "elsewhere");
    assert!(matches!(Health::Healthy.duplicate(), Health::Healthy));
    assert!(matches!(Health::SiteUnreachable.duplicate(), Health::SiteUnreachable));
    assert!(matches!(Health::NoWebringEmbed.duplicate(), Health::NoWebringEmbed));
}
