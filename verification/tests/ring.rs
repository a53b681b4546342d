use overengineering::config::{Member, MemberColors};
use overengineering::health::Health;
use overengineering::ring::{
    embed, failure_reason, index, is_healthy, random, random_candidates, LastSegment,
};

fn site(slug: &str) -> Member {
    Member {
        slug: slug.to_string(),
        name: format!("{} site", slug),
        url: format!("https://{}.example/", slug),
        colors: MemberColors {
            text: "#010101".to_string(),
            border: "#020202".to_string(),
            links: "#030303".to_string(),
            on_links: "#040404".to_string(),
        },
        font_stack: None,
        font_size: None,
        stylesheets: Vec::new(),
    }
}

fn listing() -> Vec<(Member, Option<Health>)> {
    vec![
        (site("a"), Some(Health::Healthy)),
        (site("down"), Some(Health::SiteUnreachable)),
        (site("b"), Some(Health::Healthy)),
        (site("new"), None),
        (site("c"), Some(Health::Healthy)),
        (site("wrong"), Some(Health::SlugMismatch("other".to_string()))),
        (site("bare"), Some(Health::NoWebringEmbed)),
    ]
}

fn url(slug: &str) -> String {
    format!("https://{}.example/", slug)
}

#[test]
fn last_segment_follows_the_last_slash() {
    let referer = "https://ring.example/embed/ada";
    assert_eq!(LastSegment::from_request(Some(referer)).0.as_deref(), Some("ada"));
    assert_eq!(LastSegment::from_request(Some("https://ring.example/")).0.as_deref(), Some(""));
    assert_eq!(LastSegment::from_request(Some("no-slash")).0.as_deref(), Some("no-slash"));
    assert_eq!(LastSegment::from_request(Some("")).0.as_deref(), Some(""));
    assert_eq!(LastSegment::from_request(Some("/")).0.as_deref(), Some(""));
    assert_eq!(LastSegment::from_request(None).0, None);
}

#[test]
fn directory_splits_alive_from_failing() {
    let (alive, failing) = index(listing());
    let alive: Vec<&str> = alive.iter().map(|member| member.slug.as_str()).collect();
    assert_eq!(alive, vec!["a", "b", "c"]);
    let failing: Vec<&str> = failing.iter().map(|(member, _)| member.slug.as_str()).collect();
    assert_eq!(failing, vec!["down", "new", "wrong", "bare"]);
}

#[test]
fn failing_members_keep_their_status() {
    let (_, failing) = index(listing());
    assert!(matches!(failing[0].1, Some(Health::SiteUnreachable)));
    assert!(failing[1].1.is_none());
    assert!(matches!(failing[2].1, Some(Health::SlugMismatch(_))));
    assert!(matches!(failing[3].1, Some(Health::NoWebringEmbed)));
}

#[test]
fn each_failure_has_its_reason() {
    assert_eq!(failure_reason(&Some(Health::SiteUnreachable)), "site unreachable");
    assert_eq!(failure_reason(&Some(Health::NoWebringEmbed)), "embed missing from site");
    assert_eq!(
        failure_reason(&Some(Health::SlugMismatch("x".to_string()))),
        "embed url has wrong slug"
    );
    assert_eq!(failure_reason(&None), "healthcheck pending...");
}

#[test]
fn only_a_healthy_status_is_healthy() {
    assert!(is_healthy(&Some(Health::Healthy)));
    assert!(!is_healthy(&Some(Health::SiteUnreachable)));
    assert!(!is_healthy(&Some(Health::NoWebringEmbed)));
    assert!(!is_healthy(&Some(Health::SlugMismatch(String::new()))));
    assert!(!is_healthy(&None));
}

#[test]
fn hop_leaves_out_the_referrer_and_the_failing() {
    let from_b = LastSegment(Some("b".to_string()));
    assert_eq!(random_candidates(&listing(), &from_b), vec![url("a"), url("c")]);
    let from_nowhere = LastSegment(None);
    assert_eq!(random_candidates(&listing(), &from_nowhere), vec![url("a"), url("b"), url("c")]);
    let from_outside = LastSegment(Some("elsewhere".to_string()));
    assert_eq!(random_candidates(&listing(), &from_outside), vec![url("a"), url("b"), url("c")]);
}

#[test]
fn random_hop_lands_on_a_candidate() {
    let from_b = LastSegment(Some("b".to_string()));
    let mut seen_a = false;
    let mut seen_c = false;
    for _ in 0..200 {
        let target = random(&listing(), &from_b).expect("there are candidates");
        assert!(target == url("a") || target == url("c"));
        seen_a = seen_a || target == url("a");
        seen_c = seen_c || target == url("c");
    }
    assert!(seen_a && seen_c);
}

#[test]
fn random_hop_without_candidates_leads_nowhere() {
    let nobody: Vec<(Member, Option<Health>)> = vec![(site("down"), Some(Health::SiteUnreachable))];
    assert_eq!(random(&nobody, &LastSegment(None)), None);
    let only: Vec<(Member, Option<Health>)> = vec![(site("a"), Some(Health::Healthy))];
    assert_eq!(random(&only, &LastSegment(Some("a".to_string()))), None);
    assert_eq!(random(&only, &LastSegment(None)), Some(url("a")));
    assert_eq!(random(&Vec::new(), &LastSegment(None)), None);
}

fn plain_embed(slug: &str) -> Option<(String, String, String)> {
    embed(&listing(), &slug.to_string(), &None, &None, &None, &None)
        .map(|shown| (shown.name, shown.prev_url, shown.next_url))
}

#[test]
fn neighbours_are_the_alive_members_around() {
    assert_eq!(plain_embed("b"), Some(("b site".to_string(), url("a"), url("c"))));
}

#[test]
fn ring_wraps_around_at_both_ends() {
    assert_eq!(plain_embed("a"), Some(("a site".to_string(), url("c"), url("b"))));
    assert_eq!(plain_embed("c"), Some(("c site".to_string(), url("b"), url("a"))));
}

#[test]
fn failing_member_still_has_its_embed() {
    // `down` stands between `a` and `b` in the listing.
    assert_eq!(plain_embed("down"), Some(("down site".to_string(), url("a"), url("b"))));
    assert_eq!(plain_embed("bare"), Some(("bare site".to_string(), url("c"), url("a"))));
}

#[test]
fn unknown_member_has_no_embed() {
    assert_eq!(plain_embed("nobody"), None);
    assert!(embed(&Vec::new(), &"a".to_string(), &None, &None, &None, &None).is_none());
}

#[test]
fn lone_member_is_its_own_neighbour() {
    let only = vec![(site("solo"), None)];
    let shown = embed(&only, &"solo".to_string(), &None, &None, &None, &None).unwrap();
    assert_eq!(shown.prev_url, url("solo"));
    assert_eq!(shown.next_url, url("solo"));
}

#[test]
fn embed_look_falls_back_to_the_member_and_the_defaults() {
    let shown = embed(&listing(), &"a".to_string(), &None, &None, &None, &None).unwrap();
    assert_eq!(shown.font_stack, "monospace");
    assert_eq!(shown.font_size, "initial");
    assert_eq!(shown.text_color, "#010101");
    assert_eq!(shown.border_color, "#020202");
    assert_eq!(shown.link_color, "#030303");
    assert!(shown.stylesheets.is_empty());
}

#[test]
fn request_overrides_the_member() {
    let mut styled = site("a");
    styled.font_stack = Some("serif".to_string());
    styled.font_size = Some("2em".to_string());
    styled.stylesheets = vec!["one.css".to_string(), "two.css".to_string()];
    let list = vec![(styled, Some(Health::Healthy))];
    let slug = "a".to_string();
    let own = embed(&list, &slug, &None, &None, &None, &None).unwrap();
    assert_eq!(own.font_stack, "serif");
    assert_eq!(own.font_size, "2em");
    assert_eq!(own.stylesheets, vec!["one.css".to_string(), "two.css".to_string()]);
    let asked = embed(
        &list,
        &slug,
        &Some("red".to_string()),
        &Some("green".to_string()),
        &Some("blue".to_string()),
        &Some("3em".to_string()),
    )
    .unwrap();
    assert_eq!(asked.text_color, "red");
    assert_eq!(asked.border_color, "green");
    assert_eq!(asked.link_color, "blue");
    assert_eq!(asked.font_size, "3em");
    assert_eq!(asked.font_stack, "serif");
}
