use overengineering::config::{Member, MemberColors};
use overengineering::health::{Health, HealthMap, MemberManager};
use overengineering::manager::{ProbeRequest, TaskAction, TaskEvent, FAN_OUT};

fn member(slug: &str) -> Member {
    Member {
        slug: slug.to_string(),
        name: slug.to_uppercase(),
        url: format!("https://{}.example/", slug),
        colors: MemberColors::fill_empty_from(None),
        font_stack: None,
        font_size: None,
        stylesheets: Vec::new(),
    }
}

fn members(slugs: &[&str]) -> Vec<Member> {
    slugs.iter().map(|slug| member(slug)).collect()
}

fn started(action: TaskAction) -> Vec<ProbeRequest> {
    match action {
        TaskAction::StartProbes(requests) => requests,
        _ => panic!("expected probes to start"),
    }
}

/// Runs one whole cycle, every probe reporting `Healthy`, and returns the
/// number of probes that were started.
fn run_cycle(manager: &mut MemberManager, registry: Vec<Member>) -> usize {
    assert!(matches!(
        manager.health_check_task(TaskEvent::Tick),
        TaskAction::ReadRegistry { .. }
    ));
    let mut waiting: Vec<ProbeRequest> = Vec::new();
    let mut count = 0;
    let mut action = manager.health_check_task(TaskEvent::RegistryRead(registry));
    loop {
        match action {
            TaskAction::StartProbes(requests) => {
                count += requests.len();
                waiting.extend(requests);
            }
            TaskAction::Published { .. } => break,
            TaskAction::Wait => {}
            TaskAction::ReadRegistry { .. } => panic!("the cycle is under way"),
        }
        assert!(waiting.len() <= FAN_OUT);
        let next = waiting.remove(0);
        action = manager.health_check_task(TaskEvent::ProbeDone {
            target: next.target,
            health: Health::Healthy,
        });
    }
    assert!(waiting.is_empty());
    count
}

fn statuses(manager: &mut MemberManager, registry: Vec<Member>) -> Vec<(String, Option<Health>)> {
    manager.members(registry).into_iter().map(|(member, health)| (member.slug, health)).collect()
}

#[test]
fn unprobed_members_are_pending() {
    let mut manager = MemberManager::new();
    let listing = statuses(&mut manager, members(&["a", "b", "c"]));
    assert_eq!(listing.len(), 3);
    for (index, slug) in ["a", "b", "c"].iter().enumerate() {
        assert_eq!(listing[index].0, *slug);
        assert!(listing[index].1.is_none());
    }
}

#[test]
fn members_stay_pending_while_the_first_cycle_runs() {
    let mut manager = MemberManager::new();
    manager.health_check_task(TaskEvent::Tick);
    let registry = members(&["a", "b"]);
    let requests = started(manager.health_check_task(TaskEvent::RegistryRead(registry)));
    assert_eq!(requests.len(), 2);
    manager.health_check_task(TaskEvent::ProbeDone { target: 0, health: Health::Healthy });
    let listing = statuses(&mut manager, members(&["a", "b"]));
    assert!(listing.iter().all(|(_, health)| health.is_none()));
}

#[test]
fn first_tick_opens_the_first_health_check() {
    let mut manager = MemberManager::new();
    assert!(matches!(
        manager.health_check_task(TaskEvent::Tick),
        TaskAction::ReadRegistry { first: true }
    ));
}

#[test]
fn completed_cycle_publishes_every_status() {
    let mut manager = MemberManager::new();
    manager.health_check_task(TaskEvent::Tick);
    let registry = members(&["a", "b"]);
    let requests = started(manager.health_check_task(TaskEvent::RegistryRead(registry)));
    assert_eq!(requests[0].target, 0);
    assert_eq!(requests[0].slug, "a");
    assert_eq!(requests[0].url, "https://a.example/");
    assert_eq!(requests[1].target, 1);
    assert_eq!(requests[1].slug, "b");
    // Probes report in any order.
    assert!(matches!(
        manager.health_check_task(TaskEvent::ProbeDone {
            target: 1,
            health: Health::SiteUnreachable
        }),
        TaskAction::Wait
    ));
    assert!(matches!(
        manager.health_check_task(TaskEvent::ProbeDone { target: 0, health: Health::Healthy }),
        TaskAction::Published { first: true }
    ));
    let listing = statuses(&mut manager, members(&["a", "b", "new"]));
    assert!(matches!(listing[0].1, Some(Health::Healthy)));
    assert!(matches!(listing[1].1, Some(Health::SiteUnreachable)));
    assert!(listing[2].1.is_none());
}

#[test]
fn only_the_first_cycle_is_announced() {
    let mut manager = MemberManager::new();
    run_cycle(&mut manager, members(&["a"]));
    assert!(matches!(
        manager.health_check_task(TaskEvent::Tick),
        TaskAction::ReadRegistry { first: false }
    ));
    started(manager.health_check_task(TaskEvent::RegistryRead(members(&["a"]))));
    assert!(matches!(
        manager.health_check_task(TaskEvent::ProbeDone { target: 0, health: Health::Healthy }),
        TaskAction::Published { first: false }
    ));
}

#[test]
fn removed_member_loses_its_status() {
    let mut manager = MemberManager::new();
    run_cycle(&mut manager, members(&["a", "b"]));
    let listing = statuses(&mut manager, members(&["a", "b"]));
    assert!(matches!(listing[1].1, Some(Health::Healthy)));
    // The registry no longer holds `b`.
    run_cycle(&mut manager, members(&["a"]));
    let listing = statuses(&mut manager, members(&["a"]));
    assert_eq!(listing.len(), 1);
    assert_eq!(listing[0].0, "a");
    // Even if `b` came back, nothing of its old status is left.
    let listing = statuses(&mut manager, members(&["a", "b"]));
    assert!(matches!(listing[0].1, Some(Health::Healthy)));
    assert!(listing[1].1.is_none());
}

#[test]
fn statuses_are_not_replaced_before_the_cycle_completes() {
    let mut manager = MemberManager::new();
    run_cycle(&mut manager, members(&["a", "b"]));
    manager.health_check_task(TaskEvent::Tick);
    started(manager.health_check_task(TaskEvent::RegistryRead(members(&["a", "b"]))));
    manager.health_check_task(TaskEvent::ProbeDone { target: 0, health: Health::NoWebringEmbed });
    let listing = statuses(&mut manager, members(&["a", "b"]));
    assert!(matches!(listing[0].1, Some(Health::Healthy)));
    assert!(matches!(listing[1].1, Some(Health::Healthy)));
    manager.health_check_task(TaskEvent::ProbeDone { target: 1, health: Health::Healthy });
    let listing = statuses(&mut manager, members(&["a", "b"]));
    assert!(matches!(listing[0].1, Some(Health::NoWebringEmbed)));
}

#[test]
fn failed_registry_read_skips_the_cycle() {
    let mut manager = MemberManager::new();
    run_cycle(&mut manager, members(&["a"]));
    manager.health_check_task(TaskEvent::Tick);
    assert!(matches!(manager.health_check_task(TaskEvent::RegistryFailed), TaskAction::Wait));
    let listing = statuses(&mut manager, members(&["a"]));
    assert!(matches!(listing[0].1, Some(Health::Healthy)));
    // The next period opens a cycle as usual.
    assert!(matches!(
        manager.health_check_task(TaskEvent::Tick),
        TaskAction::ReadRegistry { first: false }
    ));
}

#[test]
fn at_most_eight_probes_are_under_way() {
    let slugs: Vec<String> = (0..20).map(|n| format!("m{}", n)).collect();
    let registry: Vec<Member> = slugs.iter().map(|slug| member(slug)).collect();
    let mut manager = MemberManager::new();
    manager.health_check_task(TaskEvent::Tick);
    let first = started(manager.health_check_task(TaskEvent::RegistryRead(registry)));
    assert_eq!(first.len(), 8);
    assert_eq!(FAN_OUT, 8);
    let next = started(
        manager.health_check_task(TaskEvent::ProbeDone { target: 3, health: Health::Healthy }),
    );
    assert_eq!(next.len(), 1);
    assert_eq!(next[0].target, 8);
    assert_eq!(next[0].slug, "m8");
}

#[test]
fn every_member_is_probed_once() {
    let slugs: Vec<String> = (0..20).map(|n| format!("m{}", n)).collect();
    let registry: Vec<Member> = slugs.iter().map(|slug| member(slug)).collect();
    let mut manager = MemberManager::new();
    assert_eq!(run_cycle(&mut manager, registry), 20);
    let registry: Vec<Member> = slugs.iter().map(|slug| member(slug)).collect();
    let listing = manager.members(registry);
    assert_eq!(listing.len(), 20);
    assert!(listing.iter().all(|(_, health)| matches!(health, Some(Health::Healthy))));
}

#[test]
fn empty_registry_completes_at_once() {
    let mut manager = MemberManager::new();
    run_cycle(&mut manager, members(&["a"]));
    manager.health_check_task(TaskEvent::Tick);
    assert!(matches!(
        manager.health_check_task(TaskEvent::RegistryRead(Vec::new())),
        TaskAction::Published { first: false }
    ));
    let listing = statuses(&mut manager, members(&["a"]));
    assert!(listing[0].1.is_none());
}

#[test]
fn unexpected_events_change_nothing() {
    let mut manager = MemberManager::new();
    assert!(matches!(
        manager.health_check_task(TaskEvent::ProbeDone { target: 0, health: Health::Healthy }),
        TaskAction::Wait
    ));
    assert!(matches!(manager.health_check_task(TaskEvent::RegistryFailed), TaskAction::Wait));
    manager.health_check_task(TaskEvent::Tick);
    started(manager.health_check_task(TaskEvent::RegistryRead(members(&["a", "b"]))));
    // A second report of one probe, and a report of a probe that never started.
    manager.health_check_task(TaskEvent::ProbeDone { target: 0, health: Health::Healthy });
    assert!(matches!(
        manager.health_check_task(TaskEvent::ProbeDone {
            target: 0,
            health: Health::SiteUnreachable
        }),
        TaskAction::Wait
    ));
    assert!(matches!(
        manager.health_check_task(TaskEvent::ProbeDone { target: 7, health: Health::Healthy }),
        TaskAction::Wait
    ));
    assert!(matches!(manager.health_check_task(TaskEvent::Tick), TaskAction::Wait));
    assert!(matches!(
        manager.health_check_task(TaskEvent::ProbeDone { target: 1, health: Health::Healthy }),
        TaskAction::Published { first: true }
    ));
    let listing = statuses(&mut manager, members(&["a", "b"]));
    assert!(matches!(listing[0].1, Some(Health::Healthy)));
}

#[test]
fn aborted_task_asks_for_nothing() {
    let mut manager = MemberManager::new();
    run_cycle(&mut manager, members(&["a"]));
    manager.health_check_task(TaskEvent::Tick);
    started(manager.health_check_task(TaskEvent::RegistryRead(members(&["a", "b"]))));
    manager.health_check_task(TaskEvent::ProbeDone { target: 0, health: Health::NoWebringEmbed });
    manager.abort();
    assert!(matches!(
        manager.health_check_task(TaskEvent::ProbeDone { target: 1, health: Health::Healthy }),
        TaskAction::Wait
    ));
    assert!(matches!(manager.health_check_task(TaskEvent::Tick), TaskAction::Wait));
    // The statuses of the last completed cycle are still served, untouched.
    let listing = statuses(&mut manager, members(&["a", "b"]));
    assert!(matches!(listing[0].1, Some(Health::Healthy)));
    assert!(listing[1].1.is_none());
}

#[test]
fn later_report_wins_for_a_slug_listed_twice() {
    let mut manager = MemberManager::new();
    manager.health_check_task(TaskEvent::Tick);
    started(manager.health_check_task(TaskEvent::RegistryRead(members(&["a", "a"]))));
    manager.health_check_task(TaskEvent::ProbeDone { target: 1, health: Health::Healthy });
    manager.health_check_task(TaskEvent::ProbeDone { target: 0, health: Health::SiteUnreachable });
    let listing = statuses(&mut manager, members(&["a"]));
    assert!(matches!(listing[0].1, Some(Health::SiteUnreachable)));
}

#[test]
fn health_map_keeps_one_status_per_slug() {
    let mut map = HealthMap::new();
    assert!(map.get(&"a".to_string()).is_none());
    map.insert("a".to_string(), Health::Healthy);
    map.insert("b".to_string(), Health::SiteUnreachable);
    assert!(matches!(map.get(&"a".to_string()), Some(Health::Healthy)));
    map.insert("a".to_string(), Health::NoWebringEmbed);
    assert!(matches!(map.get(&"a".to_string()), Some(Health::NoWebringEmbed)));
    assert!(matches!(map.get(&"b".to_string()), Some(Health::SiteUnreachable)));
    assert!(map.get(&"c".to_string()).is_none());
}
