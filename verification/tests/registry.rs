use overengineering::config::{
    build_member, collect_members, read_members, slug_of, LoadError, Member, MemberColors,
    ParsedMember, ParsedMemberColors,
};
use overengineering::order::sort_by_keys;

fn parsed(name: &str) -> ParsedMember {
    ParsedMember {
        name: name.to_string(),
        url: format!("https://{}.example/", name),
        colors: None,
        font_stack: None,
        font_size: None,
        stylesheets: None,
    }
}

fn colors(of: &MemberColors) -> (&str, &str, &str, &str) {
    (&of.text, &of.border, &of.links, &of.on_links)
}

#[test]
fn absent_colors_take_the_defaults() {
    let filled = MemberColors::fill_empty_from(None);
    assert_eq!(colors(&filled), ("#000000", "#000000", "#0000ee", "#ffffff"));
}

#[test]
fn each_color_is_defaulted_on_its_own() {
    let choices = ParsedMemberColors {
        text: Some("#111111".to_string()),
        border: None,
        links: Some("#333333".to_string()),
        on_links: None,
    };
    let filled = MemberColors::fill_empty_from(Some(&choices));
    assert_eq!(colors(&filled), ("#111111", "#000000", "#333333", "#ffffff"));
    let others = ParsedMemberColors {
        text: None,
        border: Some("#222222".to_string()),
        links: None,
        on_links: Some("#444444".to_string()),
    };
    let filled = MemberColors::fill_empty_from(Some(&others));
    assert_eq!(colors(&filled), ("#000000", "#222222", "#0000ee", "#444444"));
}

#[test]
fn slug_is_the_name_up_to_the_first_dot() {
    assert_eq!(slug_of("kognise.yaml"), "kognise");
    assert_eq!(slug_of("a.b.yaml"), "a");
    assert_eq!(slug_of("plain"), "plain");
    assert_eq!(slug_of(".hidden"), "");
    assert_eq!(slug_of(""), "");
    assert_eq!(slug_of("ünï.yaml"), "ünï");
}

#[test]
fn member_is_built_from_its_file() {
    let mut definition = parsed("ada");
    definition.font_stack = Some("serif".to_string());
    definition.stylesheets = Some(vec!["a.css".to_string(), "b.css".to_string()]);
    definition.colors = Some(ParsedMemberColors {
        text: Some("#123456".to_string()),
        border: None,
        links: None,
        on_links: None,
    });
    let member = build_member("ada.yaml", &definition);
    assert_eq!(member.slug, "ada");
    assert_eq!(member.name, "ada");
    assert_eq!(member.url, "https://ada.example/");
    assert_eq!(member.font_stack.as_deref(), Some("serif"));
    assert_eq!(member.font_size, None);
    assert_eq!(member.stylesheets, vec!["a.css".to_string(), "b.css".to_string()]);
    assert_eq!(colors(&member.colors), ("#123456", "#000000", "#0000ee", "#ffffff"));
}

#[test]
fn absent_stylesheets_give_an_empty_list() {
    assert!(build_member("ada.yaml", &parsed("ada")).stylesheets.is_empty());
}

fn file(name: &str) -> (String, Option<ParsedMember>) {
    let stem = name.split('.').next().unwrap();
    (name.to_string(), Some(parsed(stem)))
}

fn broken(name: &str) -> (String, Option<ParsedMember>) {
    (name.to_string(), None)
}

fn malformed(outcome: Result<Vec<Member>, LoadError>) -> String {
    match outcome {
        Err(LoadError::Malformed(file)) => file,
        _ => panic!("expected a malformed file"),
    }
}

fn duplicate(outcome: Result<Vec<Member>, LoadError>) -> String {
    match outcome {
        Err(LoadError::DuplicateSlug(slug)) => slug,
        _ => panic!("expected a duplicate slug"),
    }
}

#[test]
fn members_are_collected_in_file_order() {
    let files = vec![file("one.yaml"), file("two.yaml"), file("three.yaml")];
    let members = collect_members(&files).unwrap();
    let slugs: Vec<&str> = members.iter().map(|member| member.slug.as_str()).collect();
    assert_eq!(slugs, vec!["one", "two", "three"]);
    assert_eq!(members[1].url, "https://two.example/");
}

#[test]
fn unparsable_file_fails_the_load() {
    let files = vec![broken("bob.yaml")];
    assert_eq!(malformed(collect_members(&files)), "bob.yaml");
    assert_eq!(malformed(read_members(&files)), "bob.yaml");
}

#[test]
fn first_unparsable_file_is_named() {
    let files = vec![file("one.yaml"), broken("bad.yaml"), file("two.yaml"), broken("worse.yaml")];
    assert_eq!(malformed(collect_members(&files)), "bad.yaml");
    assert_eq!(malformed(read_members(&files)), "bad.yaml");
}

#[test]
fn two_files_of_one_stem_fail_the_load() {
    let files = vec![file("x.yaml"), file("y.yaml"), file("x.yml")];
    assert_eq!(duplicate(collect_members(&files)), "x");
    assert_eq!(duplicate(read_members(&files)), "x");
}

#[test]
fn first_repeated_slug_is_named() {
    let files =
        vec![file("a.yaml"), file("b.yaml"), file("b.yml"), file("a.yml"), file("b.txt")];
    assert_eq!(duplicate(collect_members(&files)), "b");
}

#[test]
fn unparsable_file_goes_before_a_repeated_slug() {
    let files = vec![file("x.yaml"), file("x.yml"), broken("late.yaml")];
    assert_eq!(malformed(collect_members(&files)), "late.yaml");
}

#[test]
fn registry_holds_every_member_once() {
    let names = ["one", "two", "three", "four", "five", "six"];
    let files: Vec<(String, Option<ParsedMember>)> =
        names.iter().map(|name| file(&format!("{}.yaml", name))).collect();
    let members = read_members(&files).unwrap();
    let mut slugs: Vec<String> = members.iter().map(|member| member.slug.clone()).collect();
    slugs.sort();
    let mut expected: Vec<String> = names.iter().map(|name| name.to_string()).collect();
    expected.sort();
    assert_eq!(slugs, expected);
    for member in &members {
        assert_eq!(member.url, format!("https://{}.example/", member.name));
    }
}

#[test]
fn slugs_of_a_registry_are_distinct() {
    let files = vec![file("c.yaml"), file("a.yaml"), file("b.yaml"), file("d.yml")];
    let members = read_members(&files).unwrap();
    for (at, member) in members.iter().enumerate() {
        for other in &members[..at] {
            assert_ne!(member.slug, other.slug);
        }
    }
}

#[test]
fn empty_directory_gives_no_members() {
    assert!(read_members(&Vec::new()).unwrap().is_empty());
    assert!(collect_members(&Vec::new()).unwrap().is_empty());
}

#[test]
fn entries_are_sorted_by_key() {
    let sorted = sort_by_keys(vec![(30u64, "c"), (10, "a"), (20, "b")]);
    assert_eq!(sorted, vec!["a", "b", "c"]);
}

#[test]
fn equal_keys_keep_their_order() {
    let sorted = sort_by_keys(vec![(2u64, "x"), (1, "first"), (2, "y"), (1, "second"), (2, "z")]);
    assert_eq!(sorted, vec!["first", "second", "x", "y", "z"]);
}

#[test]
fn sorting_nothing_gives_nothing() {
    let sorted: Vec<&str> = sort_by_keys(Vec::new());
    assert!(sorted.is_empty());
    assert_eq!(sort_by_keys(vec![(u64::MAX, 1), (0, 2)]), vec![2, 1]);
}
