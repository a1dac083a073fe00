use easy_project_finder::candidate::Candidate;
use easy_project_finder::candidate::DirEntry;
use easy_project_finder::candidate::MatchConfig;
use easy_project_finder::traversal::find_matches;
use easy_project_finder::traversal::traverse_patterns;
use easy_project_finder::traversal::DirListing;
use easy_project_finder::traversal::Traversal;

fn dir(parent: &str, name: &str) -> DirEntry {
    DirEntry { path: format!("{parent}/{name}"), name: name.to_string(), is_dir: true }
}

fn file(parent: &str, name: &str) -> DirEntry {
    DirEntry { path: format!("{parent}/{name}"), name: name.to_string(), is_dir: false }
}

fn listing(path: &str, entries: Vec<DirEntry>) -> DirListing {
    DirListing { path: path.to_string(), entries }
}

fn patterns(tokens: &[&str]) -> Vec<String> {
    tokens.iter().map(|t| t.to_string()).collect()
}

fn config(max_results: usize, only_directories: bool) -> MatchConfig {
    MatchConfig { max_results, only_directories }
}

fn fruit_root() -> Vec<DirListing> {
    vec![listing(
        "/root",
        vec![dir("/root", "apple"), dir("/root", "apricot"), dir("/root", "banana")],
    )]
}

fn workspace() -> Vec<DirListing> {
    vec![
        listing(
            "/w",
            vec![dir("/w", "projects"), dir("/w", "prototypes"), file("/w", "print.txt"), dir("/w", "music")],
        ),
        listing(
            "/w/projects",
            vec![dir("/w/projects", "finder"), dir("/w/projects", "find-old"), dir("/w/projects", "web")],
        ),
        listing(
            "/w/prototypes",
            vec![dir("/w/prototypes", "finder"), file("/w/prototypes", "notes.md")],
        ),
        listing("/w/music", vec![dir("/w/music", "finder")]),
    ]
}

/// Drives a traversal over `listings` and counts the directories it asks for.
fn drive(
    start: &str,
    tokens: &[String],
    config: MatchConfig,
    listings: &[DirListing],
) -> (Option<Vec<String>>, Vec<String>) {
    let mut asked = Vec::new();
    let mut traversal = Traversal::new(start.to_string(), tokens, config);
    loop {
        let wanted = match traversal.next_directory() {
            Some(dir) => dir.clone(),
            None => break,
        };
        let entries = listings
            .iter()
            .find(|l| l.path == wanted)
            .map(|l| l.entries.clone())
            .unwrap_or_default();
        asked.push(wanted);
        traversal = traversal.supply(&entries);
    }
    (traversal.into_matches(), asked)
}

#[test]
fn default_config_keeps_five_of_any_kind() {
    let config = MatchConfig::default();
    assert_eq!(config.max_results, 5);
    assert!(!config.only_directories);
}

#[test]
fn find_matches_keeps_matching_entries_in_listing_order() {
    let entries = vec![dir("/r", "banana"), dir("/r", "apple"), file("/r", "apricot"), dir("/r", "grape")];
    let found = find_matches("ap", &entries, &config(5, false));
    assert_eq!(
        found,
        vec![
            Candidate { path: "/r/apple".to_string(), score: 51 },
            Candidate { path: "/r/apricot".to_string(), score: 51 },
            Candidate { path: "/r/grape".to_string(), score: found[2].score },
        ]
    );
    assert!(found[2].score < 51);
}

#[test]
fn find_matches_drops_files_when_only_directories() {
    let entries = vec![dir("/r", "apple"), file("/r", "apricot")];
    let found = find_matches("ap", &entries, &config(5, true));
    assert_eq!(found, vec![Candidate { path: "/r/apple".to_string(), score: 51 }]);
}

#[test]
fn find_matches_does_not_cut_to_the_cap() {
    let entries = vec![dir("/r", "a1"), dir("/r", "a2"), dir("/r", "a3")];
    let found = find_matches("a", &entries, &config(1, false));
    assert_eq!(found.len(), 3);
}

#[test]
fn find_matches_in_empty_listing_finds_nothing() {
    assert!(find_matches("a", &Vec::new(), &config(5, false)).is_empty());
}

#[test]
fn fruit_scenario_finds_apple_and_apricot() {
    let result = traverse_patterns("/root".to_string(), &patterns(&["ap"]), &config(5, false), &fruit_root());
    // Both names match at their head with the same score, so the order of
    // discovery decides.
    assert_eq!(result, Some(vec!["/root/apple".to_string(), "/root/apricot".to_string()]));
}

#[test]
fn missing_first_level_fails_without_touching_the_second() {
    let tokens = patterns(&["nosuchdir", "anything"]);
    let result = traverse_patterns("/root".to_string(), &tokens, &config(5, false), &fruit_root());
    assert_eq!(result, None);
    let (driven, asked) = drive("/root", &tokens, config(5, false), &fruit_root());
    assert_eq!(driven, None);
    assert_eq!(asked, vec!["/root".to_string()]);
}

#[test]
fn no_patterns_give_an_empty_result_without_any_listing() {
    let result = traverse_patterns("/root".to_string(), &[], &config(5, false), &fruit_root());
    assert_eq!(result, Some(Vec::new()));
    let (driven, asked) = drive("/root", &[], config(5, false), &fruit_root());
    assert_eq!(driven, Some(Vec::new()));
    assert!(asked.is_empty());
}

#[test]
fn second_level_pools_all_frontier_directories() {
    let tokens = patterns(&["pro", "finder"]);
    let result = traverse_patterns("/w".to_string(), &tokens, &config(5, true), &workspace());
    assert_eq!(
        result,
        Some(vec!["/w/projects/finder".to_string(), "/w/prototypes/finder".to_string()])
    );
    let (driven, asked) = drive("/w", &tokens, config(5, true), &workspace());
    assert_eq!(driven, result);
    assert_eq!(
        asked,
        vec!["/w".to_string(), "/w/projects".to_string(), "/w/prototypes".to_string()]
    );
}

#[test]
fn level_is_cut_to_the_cap_before_the_next_level() {
    let tokens = patterns(&["pro", "finder"]);
    let result = traverse_patterns("/w".to_string(), &tokens, &config(1, true), &workspace());
    assert_eq!(result, Some(vec!["/w/projects/finder".to_string()]));
    let (_, asked) = drive("/w", &tokens, config(1, true), &workspace());
    assert_eq!(asked, vec!["/w".to_string(), "/w/projects".to_string()]);
}

#[test]
fn result_is_never_longer_than_the_cap() {
    let tokens = patterns(&["", ""]);
    for cap in 1..6 {
        let result = traverse_patterns("/w".to_string(), &tokens, &config(cap, false), &workspace()).unwrap();
        assert!(!result.is_empty());
        assert!(result.len() <= cap);
    }
}

#[test]
fn exactly_the_cap_survives_a_crowded_level() {
    let tokens = patterns(&[""]);
    let result = traverse_patterns("/w".to_string(), &tokens, &config(3, false), &workspace());
    assert_eq!(
        result,
        Some(vec!["/w/projects".to_string(), "/w/prototypes".to_string(), "/w/print.txt".to_string()])
    );
}

#[test]
fn better_match_of_a_later_directory_ranks_first() {
    let listings = vec![
        listing("/r", vec![dir("/r", "one"), dir("/r", "two")]),
        listing("/r/one", vec![dir("/r/one", "my_app_old")]),
        listing("/r/two", vec![dir("/r/two", "app")]),
    ];
    let tokens = patterns(&["o", "app"]);
    let result = traverse_patterns("/r".to_string(), &tokens, &config(5, false), &listings);
    assert_eq!(result, Some(vec!["/r/two/app".to_string(), "/r/one/my_app_old".to_string()]));
    let capped = traverse_patterns("/r".to_string(), &tokens, &config(1, false), &listings);
    assert_eq!(capped, Some(vec!["/r/one/my_app_old".to_string()]));
}

#[test]
fn intermediate_level_without_match_fails_the_whole_traversal() {
    let tokens = patterns(&["pro", "nothing-like-this", "finder"]);
    let result = traverse_patterns("/w".to_string(), &tokens, &config(5, false), &workspace());
    assert_eq!(result, None);
    let (driven, asked) = drive("/w", &tokens, config(5, false), &workspace());
    assert_eq!(driven, None);
    assert_eq!(
        asked,
        vec!["/w".to_string(), "/w/projects".to_string(), "/w/prototypes".to_string()]
    );
}

#[test]
fn last_level_without_match_fails() {
    let tokens = patterns(&["pro", "zzz"]);
    assert_eq!(traverse_patterns("/w".to_string(), &tokens, &config(5, false), &workspace()), None);
}

#[test]
fn unlisted_directory_contributes_nothing_but_siblings_do() {
    let listings = vec![
        listing("/r", vec![dir("/r", "gone"), dir("/r", "good")]),
        listing("/r/good", vec![dir("/r/good", "target")]),
    ];
    let tokens = patterns(&["g", "target"]);
    let result = traverse_patterns("/r".to_string(), &tokens, &config(5, false), &listings);
    assert_eq!(result, Some(vec!["/r/good/target".to_string()]));
}

#[test]
fn file_in_the_frontier_contributes_nothing() {
    let tokens = patterns(&["pr", "n"]);
    let result = traverse_patterns("/w".to_string(), &tokens, &config(5, false), &workspace());
    // `print.txt` is in the frontier of the second level and has no entries.
    // The name that starts with the pattern ranks first, the others tie and
    // keep the order of discovery.
    assert_eq!(
        result,
        Some(vec![
            "/w/prototypes/notes.md".to_string(),
            "/w/projects/finder".to_string(),
            "/w/projects/find-old".to_string(),
            "/w/prototypes/finder".to_string(),
        ])
    );
    let (_, asked) = drive("/w", &tokens, config(5, false), &workspace());
    assert_eq!(
        asked,
        vec![
            "/w".to_string(),
            "/w/projects".to_string(),
            "/w/prototypes".to_string(),
            "/w/print.txt".to_string(),
        ]
    );
}

#[test]
fn only_directories_drops_files_from_the_result() {
    let tokens = patterns(&["pr"]);
    let all = traverse_patterns("/w".to_string(), &tokens, &config(5, false), &workspace()).unwrap();
    let dirs = traverse_patterns("/w".to_string(), &tokens, &config(5, true), &workspace()).unwrap();
    assert!(all.contains(&"/w/print.txt".to_string()));
    assert_eq!(dirs, vec!["/w/projects".to_string(), "/w/prototypes".to_string()]);
}

#[test]
fn unlisted_start_directory_fails() {
    let tokens = patterns(&["a"]);
    assert_eq!(traverse_patterns("/nowhere".to_string(), &tokens, &config(5, false), &fruit_root()), None);
}

#[test]
fn cap_zero_lets_every_traversal_fail() {
    let tokens = patterns(&["ap"]);
    assert_eq!(traverse_patterns("/root".to_string(), &tokens, &config(0, false), &fruit_root()), None);
}

#[test]
fn first_listing_of_a_path_wins() {
    let listings = vec![
        listing("/r", vec![dir("/r", "alpha")]),
        listing("/r", vec![dir("/r", "alps")]),
    ];
    let result = traverse_patterns("/r".to_string(), &patterns(&["al"]), &config(5, false), &listings);
    assert_eq!(result, Some(vec!["/r/alpha".to_string()]));
}

#[test]
fn finished_traversal_ignores_further_listings() {
    let tokens = patterns(&["ap"]);
    let mut traversal = Traversal::new("/root".to_string(), &tokens, config(5, false));
    assert_eq!(traversal.next_directory(), Some(&"/root".to_string()));
    traversal = traversal.supply(&fruit_root()[0].entries);
    assert_eq!(traversal.next_directory(), None);
    traversal = traversal.supply(&vec![dir("/x", "apex")]);
    assert_eq!(traversal.next_directory(), None);
    assert_eq!(
        traversal.into_matches(),
        Some(vec!["/root/apple".to_string(), "/root/apricot".to_string()])
    );
}

#[test]
fn failed_traversal_stays_failed() {
    let tokens = patterns(&["zz", "ap"]);
    let mut traversal = Traversal::new("/root".to_string(), &tokens, config(5, false));
    traversal = traversal.supply(&fruit_root()[0].entries);
    assert_eq!(traversal.next_directory(), None);
    traversal = traversal.supply(&fruit_root()[0].entries);
    assert_eq!(traversal.next_directory(), None);
    assert_eq!(traversal.into_matches(), None);
}

#[test]
fn unfinished_traversal_has_no_result() {
    let tokens = patterns(&["ap"]);
    let traversal = Traversal::new("/root".to_string(), &tokens, config(5, false));
    assert_eq!(traversal.into_matches(), None);
}
