use gitauthors::pagination::{kept_clone_urls, parse_page_query, parse_usize, total_count, RepoListing};
use gitauthors::urls::RepoSource;

fn entry(url: &str, fork: bool) -> RepoListing {
    RepoListing {
        clone_url: url.to_string(),
        fork,
    }
}

#[test]
fn pagination_unions_all_pages_once_without_forks() {
    let pages = vec![
        vec![entry("a", false), entry("b", true), entry("c", false)],
        vec![],
        vec![entry("d", false)],
        vec![entry("e", true), entry("f", false), entry("g", false)],
    ];
    let urls = kept_clone_urls(&pages);
    assert_eq!(urls, vec!["a", "c", "d", "f", "g"]);
}

#[test]
fn forks_never_appear_in_an_expansion() {
    let pages = vec![
        vec![entry("kept", false), entry("forked", true)],
        vec![entry("forked-too", true)],
    ];
    let source = RepoSource::GithubUser("someone".to_string());
    let urls = source.list_repos(&pages);
    assert_eq!(urls, vec!["kept"]);
    assert!(!urls.contains(&"forked".to_string()));
    assert!(!urls.contains(&"forked-too".to_string()));
}

#[test]
fn direct_repository_lists_itself() {
    let source = RepoSource::GitRepo("https://host/one.git".to_string());
    let urls = source.list_repos(&vec![]);
    assert_eq!(urls, vec!["https://host/one.git"]);
}

#[test]
fn page_query_reads_both_coordinates() {
    let pq = parse_page_query("page=5&per_page=100").expect("well-formed query");
    assert_eq!(pq.page, 5);
    assert_eq!(pq.per_page, 100);
    let pq = parse_page_query("type=owner&page=3&per_page=30&sort=full_name").expect("extra keys are ignored");
    assert_eq!(pq.page, 3);
    assert_eq!(pq.per_page, 30);
}

#[test]
fn page_query_rejects_missing_or_malformed_keys() {
    assert!(parse_page_query("per_page=100").is_none());
    assert!(parse_page_query("page=5").is_none());
    assert!(parse_page_query("page=&per_page=100").is_none());
    assert!(parse_page_query("page=five&per_page=100").is_none());
    assert!(parse_page_query("").is_none());
}

#[test]
fn total_count_multiplies_the_marker_coordinates() {
    assert_eq!(total_count(Some("page=5&per_page=100"), 37), Some(500));
    assert_eq!(total_count(None, 37), Some(37));
    assert_eq!(total_count(Some("nonsense"), 37), None);
    assert_eq!(
        total_count(Some("page=4294967296&per_page=4294967296"), 0),
        None
    );
}

#[test]
fn decimal_parsing_is_exact() {
    assert_eq!(parse_usize("0"), Some(0));
    assert_eq!(parse_usize("007"), Some(7));
    assert_eq!(parse_usize("1234"), Some(1234));
    assert_eq!(parse_usize(""), None);
    assert_eq!(parse_usize("12a"), None);
    assert_eq!(parse_usize("99999999999999999999999999"), None);
}
