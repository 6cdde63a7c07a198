use gitauthors::authors::{AuthorIdentity, ResultSet};
use gitauthors::repo::{extract_authors, CommitRecord, RepoData};

fn commit(parents: Vec<usize>, name: &str, email: &str) -> CommitRecord {
    CommitRecord {
        parents,
        author_name: name.to_string(),
        author_email: email.to_string(),
    }
}

/// The fixture: `main` holds three commits, the tag `v1` points at the
/// middle one, and a side branch `feature` holds two commits of which one
/// is the shared root.
fn fixture() -> RepoData {
    RepoData {
        commits: vec![
            commit(vec![], "Root Author", "root@x"),
            commit(vec![0], "Middle Author", "middle@x"),
            commit(vec![1], "Head Author", "head@x"),
            commit(vec![0], "Feature Author", "feature@x"),
        ],
        // main -> 2, v1 -> 1, feature -> 3
        ref_targets: vec![2, 1, 3],
    }
}

#[test]
fn walk_visits_each_reachable_commit_exactly_once() {
    let repo = fixture();
    let authors = extract_authors(&repo);
    assert_eq!(authors.len(), 4);
    let mut names: Vec<String> = authors.iter().map(|a| a.name.clone()).collect();
    names.sort();
    assert_eq!(
        names,
        vec!["Feature Author", "Head Author", "Middle Author", "Root Author"]
    );
}

#[test]
fn unreferenced_commits_stay_out() {
    let mut repo = fixture();
    repo.commits.push(commit(vec![2], "Dangling Author", "dangling@x"));
    let authors = extract_authors(&repo);
    assert_eq!(authors.len(), 4);
    assert!(authors.iter().all(|a| a.name != "Dangling Author"));
}

#[test]
fn repeated_author_appears_once_per_commit_before_merging() {
    let repo = RepoData {
        commits: vec![
            commit(vec![], "Same Person", "same@x"),
            commit(vec![0], "Same Person", "same@x"),
        ],
        ref_targets: vec![1],
    };
    let authors = extract_authors(&repo);
    assert_eq!(authors.len(), 2);
    let mut results = ResultSet::new();
    results.merge(&authors);
    assert_eq!(results.len(), 1);
}

#[test]
fn merging_shared_author_across_repositories_keeps_one_entry() {
    let mut results = ResultSet::new();
    let first = vec![
        AuthorIdentity {
            name: "Alice".to_string(),
            email: "a@x.com".to_string(),
        },
        AuthorIdentity {
            name: "Carol".to_string(),
            email: "c@x.com".to_string(),
        },
    ];
    let second = vec![AuthorIdentity {
        name: "Alice".to_string(),
        email: "a@x.com".to_string(),
    }];
    results.merge(&first);
    results.merge(&second);
    assert_eq!(results.len(), 2);
    let sorted = results.sorted();
    assert_eq!(sorted.len(), 2);
    assert_eq!(sorted[0].name, "Alice");
    assert_eq!(sorted[1].name, "Carol");
}
