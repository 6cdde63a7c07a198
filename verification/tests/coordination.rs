use gitauthors::authors::{format_lines, AuthorIdentity, ResultSet};
use gitauthors::cli::Args;
use gitauthors::errors::Error;
use gitauthors::pipeline::{process_outcome, worker_step, CloneOutcome, WorkerStep};
use gitauthors::queue::WorkQueue;
use gitauthors::repo::{CommitRecord, RepoData};

#[test]
fn queue_pops_newest_first_and_drains_completely() {
    let mut q = WorkQueue::new(vec!["a".to_string(), "b".to_string(), "c".to_string()]);
    assert_eq!(q.len(), 3);
    assert_eq!(q.pop(), Some("c".to_string()));
    let rest = q.drain();
    assert_eq!(rest, vec!["b", "a"]);
    assert_eq!(q.len(), 0);
    assert_eq!(q.pop(), None);
}

#[test]
fn interleaved_pops_deliver_each_url_exactly_once() {
    let urls: Vec<String> = (0..7).map(|i| format!("repo-{i}")).collect();
    let mut q = WorkQueue::new(urls.clone());
    let mut first_worker: Vec<String> = Vec::new();
    let mut second_worker: Vec<String> = Vec::new();
    let mut turn = 0usize;
    loop {
        match worker_step(&mut q) {
            WorkerStep::Work(u) => {
                if turn % 2 == 0 {
                    first_worker.push(u);
                } else {
                    second_worker.push(u);
                }
                turn += 1;
            }
            WorkerStep::Exit => break,
        }
    }
    assert_eq!(first_worker.len() + second_worker.len(), urls.len());
    let mut delivered: Vec<String> = first_worker.into_iter().chain(second_worker).collect();
    delivered.sort();
    let mut expected = urls;
    expected.sort();
    assert_eq!(delivered, expected);
}

#[test]
fn clone_failure_warns_with_the_url_and_leaves_results_alone() {
    let mut results = ResultSet::new();
    let outcome = CloneOutcome::Failed("remote hung up".to_string());
    let warning = process_outcome(&mut results, "https://host/broken.git", outcome);
    match warning {
        Some(Error::CloneFailed { url, diagnostic }) => {
            assert_eq!(url, "https://host/broken.git");
            assert_eq!(diagnostic, "remote hung up");
            let line = Error::CloneFailed { url, diagnostic }.message();
            assert!(line.contains("https://host/broken.git"));
        }
        _ => panic!("expected a clone-failure warning"),
    }
    assert_eq!(results.len(), 0);
}

#[test]
fn successful_clone_contributes_its_reachable_authors() {
    let mut results = ResultSet::new();
    let repo = RepoData {
        commits: vec![CommitRecord {
            parents: vec![],
            author_name: "Only One".to_string(),
            author_email: "one@x".to_string(),
        }],
        ref_targets: vec![0],
    };
    assert!(repo.check_wf());
    let warning = process_outcome(&mut results, "https://host/fine.git", CloneOutcome::Cloned(repo));
    assert!(warning.is_none());
    assert_eq!(results.len(), 1);
}

#[test]
fn output_is_sorted_case_sensitively_by_name_then_email() {
    let mut results = ResultSet::new();
    results.insert(AuthorIdentity {
        name: "Bob".to_string(),
        email: "b@x".to_string(),
    });
    results.insert(AuthorIdentity {
        name: "alice".to_string(),
        email: "a@x".to_string(),
    });
    let lines = format_lines(&results.sorted());
    assert_eq!(lines, vec!["Bob <b@x>", "alice <a@x>"]);
}

#[test]
fn ties_on_name_are_broken_by_email() {
    let mut results = ResultSet::new();
    for email in ["z@x", "a@x", "m@x"] {
        results.insert(AuthorIdentity {
            name: "Same Name".to_string(),
            email: email.to_string(),
        });
    }
    let lines = format_lines(&results.sorted());
    assert_eq!(
        lines,
        vec!["Same Name <a@x>", "Same Name <m@x>", "Same Name <z@x>"]
    );
}

#[test]
fn default_arguments_use_ten_workers() {
    let args = Args::default();
    assert_eq!(args.threads, 10);
    assert!(args.urls.is_empty());
}
