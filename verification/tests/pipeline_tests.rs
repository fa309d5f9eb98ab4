use rust_repos::api::{
    flatten_nodes, handle_status, has_language, raw_file_url, releases_path, repositories_path,
    retry_decision, tree_path, validate_detail_cost, Error, GitHubError, GithubTree,
    GraphLanguage, GraphLanguages, GraphRepository, Node, RequestTarget, RestRepository,
    RetryDecision,
};
use rust_repos::data::Data;
use rust_repos::harvest::{
    classify_file_error, classify_tree_error, count_hits, plan_downloads,
    plan_workflow_downloads, record_completion, workflow_batches, FileErrorAction,
    TreeErrorAction,
};
use rust_repos::pool::CredentialPool;
use rust_repos::scanner::{pacing_sleep, ScanPhase, Scanner};
use rust_repos::{CsvRepo, Repo};

fn summary(id: usize, name: &str, node_id: &str, fork: bool) -> RestRepository {
    RestRepository {
        id,
        full_name: String::from(name),
        node_id: String::from(node_id),
        fork,
    }
}

fn fresh_data() -> Data {
    Data::new("./data", None, "", false).expect("fresh state must build")
}

// For a pool of size three, seven rate-limited responses rotate through
// every slot exactly once per cycle, and the wrap — the cooldown signal —
// comes exactly once per complete cycle.
#[test]
fn rotation_visits_each_slot_once_per_cycle() {
    let tokens = vec![
        String::from("t0"),
        String::from("t1"),
        String::from("t2"),
    ];
    let mut pool = CredentialPool::new(tokens);
    let mut seen = Vec::new();
    let mut wraps = Vec::new();
    for _ in 0..7 {
        let wrapped = pool.advance();
        seen.push(pool.index);
        wraps.push(wrapped);
    }
    assert_eq!(seen, vec![1, 2, 0, 1, 2, 0, 1]);
    assert_eq!(wraps, vec![false, false, true, false, false, true, false]);
    // each full cycle of three visits slots 1, 2 and 0 exactly once
    let first_cycle = &seen[0..3];
    for slot in 0..3 {
        assert_eq!(first_cycle.iter().filter(|s| **s == slot).count(), 1);
    }
    assert_eq!(wraps[0..3].iter().filter(|w| **w).count(), 1);
    assert_eq!(wraps[3..6].iter().filter(|w| **w).count(), 1);
}

#[test]
fn pool_serves_current_credential() {
    let mut pool = CredentialPool::new(vec![String::from("a"), String::from("b")]);
    assert_eq!(pool.current(), "a");
    pool.advance();
    assert_eq!(pool.current(), "b");
}

#[test]
fn classification_follows_the_api_conventions() {
    assert!(handle_status(200, None).is_ok());
    assert!(handle_status(204, None).is_ok());
    assert!(matches!(handle_status(429, None), Err(Error::RateLimited(429))));
    assert!(matches!(handle_status(422, None), Err(Error::RateLimited(422))));
    let abuse = GitHubError {
        message: String::from("abuse detection triggered"),
        type_: None,
    };
    assert!(matches!(
        handle_status(403, Some(&abuse)),
        Err(Error::RateLimited(403))
    ));
    let throttle = GitHubError {
        message: String::from("you have hit a rate limit"),
        type_: Some(String::from("throttle")),
    };
    assert!(matches!(
        handle_status(403, Some(&throttle)),
        Err(Error::RateLimited(403))
    ));
    let plain = GitHubError {
        message: String::from("not found"),
        type_: None,
    };
    assert!(matches!(handle_status(404, Some(&plain)), Err(Error::Fatal(404))));
    assert!(matches!(handle_status(500, None), Err(Error::Fatal(500))));
}

#[test]
fn only_rate_limits_are_retried() {
    assert!(matches!(
        retry_decision(&Error::RateLimited(429)),
        RetryDecision::Rotate
    ));
    assert!(matches!(retry_decision(&Error::Transient), RetryDecision::Return));
    assert!(matches!(retry_decision(&Error::Fatal(500)), RetryDecision::Return));
    assert!(matches!(retry_decision(&Error::EmptyData), RetryDecision::Return));
}

#[test]
fn request_targets_shape_urls() {
    let abs = RequestTarget::of_str("https://raw.example.com/x");
    assert_eq!(abs.url(), "https://raw.example.com/x");
    let rel = RequestTarget::of_str("graphql");
    assert_eq!(rel.url(), "https://api.github.com/graphql");
    assert_eq!(repositories_path(1000), "repositories?since=1000");
    let repo = Repo {
        id: String::from("n1"),
        name: String::from("owner/repo"),
    };
    assert_eq!(tree_path(&repo), "repos/owner/repo/git/trees/HEAD?recursive=1");
    assert_eq!(
        raw_file_url(&repo, "sub/pom.xml"),
        "https://raw.githubusercontent.com/owner/repo/HEAD/sub/pom.xml"
    );
    assert_eq!(releases_path(&repo), "repos/owner/repo/releases");
}

#[test]
fn language_qualification() {
    let langs = GraphLanguages {
        nodes: vec![
            None,
            Some(GraphLanguage {
                name: String::from("Kotlin"),
            }),
            Some(GraphLanguage {
                name: String::from("Java"),
            }),
        ],
    };
    assert!(has_language(&langs, "Java"));
    assert!(!has_language(&langs, "Rust"));
    let empty = GraphLanguages { nodes: vec![] };
    assert!(!has_language(&empty, "Java"));
}

#[test]
fn absent_detail_results_are_dropped_in_order() {
    let mk = |id: &str| GraphRepository {
        id: String::from(id),
        name_with_owner: String::from("o/r"),
        languages: GraphLanguages { nodes: vec![] },
    };
    let present = flatten_nodes(vec![Some(mk("a")), None, Some(mk("b")), None]);
    let ids: Vec<&str> = present.iter().map(|r| r.id.as_str()).collect();
    assert_eq!(ids, vec!["a", "b"]);
}

#[test]
fn detail_query_cost_budget() {
    assert!(validate_detail_cost(0));
    assert!(validate_detail_cost(1));
    assert!(!validate_detail_cost(2));
}

// Given the tree ["pom.xml", "sub/pom.xml", "readme.md"] and the target
// suffix "pom.xml", exactly two downloads are planned and readme.md is
// never requested.
#[test]
fn download_plan_matches_suffix_only() {
    let tree = GithubTree {
        tree: vec![
            Node {
                path: String::from("pom.xml"),
            },
            Node {
                path: String::from("sub/pom.xml"),
            },
            Node {
                path: String::from("readme.md"),
            },
        ],
    };
    let plan = plan_downloads(&tree, "pom.xml");
    assert_eq!(plan, vec!["pom.xml", "sub/pom.xml"]);
    assert!(!plan.iter().any(|p| p == "readme.md"));
}

#[test]
fn workflow_plan_takes_only_workflow_yaml() {
    let tree = GithubTree {
        tree: vec![
            Node {
                path: String::from(".github/workflows/ci.yml"),
            },
            Node {
                path: String::from(".github/workflows/release.yaml"),
            },
            Node {
                path: String::from(".github/workflows/readme.md"),
            },
            Node {
                path: String::from("src/ci.yml"),
            },
        ],
    };
    let plan = plan_workflow_downloads(&tree);
    assert_eq!(
        plan,
        vec![".github/workflows/ci.yml", ".github/workflows/release.yaml"]
    );
}

#[test]
fn file_errors_classify_not_found_as_benign() {
    assert!(matches!(
        classify_file_error(&Error::Fatal(404)),
        FileErrorAction::Benign
    ));
    assert!(matches!(
        classify_file_error(&Error::Fatal(500)),
        FileErrorAction::AbortRepo
    ));
    assert!(matches!(
        classify_file_error(&Error::Transient),
        FileErrorAction::AbortRepo
    ));
}

#[test]
fn tree_errors_skip_the_repository_on_any_status() {
    assert!(matches!(
        classify_tree_error(&Error::Fatal(451)),
        TreeErrorAction::SkipRepo
    ));
    assert!(matches!(
        classify_tree_error(&Error::Transient),
        TreeErrorAction::AbortRun
    ));
    assert!(matches!(
        classify_tree_error(&Error::EmptyData),
        TreeErrorAction::AbortRun
    ));
}

#[test]
fn workflow_batches_group_by_five_and_restore_names() {
    let dirs: Vec<String> = (0..13).map(|i| format!("owner{i}.repo{i}")).collect();
    let groups = workflow_batches(dirs);
    assert_eq!(groups.len(), 2);
    assert_eq!(groups[0].0, "owner0/repo0");
    assert_eq!(groups[0].4, "owner4/repo4");
    assert_eq!(groups[1].0, "owner5/repo5");
    assert_eq!(groups[1].4, "owner9/repo9");
}

#[test]
fn hit_counting() {
    assert_eq!(count_hits(&vec![true, false, true, true]), 3);
    assert_eq!(count_hits(&vec![]), 0);
}

// After processing each page the cursor is at least the maximum id seen on
// any page so far, and a later page never lowers it.
#[test]
fn cursor_never_decreases() {
    let mut scanner = Scanner::new(1000);
    scanner.process_page(vec![
        summary(1500, "a/a", "n1", false),
        summary(1400, "b/b", "n2", true),
    ]);
    assert_eq!(scanner.cursor, 1500);
    scanner.process_page(vec![summary(1200, "c/c", "n3", false)]);
    assert_eq!(scanner.cursor, 1500);
    scanner.process_page(vec![summary(1600, "d/d", "n4", false)]);
    assert_eq!(scanner.cursor, 1600);
}

// The end-to-end batching scenario: the cursor starts at 1000, a page of
// 100 summaries has 10 forks, so 90 ids accumulate and no detail query
// fires until a second page supplies at least 10 more non-fork ids.
#[test]
fn batch_fires_only_at_one_hundred() {
    let mut scanner = Scanner::new(1000);
    let first: Vec<RestRepository> = (0..100)
        .map(|i| summary(1001 + i, "o/r", &format!("node{i}"), i < 10))
        .collect();
    let batches = scanner.process_page(first);
    assert!(batches.is_empty());
    assert_eq!(scanner.pending.len(), 90);
    assert_eq!(scanner.cursor, 1100);

    let second: Vec<RestRepository> = (0..12)
        .map(|i| summary(1101 + i, "o/r", &format!("late{i}"), false))
        .collect();
    let batches = scanner.process_page(second);
    assert_eq!(batches.len(), 1);
    assert_eq!(batches[0].len(), 100);
    assert_eq!(batches[0][0], "node10");
    assert_eq!(batches[0][99], "late9");
    assert_eq!(scanner.pending.len(), 2);
}

#[test]
fn empty_page_is_exhaustion() {
    let mut scanner = Scanner::new(0);
    assert!(scanner.wants_page());
    scanner.process_page(vec![]);
    assert!(!scanner.wants_page());
    assert_eq!(scanner.phase, ScanPhase::Stopped);
}

// Setting the cancellation flag lets the current page's work finish and
// then the loop exits: once the flag is observed, the engine never asks
// for another page.
#[test]
fn cancellation_drains_and_stops() {
    let mut scanner = Scanner::new(50);
    scanner.process_page(vec![summary(60, "o/r", "n-a", false)]);
    assert!(scanner.wants_page());

    // flag not set: scanning goes on
    assert!(scanner.observe_cancellation(false).is_none());
    assert!(scanner.wants_page());

    // flag set: the partial batch is handed out for one final dispatch
    let leftover = scanner.observe_cancellation(true);
    assert_eq!(leftover, Some(vec![String::from("n-a")]));
    assert!(!scanner.wants_page());
    assert_eq!(scanner.phase, ScanPhase::Draining);

    scanner.finish_draining();
    assert_eq!(scanner.phase, ScanPhase::Stopped);
    assert!(!scanner.wants_page());
}

#[test]
fn cancellation_with_no_partial_batch() {
    let mut scanner = Scanner::new(50);
    let leftover = scanner.observe_cancellation(true);
    assert!(leftover.is_none());
    assert!(!scanner.wants_page());
}

#[test]
fn pacing_sleeps_the_remainder() {
    assert_eq!(pacing_sleep(0), Some(250));
    assert_eq!(pacing_sleep(100), Some(150));
    assert_eq!(pacing_sleep(250), None);
    assert_eq!(pacing_sleep(1000), None);
}

#[test]
fn state_starts_at_zero_without_a_cursor_file() {
    let data = fresh_data();
    assert_eq!(data.get_last_id().unwrap(), 0);
    assert_eq!(data.pom_dir, "./data/poms");
    assert_eq!(data.github_csv, "./data/github.csv");
    assert_eq!(data.fetched_path, "./data/fetched");
    assert_eq!(data.state_path, "./data/state.json");
}

#[test]
fn state_resumes_from_the_cursor_file() {
    let content = rust_repos::state::render_state(777);
    let data = Data::new("./data", Some(&content), "", true).unwrap();
    assert_eq!(data.get_last_id().unwrap(), 777);
}

#[test]
fn corrupt_cursor_file_is_fatal() {
    assert!(Data::new("./data", Some("not json"), "", false).is_err());
}

#[test]
fn cursor_rewrite_is_wholesale() {
    let mut data = fresh_data();
    let content = data.set_last_id(123);
    assert_eq!(content, "{\n  \"last_id\": {\n    \"github\": 123\n  }\n}\n");
    assert_eq!(data.get_last_id().unwrap(), 123);
}

#[test]
fn pom_paths_are_sanitized() {
    let data = fresh_data();
    let repo = Repo {
        id: String::from("n"),
        name: String::from("owner/repo"),
    };
    assert_eq!(
        data.get_pom_path(&repo, "sub/pom.xml"),
        "./data/poms/owner.repo/sub/pom.xml"
    );
}

// A result sink written to by three sequential qualifying repositories has
// exactly one header line and exactly three data rows, in write order.
#[test]
fn three_stores_one_header() {
    let mut data = fresh_data();
    let mut file = String::new();
    for (id, name, has_pom) in [("1", "a/a", true), ("2", "b/b", false), ("3", "c/c", true)] {
        file.push_str(&data.store_repo(CsvRepo {
            id: String::from(id),
            name: String::from(name),
            has_pom,
        }));
    }
    assert_eq!(file, "id,name,has_pom\n1,a/a,true\n2,b/b,false\n3,c/c,true\n");
    let lines: Vec<&str> = file.lines().collect();
    assert_eq!(lines.len(), 4);
    assert_eq!(lines.iter().filter(|l| **l == "id,name,has_pom").count(), 1);
}

#[test]
fn an_existing_sink_file_gets_no_second_header() {
    let mut data = Data::new("./data", None, "", true).unwrap();
    let out = data.store_repo(CsvRepo {
        id: String::from("9"),
        name: String::from("x/y"),
        has_pom: false,
    });
    assert_eq!(out, "9,x/y,false\n");
}

#[test]
fn marking_fetched_appends_one_ledger_line() {
    let mut data = fresh_data();
    let repo = Repo {
        id: String::from("node-1"),
        name: String::from("o/r"),
    };
    let line = data.mark_fetched(&repo);
    assert_eq!(line, "node-1\n");
    assert!(data.is_fetched(&String::from("node-1")));
    assert!(!data.is_fetched(&String::from("node-2")));
}

// If the ledger already contains an id at startup, a harvest-only run
// plans no work for it: no call referencing it is ever issued.
#[test]
fn ledgered_ids_are_skipped_on_resume() {
    let data = Data::new("./data", None, "done-1\ndone-2\n", true).unwrap();
    let csv = "id,name,has_pom\ndone-1,a/a,true\nnew-1,b/b,false\ndone-2,c/c,true\nnew-2,d/d,false\n";
    let work = data.get_non_fetched_repos(csv).unwrap();
    let ids: Vec<&str> = work.iter().map(|r| r.id.as_str()).collect();
    assert_eq!(ids, vec!["new-1", "new-2"]);
    assert!(!ids.contains(&"done-1"));
    assert!(!ids.contains(&"done-2"));
}

#[test]
fn unreadable_sink_is_an_error_on_resume() {
    let data = fresh_data();
    assert!(data.get_non_fetched_repos("garbage").is_err());
}

// The completion pair: the ledger entry and the result row are appended
// together, exactly once per repository, match or no match.
#[test]
fn completion_appends_ledger_and_row_once() {
    let mut data = fresh_data();
    let repo = Repo {
        id: String::from("n-7"),
        name: String::from("o/r"),
    };
    let (ledger_line, sink_bytes) = record_completion(&mut data, repo, false);
    assert_eq!(ledger_line, "n-7\n");
    assert_eq!(sink_bytes, "id,name,has_pom\nn-7,o/r,false\n");
    assert!(data.is_fetched(&String::from("n-7")));
}

#[test]
fn consolidation_reconciles_against_directories() {
    let data = fresh_data();
    let rows = vec![
        CsvRepo {
            id: String::from("1"),
            name: String::from("a/a"),
            has_pom: false,
        },
        CsvRepo {
            id: String::from("2"),
            name: String::from("b/b"),
            has_pom: true,
        },
        CsvRepo {
            id: String::from("3"),
            name: String::from("c/c"),
            has_pom: false,
        },
    ];
    let dirs = vec![String::from("a.a")];
    let fixed = data.consolidate_rows(rows, &dirs);
    assert!(fixed[0].has_pom);
    assert!(fixed[1].has_pom);
    assert!(!fixed[2].has_pom);
}

// The resumability contract end to end: a sink file accumulated by
// sequential stores parses back to exactly the rows that were written.
#[test]
fn a_resume_reads_back_what_was_written() {
    let mut data = fresh_data();
    let written = [("1", "a/a", true), ("2", "b,b/c", false), ("3", "d/d", true)];
    let mut file = String::new();
    for (id, name, has_pom) in written {
        file.push_str(&data.store_repo(CsvRepo {
            id: String::from(id),
            name: String::from(name),
            has_pom,
        }));
    }
    let rows = rust_repos::sink::parse_csv(&file).expect("the sink's own file must parse");
    assert_eq!(rows.len(), 3);
    for (row, (id, name, has_pom)) in rows.iter().zip(written) {
        assert_eq!(row.id, id);
        assert_eq!(row.name, name);
        assert_eq!(row.has_pom, has_pom);
    }
}
