use rust_repos::analyzer::{
    aggregate, biggest_n, collect_project, count_by_host, distinct_repos_per_hostname, Pom,
    Repositories, Repository,
};

fn pom(repos: &[&str], dists: &[&str]) -> Pom {
    let section = |urls: &[&str]| Repositories {
        repositories: urls
            .iter()
            .enumerate()
            .map(|(i, u)| Repository {
                id: format!("r{i}"),
                url: String::from(*u),
            })
            .collect(),
    };
    Pom {
        repositories: if repos.is_empty() {
            None
        } else {
            Some(section(repos))
        },
        distribution_management: if dists.is_empty() {
            None
        } else {
            Some(section(dists))
        },
    }
}

fn lookup(counts: &[(String, usize)], key: &str) -> Option<usize> {
    counts.iter().find(|(k, _)| k == key).map(|(_, c)| *c)
}

const CENTRAL: &str = "https://repo.maven.apache.org/maven2";

#[test]
fn descriptor_sections_are_read_in_order() {
    let p = pom(&["https://a", "https://b"], &[]);
    assert_eq!(
        p.repositories(),
        Some(vec![String::from("https://a"), String::from("https://b")])
    );
    assert_eq!(p.distribution_repositories(), None);
}

#[test]
fn projects_union_their_descriptors_without_duplicates() {
    let poms = vec![
        pom(&["https://a", "https://b"], &["https://d"]),
        pom(&["https://b", "https://c"], &[]),
        pom(&[], &["https://d"]),
    ];
    let project = collect_project(String::from("proj"), &poms);
    assert_eq!(project.name, "proj");
    assert_eq!(project.repos, vec!["https://a", "https://b", "https://c"]);
    assert_eq!(project.dist_repos, vec!["https://d"]);
}

#[test]
fn aggregation_counts_urls_across_projects() {
    let poms1 = vec![pom(&["https://a", CENTRAL], &["https://dist"])];
    let poms2 = vec![pom(&["https://a", "https://b"], &[])];
    let poms3 = vec![pom(&[CENTRAL], &[])];
    let projects = vec![
        collect_project(String::from("p1"), &poms1),
        collect_project(String::from("p2"), &poms2),
        collect_project(String::from("p3"), &poms3),
    ];
    let report = aggregate(&projects, vec![String::from("one error")]);
    assert_eq!(report.total, 3);
    // central is never counted as an external repository
    assert_eq!(lookup(&report.external_repos, CENTRAL), None);
    assert_eq!(lookup(&report.external_repos, "https://a"), Some(2));
    assert_eq!(lookup(&report.external_repos, "https://b"), Some(1));
    // p3 declares only central, so it has no external repositories
    assert_eq!(report.has_external_repos, 2);
    assert_eq!(report.has_distro_repos, vec!["p1"]);
    assert_eq!(lookup(&report.distros, "https://dist"), Some(1));
    assert_eq!(report.errors, vec!["one error"]);
}

#[test]
fn host_tallies_sum_counts_per_host() {
    let entries = vec![
        (String::from("https://repo.example.com/a"), 3usize),
        (String::from("https://repo.example.com/b"), 4usize),
        (String::from("https://other.org/x"), 5usize),
        (String::from("not a url"), 9usize),
    ];
    let tally = count_by_host(&entries);
    assert_eq!(lookup(&tally, "repo.example.com"), Some(7));
    assert_eq!(lookup(&tally, "other.org"), Some(5));
    assert_eq!(tally.len(), 2);
}

#[test]
fn distinct_urls_per_host_count_entries_not_uses() {
    let entries = vec![
        (String::from("https://h.example/a"), 100usize),
        (String::from("https://h.example/b"), 200usize),
        (String::from("https://solo.example/x"), 1usize),
    ];
    let tally = distinct_repos_per_hostname(&entries);
    assert_eq!(lookup(&tally, "h.example"), Some(2));
    assert_eq!(lookup(&tally, "solo.example"), Some(1));
}

#[test]
fn biggest_n_takes_the_top_counts_in_order() {
    let counts = vec![
        (String::from("low"), 1usize),
        (String::from("high"), 9usize),
        (String::from("mid"), 5usize),
        (String::from("tiny"), 0usize),
    ];
    let top = biggest_n(&counts, 2);
    assert_eq!(top.len(), 2);
    assert_eq!(top[0].1, 9);
    assert_eq!(top[1].1, 5);
    assert_eq!(top[0].0, "high");
    assert_eq!(top[1].0, "mid");
    // asking for more than there is returns everything, sorted
    let all = biggest_n(&counts, 10);
    assert_eq!(all.len(), 4);
    assert!(all.windows(2).all(|w| w[0].1 >= w[1].1));
}
