use rust_repos::subset::create_subset_plan;
use rust_repos::CsvRepo;

fn rows(n: usize) -> Vec<CsvRepo> {
    (0..n)
        .map(|i| CsvRepo {
            id: format!("id{i}"),
            name: format!("owner{i}/repo{i}"),
            has_pom: i % 2 == 0,
        })
        .collect()
}

const SEED: [u8; 32] = [42; 32];

#[test]
fn subset_has_the_requested_size() {
    let all = rows(20);
    let sample = create_subset_plan(&all, 5, &SEED);
    assert_eq!(sample.len(), 5);
}

#[test]
fn oversized_requests_return_everything() {
    let all = rows(3);
    let sample = create_subset_plan(&all, 10, &SEED);
    assert_eq!(sample.len(), 3);
}

#[test]
fn subset_rows_come_from_the_input_without_repeats() {
    let all = rows(30);
    let sample = create_subset_plan(&all, 12, &SEED);
    let mut seen: Vec<&str> = sample.iter().map(|r| r.id.as_str()).collect();
    for id in &seen {
        assert!(all.iter().any(|r| r.id == *id));
    }
    seen.sort();
    seen.dedup();
    assert_eq!(seen.len(), 12);
}

#[test]
fn the_same_seed_selects_the_same_subset() {
    let all = rows(25);
    let first = create_subset_plan(&all, 8, &SEED);
    let second = create_subset_plan(&all, 8, &SEED);
    let a: Vec<&str> = first.iter().map(|r| r.id.as_str()).collect();
    let b: Vec<&str> = second.iter().map(|r| r.id.as_str()).collect();
    assert_eq!(a, b);
}

#[test]
fn the_shuffle_actually_permutes() {
    let all = rows(40);
    let sample = create_subset_plan(&all, 40, &SEED);
    let sampled: Vec<&str> = sample.iter().map(|r| r.id.as_str()).collect();
    let in_order: Vec<String> = (0..40).map(|i| format!("id{i}")).collect();
    let in_order: Vec<&str> = in_order.iter().map(|s| s.as_str()).collect();
    assert_ne!(sampled, in_order);
}
