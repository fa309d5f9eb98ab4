use rust_repos::ledger::parse_ledger;
use rust_repos::numeric::{parse_usize, usize_to_string};
use rust_repos::sink::{parse_csv, parse_row_line, render_header, render_row};
use rust_repos::state::{parse_state, render_state};
use rust_repos::strutil::{
    desanitize_name, sanitize_name, str_contains, str_ends_with, str_starts_with,
};
use rust_repos::CsvRepo;

#[test]
fn decimal_rendering_exact() {
    assert_eq!(usize_to_string(0), "0");
    assert_eq!(usize_to_string(7), "7");
    assert_eq!(usize_to_string(105), "105");
    assert_eq!(usize_to_string(1000), "1000");
}

#[test]
fn decimal_parsing_round_trip() {
    for n in [0usize, 1, 9, 10, 99, 100, 12345, usize::MAX] {
        assert_eq!(parse_usize(&usize_to_string(n)), Some(n));
    }
}

#[test]
fn decimal_parsing_rejections() {
    assert_eq!(parse_usize(""), None);
    assert_eq!(parse_usize("12a"), None);
    assert_eq!(parse_usize("-5"), None);
    assert_eq!(parse_usize("99999999999999999999999999"), None);
}

#[test]
fn state_file_exact_text() {
    let content = render_state(42);
    assert_eq!(content, "{\n  \"last_id\": {\n    \"github\": 42\n  }\n}\n");
}

#[test]
fn state_file_round_trip() {
    for n in [0usize, 1, 1000, 987654321] {
        assert_eq!(parse_state(&render_state(n)), Some(n));
    }
}

#[test]
fn state_file_rejections() {
    assert_eq!(parse_state(""), None);
    assert_eq!(parse_state("{}"), None);
    // a leading zero is not a rendering the cursor writer produces
    assert_eq!(
        parse_state("{\n  \"last_id\": {\n    \"github\": 042\n  }\n}\n"),
        None
    );
    assert_eq!(
        parse_state("{\n  \"last_id\": {\n    \"github\": \n  }\n}\n"),
        None
    );
}

#[test]
fn ledger_parses_in_order() {
    let ids = parse_ledger("alpha\nbeta\ngamma\n");
    assert_eq!(ids, vec!["alpha", "beta", "gamma"]);
}

#[test]
fn ledger_handles_missing_final_newline() {
    let ids = parse_ledger("alpha\nbeta");
    assert_eq!(ids, vec!["alpha", "beta"]);
}

#[test]
fn ledger_of_empty_file_is_empty() {
    let ids = parse_ledger("");
    assert!(ids.is_empty());
}

#[test]
fn csv_header_text() {
    assert_eq!(render_header(), "id,name,has_pom\n");
}

#[test]
fn csv_row_plain() {
    let row = CsvRepo {
        id: String::from("1"),
        name: String::from("owner/repo"),
        has_pom: true,
    };
    assert_eq!(render_row(&row), "1,owner/repo,true\n");
}

#[test]
fn csv_row_quotes_comma_and_quote() {
    let row = CsvRepo {
        id: String::from("2"),
        name: String::from("o,d\"d"),
        has_pom: false,
    };
    assert_eq!(render_row(&row), "2,\"o,d\"\"d\",false\n");
}

#[test]
fn csv_row_parse_round_trip() {
    let cases = [
        ("1", "owner/repo", true),
        ("2", "o,dd", false),
        ("3", "quo\"te", true),
        ("", "empty-id", false),
    ];
    for (id, name, has_pom) in cases {
        let row = CsvRepo {
            id: String::from(id),
            name: String::from(name),
            has_pom,
        };
        let rendered = render_row(&row);
        let body = &rendered[..rendered.len() - 1];
        let parsed = parse_row_line(body).expect("row must parse back");
        assert_eq!(parsed.id, id);
        assert_eq!(parsed.name, name);
        assert_eq!(parsed.has_pom, has_pom);
    }
}

#[test]
fn csv_row_parse_rejections() {
    // too few fields
    assert!(parse_row_line("a,b").is_none());
    // a bad boolean
    assert!(parse_row_line("a,b,maybe").is_none());
    // a quoted field that did not need its quotes is not a rendering
    assert!(parse_row_line("\"ab\",b,true").is_none());
    // an unterminated quoted field
    assert!(parse_row_line("\"a,b,true").is_none());
}

#[test]
fn csv_file_round_trip() {
    let rows = [
        ("10", "a/b", true),
        ("11", "c,d/e", false),
    ];
    let mut content = render_header();
    for (id, name, has_pom) in rows {
        content.push_str(&render_row(&CsvRepo {
            id: String::from(id),
            name: String::from(name),
            has_pom,
        }));
    }
    let parsed = parse_csv(&content).expect("file must parse back");
    assert_eq!(parsed.len(), 2);
    assert_eq!(parsed[0].id, "10");
    assert_eq!(parsed[0].name, "a/b");
    assert!(parsed[0].has_pom);
    assert_eq!(parsed[1].name, "c,d/e");
    assert!(!parsed[1].has_pom);
}

#[test]
fn csv_file_rejections() {
    assert!(parse_csv("").is_none());
    assert!(parse_csv("id,name\n").is_none());
    assert!(parse_csv("id,name,has_pom\n1,a,b,yes\n").is_none());
    // no trailing newline is not a file this sink writes
    assert!(parse_csv("id,name,has_pom\n1,a,true").is_none());
}

#[test]
fn name_sanitizing_round_trip() {
    assert_eq!(sanitize_name("owner/repo"), "owner.repo");
    assert_eq!(desanitize_name("owner.repo"), "owner/repo");
    assert_eq!(sanitize_name("a/b/c"), "a.b.c");
    assert_eq!(sanitize_name(""), "");
}

#[test]
fn substring_predicates() {
    assert!(str_ends_with("sub/pom.xml", "pom.xml"));
    assert!(!str_ends_with("pom.xml.bak", "pom.xml"));
    assert!(str_starts_with(".github/workflows/ci.yml", ".github/workflows"));
    assert!(str_contains("you have hit a rate limit here", "rate limit"));
    assert!(!str_contains("all good", "rate limit"));
    assert!(str_contains("abc", ""));
}
