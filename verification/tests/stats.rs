use git_author_stats::counts::{count_blame_authors, aggregate_period, total_count, AuthorCounts};
use git_author_stats::exclusion::{eligible_files, reason_to_skip};
use git_author_stats::normalize::normalize;
use git_author_stats::perf::{reformat, AuthorPerformance};
use git_author_stats::render::{render_table, sorted_authors};
use git_author_stats::text::{pad_left, pad_right, split_lines, str_eq, u64_to_string};
use git_author_stats::{effective_date_bound, period_label, periods_through};

#[test]
fn excluded_by_prefix_even_with_binary_extension() {
    assert_eq!(reason_to_skip("cache/out.bin"), Some("generated".to_string()));
}

#[test]
fn excluded_vendored_prefix() {
    assert_eq!(reason_to_skip("xip/core.c"), Some("mostly imported".to_string()));
}

#[test]
fn excluded_autogenerated_extension() {
    assert_eq!(reason_to_skip("src/thing.v"), Some("autogenerated".to_string()));
}

#[test]
fn excluded_binary_extension() {
    assert_eq!(reason_to_skip("doc/a.png"), Some("binary extension".to_string()));
    assert_eq!(reason_to_skip("x.tar"), Some("binary extension".to_string()));
}

#[test]
fn excluded_generated_artifact_suffix() {
    assert_eq!(
        reason_to_skip("proj/top.bd.tcl"),
        Some("mostly autogenerated".to_string())
    );
}

#[test]
fn not_excluded_plain_source() {
    assert_eq!(reason_to_skip("src/main.rs"), None);
}

#[test]
fn not_excluded_hidden_file_has_no_extension() {
    assert_eq!(reason_to_skip(".gitignore"), None);
    assert_eq!(reason_to_skip("README"), None);
}

#[test]
fn classifier_is_deterministic() {
    for p in ["cache/x", "a/b.v", "src/lib.rs", "top.bd.tcl"] {
        assert_eq!(reason_to_skip(p), reason_to_skip(p));
    }
}

#[test]
fn eligible_files_keeps_order_and_drops_excluded() {
    let files = vec![
        "src/main.rs".to_string(),
        "cache/out.bin".to_string(),
        "doc/readme.md".to_string(),
        "src/thing.v".to_string(),
    ];
    let kept = eligible_files(&files);
    assert_eq!(kept, vec!["src/main.rs".to_string(), "doc/readme.md".to_string()]);
}

#[test]
fn normalize_merges_spellings() {
    assert_eq!(normalize("jane-doe"), "Jane Doe");
    assert_eq!(normalize("Jane_Doe"), "Jane Doe");
}

#[test]
fn normalize_collapses_separator_runs() {
    assert_eq!(normalize("m..m"), "M M");
    assert_eq!(normalize("a-_.b"), "A B");
}

#[test]
fn normalize_word_boundaries_follow_word_characters() {
    assert_eq!(normalize("3d-artist"), "3d Artist");
    assert_eq!(normalize("john q public"), "John Q Public");
}

#[test]
fn normalize_is_idempotent_on_samples() {
    for raw in ["jane-doe", "JOHN.Q_PUBLIC", "  x  ", "a--b", "émile-z"] {
        let once = normalize(raw);
        let twice = normalize(&once);
        assert_eq!(twice, once);
    }
}

#[test]
fn counts_accumulate_per_author() {
    let mut c = AuthorCounts::new();
    assert_eq!(c.get_count("jane"), 0);
    c.add_count("jane", 3);
    c.add_count("bob", 2);
    c.add_count("jane", 4);
    assert_eq!(c.get_count("jane"), 7);
    assert_eq!(c.get_count("bob"), 2);
    assert_eq!(c.get_count("nobody"), 0);
    assert_eq!(total_count(&c), 9);
}

#[test]
fn aggregate_is_order_independent() {
    let mut a = AuthorCounts::new();
    a.add_count("x", 10);
    a.add_count("y", 5);
    let mut b = AuthorCounts::new();
    b.add_count("y", 2);

    let mut a2 = AuthorCounts::new();
    a2.add_count("x", 10);
    a2.add_count("y", 5);
    let mut b2 = AuthorCounts::new();
    b2.add_count("y", 2);

    let t1 = aggregate_period(&vec![a, b]);
    let t2 = aggregate_period(&vec![b2, a2]);
    for name in ["x", "y", "z"] {
        assert_eq!(t1.get_count(name), t2.get_count(name));
    }
    assert_eq!(t1.get_count("x"), 10);
    assert_eq!(t1.get_count("y"), 7);
}

#[test]
fn aggregation_conserves_lines() {
    let mut a = AuthorCounts::new();
    a.add_count("x", 8);
    a.add_count("y", 1);
    let mut b = AuthorCounts::new();
    b.add_count("z", 4);
    let parts_total = total_count(&a) + total_count(&b);
    let merged = aggregate_period(&vec![a, b]);
    assert_eq!(total_count(&merged), parts_total);
    assert_eq!(parts_total, 13);
}

#[test]
fn blame_output_counts_author_lines() {
    let out = "author jane\n\
               author-mail <j@x>\n\
               summary stuff\n\
               author bob\n\
               author jane\n";
    let c = count_blame_authors(out);
    assert_eq!(c.get_count("jane"), 2);
    assert_eq!(c.get_count("bob"), 1);
    assert_eq!(c.get_count("author"), 0);
}

#[test]
fn blame_output_empty_gives_no_counts() {
    let c = count_blame_authors("");
    assert_eq!(total_count(&c), 0);
}

#[test]
fn split_lines_matches_line_semantics() {
    assert_eq!(split_lines("a\r\nb\nc"), vec!["a", "b", "c"]);
    assert_eq!(split_lines("a\n\nb\n"), vec!["a", "", "b"]);
    assert_eq!(split_lines(""), Vec::<String>::new());
    assert_eq!(split_lines("tail\r"), vec!["tail\r"]);
}

#[test]
fn decimal_and_padding() {
    assert_eq!(u64_to_string(0), "0");
    assert_eq!(u64_to_string(1234567890), "1234567890");
    assert_eq!(pad_left("ab", 5), "   ab");
    assert_eq!(pad_right("ab", 5), "ab   ");
    assert_eq!(pad_left("abcdef", 3), "abcdef");
    assert!(str_eq("abc", "abc"));
    assert!(!str_eq("abc", "abd"));
}

#[test]
fn period_labels_and_series() {
    assert_eq!(period_label(2016, 3), "2016-03-01");
    let ps = periods_through(2017, 2);
    assert_eq!(ps.len(), 14);
    assert_eq!(ps[0], "2016-01-01");
    assert_eq!(ps[12], "2017-01-01");
    assert_eq!(ps[13], "2017-02-01");
}

#[test]
fn date_bound_tightens_period_boundaries() {
    assert_eq!(effective_date_bound("2020-05-01", &None), "2020-05-01");
    assert_eq!(
        effective_date_bound("2020-05-01", &Some("2019-12-31".to_string())),
        "2019-12-31"
    );
    assert_eq!(
        effective_date_bound("2020-05-01", &Some("2021-01-01".to_string())),
        "2020-05-01"
    );
}

fn one_file(author: &str, lines: u64) -> AuthorCounts {
    let mut c = AuthorCounts::new();
    c.add_count(author, lines);
    c
}

#[test]
fn skipped_period_contributes_no_column() {
    let mut perf = AuthorPerformance::new();
    perf.record_period("2016-01-01".to_string(), true, &vec![one_file("x", 8)]);
    perf.record_period("2016-02-01".to_string(), false, &Vec::new());
    perf.record_period("2016-03-01".to_string(), true, &Vec::new());
    assert_eq!(perf.entries.len(), 1);
    let norm = reformat(&perf);
    let rows = sorted_authors(&norm, true);
    let table = render_table(&norm, &rows, false);
    assert!(table.contains("2016-01-01"));
    assert!(!table.contains("2016-02-01"));
    assert!(!table.contains("2016-03-01"));
}

#[test]
fn identity_merge_within_a_period() {
    let mut perf = AuthorPerformance::new();
    let files = vec![one_file("jane-doe", 10), one_file("Jane_Doe", 5)];
    perf.record_period("2016-01-01".to_string(), true, &files);
    let norm = reformat(&perf);
    assert_eq!(norm.entries.len(), 1);
    assert_eq!(norm.entries[0].counts.get_count("Jane Doe"), 15);
    assert_eq!(norm.entries[0].counts.get_count("jane-doe"), 0);
}

#[test]
fn end_to_end_two_periods_two_authors() {
    let mut perf = AuthorPerformance::new();
    perf.record_period("2016-01-01".to_string(), true, &vec![one_file("x", 8)]);
    perf.record_period("2016-02-01".to_string(), true, &vec![one_file("y", 3)]);
    let norm = reformat(&perf);
    let rows = sorted_authors(&norm, true);
    assert_eq!(rows.len(), 2);
    assert_eq!(rows[0].name, "X");
    assert_eq!(rows[0].total, 8);
    assert_eq!(rows[1].name, "Y");
    assert_eq!(rows[1].total, 3);

    let table = render_table(&norm, &rows, false);
    let expected = "date, 2016-01-01, 2016-02-01, \n\
                    X,          8,          0, \n\
                    Y,          0,          3, \n\n";
    assert_eq!(table, expected);
}

#[test]
fn end_to_end_percentages() {
    let mut perf = AuthorPerformance::new();
    perf.record_period("2016-01-01".to_string(), true, &vec![one_file("x", 8)]);
    perf.record_period(
        "2016-02-01".to_string(),
        true,
        &vec![one_file("x", 1), one_file("y", 3)],
    );
    let norm = reformat(&perf);
    let rows = sorted_authors(&norm, false);
    let table = render_table(&norm, &rows, true);
    let expected = "date, 2016-01-01, 2016-02-01, \n\
                    X,        100,         25, \n\
                    Y,          0,         75, \n\n";
    assert_eq!(table, expected);
}

#[test]
fn alphabetical_and_volume_orders() {
    let mut perf = AuthorPerformance::new();
    let files = vec![one_file("bob", 2), one_file("ann", 1)];
    perf.record_period("2016-01-01".to_string(), true, &files);
    let norm = reformat(&perf);
    let alpha = sorted_authors(&norm, false);
    assert_eq!(alpha[0].name, "Ann");
    assert_eq!(alpha[1].name, "Bob");
    let volume = sorted_authors(&norm, true);
    assert_eq!(volume[0].name, "Bob");
    assert_eq!(volume[1].name, "Ann");
}
