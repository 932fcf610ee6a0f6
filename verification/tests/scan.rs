use projscan::aggregate::group_projects;
use projscan::controller::{outcome_result, progress_message, resolve_scan, ScanEvent, ScanOutcome, ScanStep};
use projscan::matcher::{has_repeating_elements, list_projects};
use projscan::paths::{join_segments, split_path, str_eq, str_lt};
use projscan::project::{assemble_project, compute_has_build_dirs, sum_sizes};
use projscan::{AppError, Project, ProjectTypes};

fn strs(v: &[&str]) -> Vec<String> {
    v.iter().map(|s| s.to_string()).collect()
}

#[test]
fn split_and_join_round_trip() {
    let segs = split_path("/r/a/.git");
    assert_eq!(segs, strs(&["", "r", "a", ".git"]));
    assert_eq!(join_segments(&segs), "/r/a/.git");
    assert_eq!(split_path("plain"), strs(&["plain"]));
    assert_eq!(split_path(""), strs(&[""]));
}

#[test]
fn string_order_and_equality() {
    assert!(str_lt("/r/a", "/r/b"));
    assert!(!str_lt("/r/b", "/r/a"));
    assert!(!str_lt("/r/a", "/r/a"));
    assert!(str_lt("/r", "/r/a"));
    assert!(str_eq("abc", "abc"));
    assert!(!str_eq("abc", "abd"));
    assert!(!str_eq("abc", "ab"));
}

#[test]
fn marker_names_round_trip() {
    let names = [
        ".git",
        "node_modules",
        "target",
        "_build",
        "build",
        "dist",
        "vendor",
        "out",
        "zig-out",
    ];
    for n in names {
        let kind = ProjectTypes::from_str(n).unwrap();
        assert_eq!(kind.to_string(), n);
    }
    assert!(ProjectTypes::from_str("src").is_err());
    assert!(ProjectTypes::from_str("git").is_err());
}

#[test]
fn repeating_marker_same_name_twice() {
    assert!(has_repeating_elements("/r/target/x/target"));
}

#[test]
fn repeating_marker_two_distinct_names() {
    assert!(has_repeating_elements("/r/c/out/zig-out"));
}

#[test]
fn no_repeating_marker_on_plain_hit() {
    assert!(!has_repeating_elements("/r/a/.git"));
    // A marker name inside a larger segment does not count.
    assert!(!has_repeating_elements("/r/zig-out"));
}

#[test]
fn empty_root_scan_is_empty() {
    let entries: Vec<String> = Vec::new();
    let accepted = list_projects(&entries);
    assert!(accepted.is_empty());
    let groups = group_projects(&accepted);
    assert!(groups.is_empty());
}

#[test]
fn bare_repository_tree() {
    let entries = strs(&["/r", "/r/a", "/r/a/.git", "/r/a/.git/HEAD"]);
    let accepted = list_projects(&entries);
    assert_eq!(accepted, strs(&["/r/a/.git"]));
    let groups = group_projects(&accepted);
    assert_eq!(groups.len(), 1);
    assert_eq!(groups[0].path, "/r/a");
    assert_eq!(groups[0].markers, strs(&[".git"]));
    let sizes = vec![512u64];
    let p: Project = assemble_project(&groups[0], &sizes, "Unrecognized".to_string());
    assert_eq!(p.name, "a");
    assert_eq!(p.path, "/r/a");
    assert_eq!(p.full_build_size, 512);
    assert!(!p.has_build_dirs);
    assert_eq!(p.build_dirs.len(), 1);
    assert_eq!(p.build_dirs[0].dir.to_string(), ".git");
    assert_eq!(p.build_dirs[0].size, 512);
    assert_eq!(p.language, "Unrecognized");
}

#[test]
fn built_project_tree() {
    let entries = strs(&[
        "/r",
        "/r/b",
        "/r/b/.git",
        "/r/b/target",
        "/r/b/target/debug/app.o",
        "/r/b/main.rs",
    ]);
    let accepted = list_projects(&entries);
    assert_eq!(accepted, strs(&["/r/b/.git", "/r/b/target"]));
    let groups = group_projects(&accepted);
    assert_eq!(groups.len(), 1);
    assert_eq!(groups[0].path, "/r/b");
    assert_eq!(groups[0].markers, strs(&[".git", "target"]));
    let sizes = vec![10u64, 90u64];
    let p = assemble_project(&groups[0], &sizes, "Rust".to_string());
    assert_eq!(p.name, "b");
    assert!(p.has_build_dirs);
    assert_eq!(p.full_build_size, 100);
    assert_eq!(p.build_dirs[0].dir.to_string(), ".git");
    assert_eq!(p.build_dirs[1].dir.to_string(), "target");
    assert_eq!(p.full_build_size, p.build_dirs.iter().map(|d| d.size).sum());
}

#[test]
fn nested_distinct_markers_are_rejected() {
    // The full walk of the chain: the deep path holds both `out` and
    // `zig-out` and trips the anomaly filter; the shorter hit `/r/c/out`
    // is dropped too, since the walk shows another marker inside it.
    let entries = strs(&[
        "/r",
        "/r/c",
        "/r/c/out",
        "/r/c/out/zig-out",
        "/r/c/out/zig-out/bin",
    ]);
    let accepted = list_projects(&entries);
    assert!(accepted.is_empty());
}

#[test]
fn marker_with_plain_contents_is_kept() {
    // Non-marker contents below a hit do not make it ambiguous.
    let entries = strs(&["/r", "/r/a", "/r/a/.git", "/r/a/.git/HEAD", "/r/a/.git/refs/x"]);
    let accepted = list_projects(&entries);
    assert_eq!(accepted, strs(&["/r/a/.git"]));
}

#[test]
fn groups_sorted_by_path() {
    let entries = strs(&["/r/b/.git", "/r/a/.git", "/r/a/target"]);
    let accepted = list_projects(&entries);
    let groups = group_projects(&accepted);
    assert_eq!(groups.len(), 2);
    assert_eq!(groups[0].path, "/r/a");
    assert_eq!(groups[0].markers, strs(&[".git", "target"]));
    assert_eq!(groups[1].path, "/r/b");
    assert_eq!(groups[1].markers, strs(&[".git"]));
}

#[test]
fn git_only_marker_set_means_unbuilt() {
    assert!(!compute_has_build_dirs(&strs(&[".git"])));
    assert!(compute_has_build_dirs(&strs(&[".git", "target"])));
    assert!(compute_has_build_dirs(&strs(&["target"])));
}

#[test]
fn size_summation() {
    assert_eq!(sum_sizes(&vec![1u64, 2, 3]), Some(6));
    assert_eq!(sum_sizes(&Vec::new()), Some(0));
    assert_eq!(sum_sizes(&vec![u64::MAX, 1]), None);
}

#[test]
fn cancellation_before_join_yields_cancel_and_no_results() {
    let outcome = resolve_scan(ScanEvent::CancelRequested);
    assert!(matches!(outcome, ScanOutcome::Cancelled));
    match outcome_result(outcome) {
        Err(AppError::Cancel(m)) => assert_eq!(m, "Command was canceled"),
        _ => panic!("expected a cancel failure"),
    }
}

#[test]
fn pipeline_result_passes_through_join() {
    let outcome = resolve_scan(ScanEvent::PipelineDone(Ok(Vec::new())));
    match outcome_result(outcome) {
        Ok(v) => assert!(v.is_empty()),
        Err(_) => panic!("expected success"),
    }
    let failed = resolve_scan(ScanEvent::PipelineDone(Err(AppError::IoError(
        "denied".to_string(),
    ))));
    assert!(matches!(failed, ScanOutcome::Failed(AppError::IoError(_))));
}

#[test]
fn monitor_resets_flag_and_signals() {
    let (flag, cancel) = projscan::controller::monitor_step(true);
    assert!(!flag);
    assert!(cancel);
    let (flag2, cancel2) = projscan::controller::monitor_step(false);
    assert!(!flag2);
    assert!(!cancel2);
}

#[test]
fn language_excludes_marker_subtrees() {
    let files = strs(&["/r/d/node_modules/pkg/index.js", "/r/d/src/index.ts"]);
    let markers = strs(&["node_modules"]);
    let counted = projscan::language::project_files(&files, &markers);
    assert_eq!(counted, strs(&["/r/d/src/index.ts"]));
    let lang = projscan::language::get_language_in_project(&files, &markers);
    assert_eq!(lang, "TypeScript");
}

#[test]
fn language_of_rust_project() {
    let files = strs(&["/r/b/target/debug/app.o", "/r/b/main.rs"]);
    let markers = strs(&[".git", "target"]);
    let lang = projscan::language::get_language_in_project(&files, &markers);
    assert_eq!(lang, "Rust");
}

#[test]
fn language_unrecognized_when_no_files_count() {
    let files: Vec<String> = Vec::new();
    let markers = strs(&[".git"]);
    let lang = projscan::language::get_language_in_project(&files, &markers);
    assert_eq!(lang, "Unrecognized");
    let only_inside = strs(&["/r/a/.git/HEAD"]);
    let lang2 = projscan::language::get_language_in_project(&only_inside, &markers);
    assert_eq!(lang2, "Unrecognized");
}

#[test]
fn select_language_picks_highest_count() {
    let tags = strs(&["TypeScript", "Rust", "Rust", "Unrecognized"]);
    assert_eq!(projscan::language::select_language(&tags), "Rust");
    let tags2 = strs(&["TypeScript", "TypeScript", "Rust"]);
    assert_eq!(projscan::language::select_language(&tags2), "TypeScript");
}

#[test]
fn select_language_breaks_ties_lexicographically() {
    let tags = strs(&["TypeScript", "Rust"]);
    assert_eq!(projscan::language::select_language(&tags), "Rust");
    let tags2 = strs(&["Zig", "Elixir", "Zig", "Elixir"]);
    assert_eq!(projscan::language::select_language(&tags2), "Elixir");
}

#[test]
fn select_language_defaults_to_unrecognized() {
    assert_eq!(projscan::language::select_language(&Vec::new()), "Unrecognized");
    let tags = strs(&["Unrecognized", "Unrecognized"]);
    assert_eq!(projscan::language::select_language(&tags), "Unrecognized");
}

#[test]
fn extensionless_file_counts_as_unrecognized() {
    // loc would probe such a file's first line on disk; the library
    // deliberately counts it as Unrecognized instead.
    let files = strs(&["/p/LICENSE", "/p/main.rs"]);
    let markers: Vec<String> = Vec::new();
    let lang = projscan::language::get_language_in_project(&files, &markers);
    assert_eq!(lang, "Rust");
    let only = strs(&["/p/LICENSE"]);
    assert_eq!(
        projscan::language::get_language_in_project(&only, &markers),
        "Unrecognized"
    );
}

#[test]
fn progress_messages_match_protocol() {
    assert_eq!(progress_message(&ScanStep::Searching, ""), "Searching...");
    assert_eq!(
        progress_message(&ScanStep::Validating, "a"),
        "Validating file: 'a'..."
    );
    assert_eq!(
        progress_message(&ScanStep::FetchingSizes, "a"),
        "Fetching build dirs from: 'a'..."
    );
    assert_eq!(
        progress_message(&ScanStep::InferringLanguage, "a"),
        "Getting language of: 'a'..."
    );
    assert_eq!(progress_message(&ScanStep::Finished, ""), "Finished.");
}

#[test]
fn loading_status_payloads() {
    assert_eq!(projscan::controller::loading_status(true, 99), (true, 0));
    assert_eq!(projscan::controller::loading_status(false, 99), (false, 99));
}

#[test]
fn entry_failures_are_contained_except_at_root() {
    match projscan::controller::entry_failure(true, "denied".to_string()) {
        Some(AppError::IoError(m)) => assert_eq!(m, "denied"),
        _ => panic!("expected a typed io failure at the root"),
    }
    assert!(projscan::controller::entry_failure(false, "denied".to_string()).is_none());
}
