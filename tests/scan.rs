use node_modules_cleaner::clean::{removal_targets, PathProbe};
use node_modules_cleaner::scan::{
    build_scan_result, get_folder_size, is_node_modules_dir, keep_matches, scan_walk, select_matches,
    FileMeta, FoundDir, WalkEntry,
};

fn dir(path: &str, depth: usize) -> Option<WalkEntry> {
    Some(WalkEntry { path: path.to_string(), is_dir: true, depth })
}

fn file(path: &str, depth: usize) -> Option<WalkEntry> {
    Some(WalkEntry { path: path.to_string(), is_dir: false, depth })
}

fn meta(is_file: bool, len: u64) -> Option<FileMeta> {
    Some(FileMeta { is_file, len })
}

fn found(path: &str, size_in_bytes: u64) -> FoundDir {
    FoundDir { path: path.to_string(), size_in_bytes }
}

/// The walk of root `/r` holding `a/node_modules` with two files and a
/// nested `dep/node_modules`, as a walk bounded to three levels yields it.
fn scenario_walk() -> Vec<Option<WalkEntry>> {
    vec![
        dir("/r/a", 1),
        dir("/r/a/node_modules", 2),
        file("/r/a/node_modules/one.js", 3),
        file("/r/a/node_modules/two.js", 3),
        dir("/r/a/node_modules/dep", 3),
    ]
}

/// The entries beneath `/r/a/node_modules`.
fn scenario_contents() -> Vec<Option<FileMeta>> {
    vec![
        meta(true, 500),
        meta(true, 700),
        meta(false, 4096),
        meta(false, 4096),
        meta(true, 100),
    ]
}

#[test]
fn nested_match_is_folded_into_its_parent() {
    let paths = select_matches(&scenario_walk());
    assert_eq!(paths, vec!["/r/a/node_modules".to_string()]);
    let size = get_folder_size(&scenario_contents());
    assert_eq!(size, 1300);
    let found: Vec<FoundDir> = paths.iter().map(|p| found(p, size)).collect();
    let result = build_scan_result("/r", &found, true).unwrap();
    assert_eq!(result.folders.len(), 1);
    let f = &result.folders[0];
    assert_eq!(f.path, "/r/a/node_modules");
    assert_eq!(f.name, ".../a");
    assert_eq!(f.size_in_bytes, 1300);
    assert_eq!(f.size, "0.00 MB");
    assert_eq!(result.total_size, "0.00 MB");
}

#[test]
fn without_sizes_the_match_is_kept_at_zero() {
    let paths = select_matches(&scenario_walk());
    let found: Vec<FoundDir> = paths.iter().map(|p| found(p, 0)).collect();
    let result = build_scan_result("/r", &found, false).unwrap();
    assert_eq!(result.folders.len(), 1);
    assert_eq!(result.folders[0].path, "/r/a/node_modules");
    assert_eq!(result.folders[0].size_in_bytes, 0);
    assert_eq!(result.folders[0].size, "0.00 MB");
    assert_eq!(result.total_size, "0.00 MB");
}

#[test]
fn sizes_are_ignored_when_not_computed() {
    let found = vec![found("/r/a/node_modules", 5000)];
    let result = build_scan_result("/r", &found, false).unwrap();
    assert_eq!(result.folders[0].size_in_bytes, 0);
}

#[test]
fn nested_target_within_depth_is_excluded() {
    let walk = vec![
        dir("/r/node_modules", 1),
        dir("/r/node_modules/x", 2),
        dir("/r/node_modules/x/node_modules", 3),
        dir("/r/b/node_modules", 2),
    ];
    let paths = select_matches(&walk);
    assert_eq!(paths, vec!["/r/node_modules".to_string(), "/r/b/node_modules".to_string()]);
}

#[test]
fn depth_bounds_and_kinds_are_checked() {
    assert!(!is_node_modules_dir(&WalkEntry { path: "/r/node_modules".to_string(), is_dir: true, depth: 0 }));
    assert!(!is_node_modules_dir(&WalkEntry { path: "/r/a/b/c/node_modules".to_string(), is_dir: true, depth: 4 }));
    assert!(is_node_modules_dir(&WalkEntry { path: "/r/a/b/node_modules".to_string(), is_dir: true, depth: 3 }));
    assert!(!is_node_modules_dir(&WalkEntry { path: "/r/node_modules".to_string(), is_dir: false, depth: 1 }));
    assert!(!is_node_modules_dir(&WalkEntry { path: "/r/node_modules_old".to_string(), is_dir: true, depth: 1 }));
}

#[test]
fn unreadable_entries_are_skipped() {
    let walk = vec![None, dir("/r/node_modules", 1), None];
    assert_eq!(select_matches(&walk), vec!["/r/node_modules".to_string()]);
    assert_eq!(get_folder_size(&vec![None, meta(true, 10), None, meta(true, 5)]), 15);
}

#[test]
fn folder_size_counts_regular_files_only() {
    assert_eq!(get_folder_size(&vec![]), 0);
    assert_eq!(get_folder_size(&vec![meta(false, 4096), meta(true, 1)]), 1);
    assert_eq!(get_folder_size(&vec![meta(true, u64::MAX), meta(true, 2)]), u64::MAX);
}

#[test]
fn empty_matches_are_dropped_when_sizing() {
    let found = vec![found("/r/a/node_modules", 0), found("/r/b/node_modules", 10)];
    let kept = keep_matches(&found, true);
    assert_eq!(kept.len(), 1);
    assert_eq!(kept[0].path, "/r/b/node_modules");
    let result = build_scan_result("/r", &found, true).unwrap();
    assert_eq!(result.folders.len(), 1);
    assert_eq!(result.folders[0].name, ".../b");
}

#[test]
fn results_are_sorted_largest_first() {
    let found = vec![
        found("/r/a/node_modules", 3 * 1024 * 1024),
        found("/r/b/node_modules", 7 * 1024 * 1024),
        found("/r/c/node_modules", 3 * 1024 * 1024),
        found("/r/d/node_modules", 2 * 1024 * 1024 * 1024),
    ];
    let result = build_scan_result("/r", &found, true).unwrap();
    let names: Vec<&str> = result.folders.iter().map(|f| f.name.as_str()).collect();
    assert_eq!(names, vec![".../d", ".../b", ".../a", ".../c"]);
    assert_eq!(result.folders[0].size, "2.00 GB");
    assert_eq!(result.folders[1].size, "7.00 MB");
}

#[test]
fn total_is_the_sum_of_reported_sizes() {
    let found = vec![
        found("/r/a/node_modules", 1024 * 1024),
        found("/r/b/node_modules", 512 * 1024),
        found("/r/c/node_modules", 0),
    ];
    let result = build_scan_result("/r", &found, true).unwrap();
    assert_eq!(result.total_size, "1.50 MB");
    let sum: u64 = result.folders.iter().map(|f| f.size_in_bytes).sum();
    assert_eq!(sum, 1536 * 1024);
}

#[test]
fn total_switches_to_gigabytes() {
    let found = vec![
        found("/r/a/node_modules", 1024 * 1024 * 1024),
        found("/r/b/node_modules", 1024 * 1024 * 1024),
    ];
    let result = build_scan_result("/r", &found, true).unwrap();
    assert_eq!(result.total_size, "2.00 GB");
    assert_eq!(result.folders[0].size, "1024.00 MB");
}

#[test]
fn match_outside_root_is_an_error() {
    let found = vec![found("/elsewhere/node_modules", 10)];
    assert_eq!(build_scan_result("/r", &found, true).err(), Some("prefix not found".to_string()));
}

#[test]
fn dropped_match_outside_root_is_no_error() {
    let found = vec![found("/elsewhere/node_modules", 0)];
    let result = build_scan_result("/r", &found, true).unwrap();
    assert!(result.folders.is_empty());
    assert_eq!(result.total_size, "0.00 MB");
}

#[test]
fn repeated_scan_is_identical() {
    let found = vec![found("/r/a/node_modules", 10), found("/r/b/node_modules", 10)];
    let first = build_scan_result("/r", &found, true).unwrap();
    let second = build_scan_result("/r", &found, true).unwrap();
    assert_eq!(format!("{:?}", first), format!("{:?}", second));
    assert_eq!(select_matches(&scenario_walk()), select_matches(&scenario_walk()));
}

#[test]
fn only_existing_directories_are_removed() {
    let probes = vec![
        PathProbe { path: "/r/a/node_modules".to_string(), exists: true, is_dir: true },
        PathProbe { path: "/r/gone".to_string(), exists: false, is_dir: false },
        PathProbe { path: "/r/file".to_string(), exists: true, is_dir: false },
        PathProbe { path: "/r/b/node_modules".to_string(), exists: true, is_dir: true },
    ];
    assert_eq!(
        removal_targets(&probes),
        vec!["/r/a/node_modules".to_string(), "/r/b/node_modules".to_string()]
    );
    assert!(removal_targets(&vec![]).is_empty());
}

#[test]
fn walk_scan_pairs_sizes_with_matches() {
    let walk = vec![
        dir("/r/a/node_modules", 2),
        dir("/r/b", 1),
        dir("/r/b/node_modules", 2),
        dir("/r/c/node_modules", 2),
    ];
    let result = scan_walk("/r", &walk, &vec![10, 0, 30], true).unwrap();
    let names: Vec<&str> = result.folders.iter().map(|f| f.name.as_str()).collect();
    assert_eq!(names, vec![".../c", ".../a"]);
    assert_eq!(result.folders[0].size_in_bytes, 30);
}

#[test]
fn walk_scan_scenario() {
    let sized = scan_walk("/r", &scenario_walk(), &vec![get_folder_size(&scenario_contents())], true)
        .unwrap();
    assert_eq!(sized.folders.len(), 1);
    assert_eq!(sized.folders[0].path, "/r/a/node_modules");
    assert_eq!(sized.folders[0].size_in_bytes, 1300);
    let unsized_result = scan_walk("/r", &scenario_walk(), &vec![], false).unwrap();
    assert_eq!(unsized_result.folders.len(), 1);
    assert_eq!(unsized_result.folders[0].size_in_bytes, 0);
    assert_eq!(unsized_result.total_size, "0.00 MB");
}

#[test]
fn walk_scan_missing_sizes_count_as_zero() {
    let walk = vec![dir("/r/a/node_modules", 2)];
    let result = scan_walk("/r", &walk, &vec![], true).unwrap();
    assert!(result.folders.is_empty());
}
