use resharp_grep::args::Args;
use resharp_grep::engine::Matcher;
use resharp_grep::walk::{
    count_matches_line, exec_candidate, exec_command_line, exit_status, searches_stdin, parallel_limit, scope_unsupported, shell_escape, should_quit,
    type_list_line, walk_config, walk_plan, Stats, WalkKind, WalkState,
};

#[test]
fn plan_follows_sort_unique_and_threads() {
    let mut a = Args::default();
    assert_eq!(walk_plan(&a, true), (WalkKind::Parallel, 0));
    assert_eq!(walk_plan(&a, false), (WalkKind::Sequential, 0));
    a.threads = Some(1);
    assert_eq!(walk_plan(&a, true), (WalkKind::Sequential, 1));
    a.threads = Some(4);
    assert_eq!(walk_plan(&a, false), (WalkKind::Parallel, 4));
    a.unique = true;
    assert_eq!(walk_plan(&a, true), (WalkKind::Sequential, 1));
    a.sort = Some("path".to_string());
    assert_eq!(walk_plan(&a, true), (WalkKind::Sorted, 1));
    a.sort = Some("none".to_string());
    assert_eq!(walk_plan(&a, true), (WalkKind::Sequential, 1));
}

#[test]
fn walker_config_from_options() {
    let mut a = Args::default();
    let c = walk_config(&a, 3);
    assert!(c.hidden && c.ignore && c.git_ignore && c.git_global && c.git_exclude);
    assert_eq!(c.threads, 3);
    assert!(c.types.is_none() && c.overrides.is_none());
    a.no_ignore_vcs = true;
    a.unrestricted = 1;
    a.file_type = vec!["rust".to_string()];
    a.iglob = vec!["*.MD".to_string()];
    a.follow = true;
    a.max_depth = Some(2);
    let c = walk_config(&a, 0);
    assert!(!c.hidden);
    assert!(c.ignore);
    assert!(!c.git_ignore && !c.git_global && !c.git_exclude);
    assert!(c.follow_links);
    assert_eq!(c.max_depth, Some(2));
    assert_eq!(c.types, Some((vec!["rust".to_string()], vec![])));
    assert_eq!(c.overrides, Some((vec![], vec!["*.MD".to_string()])));
    a.unrestricted = 2;
    assert!(!walk_config(&a, 0).ignore);
}

#[test]
fn sequential_walk_stops_at_max_total() {
    let mut a = Args::default();
    a.max_total = Some(3);
    a.max_count = Some(10);
    let mut w = WalkState::new();
    assert_eq!(w.begin_file(&a), Some(3));
    assert!(w.finish_file(&a, true, false, 2, 10));
    assert_eq!(w.begin_file(&a), Some(1));
    assert!(!w.finish_file(&a, true, false, 1, 5));
    assert!(w.found_any && !w.had_errors);
    assert_eq!(w.stats.files_searched, 2);
    assert_eq!(w.stats.files_matched, 2);
    assert_eq!(w.stats.match_count, 3);
    assert_eq!(w.stats.total_lines, 15);
}

#[test]
fn quiet_walk_stops_at_first_match_without_counting_it() {
    let mut a = Args::default();
    a.quiet = true;
    let mut w = WalkState::new();
    w.begin_file(&a);
    assert!(w.finish_file(&a, false, true, 0, 4));
    assert!(w.had_errors);
    w.begin_file(&a);
    assert!(!w.finish_file(&a, true, false, 7, 1));
    assert_eq!(w.stats.match_count, 0);
    assert_eq!(w.stats.files_matched, 1);
}

#[test]
fn parallel_decisions() {
    let mut a = Args::default();
    assert!(!should_quit(&a, true, 100));
    assert_eq!(parallel_limit(&a, 5), None);
    a.quiet = true;
    assert!(should_quit(&a, true, 0));
    assert!(!should_quit(&a, false, 0));
    a.max_total = Some(4);
    assert!(should_quit(&a, false, 4));
    assert_eq!(parallel_limit(&a, 1), Some(3));
    assert_eq!(parallel_limit(&a, 9), Some(0));
}

#[test]
fn listed_files_count_lines() {
    let mut s = Stats::new();
    s.count_listed(Some(b"a\nb\n"));
    s.count_listed(None);
    assert_eq!(s.files_matched, 2);
    assert_eq!(s.total_lines, 2);
    assert_eq!(s.files_searched, 0);
}

#[test]
fn exec_candidates() {
    let re = Matcher::compile("needle", 65535).unwrap();
    let a = Args::default();
    let mut s = Stats::new();
    assert_eq!(exec_candidate(&mut s, &re, b"hay\nneedle\nneedle\n", &a), Some(true));
    assert_eq!(exec_candidate(&mut s, &re, b"hay\n", &a), Some(false));
    assert_eq!(exec_candidate(&mut s, &re, b"needle\0", &a), Some(false));
    assert_eq!(s.files_matched, 1);
    assert_eq!(s.match_count, 2);
    assert_eq!(s.total_lines, 5);
}

#[test]
fn shell_quoting() {
    assert_eq!(shell_escape("a b"), "'a b'");
    assert_eq!(shell_escape("it's"), "'it'\\''s'");
    assert_eq!(shell_escape(""), "''");
}

#[test]
fn exec_lines() {
    assert_eq!(exec_command_line("wc -l", "x.txt"), "wc -l 'x.txt'");
    assert_eq!(exec_command_line("cp {} {}.bak", "a b"), "cp 'a b' 'a b'.bak");
    assert_eq!(exec_command_line("echo {", "f"), "echo { 'f'");
    assert_eq!(exec_command_line("{}}", "f"), "'f'}");
}

#[test]
fn type_list_lines() {
    assert_eq!(type_list_line("rust", &vec!["*.rs".to_string()]), "rust: *.rs");
    assert_eq!(type_list_line("c", &vec!["*.c".to_string(), "*.h".to_string()]), "c: *.c, *.h");
    assert_eq!(type_list_line("none", &vec![]), "none: ");
}

#[test]
fn exit_codes() {
    assert_eq!(exit_status(true, false), 0);
    assert_eq!(exit_status(false, false), 1);
    assert_eq!(exit_status(true, true), 2);
    assert_eq!(exit_status(false, true), 2);
}

#[test]
fn unsupported_scopes() {
    let mut a = Args::default();
    assert_eq!(scope_unsupported(&a), None);
    a.scope = Some("block".to_string());
    assert_eq!(
        scope_unsupported(&a),
        Some("--scope block requires --delimiters (not yet implemented)".to_string())
    );
    a.scope = Some("indent".to_string());
    assert_eq!(scope_unsupported(&a), Some("--scope indent is not yet implemented".to_string()));
    a.scope = Some("file".to_string());
    assert_eq!(scope_unsupported(&a), None);
}

#[test]
fn stdin_and_count_lines() {
    let mut a = Args::default();
    assert!(searches_stdin(&a, false));
    assert!(!searches_stdin(&a, true));
    assert_eq!(count_matches_line(&a, 3), None);
    a.count_matches = true;
    assert_eq!(count_matches_line(&a, 3), Some("3\n".to_string()));
    assert_eq!(count_matches_line(&a, 0), Some("0\n".to_string()));
    a.paths = vec!["x".to_string()];
    assert!(!searches_stdin(&a, false));
}
