use cmdmind::intent::{CommandPlan, CommandSource};
use cmdmind::resolver::{
    choose_correction, filesystem_verdict, locate_path_target, path_request, plan_after_resolution, PathRequest, parent_prefix, DirEntryInfo, PathLookup,
    ResolutionResult, MAX_DIRECTORY_ENTRIES,
};
use cmdmind::security::{validate, ValidatedPlan};

fn make_validated_plan(command: &str) -> ValidatedPlan {
    let plan = CommandPlan::new(command, "Test intent", CommandSource::Tier1);
    validate(plan).expect("Initial test command plan should pass validation")
}

fn listing(entries: &[(&str, bool)]) -> Vec<Option<DirEntryInfo>> {
    entries
        .iter()
        .map(|(name, is_dir)| Some(DirEntryInfo { name: name.to_string(), is_dir: *is_dir }))
        .collect()
}

fn target_of(plan: &ValidatedPlan) -> (String, String) {
    match locate_path_target(plan) {
        PathLookup::Target(t) => (t.original_path, t.clean_path),
        PathLookup::Resolved(r) => panic!("expected a path target, got {:?}", r),
    }
}

#[test]
fn test_unsupported_command_patterns() {
    let plan = make_validated_plan("git status");
    let res = choose_correction(&plan, "", "", &Vec::new());
    assert_eq!(res, ResolutionResult::UnsupportedCommand);
}

#[test]
fn test_choose_typo_srcc_suggests_src() {
    let plan = make_validated_plan("find srcc -type f");
    let entries = listing(&[("src", true), ("docs", true), ("tests", true), ("README.md", false)]);
    match choose_correction(&plan, "srcc", "", &entries) {
        ResolutionResult::Suggestion(s) => {
            assert_eq!(s.original_path, "srcc");
            assert_eq!(s.suggested_path, "src");
            assert_eq!(s.distance, 1);
            assert_eq!(s.validated_plan.command(), "find src -type f");
            assert_eq!(
                s.validated_plan.explanation(),
                "Test intent (suggested path correction from 'srcc' to 'src')"
            );
            assert_eq!(s.validated_plan.source(), &CommandSource::Tier1);
        }
        other => panic!("Expected Suggestion, got {:?}", other),
    }
}

#[test]
fn test_choose_typo_documnts_suggests_documents() {
    let plan = make_validated_plan("ls -la documnts");
    let entries = listing(&[("documents", true)]);
    match choose_correction(&plan, "documnts", "", &entries) {
        ResolutionResult::Suggestion(s) => {
            assert_eq!(s.suggested_path, "documents");
            assert_eq!(s.validated_plan.command(), "ls -la documents");
        }
        other => panic!("Expected Suggestion, got {:?}", other),
    }
}

#[test]
fn test_choose_unrelated_path_gives_no_match() {
    let plan = make_validated_plan("find totally_unrelated_xyz_123 -type f");
    let entries = listing(&[("src", true), ("docs", true)]);
    let res = choose_correction(&plan, "totally_unrelated_xyz_123", "", &entries);
    assert_eq!(
        res,
        ResolutionResult::NoMatch { original_path: "totally_unrelated_xyz_123".to_string() }
    );
}

#[test]
fn test_choose_ambiguous_candidates_sorted() {
    let plan = make_validated_plan("find src1 -type f");
    let entries = listing(&[("src2", true), ("src", true)]);
    match choose_correction(&plan, "src1", "", &entries) {
        ResolutionResult::Ambiguous { original_path, candidates, distance } => {
            assert_eq!(original_path, "src1");
            assert_eq!(distance, 1);
            assert_eq!(candidates, vec!["src".to_string(), "src2".to_string()]);
        }
        other => panic!("Expected Ambiguous, got {:?}", other),
    }
}

#[test]
fn test_choose_tie_between_directories() {
    let plan = make_validated_plan("cd test_dir_c");
    let entries = listing(&[("test_dir_b", true), ("test_dir_a", true)]);
    match choose_correction(&plan, "test_dir_c", "", &entries) {
        ResolutionResult::Ambiguous { original_path, candidates, distance } => {
            assert_eq!(original_path, "test_dir_c");
            assert_eq!(distance, 1);
            assert_eq!(candidates, vec!["test_dir_a", "test_dir_b"]);
        }
        other => panic!("Expected Ambiguous, got {:?}", other),
    }
}

#[test]
fn test_choose_in_parent_directory() {
    let plan = make_validated_plan("cat parent_a/target_fiel.txt");
    let (original, clean) = target_of(&plan);
    assert_eq!(original, "parent_a/target_fiel.txt");
    assert_eq!(clean, "parent_a/target_fiel.txt");
    let query = match path_request(&plan) {
        PathRequest::Query(q) => q,
        PathRequest::Resolved(r) => panic!("expected a query, got {:?}", r),
    };
    assert_eq!(query.parent.as_deref(), Some("parent_a"));
    assert_eq!(query.file_name.as_deref(), Some("target_fiel.txt"));
    assert_eq!(query.prefix, "parent_a/");
    let entries = listing(&[("target_file.txt", false)]);
    match choose_correction(&plan, "target_fiel.txt", &query.prefix, &entries) {
        ResolutionResult::Suggestion(s) => {
            assert_eq!(s.suggested_path, "parent_a/target_file.txt");
            assert_eq!(s.validated_plan.command(), "cat parent_a/target_file.txt");
        }
        other => panic!("Expected Suggestion, got {:?}", other),
    }
}

#[test]
fn test_path_request_dot_slash_target() {
    let plan = make_validated_plan("find ./srcc -type f");
    let query = match path_request(&plan) {
        PathRequest::Query(q) => q,
        PathRequest::Resolved(r) => panic!("expected a query, got {:?}", r),
    };
    assert_eq!(query.parent.as_deref(), Some("."));
    assert_eq!(query.file_name.as_deref(), Some("srcc"));
    assert_eq!(query.prefix, "./");
    match choose_correction(&plan, "srcc", &query.prefix, &listing(&[("src", true)])) {
        ResolutionResult::Suggestion(s) => {
            assert_eq!(s.suggested_path, "./src");
            assert_eq!(s.validated_plan.command(), "find ./src -type f");
        }
        other => panic!("Expected Suggestion, got {:?}", other),
    }
}

#[test]
fn test_plan_after_resolution_cases() {
    let plan = make_validated_plan("find srcc -type f");
    let suggestion = choose_correction(&plan, "srcc", "", &listing(&[("src", true)]));
    assert_eq!(
        plan_after_resolution(&plan, &suggestion).map(|p| p.command().to_string()),
        Some("find src -type f".to_string())
    );
    let rejected_plan = make_validated_plan("cat .a");
    let rejected = choose_correction(&rejected_plan, ".a", "", &listing(&[("..", true)]));
    assert!(matches!(rejected, ResolutionResult::CorrectionRejected { .. }));
    assert!(plan_after_resolution(&rejected_plan, &rejected).is_none());
    let none = ResolutionResult::NoMatch { original_path: "srcc".to_string() };
    assert_eq!(
        plan_after_resolution(&plan, &none).map(|p| p.command().to_string()),
        Some("find srcc -type f".to_string())
    );
    assert_eq!(
        plan_after_resolution(&plan, &ResolutionResult::UnsupportedCommand)
            .map(|p| p.command().to_string()),
        Some("find srcc -type f".to_string())
    );
}

#[test]
fn test_choose_spaces_in_path_names_quoted() {
    let plan = make_validated_plan("find my_documents -type f");
    let entries = listing(&[("my documents", true)]);
    match choose_correction(&plan, "my_documents", "", &entries) {
        ResolutionResult::Suggestion(s) => {
            assert_eq!(s.suggested_path, "my documents");
            assert_eq!(s.validated_plan.command(), "find \"my documents\" -type f");
        }
        other => panic!("Expected Suggestion with quotes, got {:?}", other),
    }
}

#[test]
fn test_choose_quoted_target_stays_quoted() {
    let plan = make_validated_plan("cat 'notes.tx'");
    let entries = listing(&[("notes.txt", false)]);
    match choose_correction(&plan, "notes.tx", "", &entries) {
        ResolutionResult::Suggestion(s) => {
            assert_eq!(s.validated_plan.command(), "cat \"notes.txt\"");
        }
        other => panic!("Expected Suggestion, got {:?}", other),
    }
}

#[test]
fn test_choose_hyphens_and_underscores() {
    let plan = make_validated_plan("cd my-module");
    let entries = listing(&[("my_module", true)]);
    match choose_correction(&plan, "my-module", "", &entries) {
        ResolutionResult::Suggestion(s) => {
            assert_eq!(s.validated_plan.command(), "cd my_module");
        }
        other => panic!("Expected Suggestion, got {:?}", other),
    }
}

#[test]
fn test_choose_unicode_filenames() {
    let plan = make_validated_plan("ls creme");
    let entries = listing(&[("crème", true)]);
    match choose_correction(&plan, "creme", "", &entries) {
        ResolutionResult::Suggestion(s) => {
            assert_eq!(s.validated_plan.command(), "ls crème");
        }
        other => panic!("Expected Suggestion, got {:?}", other),
    }
}

#[test]
fn test_choose_case_difference_resolution() {
    let plan = make_validated_plan("find SRC -type f");
    let entries = listing(&[("src", true)]);
    match choose_correction(&plan, "SRC", "", &entries) {
        ResolutionResult::Suggestion(s) => {
            assert_eq!(s.distance, 1);
            assert_eq!(s.validated_plan.command(), "find src -type f");
        }
        other => panic!("Expected Suggestion, got {:?}", other),
    }
}

#[test]
fn test_choose_filenames_containing_dangerous_substrings() {
    let entries = listing(&[("remove.txt", false), ("sudo_notes.md", false), ("shutdown.txt", false)]);
    let plan = make_validated_plan("cat remov.txt");
    match choose_correction(&plan, "remov.txt", "", &entries) {
        ResolutionResult::Suggestion(s) => {
            assert_eq!(s.validated_plan.command(), "cat remove.txt");
        }
        other => panic!("Expected Suggestion for remov.txt, got {:?}", other),
    }
    let plan2 = make_validated_plan("cat sudo_notess.md");
    match choose_correction(&plan2, "sudo_notess.md", "", &entries) {
        ResolutionResult::Suggestion(s) => {
            assert_eq!(s.validated_plan.command(), "cat sudo_notes.md");
        }
        other => panic!("Expected Suggestion for sudo_notes, got {:?}", other),
    }
}

#[test]
fn test_choose_dot_slash_prefix_and_trailing_slash() {
    let plan = make_validated_plan("find ./srcc -type f");
    let (original, _) = target_of(&plan);
    let prefix = parent_prefix(&original, Some("."));
    assert_eq!(prefix, "./");
    let entries = listing(&[("src", true)]);
    match choose_correction(&plan, "srcc", &prefix, &entries) {
        ResolutionResult::Suggestion(s) => {
            assert_eq!(s.suggested_path, "./src");
            assert_eq!(s.validated_plan.command(), "find ./src -type f");
        }
        other => panic!("Expected Suggestion with ./ prefix, got {:?}", other),
    }

    let plan2 = make_validated_plan("cd srcc/");
    let (original2, clean2) = target_of(&plan2);
    assert_eq!(original2, "srcc/");
    assert_eq!(clean2, "srcc");
    let prefix2 = parent_prefix(&original2, Some(""));
    assert_eq!(prefix2, "");
    match choose_correction(&plan2, "srcc", &prefix2, &entries) {
        ResolutionResult::Suggestion(s) => {
            assert_eq!(s.suggested_path, "src/");
            assert_eq!(s.validated_plan.command(), "cd src/");
        }
        other => panic!("Expected Suggestion with trailing slash, got {:?}", other),
    }
}

#[test]
fn test_choose_scans_at_most_the_entry_cap() {
    let plan = make_validated_plan("find srcc -type f");
    let mut entries: Vec<Option<DirEntryInfo>> = (0..MAX_DIRECTORY_ENTRIES)
        .map(|i| Some(DirEntryInfo { name: format!("file_{:04}.txt", i), is_dir: false }))
        .collect();
    entries.push(Some(DirEntryInfo { name: "src".to_string(), is_dir: true }));
    let res = choose_correction(&plan, "srcc", "", &entries);
    assert_eq!(res, ResolutionResult::NoMatch { original_path: "srcc".to_string() });

    entries.remove(0);
    match choose_correction(&plan, "srcc", "", &entries) {
        ResolutionResult::Suggestion(s) => assert_eq!(s.suggested_path, "src"),
        other => panic!("Expected Suggestion, got {:?}", other),
    }
}

#[test]
fn test_choose_unreadable_entries_count_toward_cap() {
    let plan = make_validated_plan("find srcc -type f");
    let mut entries: Vec<Option<DirEntryInfo>> = vec![None; MAX_DIRECTORY_ENTRIES];
    entries.push(Some(DirEntryInfo { name: "src".to_string(), is_dir: true }));
    let res = choose_correction(&plan, "srcc", "", &entries);
    assert_eq!(res, ResolutionResult::NoMatch { original_path: "srcc".to_string() });
}

#[test]
fn test_choose_large_listing_without_close_entry() {
    let plan = make_validated_plan("cat non_existent_target.txt");
    let entries: Vec<Option<DirEntryInfo>> = (0..600)
        .map(|i| Some(DirEntryInfo { name: format!("file_{:04}.txt", i), is_dir: false }))
        .collect();
    let res = choose_correction(&plan, "non_existent_target.txt", "", &entries);
    assert_eq!(
        res,
        ResolutionResult::NoMatch { original_path: "non_existent_target.txt".to_string() }
    );
}

#[test]
fn test_choose_hidden_entries_skipped_unless_target_hidden() {
    let plan = make_validated_plan("cat srcc");
    let entries = listing(&[(".srcc_", false)]);
    let res = choose_correction(&plan, "srcc", "", &entries);
    assert_eq!(res, ResolutionResult::NoMatch { original_path: "srcc".to_string() });

    let plan2 = make_validated_plan("cat .envv");
    let entries2 = listing(&[(".env", false)]);
    match choose_correction(&plan2, ".envv", "", &entries2) {
        ResolutionResult::Suggestion(s) => {
            assert_eq!(s.validated_plan.command(), "cat .env");
        }
        other => panic!("Expected Suggestion, got {:?}", other),
    }
}

#[test]
fn test_choose_correction_rejected_by_policy() {
    let plan = make_validated_plan("cat .a");
    let entries = listing(&[("..", true)]);
    match choose_correction(&plan, ".a", "", &entries) {
        ResolutionResult::CorrectionRejected { original_path, suggested_path, reason } => {
            assert_eq!(original_path, ".a");
            assert_eq!(suggested_path, "..");
            assert_eq!(
                reason,
                "Dangerous filesystem target detected: '.. (directory traversal)' accesses restricted or critical system paths."
            );
        }
        other => panic!("Expected CorrectionRejected, got {:?}", other),
    }
}

#[test]
fn test_locate_path_target_forms() {
    assert_eq!(
        locate_path_target(&make_validated_plan("ls")),
        PathLookup::Resolved(ResolutionResult::NoCorrectionNeeded)
    );
    assert_eq!(
        locate_path_target(&make_validated_plan("find . -type f")),
        PathLookup::Resolved(ResolutionResult::NoCorrectionNeeded)
    );
    assert_eq!(
        locate_path_target(&make_validated_plan("find -name x")),
        PathLookup::Resolved(ResolutionResult::NoCorrectionNeeded)
    );
    assert_eq!(
        locate_path_target(&make_validated_plan("ls a b")),
        PathLookup::Resolved(ResolutionResult::UnsupportedCommand)
    );
    assert_eq!(
        locate_path_target(&make_validated_plan("git status")),
        PathLookup::Resolved(ResolutionResult::UnsupportedCommand)
    );
    match locate_path_target(&make_validated_plan("head -n 5 \"my notes.txt\"")) {
        PathLookup::Target(t) => panic!("a second non-flag token makes head unsupported: {:?}", t),
        PathLookup::Resolved(r) => assert_eq!(r, ResolutionResult::UnsupportedCommand),
    }
    match locate_path_target(&make_validated_plan("TAIL \"my notes.txt\"")) {
        PathLookup::Target(t) => {
            assert_eq!(t.original_path, "my notes.txt");
            assert!(t.is_quoted);
            assert_eq!(t.start, 5);
            assert_eq!(t.end, 19);
            assert!(!t.has_trailing_slash);
        }
        other => panic!("Expected Target, got {:?}", other),
    }
}

#[test]
fn test_parent_prefix_forms() {
    assert_eq!(parent_prefix("a/b", Some("a")), "a/");
    assert_eq!(parent_prefix("a/b", Some("a/")), "a/");
    assert_eq!(parent_prefix("./b", Some("")), "./");
    assert_eq!(parent_prefix(".\\b", None), ".\\");
    assert_eq!(parent_prefix("b", None), "");
}

#[test]
fn test_correction_re_validation_rejects_dangerous_path() {
    let dangerous_correction =
        CommandPlan::new("find /etc -type f", "Dangerous intent", CommandSource::Tier1);
    let validation_res = validate(dangerous_correction);
    assert!(validation_res.is_err());
}

#[test]
fn test_filesystem_verdict_cases() {
    let plan = make_validated_plan("cat notes/srcc");
    let query = match path_request(&plan) {
        PathRequest::Query(q) => q,
        PathRequest::Resolved(r) => panic!("expected a query, got {:?}", r),
    };
    assert_eq!(query.file_name.as_deref(), Some("srcc"));
    assert_eq!(query.parent.as_deref(), Some("notes"));
    assert_eq!(query.prefix, "notes/");
    let missing = ResolutionResult::NoMatch { original_path: "notes/srcc".to_string() };
    assert_eq!(filesystem_verdict(&query, false, false, None), Some(missing));
    assert_eq!(filesystem_verdict(&query, false, true, None), None);
    assert_eq!(
        filesystem_verdict(&query, true, true, None),
        Some(ResolutionResult::NoCorrectionNeeded)
    );
    let exact = vec!["srcc".to_string(), "other".to_string()];
    assert_eq!(
        filesystem_verdict(&query, true, true, Some(&exact)),
        Some(ResolutionResult::NoCorrectionNeeded)
    );
    let other_case = vec!["SRCC".to_string()];
    assert_eq!(filesystem_verdict(&query, true, true, Some(&other_case)), None);

    let absolute = make_validated_plan("cat /tmp/x.txt");
    let q2 = match path_request(&absolute) {
        PathRequest::Query(q) => q,
        PathRequest::Resolved(r) => panic!("expected a query, got {:?}", r),
    };
    assert!(q2.is_absolute);
    assert_eq!(
        filesystem_verdict(&q2, true, false, None),
        Some(ResolutionResult::NoCorrectionNeeded)
    );
    assert_eq!(
        filesystem_verdict(&q2, false, true, None),
        Some(ResolutionResult::NoMatch { original_path: "/tmp/x.txt".to_string() })
    );
}

#[test]
fn test_path_request_splits_plain_and_nested_targets() {
    let plain = match path_request(&make_validated_plan("ls srcc")) {
        PathRequest::Query(q) => q,
        PathRequest::Resolved(r) => panic!("expected a query, got {:?}", r),
    };
    assert_eq!(plain.file_name.as_deref(), Some("srcc"));
    assert_eq!(plain.parent.as_deref(), Some(""));
    assert!(!plain.is_absolute);
    assert_eq!(plain.prefix, "");
}
