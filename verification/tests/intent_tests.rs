use cmdmind::intent::{match_intent, normalize_request, CommandSource};

#[test]
fn test_normalization_whitespace_and_case() {
    assert_eq!(
        normalize_request("   FIND   ALL   PDF   FILES   "),
        "find all pdf files"
    );
    assert_eq!(normalize_request("\tLIST \n  FILES  "), "list files");
    assert_eq!(normalize_request(""), "");
    assert_eq!(normalize_request("   "), "");
}

#[test]
fn test_list_files_phrasings() {
    let phrasings = ["list files", "show files", "list all files"];
    for phrasing in phrasings {
        let plan =
            match_intent(phrasing).unwrap_or_else(|| panic!("failed to match: {}", phrasing));
        assert_eq!(plan.command, "ls");
        assert_eq!(plan.explanation, "List files");
        assert_eq!(plan.source, CommandSource::Tier1);
    }
}

#[test]
fn test_git_status_phrasings() {
    let phrasings = ["show git status", "check git status", "git status"];
    for phrasing in phrasings {
        let plan =
            match_intent(phrasing).unwrap_or_else(|| panic!("failed to match: {}", phrasing));
        assert_eq!(plan.command, "git status");
        assert_eq!(plan.explanation, "Git status");
        assert_eq!(plan.source, CommandSource::Tier1);
    }
}

#[test]
fn test_find_pdf_files_phrasings() {
    let phrasings = [
        "find pdf files",
        "find all pdf files",
        "search for pdf files",
    ];
    for phrasing in phrasings {
        let plan =
            match_intent(phrasing).unwrap_or_else(|| panic!("failed to match: {}", phrasing));
        assert_eq!(plan.command, "find . -type f -name '*.pdf'");
        assert_eq!(plan.explanation, "Find PDF files");
        assert_eq!(plan.source, CommandSource::Tier1);
    }
}

#[test]
fn test_find_python_files_phrasings() {
    let phrasings = [
        "find python files",
        "find all python files",
        "search for python files",
    ];
    for phrasing in phrasings {
        let plan =
            match_intent(phrasing).unwrap_or_else(|| panic!("failed to match: {}", phrasing));
        assert_eq!(plan.command, "find . -type f -name '*.py'");
        assert_eq!(plan.explanation, "Find Python files");
        assert_eq!(plan.source, CommandSource::Tier1);
    }
}

#[test]
fn test_uppercase_input() {
    assert!(match_intent("FIND ALL PDF FILES").is_some());
    assert!(match_intent("SHOW GIT STATUS").is_some());
    assert!(match_intent("LIST FILES").is_some());
    assert!(match_intent("FIND PYTHON FILES").is_some());
}

#[test]
fn test_extra_whitespace_tolerance() {
    assert!(match_intent("   find   all   pdf   files   ").is_some());
    assert!(match_intent("  show \t git   status \n ").is_some());
    assert!(match_intent(" \t list   files   ").is_some());
}

#[test]
fn test_unknown_requests() {
    assert!(match_intent("find all files modified yesterday").is_none());
    assert!(match_intent("some unsupported request").is_none());
    assert!(match_intent("delete all files").is_none());
    assert!(match_intent("whoami").is_none());
}

#[test]
fn test_empty_requests() {
    assert!(match_intent("").is_none());
    assert!(match_intent("   ").is_none());
}

#[test]
fn test_command_source_display() {
    assert_eq!(format!("{}", CommandSource::Tier1.label()), "Tier-1");
    assert_eq!(format!("{}", CommandSource::Ollama.label()), "Ollama");
}

#[test]
fn test_normalization_handles_unicode_whitespace_and_letters() {
    assert_eq!(normalize_request("\u{a0}LIST\u{2003}FILES\u{3000}"), "list files");
    assert_eq!(normalize_request("ÉCOLE  Files"), "école files");
}

#[test]
fn test_mixed_case_and_tabs_match_same_plan() {
    let a = match_intent("Find\tPython   FILES").expect("matches");
    let b = match_intent("find python files").expect("matches");
    assert_eq!(a, b);
}

#[test]
fn test_tier1_plans_pass_validation() {
    let phrasings = [
        "list files",
        "show files",
        "list all files",
        "show git status",
        "check git status",
        "git status",
        "find pdf files",
        "find all pdf files",
        "search for pdf files",
        "find python files",
        "find all python files",
        "search for python files",
    ];
    for phrasing in phrasings {
        let plan = match_intent(phrasing).expect("tier-1 phrasing");
        let command = plan.command.clone();
        let validated = cmdmind::security::validate(plan).expect("tier-1 plans are accepted");
        assert_eq!(validated.command(), command);
    }
}

#[test]
fn test_normalization_is_idempotent_and_keeps_words() {
    for s in ["  FIND   ALL\tPDF files ", "git   status", "", "a  B c"] {
        let n = normalize_request(s);
        assert_eq!(normalize_request(&n), n);
        assert_eq!(n.split_whitespace().count(), s.split_whitespace().count());
        assert!(!n.contains("  "));
        assert_eq!(n, n.trim());
    }
}
