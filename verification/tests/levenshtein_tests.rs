use cmdmind::resolver::{levenshtein, levenshtein_chars, path_edit_distance};

#[test]
fn test_empty_strings() {
    assert_eq!(levenshtein("", ""), 0);
    assert_eq!(levenshtein("a", ""), 1);
    assert_eq!(levenshtein("", "a"), 1);
    assert_eq!(levenshtein("abc", ""), 3);
    assert_eq!(levenshtein("", "abc"), 3);
}

#[test]
fn test_identical_strings() {
    assert_eq!(levenshtein("src", "src"), 0);
    assert_eq!(levenshtein("documents", "documents"), 0);
    assert_eq!(levenshtein("cmdmind", "cmdmind"), 0);
}

#[test]
fn test_single_edits() {
    assert_eq!(levenshtein("sc", "src"), 1);
    assert_eq!(levenshtein("src", "srcc"), 1);

    assert_eq!(levenshtein("srcc", "src"), 1);
    assert_eq!(levenshtein("documnts", "documents"), 1);

    assert_eq!(levenshtein("sbc", "src"), 1);
}

#[test]
fn test_multiple_edits() {
    assert_eq!(levenshtein("pyhton", "python"), 2);
    assert_eq!(levenshtein("kitten", "sitting"), 3);
    assert_eq!(levenshtein("flaw", "lawn"), 2);
    assert_eq!(levenshtein("gumbo", "gambol"), 2);
}

#[test]
fn test_unicode_characters() {
    assert_eq!(levenshtein("café", "cafe"), 1);
    assert_eq!(levenshtein("résumé", "resume"), 2);
    assert_eq!(levenshtein("🦀", "🚀"), 1);
    assert_eq!(levenshtein("🦀rust", "🦀rust"), 0);
    assert_eq!(levenshtein("🦀rust", "rust"), 1);
}

#[test]
fn test_case_sensitivity() {
    assert_eq!(levenshtein("src", "Src"), 1);
    assert_eq!(levenshtein("src", "SRC"), 3);
}

#[test]
fn test_levenshtein_symmetry_examples() {
    let pairs = [("kitten", "sitting"), ("flaw", "lawn"), ("", "abc"), ("crème", "creme")];
    for (a, b) in pairs {
        assert_eq!(levenshtein(a, b), levenshtein(b, a));
    }
}

#[test]
fn test_levenshtein_length_bounds_examples() {
    let pairs = [("kitten", "sitting"), ("gumbo", "gambol"), ("abc", "xyz"), ("a", "abcd")];
    for (a, b) in pairs {
        let la = a.chars().count();
        let lb = b.chars().count();
        let d = levenshtein(a, b);
        assert!(d <= la.max(lb));
        assert!(d >= la.max(lb) - la.min(lb));
    }
}

#[test]
fn test_levenshtein_chars_matches_str_version() {
    let a: Vec<char> = "documnts".chars().collect();
    let b: Vec<char> = "documents".chars().collect();
    assert_eq!(levenshtein_chars(&a, &b), 1);
    assert_eq!(levenshtein_chars(&[], &b), 9);
}

#[test]
fn test_path_edit_distance_case_rules() {
    assert_eq!(path_edit_distance("src", "src"), 0);
    assert_eq!(path_edit_distance("SRC", "src"), 1);
    assert_eq!(path_edit_distance("srcc", "src"), 1);
    assert_eq!(path_edit_distance("Srcc", "src"), 2);
    assert_eq!(path_edit_distance("creme", "crème"), 1);
    assert_eq!(path_edit_distance("my-module", "my_module"), 1);
}

#[test]
fn test_levenshtein_triangle_examples() {
    let words = ["kitten", "sitting", "mitten", "", "sit", "kitchen"];
    for a in words {
        for b in words {
            for c in words {
                assert!(levenshtein(a, c) <= levenshtein(a, b) + levenshtein(b, c));
            }
        }
    }
}

#[test]
fn test_path_edit_distance_capitalized_candidate() {
    assert_eq!(path_edit_distance("documnts", "Documents"), 2);
}
