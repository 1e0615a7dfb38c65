use devforge_core::parser::CodeParser;
use devforge_core::text::{normalize_module_id, str_eq, str_lt};

#[test]
fn normalize_strips_prefix_and_extension() {
    assert_eq!(normalize_module_id("./src/utils.py"), "src/utils");
}

#[test]
fn normalize_maps_backslashes() {
    assert_eq!(normalize_module_id("src\\lib\\mod.rs"), "src/lib/mod");
}

#[test]
fn normalize_strips_leading_slashes() {
    assert_eq!(normalize_module_id("///a.py"), "a");
    assert_eq!(normalize_module_id("././b.go"), "b");
}

#[test]
fn normalize_keeps_hidden_files() {
    assert_eq!(normalize_module_id(".hidden"), ".hidden");
    assert_eq!(normalize_module_id("dir/.hidden"), "dir/.hidden");
}

#[test]
fn normalize_drops_only_last_extension() {
    assert_eq!(normalize_module_id("foo.tar.gz"), "foo.tar");
}

#[test]
fn normalize_without_extension_is_identity() {
    assert_eq!(normalize_module_id("a/b"), "a/b");
    assert_eq!(normalize_module_id(""), "");
}

#[test]
fn string_order_is_lexicographic() {
    assert!(str_lt("a", "b"));
    assert!(!str_lt("b", "a"));
    assert!(str_lt("a", "ab"));
    assert!(!str_lt("ab", "a"));
    assert!(!str_lt("same", "same"));
    assert!(str_lt("abc", "abd"));
}

#[test]
fn string_equality_compares_contents() {
    assert!(str_eq("alpha", "alpha"));
    assert!(!str_eq("alpha", "alphb"));
    assert!(!str_eq("alpha", "alph"));
}

#[test]
fn parser_supports_known_languages() {
    let p = CodeParser::new();
    assert!(p.is_supported_language("python"));
    assert!(p.is_supported_language("rust"));
    assert!(p.is_supported_language("go"));
    assert!(!p.is_supported_language("cobol"));
}

#[test]
fn parser_classifies_extensions() {
    let p = CodeParser::new();
    assert_eq!(p.classify_extension("py").as_deref(), Some("python"));
    assert_eq!(p.classify_extension("js").as_deref(), Some("javascript"));
    assert_eq!(p.classify_extension("ts").as_deref(), Some("typescript"));
    assert_eq!(p.classify_extension("rs").as_deref(), Some("rust"));
    assert_eq!(p.classify_extension("go").as_deref(), Some("go"));
    assert_eq!(p.classify_extension("txt"), None);
}

#[test]
fn parse_ast_yields_program_root() {
    let p = CodeParser::new();
    let node = p.parse_ast("import os\n", "python");
    assert_eq!(node.node_type, "program");
    assert!(node.children.is_empty());
    assert!(node.metadata.is_empty());
}
