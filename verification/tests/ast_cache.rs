use fish::ast_cache::{AstCacheIndex, AstSubTree, Language};

fn sub(name: &str, hash: &str, range: (usize, usize), deps: Vec<&str>, score: u32) -> AstSubTree {
    AstSubTree {
        symbol_name: name.to_string(),
        kind: "fn".to_string(),
        content_hash: hash.to_string(),
        byte_range: range,
        language: Language::Rust,
        dependencies: deps.into_iter().map(|d| d.to_string()).collect(),
        complexity_score: score,
    }
}

#[test]
fn test_ast_subtree_caching() {
    let mut cache = AstCacheIndex::new();
    let initial = vec![
        sub("calculate_tax", "hash_v1", (0, 100), vec![], 1),
        sub("format_receipt", "hash_v1", (101, 200), vec![], 1),
    ];

    cache.record_file_subtrees("src/lib.rs", initial);

    let updated = vec![
        sub("calculate_tax", "hash_v2", (0, 120), vec![], 2),
        sub("format_receipt", "hash_v1", (121, 220), vec![], 1),
    ];

    let changed = cache.compute_changed_symbols("src/lib.rs", &updated);
    assert_eq!(changed, vec!["calculate_tax".to_string()]);
}

#[test]
fn removed_symbols_are_reported_as_changed() {
    let mut cache = AstCacheIndex::new();
    cache.record_file_subtrees(
        "src/lib.rs",
        vec![sub("keep", "h1", (0, 10), vec![], 1), sub("removed", "h2", (11, 20), vec![], 1)],
    );

    let changed = cache.compute_changed_symbols("src/lib.rs", &[sub("keep", "h1", (0, 10), vec![], 1)]);

    assert_eq!(changed, vec!["removed".to_string()]);
}

#[test]
fn test_cross_language_parsing() {
    let rust_code = r#"
            pub fn calculate_tax(amount: f64) -> f64 {
                amount * 0.2
            }
            pub struct Receipt {
                total: f64
            }
        "#;

    let subtrees = AstCacheIndex::parse_file_content("src/lib.rs", rust_code);
    assert!(subtrees.iter().any(|s| s.symbol_name == "calculate_tax"));
    assert!(subtrees.iter().any(|s| s.symbol_name == "Receipt"));

    let ts_code = r#"
            export function formatReceipt(total: number): string {
                return `$${total}`;
            }
            export class TaxCalculator {
            }
        "#;

    let ts_subtrees = AstCacheIndex::parse_file_content("src/index.ts", ts_code);
    assert!(ts_subtrees.iter().any(|s| s.symbol_name == "formatReceipt"));
    assert!(ts_subtrees.iter().any(|s| s.symbol_name == "TaxCalculator"));

    let py_code = r#"
            def calculate_tax(amount):
                return amount * 0.2
            
            class Receipt:
                pass
        "#;

    let py_subtrees = AstCacheIndex::parse_file_content("src/main.py", py_code);
    assert!(py_subtrees.iter().any(|s| s.symbol_name == "calculate_tax"));
    assert!(py_subtrees.iter().any(|s| s.symbol_name == "Receipt"));

    let go_code = r#"
            func CalculateTax(amount float64) float64 {
                return amount * 0.2
            }
            type Receipt struct {
                Total float64
            }
        "#;

    let go_subtrees = AstCacheIndex::parse_file_content("main.go", go_code);
    assert!(go_subtrees.iter().any(|s| s.symbol_name == "CalculateTax"));
}

#[test]
fn test_transitive_impact() {
    let mut cache = AstCacheIndex::new();

    cache.record_file_subtrees(
        "src/lib.rs",
        vec![
            sub("calculate_tax", "h1", (0, 10), vec![], 1),
            sub("format_receipt", "h2", (11, 20), vec!["calculate_tax"], 1),
            sub("print_receipt", "h3", (21, 30), vec!["format_receipt"], 1),
        ],
    );

    let impacted = cache.compute_transitive_impact(&["calculate_tax".to_string()]);
    assert!(impacted.contains(&"format_receipt".to_string()));
    assert!(impacted.contains(&"print_receipt".to_string()));
}

#[test]
fn identical_subtrees_report_no_change() {
    let mut cache = AstCacheIndex::new();
    let v = vec![sub("a", "h1", (0, 10), vec![], 1), sub("b", "h2", (11, 20), vec![], 1)];
    cache.record_file_subtrees("src/lib.rs", v.clone());
    assert!(cache.compute_changed_symbols("src/lib.rs", &v).is_empty());
}

#[test]
fn rust_lines_give_spans_hashes_and_scores() {
    let code = "fn alpha() {}\npub struct Beta<T> {\nimpl Gamma for Delta {\n";
    let t = AstCacheIndex::parse_file_content("lib.rs", code);
    assert_eq!(t.len(), 3);
    assert_eq!(t[0].symbol_name, "alpha");
    assert_eq!(t[0].kind, "fn");
    assert_eq!(t[0].byte_range, (0, 13));
    assert_eq!(t[0].content_hash, hex_digest("fn alpha() {}".as_bytes()));
    assert_eq!(t[1].symbol_name, "Beta");
    assert_eq!(t[1].kind, "struct");
    assert_eq!(t[1].byte_range, (14, 34));
    assert_eq!(t[1].complexity_score, 1);
    assert_eq!(t[2].symbol_name, "impl_Gamma");
    assert_eq!(t[2].dependencies, vec!["Gamma".to_string()]);
    assert_eq!(t[2].complexity_score, 2);
    assert_eq!(t[2].byte_range, (35, 57));
}

#[test]
fn complexity_counts_branches_and_operators() {
    assert_eq!(AstCacheIndex::calculate_complexity("fn f() { if a && b || c { for x in y {} } }"), 5);
    assert_eq!(AstCacheIndex::calculate_complexity("plain"), 1);
    assert_eq!(AstCacheIndex::calculate_complexity("&&&"), 2);
}

#[test]
fn dependencies_are_capitalised_long_words() {
    let deps = AstCacheIndex::extract_dependencies("fn run(cfg: Config, db: Db, q: QueryPlan) -> Result<Output>");
    assert_eq!(
        deps,
        vec!["Config".to_string(), "QueryPlan".to_string(), "Result".to_string(), "Output".to_string()]
    );
}

#[test]
fn name_extractors_follow_their_rules() {
    assert_eq!(AstCacheIndex::extract_rust_fn_name("pub async fn go<T>(x)"), Some("go".to_string()));
    assert_eq!(AstCacheIndex::extract_rust_fn_name("let x = 1;"), None);
    assert_eq!(AstCacheIndex::extract_rust_struct_name("pub struct S{"), Some("S".to_string()));
    assert_eq!(AstCacheIndex::extract_js_fn_name("export async function run(a)"), Some("run".to_string()));
    assert_eq!(AstCacheIndex::extract_class_name("export class Box<T> {"), Some("Box".to_string()));
    assert_eq!(AstCacheIndex::extract_variable_name("const handler = () => 1"), Some("handler".to_string()));
    assert_eq!(AstCacheIndex::extract_variable_name("let value: = x => x;"), Some("value".to_string()));
    assert_eq!(AstCacheIndex::extract_variable_name("no assignment here"), None);
    assert_eq!(AstCacheIndex::extract_python_fn_name("def  spaced (x):"), Some("spaced".to_string()));
    assert_eq!(AstCacheIndex::extract_go_fn_name("func (r *Recv) Method(a int)"), Some("Method".to_string()));
    assert_eq!(AstCacheIndex::extract_go_fn_name("func Plain(a int)"), Some("Plain".to_string()));
    assert_eq!(AstCacheIndex::extract_go_type_name("type Point struct {"), Some("Point".to_string()));
}

#[test]
fn generic_languages_keep_long_non_comment_lines() {
    let code = "// comment\nint main(void) { return 0; }\nshort\n# define\n";
    let t = AstCacheIndex::parse_file_content("prog.c", code);
    assert_eq!(t.len(), 1);
    assert_eq!(t[0].symbol_name, "symbol_11");
    assert_eq!(t[0].kind, "generic");
    assert_eq!(t[0].language, Language::C);
}

#[test]
fn crlf_lines_lose_their_carriage_return() {
    let t = AstCacheIndex::parse_file_content("a.py", "def f():\r\nclass K:\r\n");
    assert_eq!(t.len(), 2);
    assert_eq!(t[0].byte_range, (0, 8));
    assert_eq!(t[1].byte_range, (9, 17));
}

#[test]
fn unknown_extension_parses_as_rust() {
    let t = AstCacheIndex::parse_file_content("README", "fn main() {}");
    assert_eq!(t.len(), 1);
    assert_eq!(t[0].symbol_name, "main");
    assert_eq!(Language::from_extension("RS"), Some(Language::Rust));
    assert_eq!(Language::from_extension("txt"), None);
    assert!(Language::Cpp.supports_subtree_caching());
    assert!(!Language::Java.supports_subtree_caching());
}

#[test]
fn arrow_functions_are_recorded_as_typescript() {
    let t = AstCacheIndex::parse_file_content("app.js", "const add = (a, b) => a + b;\n");
    assert_eq!(t.len(), 1);
    assert_eq!(t[0].symbol_name, "add");
    assert_eq!(t[0].kind, "arrow_fn");
    assert_eq!(t[0].language, Language::TypeScript);
}

fn hex_digest(data: &[u8]) -> String {
    blake3::hash(data).to_hex().to_string()
}

#[test]
fn unicode_white_space_is_trimmed() {
    let t = AstCacheIndex::parse_file_content("a.rs", "\u{3000}\u{a0}fn alpha() {}\u{2029}");
    assert_eq!(t.len(), 1);
    assert_eq!(t[0].symbol_name, "alpha");
}
