use fluent_localization::ast::{Catalog, Entry, Expression, InlineExpression, Pattern, PatternElement};
use fluent_localization::codegen::{emit_accessor, expected_names, make_accessors};
use fluent_localization::complete::validate_default_bundle_complete;
use fluent_localization::diag::prettify_parse_error;
use fluent_localization::graph::{build_graph, generate_nodes_for, BuildError, Node};
use fluent_localization::merge::{assemble_merged, check_duplicate_keys, Tier};
use fluent_localization::resolve::resolve;
use fluent_localization::text::{fold_displayable, get_letters, sanitize};

fn text_elem(s: &str) -> PatternElement {
    PatternElement::TextElement { value: s.to_string() }
}

fn var_elem(name: &str) -> PatternElement {
    PatternElement::Placeable {
        expression: Expression::Inline {
            expression: InlineExpression::VariableReference { id: name.to_string() },
        },
    }
}

fn msg_ref_elem(target: &str) -> PatternElement {
    PatternElement::Placeable {
        expression: Expression::Inline {
            expression: InlineExpression::MessageReference { id: target.to_string() },
        },
    }
}

fn message(name: &str, elements: Vec<PatternElement>) -> Entry {
    Entry::Message { id: name.to_string(), value: Some(Pattern { elements }) }
}

fn catalog(name: &str, entries: Vec<Entry>) -> Catalog {
    Catalog { name: name.to_string(), entries }
}

fn node_named<'a>(nodes: &'a [Node], name: &str) -> &'a Node {
    nodes.iter().find(|n| n.name == name).unwrap()
}

fn sorted_vars(n: &Node) -> Vec<String> {
    let mut v = n.variables.clone();
    v.sort();
    v
}

#[test]
fn sanitize_lowers_and_replaces_hyphens() {
    assert_eq!(sanitize("Welcome-User"), "welcome_user");
    assert_eq!(sanitize("plain"), "plain");
    assert_eq!(sanitize(""), "");
}

#[test]
fn get_letters_are_the_alphabet_prefix() {
    assert_eq!(get_letters(0), Vec::<char>::new());
    assert_eq!(get_letters(3), vec!['A', 'B', 'C']);
    assert_eq!(get_letters(26).len(), 26);
    assert_eq!(get_letters(26)[25], 'Z');
}

#[test]
fn fold_displayable_joins_with_separator() {
    let items = vec!["a".to_string(), "b".to_string(), "c".to_string()];
    assert_eq!(fold_displayable(&items, ", "), "a, b, c");
    assert_eq!(fold_displayable(&vec!["solo".to_string()], ", "), "solo");
    assert_eq!(fold_displayable(&Vec::new(), ", "), "");
}

#[test]
fn prettify_reports_line_and_column() {
    // offset 5 is the `e` of the second line
    let rendered = prettify_parse_error("abc\ndef\n", "Expected a token", 5);
    assert_eq!(rendered, "Expected a token at 2:1\n    def");
}

#[test]
fn prettify_walks_byte_offsets() {
    // the e-acute takes two bytes, so byte 4 is the `b` of the second
    // line at byte offset 1 within it
    let rendered = prettify_parse_error("\u{e9}\nabc", "Expected a token", 4);
    assert_eq!(rendered, "Expected a token at 2:1\n    abc");
}

#[test]
fn sanitize_lowercases_beyond_ascii() {
    assert_eq!(sanitize("\u{c9}clair-Menu"), "\u{e9}clair_menu");
}

#[test]
fn prettify_counts_the_newline_characters() {
    // offset 4 is the `c` on the third line
    let rendered = prettify_parse_error("a\nb\nc\nd\ne\n", "Expected a token", 4);
    assert_eq!(rendered, "Expected a token at 3:0\n    c");
}

#[test]
fn scan_collects_variables_and_references() {
    let entries = vec![
        message("welcome-user", vec![text_elem("Hello, "), var_elem("name"), text_elem("!")]),
        message("outer", vec![msg_ref_elem("welcome-user")]),
        Entry::Term {
            id: "brand".to_string(),
            value: Pattern { elements: vec![text_elem("The App")] },
        },
        Entry::Message { id: "no-value".to_string(), value: None },
    ];
    let nodes = generate_nodes_for(&"main".to_string(), &entries).unwrap();
    assert_eq!(nodes.len(), 3);
    assert_eq!(nodes[0].name, "welcome-user");
    assert_eq!(nodes[0].variables, vec!["name".to_string()]);
    assert!(nodes[0].dependencies.is_empty());
    assert!(!nodes[0].term);
    assert_eq!(nodes[1].dependencies, vec!["welcome-user".to_string()]);
    assert!(nodes[2].term);
}

#[test]
fn selector_variants_are_all_scanned() {
    let select = PatternElement::Placeable {
        expression: Expression::Select {
            selector: InlineExpression::VariableReference { id: "count".to_string() },
            variants: vec![
                Pattern { elements: vec![var_elem("first")] },
                Pattern { elements: vec![var_elem("second"), text_elem(" items")] },
            ],
        },
    };
    let entries = vec![message("counted", vec![select])];
    let nodes = generate_nodes_for(&"main".to_string(), &entries).unwrap();
    let mut vars = nodes[0].variables.clone();
    vars.sort();
    assert_eq!(vars, vec!["count".to_string(), "first".to_string(), "second".to_string()]);
}

#[test]
fn function_reference_is_fatal() {
    let call = PatternElement::Placeable {
        expression: Expression::Inline {
            expression: InlineExpression::FunctionReference { id: "NUMBER".to_string() },
        },
    };
    let entries = vec![message("bad", vec![call])];
    let r = generate_nodes_for(&"main".to_string(), &entries);
    assert!(matches!(r, Err(BuildError::UnsupportedFunctionReference)));
}

#[test]
fn build_graph_rejects_duplicate_names() {
    let cats = vec![
        catalog("one", vec![message("greeting", vec![text_elem("Hello")])]),
        catalog("two", vec![message("greeting", vec![text_elem("Howdy")])]),
    ];
    let r = build_graph(&cats);
    assert!(matches!(r, Err(BuildError::DuplicateName(n)) if n == "greeting"));
}

#[test]
fn resolution_is_a_noop_without_references() {
    let cats = vec![catalog(
        "main",
        vec![message("plain", vec![var_elem("who"), text_elem(" there")])],
    )];
    let mut nodes = build_graph(&cats).unwrap();
    resolve(&mut nodes).unwrap();
    assert_eq!(nodes[0].variables, vec!["who".to_string()]);
    assert!(nodes[0].dependencies.is_empty());
}

#[test]
fn chain_propagates_variables_upward() {
    let cats = vec![catalog(
        "main",
        vec![
            message("a", vec![msg_ref_elem("b")]),
            message("b", vec![msg_ref_elem("c")]),
            message("c", vec![var_elem("x")]),
        ],
    )];
    let mut nodes = build_graph(&cats).unwrap();
    resolve(&mut nodes).unwrap();
    assert_eq!(node_named(&nodes, "a").variables, vec!["x".to_string()]);
    assert_eq!(node_named(&nodes, "b").variables, vec!["x".to_string()]);
    assert!(node_named(&nodes, "a").dependencies.is_empty());
    assert!(node_named(&nodes, "b").dependencies.is_empty());
}

#[test]
fn cycle_is_rejected() {
    let cats = vec![catalog(
        "main",
        vec![
            message("a", vec![msg_ref_elem("b")]),
            message("b", vec![msg_ref_elem("a")]),
        ],
    )];
    let mut nodes = build_graph(&cats).unwrap();
    let r = resolve(&mut nodes);
    assert!(matches!(r, Err(BuildError::CyclicDependency(_))));
}

#[test]
fn self_reference_is_rejected() {
    let cats = vec![catalog("main", vec![message("a", vec![msg_ref_elem("a")])])];
    let mut nodes = build_graph(&cats).unwrap();
    let r = resolve(&mut nodes);
    assert!(matches!(r, Err(BuildError::CyclicDependency(n)) if n == "a"));
}

#[test]
fn unknown_dependency_is_rejected() {
    let cats = vec![catalog("main", vec![message("a", vec![msg_ref_elem("ghost")])])];
    let mut nodes = build_graph(&cats).unwrap();
    let r = resolve(&mut nodes);
    assert!(matches!(r, Err(BuildError::UnknownDependency(n)) if n == "ghost"));
}

fn chain() -> Vec<Entry> {
    vec![
        message("a", vec![msg_ref_elem("b"), var_elem("direct")]),
        message("b", vec![msg_ref_elem("c")]),
        message("c", vec![var_elem("x"), var_elem("y")]),
    ]
}

#[test]
fn resolution_is_order_independent() {
    let forward = chain();
    let mut backward = chain();
    backward.reverse();
    let mut g1 = build_graph(&vec![catalog("main", forward)]).unwrap();
    let mut g2 = build_graph(&vec![catalog("main", backward)]).unwrap();
    resolve(&mut g1).unwrap();
    resolve(&mut g2).unwrap();
    for name in ["a", "b", "c"] {
        assert_eq!(
            sorted_vars(node_named(&g1, name)),
            sorted_vars(node_named(&g2, name)),
            "variable sets differ for {name}"
        );
    }
}

#[test]
fn accessors_cover_messages_only() {
    let cats = vec![catalog(
        "Main-Cat",
        vec![
            message("welcome-user", vec![var_elem("name")]),
            message("plain", vec![text_elem("hi")]),
            Entry::Term {
                id: "brand".to_string(),
                value: Pattern { elements: vec![text_elem("The App")] },
            },
        ],
    )];
    let mut nodes = build_graph(&cats).unwrap();
    resolve(&mut nodes).unwrap();
    let accs = make_accessors(&nodes).unwrap();
    assert_eq!(accs.len(), 2);
    assert_eq!(accs[0].op_name, "main_cat_welcome_user");
    assert_eq!(accs[0].entry_name, "welcome-user");
    assert_eq!(accs[0].params, vec!["name".to_string()]);
    assert_eq!(accs[0].letters, vec!['A']);
    assert_eq!(accs[1].op_name, "main_cat_plain");
    assert!(accs[1].params.is_empty());
    assert!(accs[1].letters.is_empty());
}

#[test]
fn too_many_variables_is_rejected_by_name() {
    let mut elements = Vec::new();
    for i in 0..27 {
        elements.push(var_elem(&format!("v{i}")));
    }
    let cats = vec![catalog("main", vec![message("huge", elements)])];
    let mut nodes = build_graph(&cats).unwrap();
    resolve(&mut nodes).unwrap();
    let r = make_accessors(&nodes);
    assert!(matches!(r, Err(BuildError::TooManyVariables(n)) if n == "huge"));
}

#[test]
fn override_prefers_language_and_falls_back() {
    let defaults = vec!["greeting".to_string(), "farewell".to_string()];
    let lang = vec!["greeting".to_string()];
    let merged = assemble_merged(&defaults, &lang);
    assert_eq!(merged.lookup(&"greeting".to_string()), Some(Tier::Language));
    assert_eq!(merged.lookup(&"farewell".to_string()), Some(Tier::Default));
    assert_eq!(merged.lookup(&"missing".to_string()), None);
}

#[test]
fn duplicate_keys_within_a_language_are_rejected() {
    let twice = vec!["greeting".to_string(), "other".to_string(), "greeting".to_string()];
    assert_eq!(check_duplicate_keys(&twice), Err("greeting".to_string()));
    let distinct = vec!["greeting".to_string(), "other".to_string()];
    assert_eq!(check_duplicate_keys(&distinct), Ok(()));
}

#[test]
fn completeness_reports_every_missing_key() {
    let expected_messages = vec!["welcome".to_string(), "present".to_string()];
    let expected_terms = vec!["brand".to_string()];
    let default_entries = vec![
        message("present", vec![text_elem("here")]),
        Entry::Message { id: "welcome".to_string(), value: None },
    ];
    let r = validate_default_bundle_complete(&expected_messages, &expected_terms, &default_entries);
    let missing = r.unwrap_err();
    assert_eq!(missing.messages, vec!["welcome".to_string()]);
    assert_eq!(missing.terms, vec!["brand".to_string()]);
    assert_eq!(
        missing.report(),
        "The following localization keys were not found in the default language bundle: welcome, -brand"
    );
}

#[test]
fn completeness_accepts_a_full_default_bundle() {
    let expected_messages = vec!["welcome".to_string()];
    let expected_terms = vec!["brand".to_string()];
    let default_entries = vec![
        message("welcome", vec![text_elem("hi")]),
        Entry::Term {
            id: "brand".to_string(),
            value: Pattern { elements: vec![text_elem("The App")] },
        },
    ];
    let r = validate_default_bundle_complete(&expected_messages, &expected_terms, &default_entries);
    assert!(r.is_ok());
}

#[test]
fn expected_names_split_messages_from_terms() {
    let cats = vec![catalog(
        "main",
        vec![
            message("welcome", vec![text_elem("hi")]),
            Entry::Term {
                id: "brand".to_string(),
                value: Pattern { elements: vec![text_elem("The App")] },
            },
        ],
    )];
    let nodes = build_graph(&cats).unwrap();
    let (messages, terms) = expected_names(&nodes);
    assert_eq!(messages, vec!["welcome".to_string()]);
    assert_eq!(terms, vec!["brand".to_string()]);
}

#[test]
fn node_new_starts_empty() {
    let n = Node::new("cat".to_string(), "name".to_string(), true);
    assert_eq!(n.category, "cat");
    assert_eq!(n.name, "name");
    assert!(n.term);
    assert!(n.variables.is_empty());
    assert!(n.dependencies.is_empty());
}

#[test]
fn prettify_past_the_end_keeps_the_last_line() {
    let rendered = prettify_parse_error("ab", "Unexpected end", 10);
    assert_eq!(rendered, "Unexpected end at 1:8\n    ab");
}

#[test]
fn file_extension_is_ftl() {
    assert_eq!(fluent_localization::loader::file_extension(), ".ftl");
}

#[test]
fn emit_accessor_without_variables() {
    let cats = vec![catalog("main", vec![message("plain", vec![text_elem("hi")])])];
    let mut nodes = build_graph(&cats).unwrap();
    resolve(&mut nodes).unwrap();
    let accs = make_accessors(&nodes).unwrap();
    assert_eq!(
        emit_accessor(&accs[0]),
        "\tpub fn main_plain(&self) -> String {\n\t\tself.localize(\"plain\", None)\n\t}\n"
    );
}

#[test]
fn emit_accessor_with_variables() {
    let cats = vec![catalog("main", vec![message("welcome-user", vec![var_elem("name")])])];
    let mut nodes = build_graph(&cats).unwrap();
    resolve(&mut nodes).unwrap();
    let accs = make_accessors(&nodes).unwrap();
    let mut expected = String::new();
    expected.push_str("\tpub fn main_welcome_user<A>(&self, name: A) -> String\n");
    expected.push_str("\twhere\n");
    expected.push_str("\tA: Into<fluent_bundle::FluentValue<'a>>,\n");
    expected.push_str("\t{\n");
    expected.push_str("\t\tlet mut arguments = fluent_bundle::FluentArgs::new();\n");
    expected.push_str("\t\targuments.set(\"name\", name.into());\n");
    expected.push_str("\t\tself.localize(\"welcome-user\", Some(&arguments))\n");
    expected.push_str("\t}\n");
    assert_eq!(emit_accessor(&accs[0]), expected);
}
