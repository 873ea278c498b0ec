use typst_grammar::annotate::{AnnotationItem, Output};
use typst_grammar::chunks::{cleanup_range, parse_recursive, within, TextRange};
use typst_grammar::config::RootConfig;
use typst_grammar::convert::{convert, Function, NodeKind, Rules, SyntaxNode};
use typst_grammar::diagnostics::{
    get_lsp_diagnostics, mark_text, remove_lsp_diagnostics_of_type, Diagnostic, DiagnosticSource,
    DiagnosticSourceData,
};
use typst_grammar::document::Document;
use typst_grammar::language_tool::{
    add_chunk, code_actions, diagnostic_code_action, filter_response, retrieve_diagnostics,
    CheckMatch, LTDiagnostic, MatchContext, Replacement, Rule,
};
use typst_grammar::position::PositionLogic;
use typst_grammar::protocol::{CodeActionOrCommand, LspPosition};
use typst_grammar::strings::usize_to_string;
use typst_grammar::word_query::query;

fn tr(start: usize, end: usize) -> TextRange {
    TextRange { start, end }
}

fn leaf(kind: NodeKind, text: &str, start: usize, end: usize) -> SyntaxNode {
    SyntaxNode { kind, text: text.to_string(), start, end, children: Vec::new() }
}

fn inner(kind: NodeKind, start: usize, end: usize, children: Vec<SyntaxNode>) -> SyntaxNode {
    SyntaxNode { kind, text: String::new(), start, end, children }
}

fn plain_match(offset: usize, length: usize, message: &str) -> CheckMatch {
    CheckMatch {
        offset,
        length,
        message: message.to_string(),
        replacements: Vec::new(),
        rule: Rule { description: String::new(), issue_type: String::new() },
        context: MatchContext { text: String::new(), offset: 0, length: 0 },
    }
}

fn hello_document() -> Document {
    let text = "Hello wrld.";
    let root = inner(NodeKind::Markup, 0, 11, vec![leaf(NodeKind::Text, text, 0, 11)]);
    Document::new(0, text, &root)
}

#[test]
fn hello_wrld_match_maps_to_line_zero_columns_six_to_ten() {
    let document = hello_document();
    let mut cursor = PositionLogic::new("Hello wrld.");
    let matches = vec![plain_match(6, 4, "misspelling")];
    let (diags, lsp) = add_chunk(&document, &mut cursor, &matches, 11);
    assert_eq!(diags.len(), 1);
    assert_eq!(diags[0].range, tr(6, 10));
    assert_eq!(diags[0].version, 0);
    assert_eq!(lsp[0].message, "misspelling");
    assert_eq!(lsp[0].range.start.line, 0);
    assert_eq!(lsp[0].range.start.character, 6);
    assert_eq!(lsp[0].range.end.line, 0);
    assert_eq!(lsp[0].range.end.character, 10);
    assert_eq!(cursor.consumed, 11);
}

#[test]
fn add_chunk_rejects_unordered_offsets_but_keeps_cursor_consistent() {
    let document = hello_document();
    let mut cursor = PositionLogic::new("Hello wrld.");
    let matches = vec![plain_match(6, 4, "a"), plain_match(2, 1, "b")];
    let (diags, lsp) = add_chunk(&document, &mut cursor, &matches, 11);
    assert!(diags.is_empty());
    assert!(lsp.is_empty());
    assert_eq!(cursor.consumed, 11);
}

fn thirty_char_document() -> Document {
    let text = "abcdefghijklmnopqrstuvwxyz0123";
    let root = inner(NodeKind::Markup, 0, 30, vec![leaf(NodeKind::Text, text, 0, 30)]);
    Document::new(1, text, &root)
}

#[test]
fn edit_after_range_leaves_diagnostic_range_alone() {
    let mut document = thirty_char_document();
    document.change(2, tr(20, 22), "AAAAA");
    assert_eq!(document.correct_range(1, tr(10, 15)), Some(tr(10, 15)));
}

#[test]
fn edit_overlapping_range_invalidates_it() {
    let mut document = thirty_char_document();
    document.change(2, tr(12, 13), "AAAAA");
    assert_eq!(document.correct_range(1, tr(10, 15)), None);
}

#[test]
fn edit_before_range_shifts_it_by_the_delta() {
    let mut document = thirty_char_document();
    document.change(2, tr(0, 2), "AAAAA");
    assert_eq!(document.correct_range(1, tr(10, 15)), Some(tr(13, 18)));
    document.change(3, tr(0, 4), "");
    assert_eq!(document.correct_range(1, tr(10, 15)), Some(tr(9, 14)));
}

#[test]
fn change_updates_text_and_version() {
    let mut document = thirty_char_document();
    document.change(2, tr(0, 2), "XY");
    assert_eq!(document.text, "XYcdefghijklmnopqrstuvwxyz0123");
    assert_eq!(document.latest_version, 2);
}

#[test]
fn raw_ranges_merge_adjacent_and_keep_far_apart() {
    let out = cleanup_range(vec![tr(0, 5), tr(5, 9), tr(20, 25)]);
    assert_eq!(out, vec![tr(0, 9), tr(20, 25)]);
}

#[test]
fn cleanup_drops_short_ranges_and_sorts() {
    let out = cleanup_range(vec![tr(30, 31), tr(10, 14), tr(0, 4)]);
    assert_eq!(out, vec![tr(0, 4), tr(10, 14)]);
}

#[test]
fn builder_coalesces_adjacent_same_kind_spans() {
    let mut output = Output::new();
    output.add_text("Hello ".to_string());
    output.add_text("wrld.".to_string());
    let batches = output.result();
    assert_eq!(batches.len(), 1);
    assert_eq!(batches[0].original_length, 11);
    assert_eq!(batches[0].items, vec![AnnotationItem::PlainText("Hello wrld.".to_string())]);
}

#[test]
fn builder_switching_kind_flushes_previous_span() {
    let mut output = Output::new();
    output.add_text("a".to_string());
    output.add_markup("b".to_string());
    output.add_encoded("c".to_string(), "X".to_string());
    let batches = output.result();
    assert_eq!(batches.len(), 1);
    assert_eq!(batches[0].original_length, 3);
    assert_eq!(
        batches[0].items,
        vec![
            AnnotationItem::PlainText("a".to_string()),
            AnnotationItem::Markup("b".to_string()),
            AnnotationItem::InterpretedMarkup("c".to_string(), "X".to_string()),
        ]
    );
}

#[test]
fn converting_plain_prose_yields_one_text_item() {
    let root = inner(
        NodeKind::Markup,
        0,
        11,
        vec![
            leaf(NodeKind::Text, "Hello", 0, 5),
            leaf(NodeKind::Space, " ", 5, 6),
            leaf(NodeKind::Text, "wrld.", 6, 11),
        ],
    );
    let batches = convert(&root, &Rules::new(), 10000);
    assert_eq!(batches.len(), 1);
    assert_eq!(batches[0].original_length, 11);
    assert_eq!(batches[0].items, vec![AnnotationItem::PlainText("Hello wrld.".to_string())]);
}

#[test]
fn cross_reference_is_substituted_and_its_subtree_skipped() {
    let root = inner(
        NodeKind::Markup,
        0,
        8,
        vec![
            leaf(NodeKind::Text, "See ", 0, 4),
            inner(NodeKind::Ref, 4, 8, vec![leaf(NodeKind::Other, "@fig", 4, 8)]),
        ],
    );
    let batches = convert(&root, &Rules::new(), 10000);
    assert_eq!(batches.len(), 1);
    assert_eq!(batches[0].original_length, 8);
    assert_eq!(
        batches[0].items,
        vec![
            AnnotationItem::PlainText("See ".to_string()),
            AnnotationItem::InterpretedMarkup(String::new(), "X".to_string()),
            AnnotationItem::Markup("@fig".to_string()),
        ]
    );
}

#[test]
fn configured_function_contributes_text_before_and_after() {
    let rules = Rules {
        functions: vec![Function {
            name: "figure".to_string(),
            before: "B".to_string(),
            after: "A".to_string(),
        }],
    };
    let root = inner(
        NodeKind::Markup,
        0,
        6,
        vec![inner(NodeKind::FuncCall, 0, 6, vec![leaf(NodeKind::Other, "figure", 0, 6)])],
    );
    let batches = convert(&root, &rules, 10000);
    assert_eq!(batches.len(), 1);
    assert_eq!(batches[0].original_length, 6);
    assert_eq!(
        batches[0].items,
        vec![
            AnnotationItem::PlainText(String::new()),
            AnnotationItem::InterpretedMarkup(String::new(), "B".to_string()),
            AnnotationItem::Markup("figure".to_string()),
            AnnotationItem::InterpretedMarkup(String::new(), "A".to_string()),
        ]
    );
}

fn two_paragraph_root() -> SyntaxNode {
    inner(
        NodeKind::Markup,
        0,
        16,
        vec![
            leaf(NodeKind::Text, "abcdef", 0, 6),
            leaf(NodeKind::Parbreak, "\n\n", 6, 8),
            leaf(NodeKind::Text, "ghijkl", 8, 14),
            leaf(NodeKind::Parbreak, "\n\n", 14, 16),
        ],
    )
}

#[test]
fn batches_split_only_at_paragraph_breaks() {
    let root = two_paragraph_root();
    let batches = convert(&root, &Rules::new(), 5);
    assert_eq!(batches.len(), 3);
    assert_eq!(batches[0].original_length, 8);
    assert_eq!(batches[1].original_length, 8);
    assert_eq!(batches[2].original_length, 0);
    // every batch except the last exceeds the configured maximum
    for b in batches.iter().take(batches.len() - 1) {
        assert!(b.original_length > 5);
    }
}

#[test]
fn converting_twice_yields_identical_batches() {
    let root = two_paragraph_root();
    let rules = Rules::new();
    let first = convert(&root, &rules, 5);
    let second = convert(&root, &rules, 5);
    assert_eq!(first, second);
}

#[test]
fn replaying_batch_lengths_consumes_exactly_the_source() {
    let text = "abcdef\n\nghijkl\n\n";
    let root = two_paragraph_root();
    let batches = convert(&root, &Rules::new(), 5);
    let total: usize = batches.iter().map(|b| b.original_length).sum();
    assert_eq!(total, text.chars().count());
    let mut cursor = PositionLogic::new(text);
    for b in &batches {
        cursor.advance(b.original_length);
    }
    assert_eq!(cursor.consumed, text.chars().count());
}

#[test]
fn position_cursor_tracks_lines_and_columns() {
    let mut cursor = PositionLogic::new("ab\ncd");
    cursor.advance(4);
    assert_eq!(cursor.line, 1);
    assert_eq!(cursor.column, 1);
    let mut end = cursor.clone();
    end.advance(1);
    assert_eq!(end.line, 1);
    assert_eq!(end.column, 2);
    assert_eq!(cursor.consumed, 4);
}

#[test]
fn document_coordinate_conversions_roundtrip() {
    let text = "ab\ncd";
    let root = inner(NodeKind::Markup, 0, 5, vec![leaf(NodeKind::Text, text, 0, 5)]);
    let document = Document::new(0, text, &root);
    assert_eq!(document.line_column_to_byte(1, 1), Some(4));
    assert_eq!(document.line_column_to_byte(2, 0), None);
    assert_eq!(document.range_to_line_character(4), Some((1, 1)));
    assert_eq!(document.range_to_line_character(6), None);
    let lsp = document.byte_range_to_lsp_range(&tr(0, 4)).unwrap();
    assert_eq!((lsp.start.line, lsp.start.character), (0, 0));
    assert_eq!((lsp.end.line, lsp.end.character), (1, 1));
    let back = document.lsp_range_to_byte_range(&lsp).unwrap();
    assert_eq!(back, tr(0, 4));
}

#[test]
fn chunk_text_is_fetched_with_bounds_checks() {
    let document = hello_document();
    assert_eq!(document.get_chunk_by_range(tr(0, 5)), Some("Hello".to_string()));
    assert_eq!(document.get_chunk_by_range(tr(6, 12)), None);
    assert_eq!(document.text_chunks, vec![tr(0, 11)]);
    let under_cursor = document.get_chunk_at_pos(&LspPosition { line: 0, character: 3 });
    assert_eq!(under_cursor, Some("Hello wrld.".to_string()));
}

fn sample_diagnostic(document: &Document, range: TextRange, version: isize) -> Diagnostic {
    let lsp_range = document.byte_range_to_lsp_range(&range).unwrap();
    Diagnostic {
        range,
        version,
        diagnostics_lsp: typst_grammar::protocol::LspDiagnostic {
            range: lsp_range,
            message: "misspelling".to_string(),
        },
        source_data: DiagnosticSourceData::LanguageTool(LTDiagnostic {
            replacements: vec![Replacement { value: "world".to_string() }],
            rule: Rule {
                description: "Possible typo".to_string(),
                issue_type: "misspelling".to_string(),
            },
        }),
        source: DiagnosticSource::LanguageTool,
    }
}

#[test]
fn stale_diagnostics_are_dropped_on_publish() {
    let mut document = thirty_char_document();
    let keep = sample_diagnostic(&document, tr(10, 15), 1);
    let gone = sample_diagnostic(&document, tr(3, 6), 1);
    document.change(2, tr(4, 5), "zz");
    let store = vec![keep, gone];
    let published = get_lsp_diagnostics(&store, &document);
    assert_eq!(published.len(), 1);
    assert_eq!(published[0].range.start.character, 11);
    assert_eq!(published[0].range.end.character, 16);
}

#[test]
fn removing_checker_diagnostics_empties_their_kind() {
    let document = thirty_char_document();
    let a = sample_diagnostic(&document, tr(1, 4), 1);
    let b = sample_diagnostic(&document, tr(5, 9), 1);
    let mut store = vec![a, b];
    remove_lsp_diagnostics_of_type(&mut store, DiagnosticSource::LanguageTool);
    assert!(store.is_empty());
}

#[test]
fn corrected_diagnostic_keeps_message() {
    let document = thirty_char_document();
    let d = sample_diagnostic(&document, tr(10, 15), 1);
    let lsp = d.corrected_diagnostics_lsp(&document).unwrap();
    assert_eq!(lsp.message, "misspelling");
    assert_eq!(lsp.range.start.character, 10);
}

#[test]
fn misspellings_known_to_the_dictionary_are_elided() {
    let dict = vec!["wrld".to_string()];
    let known = CheckMatch {
        offset: 6,
        length: 4,
        message: "m".to_string(),
        replacements: Vec::new(),
        rule: Rule {
            description: String::new(),
            issue_type: "misspelling".to_string(),
        },
        context: MatchContext { text: "Hello wrld.".to_string(), offset: 6, length: 4 },
    };
    let unknown = CheckMatch {
        context: MatchContext { text: "Hello vorld.".to_string(), offset: 6, length: 5 },
        ..known_clone(&known)
    };
    let grammar = CheckMatch {
        rule: Rule { description: String::new(), issue_type: "grammar".to_string() },
        ..known_clone(&known)
    };
    let out = filter_response(vec![known_clone(&known), unknown, grammar], &dict);
    assert_eq!(out.len(), 2);
    assert_eq!(out[0].context.text, "Hello vorld.");
    assert_eq!(out[1].rule.issue_type, "grammar");
}

fn known_clone(m: &CheckMatch) -> CheckMatch {
    CheckMatch {
        offset: m.offset,
        length: m.length,
        message: m.message.clone(),
        replacements: Vec::new(),
        rule: Rule {
            description: m.rule.description.clone(),
            issue_type: m.rule.issue_type.clone(),
        },
        context: MatchContext {
            text: m.context.text.clone(),
            offset: m.context.offset,
            length: m.context.length,
        },
    }
}

#[test]
fn retrieve_diagnostics_shifts_by_chunk_start() {
    let document = hello_document();
    let matches = vec![plain_match(1, 2, "m")];
    let (diags, lsp) = retrieve_diagnostics(&document, 5, &matches);
    assert_eq!(diags.len(), 1);
    assert_eq!(diags[0].range, tr(6, 8));
    assert_eq!(lsp[0].range.start.character, 6);
}

#[test]
fn dictionary_query_returns_the_matching_run() {
    let v = vec![
        "alpha".to_string(),
        "beta".to_string(),
        "betray".to_string(),
        "bind".to_string(),
    ];
    let r = query(&"bet".to_string(), &v);
    assert_eq!(r, vec!["beta".to_string(), "betray".to_string()]);
}

#[test]
fn dictionary_query_folds_case_and_whitespace() {
    let v = vec!["beta".to_string(), "betray".to_string()];
    let r = query(&" BeT ".to_string(), &v);
    assert_eq!(r, vec!["beta".to_string(), "betray".to_string()]);
}

#[test]
fn dictionary_query_misses_cleanly() {
    let v = vec!["alpha".to_string(), "beta".to_string()];
    let r = query(&"zzz".to_string(), &v);
    assert!(r.is_empty());
}

#[test]
fn dictionary_query_caps_the_run_length() {
    let mut v: Vec<String> = Vec::new();
    for i in 0..15 {
        v.push(format!("prefix{:02}", i));
    }
    let r = query(&"prefix".to_string(), &v);
    assert_eq!(r.len(), 10);
}

#[test]
fn decimal_formatting_is_exact() {
    assert_eq!(usize_to_string(0), "0");
    assert_eq!(usize_to_string(7), "7");
    assert_eq!(usize_to_string(10250), "10250");
}

#[test]
fn chunk_overview_message_is_exact() {
    let document = hello_document();
    let marks = mark_text(&document);
    assert_eq!(marks.len(), 1);
    assert_eq!(
        marks[0].message,
        "startLine: 0, startChar: 0 | endLine: 0, endChar: 11 | content: \"Hello wrld.\""
    );
    assert_eq!(marks[0].range.end.character, 11);
}

#[test]
fn code_actions_offer_the_two_commands_with_fresh_ids() {
    let document = hello_document();
    let store: Vec<Diagnostic> = Vec::new();
    let (actions, registry) = code_actions(&store, &document, &"file:///d.typ".to_string(), &tr(0, 1));
    assert_eq!(actions.len(), 2);
    assert_eq!(registry.len(), 2);
    match &actions[0] {
        CodeActionOrCommand::Command(c) => {
            assert_eq!(c.title, "Evaluate with language tools");
            assert_eq!(c.command.len(), 36);
            assert_eq!(c.command, registry[0].0);
        }
        _ => panic!("expected a command"),
    }
    match &actions[1] {
        CodeActionOrCommand::Command(c) => {
            assert_eq!(c.title, "Remove language tools diagnostics");
            assert_eq!(c.command, registry[1].0);
        }
        _ => panic!("expected a command"),
    }
}

#[test]
fn replacement_actions_carry_rule_and_value_in_the_title() {
    let document = hello_document();
    let d = sample_diagnostic(&document, tr(6, 10), 0);
    let actions = diagnostic_code_action(&document, &d, &"file:///d.typ".to_string());
    assert_eq!(actions.len(), 1);
    match &actions[0] {
        CodeActionOrCommand::CodeAction(a) => {
            assert_eq!(a.title, "Rule: Possible typo | Replacement: world");
            assert_eq!(a.edit.uri, "file:///d.typ");
            assert_eq!(a.edit.edits.len(), 1);
            assert_eq!(a.edit.edits[0].new_text, "world");
        }
        _ => panic!("expected a code action"),
    }
}

#[test]
fn covering_diagnostics_contribute_replacement_actions() {
    let document = hello_document();
    let store = vec![sample_diagnostic(&document, tr(6, 10), 0)];
    let (actions, _) = code_actions(&store, &document, &"file:///d.typ".to_string(), &tr(7, 8));
    assert_eq!(actions.len(), 3);
}

#[test]
fn find_word_reduces_the_token_to_letters() {
    let document = hello_document();
    assert_eq!(
        document.find_word(LspPosition { line: 0, character: 7 }),
        Some("wrld".to_string())
    );
    assert_eq!(document.find_word(LspPosition { line: 0, character: 5 }), None);
    assert_eq!(document.find_word(LspPosition { line: 0, character: 30 }), None);
}

#[test]
fn parse_gathers_text_leaves_and_gaps() {
    let root = inner(
        NodeKind::Markup,
        0,
        11,
        vec![leaf(NodeKind::Text, "Hello", 0, 5), leaf(NodeKind::Text, "wrld.", 6, 11)],
    );
    let raw = parse_recursive(&root);
    assert_eq!(raw, vec![tr(0, 5), tr(6, 11)]);
    assert!(within(5, &tr(0, 5)));
    assert!(!within(6, &tr(0, 5)));
}

#[test]
fn default_config_points_at_the_local_checker() {
    let c = RootConfig::default();
    assert!(c.lt_enabled);
    assert!(c.completion_enabled);
    assert_eq!(c.lt_api_hostname, "http://127.0.0.1");
    assert_eq!(c.lt_api_port, "8081");
}

#[test]
fn heading_is_isolated_between_paragraph_breaks() {
    let root = inner(
        NodeKind::Markup,
        0,
        7,
        vec![inner(
            NodeKind::Heading,
            0,
            7,
            vec![leaf(NodeKind::Other, "= ", 0, 2), leaf(NodeKind::Text, "Intro", 2, 7)],
        )],
    );
    let batches = convert(&root, &Rules::new(), 10000);
    assert_eq!(batches.len(), 1);
    assert_eq!(batches[0].original_length, 7);
    assert_eq!(
        batches[0].items,
        vec![
            AnnotationItem::PlainText(String::new()),
            AnnotationItem::InterpretedMarkup(String::new(), "\n\n".to_string()),
            AnnotationItem::Markup("= ".to_string()),
            AnnotationItem::PlainText("Intro".to_string()),
            AnnotationItem::InterpretedMarkup(String::new(), "\n\n".to_string()),
        ]
    );
}

#[test]
fn non_breaking_space_shorthand_becomes_a_space() {
    let root = inner(
        NodeKind::Markup,
        0,
        3,
        vec![
            leaf(NodeKind::Text, "a", 0, 1),
            leaf(NodeKind::Shorthand, "~", 1, 2),
            leaf(NodeKind::Text, "b", 2, 3),
        ],
    );
    let batches = convert(&root, &Rules::new(), 10000);
    assert_eq!(
        batches[0].items,
        vec![
            AnnotationItem::PlainText("a".to_string()),
            AnnotationItem::InterpretedMarkup("~".to_string(), " ".to_string()),
            AnnotationItem::PlainText("b".to_string()),
        ]
    );
}

#[test]
fn formulas_are_replaced_by_a_neutral_number() {
    let root = inner(
        NodeKind::Markup,
        0,
        7,
        vec![
            leaf(NodeKind::Text, "a", 0, 1),
            inner(NodeKind::Equation, 1, 6, vec![leaf(NodeKind::Other, "$x+y$", 1, 6)]),
            leaf(NodeKind::Text, "b", 6, 7),
        ],
    );
    let batches = convert(&root, &Rules::new(), 10000);
    assert_eq!(batches[0].original_length, 7);
    assert_eq!(
        batches[0].items,
        vec![
            AnnotationItem::PlainText("a".to_string()),
            AnnotationItem::InterpretedMarkup(String::new(), "0".to_string()),
            AnnotationItem::Markup("$x+y$".to_string()),
            AnnotationItem::PlainText("b".to_string()),
        ]
    );
}

#[test]
fn text_inside_code_mode_is_opaque_markup() {
    let root = inner(
        NodeKind::Markup,
        0,
        5,
        vec![inner(
            NodeKind::LetBinding,
            0,
            5,
            vec![leaf(NodeKind::Text, "let x", 0, 5)],
        )],
    );
    let batches = convert(&root, &Rules::new(), 10000);
    assert_eq!(
        batches[0].items,
        vec![
            AnnotationItem::PlainText(String::new()),
            AnnotationItem::Markup("let x".to_string()),
        ]
    );
}

#[test]
fn chunk_lookup_misses_outside_every_chunk() {
    let text = "ab\ncdefg";
    let root = inner(
        NodeKind::Markup,
        0,
        8,
        vec![leaf(NodeKind::Text, "cdefg", 3, 8)],
    );
    let document = Document::new(0, text, &root);
    assert_eq!(document.text_chunks, vec![tr(3, 8)]);
    assert_eq!(
        document.get_chunk_at_pos(&LspPosition { line: 0, character: 0 }),
        None
    );
    assert_eq!(
        document.get_chunk_at_pos(&LspPosition { line: 1, character: 1 }),
        Some("cdefg".to_string())
    );
}

#[test]
fn tree_checks_accept_parser_shapes_and_refuse_others() {
    let good = inner(NodeKind::Markup, 0, 11, vec![leaf(NodeKind::Text, "Hello wrld.", 0, 11)]);
    assert_eq!(typst_grammar::convert::check_parsed_tree(&good, 11), Some(11));
    // a container carrying its own text is not a parser shape
    let bad = inner(NodeKind::Markup, 0, 4, vec![leaf(NodeKind::Ref, "@fig", 0, 4)]);
    let mut bad = bad;
    bad.children[0].text = "@fig".to_string();
    assert_eq!(typst_grammar::convert::check_parsed_tree(&bad, 4), None);
    // spans past the text are refused
    let wide = inner(NodeKind::Markup, 0, 99, vec![leaf(NodeKind::Text, "hi", 0, 99)]);
    assert_eq!(typst_grammar::convert::check_parsed_tree(&wide, 11), None);
}

#[test]
fn word_list_preparation_lowercases_and_sorts() {
    let lines = vec!["Beta".to_string(), "alpha".to_string(), "BETRAY".to_string()];
    let prepared = typst_grammar::word_query::sort_words(
        typst_grammar::word_query::lowercase_all(lines),
    );
    assert_eq!(
        prepared,
        vec!["alpha".to_string(), "beta".to_string(), "betray".to_string()]
    );
    let r = query(&"bet".to_string(), &prepared);
    assert_eq!(r, vec!["beta".to_string(), "betray".to_string()]);
}

#[test]
fn bad_matches_fail_alone_in_per_chunk_projection() {
    let document = hello_document();
    let matches = vec![plain_match(1, 2, "good"), plain_match(50, 2, "out of bounds")];
    let (diags, lsp) = retrieve_diagnostics(&document, 5, &matches);
    assert_eq!(diags.len(), 1);
    assert_eq!(lsp.len(), 1);
    assert_eq!(diags[0].range, tr(6, 8));
}
