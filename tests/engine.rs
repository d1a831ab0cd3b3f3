use tree_sitter_stlcpp::abi::{load_header, LoadError, TableHeader, ENGINE_ABI_VERSION};
use tree_sitter_stlcpp::edit::{apply_edit, edit_tree, relex, shift_position, InputEdit};
use tree_sitter_stlcpp::grammar::{
    check_ambiguity, check_reachable, check_unit_cycles, check_references, is_defined, reachable_rules, undefined_rules, resolve_shift_reduce, Assoc, CompileError,
    Grammar, GrammarSymbol, Production, Resolution,
};
use tree_sitter_stlcpp::lexer::{longest_literal, next_token, rule_match_len, tokenize, Token, TokenRule};
use tree_sitter_stlcpp::parser::{parse, parse_tokens, reparse, Action, ParseTable};
use tree_sitter_stlcpp::tree::{Node, Tree};

fn header_bytes(version: u32, states: u32, symbols: u32, fields: u32) -> Vec<u8> {
    let mut b = Vec::new();
    for v in [version, states, symbols, fields] {
        b.extend_from_slice(&v.to_le_bytes());
    }
    b
}

// expr := NUMBER | expr "+" expr, with "+" left-associative.
// Symbols: 0 NUMBER, 1 "+", 2 end of input, 3 expr.
fn sum_table() -> ParseTable {
    let e = 3;
    ParseTable {
        rules: vec![TokenRule::Digits, TokenRule::Literal(b"+".to_vec())],
        eof: 2,
        symbol_count: 4,
        actions: vec![
            vec![Action::Shift(1), Action::Error, Action::Error, Action::Shift(2)],
            vec![Action::Error, Action::Reduce { symbol: e, count: 1 }, Action::Reduce { symbol: e, count: 1 }, Action::Error],
            vec![Action::Error, Action::Shift(3), Action::Accept, Action::Error],
            vec![Action::Shift(1), Action::Error, Action::Error, Action::Shift(4)],
            vec![Action::Error, Action::Reduce { symbol: e, count: 3 }, Action::Reduce { symbol: e, count: 3 }, Action::Error],
        ],
        step_cap: 8,
    }
}

// expr := NUMBER | "(" expr ")".
// Symbols: 0 NUMBER, 1 "(", 2 ")", 3 end of input, 4 expr.
fn paren_table() -> ParseTable {
    let e = 4;
    ParseTable {
        rules: vec![
            TokenRule::Digits,
            TokenRule::Literal(b"(".to_vec()),
            TokenRule::Literal(b")".to_vec()),
        ],
        eof: 3,
        symbol_count: 5,
        actions: vec![
            vec![Action::Shift(1), Action::Shift(2), Action::Error, Action::Error, Action::Shift(3)],
            vec![Action::Error, Action::Error, Action::Reduce { symbol: e, count: 1 }, Action::Reduce { symbol: e, count: 1 }, Action::Error],
            vec![Action::Shift(1), Action::Shift(2), Action::Error, Action::Error, Action::Shift(4)],
            vec![Action::Error, Action::Error, Action::Error, Action::Accept, Action::Error],
            vec![Action::Error, Action::Error, Action::Shift(5), Action::Error, Action::Error],
            vec![Action::Error, Action::Error, Action::Reduce { symbol: e, count: 3 }, Action::Reduce { symbol: e, count: 3 }, Action::Error],
        ],
        step_cap: 8,
    }
}

fn root(t: &Tree) -> &Node {
    &t.nodes[t.root]
}

fn count_flagged(t: &Tree) -> usize {
    t.nodes.iter().filter(|n| n.is_error || n.is_missing).count()
}

fn collect_reachable_flagged(t: &Tree, i: usize, out: &mut usize) {
    let n = &t.nodes[i];
    if n.is_error || n.is_missing {
        *out += 1;
    }
    for &c in &n.children {
        collect_reachable_flagged(t, c, out);
    }
}

#[test]
fn header_with_older_version_is_refused() {
    let bytes = header_bytes(13, 5, 4, 0);
    assert_eq!(
        load_header(&bytes, 14),
        Err(LoadError::VersionMismatch { found: 13, expected: 14 })
    );
}

#[test]
fn header_with_engine_version_loads() {
    let bytes = header_bytes(ENGINE_ABI_VERSION, 5, 4, 2);
    assert_eq!(
        load_header(&bytes, ENGINE_ABI_VERSION),
        Ok(TableHeader { abi_version: 14, state_count: 5, symbol_count: 4, field_count: 2 })
    );
}

#[test]
fn header_reads_little_endian_numbers() {
    let mut bytes = header_bytes(14, 0, 0, 0);
    bytes[4] = 0x01;
    bytes[5] = 0x02;
    let h = load_header(&bytes, 14).unwrap();
    assert_eq!(h.state_count, 0x0201);
}

#[test]
fn short_header_is_truncated() {
    let bytes = vec![14, 0, 0, 0, 1];
    assert_eq!(load_header(&bytes, 14), Err(LoadError::Truncated));
}

#[test]
fn longest_match_wins() {
    let rules = vec![TokenRule::Literal(b"+".to_vec()), TokenRule::Literal(b"++".to_vec())];
    assert_eq!(next_token(&rules, &b"++1".to_vec(), 0), Some((1, 2)));
}

#[test]
fn earlier_rule_wins_a_tie() {
    let rules = vec![
        TokenRule::Literal(b"12".to_vec()),
        TokenRule::Digits,
        TokenRule::Literal(b"12".to_vec()),
    ];
    assert_eq!(next_token(&rules, &b"12+".to_vec(), 0), Some((0, 2)));
    assert_eq!(next_token(&rules, &b"123".to_vec(), 0), Some((1, 3)));
}

#[test]
fn no_rule_matches_gives_none() {
    let rules = vec![TokenRule::Digits];
    assert_eq!(next_token(&rules, &b"x1".to_vec(), 0), None);
    assert_eq!(next_token(&rules, &b"x1".to_vec(), 2), None);
}

#[test]
fn tokenize_marks_unknown_bytes() {
    let rules = vec![TokenRule::Digits, TokenRule::Literal(b"+".to_vec())];
    let toks = tokenize(&rules, &b"12?+3".to_vec());
    assert_eq!(
        toks,
        vec![
            Token { kind: 0, start: 0, end: 2, is_error: false },
            Token { kind: 2, start: 2, end: 3, is_error: true },
            Token { kind: 1, start: 3, end: 4, is_error: false },
            Token { kind: 0, start: 4, end: 5, is_error: false },
        ]
    );
}

#[test]
fn tokenize_empty_text() {
    let rules = vec![TokenRule::Digits];
    assert!(tokenize(&rules, &Vec::new()).is_empty());
}

#[test]
fn plus_is_left_associative() {
    let t = parse(&sum_table(), &b"1+2+3".to_vec());
    let r = root(&t);
    assert_eq!((r.symbol, r.start, r.end), (3, 0, 5));
    assert!(!r.is_error);
    assert_eq!(r.children.len(), 3);
    let left = &t.nodes[r.children[0]];
    let right = &t.nodes[r.children[2]];
    assert_eq!((left.symbol, left.start, left.end), (3, 0, 3));
    assert_eq!(left.children.len(), 3);
    assert_eq!((right.start, right.end), (4, 5));
    assert_eq!(right.children.len(), 1);
    assert_eq!(count_flagged(&t), 0);
}

#[test]
fn missing_closing_delimiter_is_inserted() {
    let t = parse(&paren_table(), &b"(1".to_vec());
    let r = root(&t);
    assert_eq!((r.start, r.end), (0, 2));
    assert!(!r.is_error);
    let mut flagged = 0;
    collect_reachable_flagged(&t, t.root, &mut flagged);
    assert_eq!(flagged, 1);
    let last = &t.nodes[*r.children.last().unwrap()];
    assert!(last.is_missing);
    assert_eq!((last.symbol, last.start, last.end), (2, 2, 2));
}

#[test]
fn unreadable_input_still_covers_everything() {
    for text in [&b"1+"[..], b"+", b"abc", b"1 + 2", b"", b"1+2)"] {
        let t = parse(&sum_table(), &text.to_vec());
        let r = root(&t);
        assert_eq!((r.start, r.end), (0, text.len()));
    }
}

#[test]
fn missing_operand_is_inserted() {
    let t = parse(&sum_table(), &b"+1".to_vec());
    let r = root(&t);
    assert!(!r.is_error);
    assert_eq!((r.start, r.end), (0, 2));
    let mut flagged = 0;
    collect_reachable_flagged(&t, t.root, &mut flagged);
    assert_eq!(flagged, 1);
    let left = &t.nodes[r.children[0]];
    let number = &t.nodes[left.children[0]];
    assert!(number.is_missing);
    assert_eq!((number.symbol, number.start, number.end), (0, 0, 0));
}

#[test]
fn stray_byte_is_skipped_as_error_node() {
    let t = parse(&sum_table(), &b"1?+2".to_vec());
    let r = root(&t);
    assert!(!r.is_error);
    assert_eq!((r.symbol, r.start, r.end), (3, 0, 4));
    assert_eq!(r.children.len(), 3);
    let left = &t.nodes[r.children[0]];
    assert_eq!((left.symbol, left.start, left.end), (3, 0, 2));
    let stray = &t.nodes[left.children[1]];
    assert!(stray.is_error);
    assert_eq!((stray.start, stray.end), (1, 2));
    let right = &t.nodes[r.children[2]];
    assert_eq!((right.start, right.end), (3, 4));
    let mut flagged = 0;
    collect_reachable_flagged(&t, t.root, &mut flagged);
    assert_eq!(flagged, 1);
}

#[test]
fn stray_closer_is_skipped() {
    let t = parse(&sum_table(), &b"1+2)".to_vec());
    let r = root(&t);
    assert!(!r.is_error);
    assert_eq!((r.start, r.end), (0, 4));
    let mut flagged = 0;
    collect_reachable_flagged(&t, t.root, &mut flagged);
    assert_eq!(flagged, 1);
}

#[test]
fn unrecoverable_input_wraps_rest_in_error_node() {
    let t = parse(&sum_table(), &b"1??+2".to_vec());
    let r = root(&t);
    assert!(r.is_error);
    assert_eq!((r.start, r.end), (0, 5));
    assert_eq!(r.children.len(), 2);
    let rest = &t.nodes[r.children[1]];
    assert!(rest.is_error);
    assert_eq!((rest.start, rest.end), (1, 5));
    let mut flagged = 0;
    collect_reachable_flagged(&t, t.root, &mut flagged);
    assert_eq!(flagged, 2);
}

#[test]
fn parsing_twice_gives_the_same_tree() {
    let text = b"1+22+3+4".to_vec();
    assert_eq!(parse(&sum_table(), &text), parse(&sum_table(), &text));
}

#[test]
fn steps_stay_within_bound() {
    let table = sum_table();
    for text in [&b"1+2+3+4+5"[..], b"+++", b"1"] {
        let t = parse(&table, &text.to_vec());
        assert!(t.steps <= table.step_cap * (text.len() + 1));
    }
}

#[test]
fn zero_step_cap_still_covers() {
    let mut table = sum_table();
    table.step_cap = 0;
    let t = parse(&table, &b"1+2".to_vec());
    assert_eq!(t.steps, 0);
    assert_eq!((root(&t).start, root(&t).end), (0, 3));
}

#[test]
fn parse_tokens_takes_lexed_input() {
    let table = sum_table();
    let text = b"7+8".to_vec();
    let toks = tokenize(&table.rules, &text);
    assert_eq!(parse_tokens(&table, &toks, text.len()), parse(&table, &text));
}

#[test]
fn edit_replaces_bytes() {
    let e = InputEdit { start_byte: 2, old_end_byte: 3, new_end_byte: 4 };
    assert_eq!(apply_edit(&b"1+2+3".to_vec(), &e, &b"45".to_vec()), b"1+45+3".to_vec());
    let del = InputEdit { start_byte: 1, old_end_byte: 3, new_end_byte: 1 };
    assert_eq!(apply_edit(&b"1+2+3".to_vec(), &del, &Vec::new()), b"1+3".to_vec());
}

#[test]
fn positions_shift_by_edit() {
    let e = InputEdit { start_byte: 2, old_end_byte: 3, new_end_byte: 4 };
    assert_eq!(shift_position(1, &e), 1);
    assert_eq!(shift_position(2, &e), 2);
    assert_eq!(shift_position(3, &e), 4);
    assert_eq!(shift_position(5, &e), 6);
    let del = InputEdit { start_byte: 1, old_end_byte: 4, new_end_byte: 1 };
    assert_eq!(shift_position(2, &del), 1);
    assert_eq!(shift_position(5, &del), 2);
}

#[test]
fn edit_tree_moves_and_marks_nodes() {
    let t = parse(&sum_table(), &b"1+2+3".to_vec());
    let e = InputEdit { start_byte: 4, old_end_byte: 5, new_end_byte: 6 };
    let moved = edit_tree(&t, &e);
    assert_eq!(moved.nodes.len(), t.nodes.len());
    assert_eq!(moved.root, t.root);
    let r = root(&moved);
    assert_eq!((r.start, r.end), (0, 6));
    assert!(r.damaged);
    let left = &moved.nodes[r.children[0]];
    assert_eq!((left.start, left.end), (0, 3));
    assert!(!left.damaged);
    let right = &moved.nodes[r.children[2]];
    assert_eq!((right.start, right.end), (4, 6));
    assert!(right.damaged);
}

#[test]
fn tables_are_checked_before_use() {
    assert!(sum_table().is_valid());
    assert!(paren_table().is_valid());
    let mut short_row = sum_table();
    short_row.actions[2].pop();
    assert!(!short_row.is_valid());
    let mut bad_target = sum_table();
    bad_target.actions[0][0] = Action::Shift(9);
    assert!(!bad_target.is_valid());
    let mut no_states = sum_table();
    no_states.actions.clear();
    assert!(!no_states.is_valid());
}

#[test]
fn find_missing_picks_first_repair() {
    let table = paren_table();
    // After "(" NUMBER reduced, state 4 expects ")".
    assert_eq!(table.find_missing(4, 3), Some((2, 5)));
    assert_eq!(table.find_missing(3, 0), None);
}

#[test]
fn rule_lengths() {
    let t = b"123+".to_vec();
    assert_eq!(rule_match_len(&TokenRule::Digits, &t, 0), 3);
    assert_eq!(rule_match_len(&TokenRule::Digits, &t, 3), 0);
    assert_eq!(rule_match_len(&TokenRule::Literal(b"3+".to_vec()), &t, 2), 2);
    assert_eq!(rule_match_len(&TokenRule::Literal(b"+x".to_vec()), &t, 3), 0);
    assert_eq!(rule_match_len(&TokenRule::Literal(Vec::new()), &t, 0), 0);
}

#[test]
fn longest_literal_length() {
    let rules = vec![
        TokenRule::Literal(b"+".to_vec()),
        TokenRule::Digits,
        TokenRule::Literal(b"<<=".to_vec()),
    ];
    assert_eq!(longest_literal(&rules), 3);
    assert_eq!(longest_literal(&vec![TokenRule::Digits]), 0);
}

#[test]
fn relex_matches_fresh_lexing() {
    let rules = sum_table().rules;
    let old_text = b"12+34+56".to_vec();
    let old_toks = tokenize(&rules, &old_text);
    let e = InputEdit { start_byte: 6, old_end_byte: 8, new_end_byte: 9 };
    let new_text = apply_edit(&old_text, &e, &b"789".to_vec());
    assert_eq!(new_text, b"12+34+789".to_vec());
    assert_eq!(relex(&rules, &old_text, &old_toks, &e, &new_text), tokenize(&rules, &new_text));
}

#[test]
fn relex_across_a_number() {
    let rules = sum_table().rules;
    let old_text = b"12+34".to_vec();
    let old_toks = tokenize(&rules, &old_text);
    let e = InputEdit { start_byte: 2, old_end_byte: 3, new_end_byte: 3 };
    let new_text = apply_edit(&old_text, &e, &b"5".to_vec());
    let toks = relex(&rules, &old_text, &old_toks, &e, &new_text);
    assert_eq!(toks, vec![Token { kind: 0, start: 0, end: 5, is_error: false }]);
}

#[test]
fn reparse_matches_parse_from_scratch() {
    let table = sum_table();
    let old_text = b"1+2+3".to_vec();
    let old_toks = tokenize(&table.rules, &old_text);
    let e = InputEdit { start_byte: 4, old_end_byte: 5, new_end_byte: 7 };
    let new_text = apply_edit(&old_text, &e, &b"4+5".to_vec());
    let (tree, toks) = reparse(&table, &old_text, &old_toks, &e, &new_text);
    assert_eq!(tree, parse(&table, &new_text));
    assert_eq!(toks, tokenize(&table.rules, &new_text));
    assert_eq!((root(&tree).start, root(&tree).end), (0, 7));
}

#[test]
fn precedence_settles_conflicts() {
    assert_eq!(resolve_shift_reduce(2, 1, Assoc::Left), Resolution::Shift);
    assert_eq!(resolve_shift_reduce(1, 2, Assoc::Right), Resolution::Reduce);
    assert_eq!(resolve_shift_reduce(1, 1, Assoc::Left), Resolution::Reduce);
    assert_eq!(resolve_shift_reduce(1, 1, Assoc::Right), Resolution::Shift);
    assert_eq!(resolve_shift_reduce(1, 1, Assoc::NonAssoc), Resolution::Unresolved);
}

fn sum_grammar() -> Grammar {
    Grammar {
        rule_count: 1,
        productions: vec![
            Production { lhs: 0, rhs: vec![GrammarSymbol::Terminal(0)], precedence: 0 },
            Production {
                lhs: 0,
                rhs: vec![GrammarSymbol::Rule(0), GrammarSymbol::Terminal(1), GrammarSymbol::Rule(0)],
                precedence: 1,
            },
        ],
    }
}

#[test]
fn defined_rules_pass() {
    let g = sum_grammar();
    assert!(is_defined(&g, 0));
    assert!(!is_defined(&g, 1));
    assert_eq!(check_references(&g), Ok(()));
}

#[test]
fn undefined_rule_is_reported() {
    let mut g = sum_grammar();
    g.productions.push(Production { lhs: 0, rhs: vec![GrammarSymbol::Rule(7)], precedence: 0 });
    assert_eq!(check_references(&g), Err(CompileError::UndefinedRule(7)));
}

#[test]
fn ambiguity_over_cap_is_reported() {
    assert_eq!(check_ambiguity(&vec![1, 2, 1], 2), Ok(()));
    assert_eq!(
        check_ambiguity(&vec![1, 3, 4], 2),
        Err(CompileError::TooAmbiguous { state: 1, paths: 3 })
    );
    assert_eq!(check_ambiguity(&Vec::new(), 0), Ok(()));
}

fn chain_grammar() -> Grammar {
    // 0 := 1 "x"; 1 := 2 | "y"; 2 := "z"; 3 := 0
    Grammar {
        rule_count: 4,
        productions: vec![
            Production { lhs: 0, rhs: vec![GrammarSymbol::Rule(1), GrammarSymbol::Terminal(0)], precedence: 0 },
            Production { lhs: 1, rhs: vec![GrammarSymbol::Rule(2)], precedence: 0 },
            Production { lhs: 1, rhs: vec![GrammarSymbol::Terminal(1)], precedence: 0 },
            Production { lhs: 2, rhs: vec![GrammarSymbol::Terminal(2)], precedence: 0 },
            Production { lhs: 3, rhs: vec![GrammarSymbol::Rule(0)], precedence: 0 },
        ],
    }
}

#[test]
fn reachable_rules_follow_alternatives() {
    let g = chain_grammar();
    assert_eq!(reachable_rules(&g, 0), vec![true, true, true, false]);
    assert_eq!(reachable_rules(&g, 3), vec![true, true, true, true]);
    assert_eq!(reachable_rules(&g, 2), vec![false, false, true, false]);
}

#[test]
fn unreachable_rule_is_reported() {
    let g = chain_grammar();
    assert_eq!(check_reachable(&g, 0), Err(CompileError::UnreachableRule(3)));
    assert_eq!(check_reachable(&g, 3), Ok(()));
    assert_eq!(check_reachable(&g, 1), Err(CompileError::UnreachableRule(0)));
}

#[test]
fn all_undefined_rules_are_listed() {
    let mut g = sum_grammar();
    assert!(undefined_rules(&g).is_empty());
    g.productions.push(Production {
        lhs: 0,
        rhs: vec![GrammarSymbol::Rule(7), GrammarSymbol::Terminal(3), GrammarSymbol::Rule(5)],
        precedence: 0,
    });
    g.productions.push(Production { lhs: 0, rhs: vec![GrammarSymbol::Rule(7)], precedence: 0 });
    assert_eq!(undefined_rules(&g), vec![7, 5]);
}

#[test]
fn rule_deriving_itself_without_tokens_is_rejected() {
    // Left recursion through "+" consumes a token and is accepted.
    assert_eq!(check_unit_cycles(&sum_grammar()), Ok(()));
    assert_eq!(check_unit_cycles(&chain_grammar()), Ok(()));
    // 0 := 1; 1 := 2 | "y"; 2 := 0
    let g = Grammar {
        rule_count: 3,
        productions: vec![
            Production { lhs: 0, rhs: vec![GrammarSymbol::Rule(1)], precedence: 0 },
            Production { lhs: 1, rhs: vec![GrammarSymbol::Rule(2)], precedence: 0 },
            Production { lhs: 1, rhs: vec![GrammarSymbol::Terminal(1)], precedence: 0 },
            Production { lhs: 2, rhs: vec![GrammarSymbol::Rule(0)], precedence: 0 },
        ],
    };
    assert_eq!(check_unit_cycles(&g), Err(CompileError::UnboundedRecursion(0)));
    let self_loop = Grammar {
        rule_count: 2,
        productions: vec![
            Production { lhs: 0, rhs: vec![GrammarSymbol::Terminal(0)], precedence: 0 },
            Production { lhs: 1, rhs: vec![GrammarSymbol::Rule(1)], precedence: 0 },
        ],
    };
    assert_eq!(check_unit_cycles(&self_loop), Err(CompileError::UnboundedRecursion(1)));
}
