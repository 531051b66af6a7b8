use regex_engine::builder::Quantifier;
use regex_engine::graph::{code_of, contains_index, insert_index, insert_indices, WILDCARD};
use regex_engine::regex::{quantifier_of_atom, quantifier_of_group};
use regex_engine::scanner::Scanner;
use regex_engine::{is_match, CompileError, HayStack, Regex, State, Type};

fn ask(s: &str, p: &str) -> Result<bool, CompileError> {
    is_match(s.to_string(), p.to_string())
}

fn edges(regex: &Regex, state: usize) -> Vec<usize> {
    let mut targets = regex.states[state].transitions.clone();
    targets.sort();
    targets
}

#[test]
fn literal_matches_itself_only() {
    assert_eq!(ask("a", "a"), Ok(true));
    assert_eq!(ask("a", "b"), Ok(false));
    assert_eq!(ask("", "a"), Ok(false));
}

#[test]
fn wildcard_matches_one_character() {
    assert_eq!(ask("a", "."), Ok(true));
    assert_eq!(ask("", "."), Ok(false));
    assert_eq!(ask("ab", "."), Ok(false));
    assert_eq!(ask("", ".+"), Ok(false));
}

#[test]
fn dot_star_matches_every_string() {
    for s in ["", "a", "ab", "(|)*+?", "line\nbreak", "\u{1F600}\u{100}"] {
        assert_eq!(ask(s, ".*"), Ok(true), "{:?}", s);
    }
}

#[test]
fn star_is_zero_or_more() {
    assert_eq!(ask("", "a*"), Ok(true));
    assert_eq!(ask("a", "a*"), Ok(true));
    assert_eq!(ask("aaa", "a*"), Ok(true));
    assert_eq!(ask("aab", "a*"), Ok(false));
}

#[test]
fn plus_is_one_or_more() {
    assert_eq!(ask("", "a+"), Ok(false));
    assert_eq!(ask("a", "a+"), Ok(true));
    assert_eq!(ask("aaa", "a+"), Ok(true));
}

#[test]
fn question_mark_is_zero_or_one() {
    assert_eq!(ask("a", "a?"), Ok(true));
    assert_eq!(ask("", "a?"), Ok(true));
    assert_eq!(ask("aa", "a?"), Ok(false));
}

#[test]
fn alternation_at_top_level() {
    assert_eq!(ask("c", "a+|cb*"), Ok(true));
    assert_eq!(ask("aa", "a+a|cb*"), Ok(true));
    assert_eq!(ask("a", "a|b"), Ok(true));
    assert_eq!(ask("b", "a|b"), Ok(true));
    assert_eq!(ask("ab", "a|b"), Ok(false));
    assert_eq!(ask("", "a|b"), Ok(false));
    assert_eq!(ask("c", "a|b|c"), Ok(true));
}

#[test]
fn alternatives_of_a_group_start_from_the_same_place() {
    assert_eq!(ask("cabd", "c(ab|xy)d"), Ok(true));
    assert_eq!(ask("cxyd", "c(ab|xy)d"), Ok(true));
    assert_eq!(ask("cabxyd", "c(ab|xy)d"), Ok(false));
    assert_eq!(ask("cayd", "c(ab|xy)d"), Ok(false));
    assert_eq!(ask("cd", "c(ab|xy)d"), Ok(false));
}

#[test]
fn quantifier_on_a_group() {
    assert_eq!(ask("abab", "(ab)+"), Ok(true));
    assert_eq!(ask("", "(ab)+"), Ok(false));
    assert_eq!(ask("cababd", "c(ab)+d"), Ok(true));
    assert_eq!(ask("cabad", "c(ab+)+d"), Ok(false));
    assert_eq!(ask("", "(ab)*"), Ok(true));
    assert_eq!(ask("ababab", "(ab)*"), Ok(true));
    assert_eq!(ask("aba", "(ab)*"), Ok(false));
    assert_eq!(ask("cd", "c(ab)*d"), Ok(true));
}

#[test]
fn question_mark_on_a_group_lets_it_repeat() {
    assert_eq!(ask("", "(ab)?"), Ok(true));
    assert_eq!(ask("ab", "(ab)?"), Ok(true));
    assert_eq!(ask("abab", "(ab)?"), Ok(true));
    assert_eq!(ask("a", "(ab)?"), Ok(false));
}

#[test]
fn a_repeating_group_starts_over_at_the_first_atom_of_an_alternative() {
    assert_eq!(ask("ab", "(a*b)+"), Ok(true));
    assert_eq!(ask("b", "(a*b)+"), Ok(true));
    assert_eq!(ask("bab", "(a*b)+"), Ok(true));
    assert_eq!(ask("bb", "(a*b)+"), Ok(false));
}

#[test]
fn nested_groups() {
    assert_eq!(ask("abcbcd", "a((bc)+d)"), Ok(true));
    assert_eq!(ask("ad", "a((bc)+d)"), Ok(false));
    assert_eq!(ask("xaby", "x(a(b|c))y"), Ok(true));
    assert_eq!(ask("xacy", "x(a(b|c))y"), Ok(true));
    assert_eq!(ask("xay", "x(a(b|c))y"), Ok(false));
}

#[test]
fn nested_group_with_alternation_and_trailing_star() {
    assert_eq!(ask("cazaza", "c(az|bc*y)+d*a"), Ok(true));
    assert_eq!(ask("cbcyazda", "c(az|bc*y)+d*a"), Ok(true));
    assert_eq!(ask("cbyddda", "c(az|bc*y)+d*a"), Ok(true));
    assert_eq!(ask("cda", "c(az|bc*y)+d*a"), Ok(false));
}

#[test]
fn empty_group_and_empty_alternative() {
    assert_eq!(ask("", "()"), Ok(true));
    assert_eq!(ask("ab", "a()b"), Ok(true));
    assert_eq!(ask("", "(|a)"), Ok(true));
    assert_eq!(ask("a", "(|a)"), Ok(true));
    assert_eq!(ask("a", "(a|)"), Ok(true));
    assert_eq!(ask("", "(a|)"), Ok(true));
}

#[test]
fn the_whole_string_must_be_consumed() {
    assert_eq!(ask("ab", "a"), Ok(false));
    assert_eq!(ask("a", "ab"), Ok(false));
    assert_eq!(ask("xab", "ab"), Ok(false));
    assert_eq!(ask("abx", "ab"), Ok(false));
    assert_eq!(ask("ab", "ab"), Ok(true));
}

#[test]
fn characters_are_compared_as_they_are() {
    assert_eq!(ask("A", "a"), Ok(false));
    assert_eq!(ask(" a", "a"), Ok(false));
    assert_eq!(ask("a ", "a "), Ok(true));
    assert_eq!(ask("é", "é"), Ok(true));
    assert_eq!(ask("e", "é"), Ok(false));
}

#[test]
fn empty_pattern_is_refused() {
    assert_eq!(ask("", ""), Err(CompileError::EmptyPattern));
    assert_eq!(ask("a", ""), Err(CompileError::EmptyPattern));
}

#[test]
fn dangling_quantifier_is_refused() {
    for p in ["*", "?", "+", "a**", "a*+", "a*?", "a?+", "a?*", "a??", "a++", "a+*", "a+?"] {
        assert_eq!(ask("_", p), Err(CompileError::DanglingQuantifier), "{}", p);
    }
    for p in ["(*a)", "(+", "a|*b", "a|?", "(a)**", "(a)+?", "*|"] {
        assert_eq!(ask("_", p), Err(CompileError::DanglingQuantifier), "{}", p);
    }
}

#[test]
fn alternation_without_an_alternative_before_it_is_refused() {
    assert_eq!(ask("_", "|a"), Err(CompileError::DanglingQuantifier));
    assert_eq!(ask("_", "a||b"), Err(CompileError::DanglingQuantifier));
}

#[test]
fn trailing_alternation_is_refused() {
    for p in ["|", "a|", "a*|", "a?|", "a+|", "(a|", "a||"] {
        assert_eq!(ask("_", p), Err(CompileError::TrailingAlternation), "{}", p);
    }
}

#[test]
fn unbalanced_group_is_refused() {
    for p in [")", "a)", "(a))", "(", "(a", "((a)", "a(b", "()("] {
        assert_eq!(ask("_", p), Err(CompileError::UnbalancedGroup), "{}", p);
    }
}

#[test]
fn the_first_fault_decides() {
    assert_eq!(ask("_", ")*"), Err(CompileError::UnbalancedGroup));
    assert_eq!(ask("_", "**)"), Err(CompileError::DanglingQuantifier));
    assert_eq!(ask("_", "(a|"), Err(CompileError::TrailingAlternation));
    assert_eq!(ask("_", "(*|"), Err(CompileError::DanglingQuantifier));
}

#[test]
fn error_messages() {
    assert_eq!(
        CompileError::EmptyPattern.message(),
        "Invalid regex, compilation failed. Empty patterns are not allowed"
    );
    assert_eq!(
        CompileError::DanglingQuantifier.message(),
        "Invalid regex, compilation failed. Invalid regex pattern"
    );
    assert_eq!(
        CompileError::TrailingAlternation.message(),
        "Invalid regex, compilation failed. Invalid regex pattern"
    );
    assert_eq!(
        CompileError::UnbalancedGroup.message(),
        "Invalid regex, compilation failed. Unbalanced group"
    );
}

#[test]
fn graph_of_a_single_literal() {
    let regex = Regex::compile("a").unwrap();
    assert_eq!(regex.states.len(), 3);
    assert!(matches!(regex.states[0].t, Type::Begin));
    assert!(matches!(regex.states[1].t, Type::Literal(97)));
    assert!(matches!(regex.states[2].t, Type::Match));
    assert_eq!(edges(&regex, 0), vec![1]);
    assert_eq!(edges(&regex, 1), vec![2]);
    assert_eq!(edges(&regex, 2), Vec::<usize>::new());
    for (index, state) in regex.states.iter().enumerate() {
        assert_eq!(state.id, index);
    }
    assert_eq!(regex.ptr, 0);
    assert!(regex.anchors.is_empty());
    assert!(regex.groups.is_empty());
    assert_eq!(regex.next_states, vec![0]);
}

#[test]
fn graph_of_each_quantifier() {
    let star = Regex::compile("a*b").unwrap();
    assert_eq!(edges(&star, 0), vec![1, 2]);
    assert_eq!(edges(&star, 1), vec![1, 2]);
    assert_eq!(edges(&star, 2), vec![3]);

    let plus = Regex::compile("a+b").unwrap();
    assert_eq!(edges(&plus, 0), vec![1]);
    assert_eq!(edges(&plus, 1), vec![1, 2]);
    assert_eq!(edges(&plus, 2), vec![3]);

    let optional = Regex::compile("a?b").unwrap();
    assert_eq!(edges(&optional, 0), vec![1, 2]);
    assert_eq!(edges(&optional, 1), vec![2]);
    assert_eq!(edges(&optional, 2), vec![3]);

    let plain = Regex::compile("ab").unwrap();
    assert_eq!(edges(&plain, 0), vec![1]);
    assert_eq!(edges(&plain, 1), vec![2]);
    assert_eq!(edges(&plain, 2), vec![3]);
}

#[test]
fn graph_of_dot_star() {
    let regex = Regex::compile(".*").unwrap();
    assert_eq!(regex.states.len(), 3);
    assert!(matches!(regex.states[1].t, Type::Literal(WILDCARD)));
    assert_eq!(edges(&regex, 0), vec![1, 2]);
    assert_eq!(edges(&regex, 1), vec![1, 2]);
    assert_eq!(edges(&regex, 2), Vec::<usize>::new());
}

#[test]
fn graph_of_a_group_with_alternatives() {
    let regex = Regex::compile("c(ab|xy)+d").unwrap();
    assert_eq!(regex.states.len(), 8);
    assert_eq!(edges(&regex, 0), vec![1]);
    assert_eq!(edges(&regex, 1), vec![2, 4]);
    assert_eq!(edges(&regex, 2), vec![3]);
    assert_eq!(edges(&regex, 3), vec![2, 4, 6]);
    assert_eq!(edges(&regex, 4), vec![5]);
    assert_eq!(edges(&regex, 5), vec![2, 4, 6]);
    assert_eq!(edges(&regex, 6), vec![7]);
    assert!(matches!(regex.states[7].t, Type::Match));
}

#[test]
fn graph_of_a_skippable_group() {
    let regex = Regex::compile("c(ab)*d").unwrap();
    assert_eq!(edges(&regex, 1), vec![2, 4]);
    assert_eq!(edges(&regex, 2), vec![3]);
    assert_eq!(edges(&regex, 3), vec![2, 4]);
    assert_eq!(edges(&regex, 4), vec![5]);
}

#[test]
fn graph_of_top_level_alternation() {
    let regex = Regex::compile("a|b").unwrap();
    assert_eq!(edges(&regex, 0), vec![1, 2]);
    assert_eq!(edges(&regex, 1), vec![3]);
    assert_eq!(edges(&regex, 2), vec![3]);
    assert!(matches!(regex.states[3].t, Type::Match));
}

#[test]
fn targets_are_listed_in_the_order_they_were_added() {
    let regex = Regex::compile("(a(b)+)+").unwrap();
    assert_eq!(regex.states[0].transitions, vec![1]);
    assert_eq!(regex.states[1].transitions, vec![2]);
    assert_eq!(regex.states[2].transitions, vec![2, 1, 3]);
    assert!(regex.states[3].transitions.is_empty());
    let twice = Regex::compile("(a(b)+)+").unwrap();
    for state in 0..regex.states.len() {
        assert_eq!(regex.states[state].transitions, twice.states[state].transitions);
        assert_eq!(regex.states[state].id, twice.states[state].id);
    }
}

#[test]
fn anchors_keep_their_order() {
    let mut regex = Regex::new();
    let mut chars = Scanner::new("a?b*c");
    chars.next();
    regex.handle_literal(State::new(1, Type::Literal(97), vec![]), &mut chars);
    assert_eq!(regex.anchors, vec![0, 1]);
    chars.next();
    regex.handle_literal(State::new(2, Type::Literal(98), vec![]), &mut chars);
    assert_eq!(regex.anchors, vec![0, 1, 2]);
    assert_eq!(regex.states[0].transitions, vec![1, 2]);
    assert_eq!(regex.states[1].transitions, vec![2]);
    assert_eq!(regex.states[2].transitions, vec![2]);
    chars.next();
    regex.handle_literal(State::new(3, Type::Literal(99), vec![]), &mut chars);
    assert_eq!(regex.anchors, vec![3]);
    assert_eq!(regex.states[0].transitions, vec![1, 2, 3]);
    assert_eq!(regex.states[2].transitions, vec![2, 3]);
}

#[test]
fn compiling_twice_gives_the_same_graph() {
    let first = Regex::compile("c(az|bc*y)+d*a").unwrap();
    let second = Regex::compile("c(az|bc*y)+d*a").unwrap();
    assert_eq!(first.states.len(), second.states.len());
    for state in 0..first.states.len() {
        assert_eq!(edges(&first, state), edges(&second, state));
        assert_eq!(format!("{:?}", first.states[state].t), format!("{:?}", second.states[state].t));
    }
}

#[test]
fn a_compiled_pattern_can_be_matched_again_and_again() {
    let mut regex = Regex::compile("a+b?xc*d").unwrap();
    let before = format!("{:?}", regex.states);
    for _ in 0..3 {
        assert!(regex.matches(HayStack::new("aaaaxd")));
        assert!(!regex.matches(HayStack::new("xd")));
        assert!(regex.matches(HayStack::new("abxccd")));
        assert!(!regex.matches(HayStack::new("")));
    }
    assert_eq!(format!("{:?}", regex.states), before);
}

#[test]
fn the_frontier_lists_each_state_once() {
    let mut regex = Regex::compile("(a|a|a)+a*a?").unwrap();
    assert!(regex.matches(HayStack::new("aaaaaaaaaaaaaaaaaaaaaaaaaaaaaaaaaaaaaaaa")));
    let mut seen = regex.next_states.clone();
    seen.sort();
    seen.dedup();
    assert_eq!(seen.len(), regex.next_states.len());
    assert!(regex.next_states.len() < regex.states.len());
}

#[test]
fn matching_leaves_the_frontier_of_the_last_character() {
    let mut regex = Regex::compile("a*b").unwrap();
    assert!(!regex.matches(HayStack::new("aa")));
    assert_eq!(regex.next_states, vec![1]);
    assert!(regex.matches(HayStack::new("aab")));
    assert_eq!(regex.next_states, vec![2]);
    assert!(!regex.matches(HayStack::new("aabx")));
    assert!(regex.next_states.is_empty());
    assert!(!regex.matches(HayStack::new("")));
    assert_eq!(regex.next_states, vec![0]);
}

#[test]
fn matching_starts_where_the_haystack_stands() {
    let mut regex = Regex::compile("bc").unwrap();
    let mut haystack = HayStack::new("abc");
    assert_eq!(haystack.get_char(), Some('a'));
    assert!(regex.matches(haystack));
}

#[test]
fn found_match_looks_one_edge_ahead() {
    let mut regex = Regex::compile("ab").unwrap();
    assert!(!regex.found_match());
    regex.next_states = vec![2];
    assert!(regex.found_match());
    regex.next_states = vec![0, 1];
    assert!(!regex.found_match());
    regex.next_states = vec![];
    assert!(!regex.found_match());
}

#[test]
fn step_tests_one_target() {
    let regex = Regex::compile("a.").unwrap();
    let mut live = Vec::new();
    regex.step(1, 'b', &mut live);
    assert_eq!(live, Vec::<usize>::new());
    regex.step(1, 'a', &mut live);
    assert_eq!(live, vec![1]);
    regex.step(1, 'a', &mut live);
    assert_eq!(live, vec![1]);
    regex.step(2, 'z', &mut live);
    assert_eq!(live, vec![1, 2]);
    regex.step(0, 'a', &mut live);
    regex.step(3, 'a', &mut live);
    assert_eq!(live, vec![1, 2]);
}

#[test]
fn step_on_a_class() {
    let mut regex = Regex::compile("a").unwrap();
    regex.states[1].t = Type::LiteralClass(vec![120, 121]);
    let mut live = Vec::new();
    regex.step(1, 'a', &mut live);
    assert_eq!(live, Vec::<usize>::new());
    regex.step(1, 'y', &mut live);
    assert_eq!(live, vec![1]);
    assert!(regex.matches(HayStack::new("x")));
    assert!(!regex.matches(HayStack::new("z")));
}

#[test]
fn follow_moves_one_state() {
    let regex = Regex::compile("a*b").unwrap();
    let mut live = vec![2];
    regex.follow(1, 'a', &mut live);
    assert_eq!(live, vec![2, 1]);
    let mut live = Vec::new();
    regex.follow(0, 'b', &mut live);
    assert_eq!(live, vec![2]);
    let mut live = Vec::new();
    regex.follow(2, 'b', &mut live);
    assert_eq!(live, Vec::<usize>::new());
}

#[test]
fn get_next_state_takes_the_last() {
    let mut regex = Regex::compile("a").unwrap();
    regex.next_states = vec![0, 1];
    assert_eq!(regex.get_next_state(), Some(1));
    assert_eq!(regex.get_next_state(), Some(0));
    assert_eq!(regex.get_next_state(), None);
    assert_eq!(regex.get_next_state(), None);
}

#[test]
fn character_codes() {
    assert_eq!(code_of('a'), 97);
    assert_eq!(code_of('\u{0}'), 0);
    assert_eq!(code_of('\u{100}'), 0x100);
    assert_eq!(code_of('\u{FFFF}'), 0xFFFF);
    assert_eq!(code_of('\u{10061}'), 0x10061);
    assert_eq!(code_of('\u{10FFFF}'), 0x10FFFF);
    assert_eq!(WILDCARD, 0x110000);
}

#[test]
fn a_literal_matches_its_own_character_alone() {
    assert_eq!(ask("b", "\u{100}"), Ok(false));
    assert_eq!(ask("\u{100}", "\u{100}"), Ok(true));
    assert_eq!(ask("\u{10061}", "a"), Ok(false));
    assert_eq!(ask("\u{10061}", "\u{10061}"), Ok(true));
    assert_eq!(ask("\u{10061}", "."), Ok(true));
    assert_eq!(ask("\u{100}", "."), Ok(true));
}

#[test]
fn haystack_is_read_in_order() {
    let mut haystack = HayStack::new("héy");
    assert_eq!(haystack.s, vec!['h', 'é', 'y']);
    assert_eq!(haystack.ptr, 0);
    assert_eq!(haystack.get_char(), Some('h'));
    assert_eq!(haystack.get_char(), Some('é'));
    assert_eq!(haystack.ptr, 2);
    assert_eq!(haystack.get_char(), Some('y'));
    assert_eq!(haystack.get_char(), None);
    assert_eq!(haystack.get_char(), None);
    assert_eq!(haystack.ptr, 3);
    let mut empty = HayStack::new("");
    assert_eq!(empty.get_char(), None);
}

#[test]
fn scanner_looks_one_character_ahead() {
    let mut scanner = Scanner::new("ab");
    assert_eq!(scanner.previous(), None);
    assert_eq!(scanner.peek(), Some('a'));
    assert_eq!(scanner.next(), Some('a'));
    assert_eq!(scanner.previous(), Some('a'));
    assert_eq!(scanner.peek(), Some('b'));
    assert_eq!(scanner.next(), Some('b'));
    assert_eq!(scanner.peek(), None);
    assert_eq!(scanner.next(), None);
    assert_eq!(scanner.previous(), Some('b'));
    assert_eq!(scanner.pos, 2);
}

#[test]
fn state_lists_each_target_once() {
    let mut state = State::new(4, Type::Literal(97), vec![]);
    assert_eq!(state.id, 4);
    state.push_to_transitions(5);
    state.push_to_transitions(4);
    state.push_to_transitions(5);
    assert_eq!(state.transitions, vec![5, 4]);
    let kept = State::new(0, Type::Begin, vec![3, 1]);
    assert_eq!(kept.transitions, vec![3, 1]);
}

#[test]
fn index_lists() {
    let mut list = vec![3, 1];
    assert!(contains_index(&list, 1));
    assert!(!contains_index(&list, 2));
    insert_index(&mut list, 1);
    insert_index(&mut list, 2);
    assert_eq!(list, vec![3, 1, 2]);
    insert_indices(&mut list, &vec![2, 5, 3, 5, 0]);
    assert_eq!(list, vec![3, 1, 2, 5, 0]);
}

#[test]
fn quantifiers_are_read_from_the_next_character() {
    assert_eq!(quantifier_of_atom(Some('*')), Quantifier::ZeroOrMore);
    assert_eq!(quantifier_of_atom(Some('?')), Quantifier::ZeroOrOne);
    assert_eq!(quantifier_of_atom(Some('+')), Quantifier::OneOrMore);
    assert_eq!(quantifier_of_atom(Some('a')), Quantifier::One);
    assert_eq!(quantifier_of_atom(None), Quantifier::One);
    assert_eq!(quantifier_of_group(Some('*')), Quantifier::ZeroOrMore);
    assert_eq!(quantifier_of_group(Some('?')), Quantifier::ZeroOrMore);
    assert_eq!(quantifier_of_group(Some('+')), Quantifier::OneOrMore);
    assert_eq!(quantifier_of_group(Some(')')), Quantifier::One);
    assert_eq!(quantifier_of_group(None), Quantifier::One);
}

#[test]
fn compiling_step_by_step() {
    let mut regex = Regex::new();
    assert_eq!(regex.states.len(), 1);
    assert_eq!(regex.anchors, vec![0]);
    assert_eq!(regex.groups.len(), 1);

    let mut chars = Scanner::new("a*(b|c)+");
    assert_eq!(chars.next(), Some('a'));
    let more = regex.handle_literal(State::new(1, Type::Literal(97), vec![]), &mut chars);
    assert!(more);
    assert_eq!(chars.pos, 2);
    assert_eq!(regex.ptr, 1);
    assert_eq!(regex.anchors, vec![0, 1]);
    assert_eq!(edges(&regex, 0), vec![1]);
    assert_eq!(edges(&regex, 1), vec![1]);

    assert_eq!(chars.next(), Some('('));
    regex.open_group();
    assert_eq!(regex.groups.len(), 2);
    assert_eq!(regex.groups[1].group_anchors, vec![0, 1]);
    assert_eq!(regex.groups[1].starts, vec![2]);
    assert!(regex.groups[1].ends.is_empty());

    assert_eq!(chars.next(), Some('b'));
    assert!(regex.handle_literal(State::new(2, Type::Literal(98), vec![]), &mut chars));
    assert_eq!(chars.pos, 4);
    assert_eq!(regex.anchors, vec![2]);

    assert_eq!(chars.next(), Some('|'));
    regex.alternate();
    assert_eq!(regex.anchors, vec![0, 1]);
    assert_eq!(regex.groups[1].starts, vec![2, 3]);
    assert_eq!(regex.groups[1].ends, vec![2]);

    assert_eq!(chars.next(), Some('c'));
    assert!(regex.handle_literal(State::new(3, Type::Literal(99), vec![]), &mut chars));
    assert_eq!(regex.anchors, vec![3]);

    assert_eq!(chars.next(), Some(')'));
    let more = regex.handle_close_group(&mut chars);
    assert!(more);
    assert_eq!(chars.pos, 8);
    assert_eq!(regex.groups.len(), 1);
    assert_eq!(regex.anchors, vec![2, 3]);
    assert_eq!(edges(&regex, 0), vec![1, 2, 3]);
    assert_eq!(edges(&regex, 1), vec![1, 2, 3]);
    assert_eq!(edges(&regex, 2), vec![2, 3]);
    assert_eq!(edges(&regex, 3), vec![2, 3]);

    assert_eq!(regex.finish_regex(), Ok(()));
    assert_eq!(regex.states.len(), 5);
    assert_eq!(edges(&regex, 2), vec![2, 3, 4]);
    assert_eq!(edges(&regex, 3), vec![2, 3, 4]);
    assert!(regex.anchors.is_empty());
    assert!(regex.groups.is_empty());
    assert!(regex.matches(HayStack::new("aabcb")));
    assert!(!regex.matches(HayStack::new("aa")));
}

#[test]
fn a_literal_at_the_end_of_the_pattern() {
    let mut regex = Regex::new();
    let mut chars = Scanner::new("a");
    assert_eq!(chars.next(), Some('a'));
    let more = regex.handle_literal(State::new(1, Type::Literal(97), vec![]), &mut chars);
    assert!(!more);
    assert_eq!(chars.pos, 1);
    assert_eq!(regex.anchors, vec![1]);
}

#[test]
fn finishing_with_an_open_group_changes_nothing() {
    let mut regex = Regex::new();
    regex.open_group();
    let before = format!("{:?}", regex);
    assert_eq!(regex.finish_regex(), Err(CompileError::UnbalancedGroup));
    assert_eq!(format!("{:?}", regex), before);
}

#[test]
fn connecting_anchors_and_ends() {
    let mut regex = Regex::new();
    regex.update_previous_nodes(1);
    regex.update_previous_nodes(1);
    assert_eq!(edges(&regex, 0), vec![1]);
    regex.groups[0].ends = vec![0];
    regex.update_ends(1);
    assert!(regex.groups.is_empty());
    assert_eq!(edges(&regex, 0), vec![1]);
}

#[test]
fn quantify_wires_an_item() {
    let mut regex = Regex::new();
    let mut chars = Scanner::new("ab");
    chars.next();
    regex.handle_literal(State::new(1, Type::Literal(97), vec![]), &mut chars);
    chars.next();
    regex.handle_literal(State::new(2, Type::Literal(98), vec![]), &mut chars);
    regex.quantify(vec![0], vec![1], vec![2], Quantifier::ZeroOrMore);
    assert_eq!(edges(&regex, 2), vec![1]);
    assert_eq!(regex.anchors, vec![0, 2]);
    regex.quantify(vec![0], vec![1], vec![2], Quantifier::One);
    assert_eq!(regex.anchors, vec![2]);
    regex.quantify(vec![0], vec![2], vec![1], Quantifier::ZeroOrOne);
    assert_eq!(edges(&regex, 1), vec![2]);
    assert_eq!(regex.anchors, vec![0, 1]);
    regex.quantify(vec![0], vec![2], vec![1], Quantifier::OneOrMore);
    assert_eq!(edges(&regex, 1), vec![2]);
    assert_eq!(regex.anchors, vec![1]);
}
