use std::collections::VecDeque;

use grep_rustico::anchoring::Anchoring;
use grep_rustico::bracket_expression::{parse_count, BracketExpression};
use grep_rustico::char_cursor::{chars_of, same_text, CharCursor};
use grep_rustico::character_class::CharacterClass;
use grep_rustico::evaluated_step::EvaluatedStep;
use grep_rustico::grep_error::GrepError;
use grep_rustico::regex_clase::RegexClase;
use grep_rustico::regex_rep::RegexRep;
use grep_rustico::regex_step::RegexStep;
use grep_rustico::regex_value::RegexValue;

fn literal(c: char) -> RegexStep {
    RegexStep { val: RegexValue::Literal(c), rep: RegexRep::Exact(1) }
}

fn entry(c: char, match_size: usize, backtrackeable: bool) -> EvaluatedStep {
    EvaluatedStep { step: literal(c), match_size, backtrackeable }
}

fn letters(steps: &VecDeque<RegexStep>) -> Vec<char> {
    steps
        .iter()
        .map(|step| match step.val {
            RegexValue::Literal(c) => c,
            _ => '?',
        })
        .collect()
}

fn rest_of(cursor: &mut CharCursor) -> String {
    let mut rest = String::new();
    while let Some(c) = cursor.next() {
        rest.push(c);
    }
    rest
}

#[test]
fn backtrack_without_history_requeues_the_step() {
    let mut evaluated: Vec<EvaluatedStep> = Vec::new();
    let mut next: VecDeque<RegexStep> = VecDeque::new();
    next.push_back(literal('z'));
    let back = EvaluatedStep::backtrack(literal('c'), &mut evaluated, &mut next);
    assert_eq!(back, None);
    assert!(evaluated.is_empty());
    assert_eq!(letters(&next), vec!['c', 'z']);
}

#[test]
fn backtrack_stops_at_the_topmost_backtrackable_entry() {
    let mut evaluated = vec![
        entry('a', 1, false),
        entry('b', 3, true),
        entry('c', 2, true),
        entry('d', 1, false),
        entry('e', 4, false),
    ];
    let mut next: VecDeque<RegexStep> = VecDeque::new();
    next.push_back(literal('z'));
    let back = EvaluatedStep::backtrack(literal('f'), &mut evaluated, &mut next);
    assert_eq!(back, Some(7));
    assert_eq!(evaluated.len(), 2);
    assert_eq!(evaluated[1].match_size, 3);
    assert_eq!(letters(&next), vec!['d', 'e', 'f', 'z']);
}

#[test]
fn backtrack_into_the_top_entry_requeues_the_step_only() {
    let mut evaluated = vec![entry('a', 5, true), entry('b', 0, true)];
    let mut next: VecDeque<RegexStep> = VecDeque::new();
    let back = EvaluatedStep::backtrack(literal('c'), &mut evaluated, &mut next);
    assert_eq!(back, Some(0));
    assert_eq!(evaluated.len(), 1);
    assert_eq!(letters(&next), vec!['c']);
}

#[test]
fn backtrack_through_a_history_without_choice_empties_it() {
    let mut evaluated = vec![entry('a', 1, false), entry('b', 2, false)];
    let mut next: VecDeque<RegexStep> = VecDeque::new();
    next.push_back(literal('z'));
    let back = EvaluatedStep::backtrack(literal('c'), &mut evaluated, &mut next);
    assert_eq!(back, None);
    assert!(evaluated.is_empty());
    assert_eq!(letters(&next), vec!['a', 'b', 'c', 'z']);
}

#[test]
fn scanning_counts_index_and_width() {
    assert_eq!(RegexValue::Literal('c').matches("abc"), 3);
    assert_eq!(RegexValue::Literal('a').matches("bab"), 2);
    assert_eq!(RegexValue::Literal('a').matches(""), 0);
    assert_eq!(RegexValue::Literal('é').matches("aé"), 3);
    assert_eq!(RegexValue::Wildcard.matches("éa"), 2);
    assert_eq!(RegexValue::Wildcard.matches("\u{10000}"), 4);
    assert_eq!(RegexValue::Wildcard.matches("\u{800}"), 3);
    assert_eq!(RegexValue::Clase(RegexClase::Digit).matches("ab7"), 3);
    assert_eq!(RegexValue::Clase(RegexClase::Custom(vec!['x'], true)).matches("xxy"), 3);
}

#[test]
fn exact_comparison_looks_at_the_first_character_only() {
    assert_eq!(RegexValue::Literal('b').is_same("ab"), 0);
    assert_eq!(RegexValue::Literal('é').is_same("éa"), 2);
    assert_eq!(RegexValue::Literal('\u{7ff}').is_same("\u{7ff}"), 2);
    assert_eq!(RegexValue::Literal('\u{ffff}').is_same("\u{ffff}"), 3);
    assert_eq!(RegexValue::Clase(RegexClase::Digit).is_same("a7"), 0);
    assert_eq!(RegexValue::Clase(RegexClase::Digit).is_same(""), 0);
    assert_eq!(RegexValue::Clase(RegexClase::Custom(vec![], true)).is_same("z"), 1);
}

#[test]
fn class_boundaries() {
    for c in ['!', '/', ':', '@', '[', '`', '{', '~'] {
        assert!(RegexClase::Punct.validar_caracter(c));
        assert!(CharacterClass::Punct.valid_character(c));
    }
    for c in [' ', '0', '9', 'A', 'Z', 'a', 'z', '\u{7f}', 'é'] {
        assert!(!RegexClase::Punct.validar_caracter(c));
        assert!(!CharacterClass::Punct.valid_character(c));
    }
    for c in [' ', '\t', '\n', '\u{c}', '\r'] {
        assert!(RegexClase::Space.validar_caracter(c));
        assert!(CharacterClass::Space.valid_character(c));
    }
    assert!(!RegexClase::Space.validar_caracter('\u{b}'));
    assert!(!RegexClase::Alpha.validar_caracter('é'));
    assert!(!RegexClase::AlNum.validar_caracter('_'));
    assert!(RegexClase::Custom(vec!['a'], true).validar_caracter('b'));
    assert!(!RegexClase::Custom(vec![], false).validar_caracter('b'));
    assert!(CharacterClass::Custom(vec![], true).valid_character('b'));
}

#[test]
fn class_keeps_its_meaning_when_converted() {
    let listed = CharacterClass::Custom(vec!['x', 'y'], true).to_regex_clase();
    assert_eq!(listed, RegexClase::Custom(vec!['x', 'y'], true));
    assert_eq!(CharacterClass::Upper.to_regex_clase(), RegexClase::Upper);
    assert_eq!(CharacterClass::from_name(&chars_of("[:digit:]")), Some(CharacterClass::Digit));
    assert_eq!(CharacterClass::from_name(&chars_of("[:digit:")), None);
    assert_eq!(CharacterClass::from_name(&chars_of("digit")), None);
}

#[test]
fn named_class_reader_reads_through_both_brackets() {
    let mut cursor = CharCursor::new("[:alpha:]]rest");
    let value = CharacterClass::read_character_class(&mut cursor);
    assert_eq!(value, Ok(RegexValue::Clase(RegexClase::Alpha)));
    assert_eq!(rest_of(&mut cursor), "rest");

    let mut cursor = CharCursor::new("[:space:]]");
    let value = RegexClase::read_character_class(&mut cursor);
    assert_eq!(value, Ok(RegexValue::Clase(RegexClase::Space)));
    assert_eq!(rest_of(&mut cursor), "");

    let mut cursor = CharCursor::new("[:alpha:]xrest");
    assert_eq!(CharacterClass::read_character_class(&mut cursor), Err(GrepError::ErrRegex));
    assert_eq!(rest_of(&mut cursor), "rest");

    let mut cursor = CharCursor::new("[:nada:]]rest");
    assert_eq!(CharacterClass::read_character_class(&mut cursor), Err(GrepError::ErrRegex));
    assert_eq!(rest_of(&mut cursor), "rest");

    let mut cursor = CharCursor::new("[:alpha:");
    assert_eq!(CharacterClass::read_character_class(&mut cursor), Err(GrepError::ErrRegex));
    assert_eq!(rest_of(&mut cursor), "");
}

#[test]
fn bracket_reader_stops_behind_the_closing_bracket() {
    let mut cursor = CharCursor::new("aeiou]rest");
    let value = BracketExpression::read_bracket_expression(&mut cursor);
    assert_eq!(
        value,
        Ok(RegexValue::Clase(RegexClase::Custom(vec!['a', 'e', 'i', 'o', 'u'], false)))
    );
    assert_eq!(rest_of(&mut cursor), "rest");

    let mut cursor = CharCursor::new("^a^]]");
    let value = BracketExpression::read_bracket_expression(&mut cursor);
    assert_eq!(value, Ok(RegexValue::Clase(RegexClase::Custom(vec!['a', '^'], true))));
    assert_eq!(rest_of(&mut cursor), "]");

    let mut cursor = CharCursor::new("^abc");
    let value = BracketExpression::read_bracket_expression(&mut cursor);
    assert_eq!(value, Err(GrepError::ErrRegex));
    assert_eq!(rest_of(&mut cursor), "");
}

#[test]
fn count_reader_sets_the_last_step_only() {
    let mut steps = vec![literal('a'), literal('b')];
    let mut cursor = CharCursor::new("2,5}rest");
    let done = BracketExpression::read_bracket_expression_c(&mut cursor, &mut steps);
    assert_eq!(done, Ok(()));
    assert_eq!(steps[0].rep, RegexRep::Exact(1));
    assert_eq!(steps[1].rep, RegexRep::Range { min: Some(2), max: Some(5) });
    assert_eq!(rest_of(&mut cursor), "rest");

    let mut cursor = CharCursor::new("007}");
    let done = BracketExpression::read_bracket_expression_c(&mut cursor, &mut steps);
    assert_eq!(done, Ok(()));
    assert_eq!(steps[1].rep, RegexRep::Range { min: Some(7), max: None });

    let mut cursor = CharCursor::new("3,}");
    let done = BracketExpression::read_bracket_expression_c(&mut cursor, &mut steps);
    assert_eq!(done, Ok(()));
    assert_eq!(steps[1].rep, RegexRep::Range { min: Some(3), max: None });

    let mut cursor = CharCursor::new("1,2,3}");
    let done = BracketExpression::read_bracket_expression_c(&mut cursor, &mut steps);
    assert_eq!(done, Ok(()));
    assert_eq!(steps[1].rep, RegexRep::Range { min: Some(1), max: Some(23) });
}

#[test]
fn count_reader_leaves_the_steps_on_failure() {
    let mut steps = vec![literal('a')];
    for text in [",5}", "}", "2x}", "2", "2,", "99999999999999999999999999999999999999999}"] {
        let mut cursor = CharCursor::new(text);
        let done = BracketExpression::read_bracket_expression_c(&mut cursor, &mut steps);
        assert_eq!(done, Err(GrepError::ErrRegex));
        assert_eq!(steps[0].rep, RegexRep::Exact(1));
    }
    let mut cursor = CharCursor::new("2x}rest");
    let _ = BracketExpression::read_bracket_expression_c(&mut cursor, &mut steps);
    assert_eq!(rest_of(&mut cursor), "}rest");

    let mut none: Vec<RegexStep> = Vec::new();
    let mut cursor = CharCursor::new("2}rest");
    let done = BracketExpression::read_bracket_expression_c(&mut cursor, &mut none);
    assert_eq!(done, Err(GrepError::ErrRegex));
    assert_eq!(rest_of(&mut cursor), "rest");
}

#[test]
fn counts_are_read_in_base_ten() {
    assert_eq!(parse_count(&chars_of("0")), Some(0));
    assert_eq!(parse_count(&chars_of("0012")), Some(12));
    assert_eq!(parse_count(&chars_of("907")), Some(907));
    assert_eq!(parse_count(&chars_of("")), None);
    assert_eq!(parse_count(&chars_of("12a")), None);
    assert_eq!(parse_count(&chars_of("+12")), None);
    assert_eq!(parse_count(&chars_of(&usize::MAX.to_string())), Some(usize::MAX));
    let mut above = usize::MAX.to_string();
    above.push('0');
    assert_eq!(parse_count(&chars_of(&above)), None);
}

#[test]
fn cursor_reads_and_looks_ahead() {
    let mut cursor = CharCursor::new("añb");
    assert_eq!(cursor.peek(0), Some('a'));
    assert_eq!(cursor.peek(1), Some('ñ'));
    assert_eq!(cursor.peek(2), Some('b'));
    assert_eq!(cursor.peek(3), None);
    assert_eq!(cursor.peek(usize::MAX), None);
    assert_eq!(cursor.next(), Some('a'));
    assert_eq!(cursor.peek(0), Some('ñ'));
    assert_eq!(cursor.next(), Some('ñ'));
    assert_eq!(cursor.next(), Some('b'));
    assert_eq!(cursor.next(), None);
    assert_eq!(cursor.next(), None);
    assert_eq!(cursor.peek(0), None);
    let mut other = CharCursor::from_chars(vec!['x']);
    assert_eq!(other.next(), Some('x'));
    assert_eq!(other.next(), None);
}

#[test]
fn texts_are_compared_character_by_character() {
    assert!(same_text(&chars_of("añb"), "añb"));
    assert!(!same_text(&chars_of("añb"), "añ"));
    assert!(!same_text(&chars_of("añ"), "añb"));
    assert!(!same_text(&chars_of("abc"), "abd"));
    assert!(same_text(&Vec::new(), ""));
}

#[test]
fn other_character_unties_both_anchors() {
    let mut anchoring = Anchoring::new();
    anchoring.update_anchoring('^');
    anchoring.update_anchoring('$');
    assert!(anchoring.get_anchoring_start());
    assert!(anchoring.get_anchoring_end());
    anchoring.update_anchoring('a');
    assert!(!anchoring.get_anchoring_start());
    assert!(!anchoring.get_anchoring_end());
    let fresh = Anchoring::default();
    assert!(!fresh.get_anchoring_start());
    assert!(!fresh.get_anchoring_end());
}

#[test]
fn anchored_comparison_takes_wildcards_as_dots_and_drops_classes() {
    let mut start = Anchoring::new();
    start.update_anchoring('^');
    let mut end = Anchoring::new();
    end.update_anchoring('$');
    let steps = vec![
        literal('a'),
        RegexStep { val: RegexValue::Wildcard, rep: RegexRep::Any },
        RegexStep { val: RegexValue::Clase(RegexClase::Digit), rep: RegexRep::Exact(1) },
        literal('b'),
    ];
    assert!(start.matches_anchoring(&steps, "a.b and more"));
    assert!(!start.matches_anchoring(&steps, "axb and more"));
    assert!(!start.matches_anchoring(&steps, "a.1b"));
    assert!(end.matches_anchoring(&steps, "more and a.b"));
    assert!(!end.matches_anchoring(&steps, "more and a7b"));
    assert!(!start.matches_anchoring(&steps, ""));
    assert!(!end.matches_anchoring(&steps, "b"));
    let none: Vec<RegexStep> = Vec::new();
    assert!(!start.matches_anchoring(&none, "a"));
    assert!(!end.matches_anchoring(&none, "a"));
    let wild_first = vec![RegexStep { val: RegexValue::Wildcard, rep: RegexRep::Exact(1) }];
    assert!(!start.matches_anchoring(&wild_first, ".a"));
    assert!(end.matches_anchoring(&wild_first, "a."));
}
