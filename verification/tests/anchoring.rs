use grep_rustico::anchoring::Anchoring;
use grep_rustico::regex_rep::RegexRep;
use grep_rustico::regex_step::RegexStep;
use grep_rustico::regex_value::RegexValue;

fn anchored(start: bool, end: bool) -> Anchoring {
    let mut anchoring = Anchoring::new();
    if start {
        anchoring.update_anchoring('^');
    }
    if end {
        anchoring.update_anchoring('$');
    }
    anchoring
}

#[test]
fn test_update_anchoring_start() {
    let mut anchoring = Anchoring::new();
    anchoring.update_anchoring('^');
    assert_eq!(anchoring.get_anchoring_start(), true);
    assert_eq!(anchoring.get_anchoring_end(), false);
}

#[test]
fn test_update_anchoring_end() {
    let mut anchoring = Anchoring::new();
    anchoring.update_anchoring('$');
    assert_eq!(anchoring.get_anchoring_start(), false);
    assert_eq!(anchoring.get_anchoring_end(), true);
}

#[test]
fn test_match_anchoring_start() {
    let anchoring = anchored(true, false);
    let steps = vec![
        RegexStep {
            rep: RegexRep::Exact(1),
            val: RegexValue::Literal('m'),
        },
        RegexStep {
            rep: RegexRep::Exact(1),
            val: RegexValue::Literal('a'),
        },
        RegexStep {
            rep: RegexRep::Exact(1),
            val: RegexValue::Literal('t'),
        },
        RegexStep {
            rep: RegexRep::Exact(1),
            val: RegexValue::Literal('i'),
        },
    ];
    assert_eq!(anchoring.matches_anchoring(&steps, "mati"), true);
}

#[test]
fn test_match_anchoring_start_false() {
    let anchoring = anchored(true, false);
    let steps = vec![
        RegexStep {
            rep: RegexRep::Exact(1),
            val: RegexValue::Literal('m'),
        },
        RegexStep {
            rep: RegexRep::Exact(1),
            val: RegexValue::Literal('a'),
        },
        RegexStep {
            rep: RegexRep::Exact(1),
            val: RegexValue::Literal('t'),
        },
        RegexStep {
            rep: RegexRep::Exact(1),
            val: RegexValue::Literal('i'),
        },
    ];
    assert_eq!(anchoring.matches_anchoring(&steps, "jhonatan"), false);
}

#[test]
fn test_match_anchoring_end() {
    let anchoring = anchored(false, true);
    let steps = vec![
        RegexStep {
            rep: RegexRep::Exact(1),
            val: RegexValue::Literal('m'),
        },
        RegexStep {
            rep: RegexRep::Exact(1),
            val: RegexValue::Literal('a'),
        },
        RegexStep {
            rep: RegexRep::Exact(1),
            val: RegexValue::Literal('t'),
        },
        RegexStep {
            rep: RegexRep::Exact(1),
            val: RegexValue::Literal('i'),
        },
    ];
    assert_eq!(anchoring.matches_anchoring(&steps, "mati"), true);
}

#[test]
fn test_match_anchoring_end_false() {
    let anchoring = anchored(false, true);
    let steps = vec![
        RegexStep {
            rep: RegexRep::Exact(1),
            val: RegexValue::Literal('m'),
        },
        RegexStep {
            rep: RegexRep::Exact(1),
            val: RegexValue::Literal('a'),
        },
        RegexStep {
            rep: RegexRep::Exact(1),
            val: RegexValue::Literal('t'),
        },
        RegexStep {
            rep: RegexRep::Exact(1),
            val: RegexValue::Literal('i'),
        },
    ];
    assert_eq!(anchoring.matches_anchoring(&steps, "jhonatan"), false);
}

#[test]
fn test_match_anchoring_both() {
    let anchoring = anchored(true, true);
    let steps = vec![
        RegexStep {
            rep: RegexRep::Exact(1),
            val: RegexValue::Literal('m'),
        },
        RegexStep {
            rep: RegexRep::Exact(1),
            val: RegexValue::Literal('a'),
        },
        RegexStep {
            rep: RegexRep::Exact(1),
            val: RegexValue::Literal('t'),
        },
        RegexStep {
            rep: RegexRep::Exact(1),
            val: RegexValue::Literal('i'),
        },
    ];
    assert_eq!(anchoring.matches_anchoring(&steps, "mati"), true);
}

#[test]
fn test_match_anchoring_both_false() {
    let anchoring = anchored(true, true);
    let steps = vec![
        RegexStep {
            rep: RegexRep::Exact(1),
            val: RegexValue::Literal('m'),
        },
        RegexStep {
            rep: RegexRep::Exact(1),
            val: RegexValue::Literal('a'),
        },
        RegexStep {
            rep: RegexRep::Exact(1),
            val: RegexValue::Literal('t'),
        },
        RegexStep {
            rep: RegexRep::Exact(1),
            val: RegexValue::Literal('i'),
        },
    ];
    assert_eq!(anchoring.matches_anchoring(&steps, "jhonatan"), false);
}

#[test]
fn test_match_anchoring_none() {
    let anchoring = anchored(false, false);
    let steps = vec![
        RegexStep {
            rep: RegexRep::Exact(1),
            val: RegexValue::Literal('m'),
        },
        RegexStep {
            rep: RegexRep::Exact(1),
            val: RegexValue::Literal('a'),
        },
        RegexStep {
            rep: RegexRep::Exact(1),
            val: RegexValue::Literal('t'),
        },
        RegexStep {
            rep: RegexRep::Exact(1),
            val: RegexValue::Literal('i'),
        },
    ];
    assert_eq!(anchoring.matches_anchoring(&steps, "mati"), false);
}
