use grep_rustico::grep_error::GrepError;
use grep_rustico::regex::Regex;

#[test]
fn test_match0() -> Result<(), GrepError> {
    let value = "abcdef";
    let regex = Regex::new("abcd")?;
    let matches: bool = regex.test(value)?;
    assert_eq!(matches, true);

    Ok(())
}

#[test]
fn test_match() -> Result<(), GrepError> {
    let value = "abcdef";
    let regex = Regex::new("ab.*e")?;
    let matches = regex.test(value)?;
    assert_eq!(matches, true);

    Ok(())
}

#[test]
fn test_no_match0() -> Result<(), GrepError> {
    let value = "abcdef";
    let regex = Regex::new("aaaaaa")?;
    let matches = regex.test(value)?;
    assert_eq!(matches, false);

    Ok(())
}

#[test]
fn test_no_match() -> Result<(), GrepError> {
    let value = "abcdef";
    let regex = Regex::new("ab.*h")?;
    let matches = regex.test(value)?;
    assert_eq!(matches, false);

    Ok(())
}

#[test]
fn test_match2() -> Result<(), GrepError> {
    let value = "ab1234cdefg";
    let regex = Regex::new("ab.*c.*f")?;
    let matches = regex.test(value)?;
    assert_eq!(matches, true);

    Ok(())
}

#[test]
fn test_no_match2() -> Result<(), GrepError> {
    let value = "ab1234cdegh";
    let regex = Regex::new("ab.*c.*f")?;
    let matches = regex.test(value)?;
    assert_eq!(matches, false);

    Ok(())
}

#[test]
fn test_match_wildcard() -> Result<(), GrepError> {
    let value = "mati";
    let regex = Regex::new("ma.i")?;
    let matches = regex.test(value)?;
    assert_eq!(matches, true);

    Ok(())
}

#[test]
fn test_match_wildcards() -> Result<(), GrepError> {
    let value = "matttkkiiii";
    let regex = Regex::new("ma........i")?;
    let matches = regex.test(value)?;
    assert_eq!(matches, true);

    Ok(())
}

#[test]
fn test_match_wildcard_false() -> Result<(), GrepError> {
    let value = "matti";
    let regex = Regex::new("ma.i")?;
    let matches = regex.test(value)?;
    assert_eq!(matches, false);

    Ok(())
}

#[test]
fn test_match_wildcards_false() -> Result<(), GrepError> {
    let value = "matii";
    let regex = Regex::new("ma........i")?;
    let matches = regex.test(value)?;
    assert_eq!(matches, false);

    Ok(())
}

#[test]
fn test_is_digit() -> Result<(), GrepError> {
    let value = "1 es un numero";
    let regex = Regex::new("[[:digit:]]")?;

    let matches = regex.test(value)?;
    println!("Resultado de la expresión regular: {}", matches);
    assert_eq!(matches, true);
    Ok(())
}

#[test]
fn test_rep_question_sign() -> Result<(), GrepError> {
    let value = "apple";
    let regex = Regex::new("a?e")?;

    let matches = regex.test(value)?;
    assert_eq!(matches, true);
    Ok(())
}

#[test]
fn test_rep_question_sign_false() -> Result<(), GrepError> {
    let value = "bokit";
    let regex = Regex::new("a?e")?;

    let matches = regex.test(value)?;
    assert_eq!(matches, false);
    Ok(())
}

#[test]
fn test_bracket_expression_c() -> Result<(), GrepError> {
    let value = "maaaaati";
    let regex = Regex::new("ma{5,6}ti")?;

    let matches = regex.test(value)?;
    assert_eq!(matches, true);
    Ok(())
}

#[test]
fn test_bracket_expression_c_false() -> Result<(), GrepError> {
    let value = "mati";
    let regex = Regex::new("ma{5,6}ti")?;

    let matches = regex.test(value)?;
    assert_eq!(matches, false);
    Ok(())
}

#[test]
fn test_bracket_expression() -> Result<(), GrepError> {
    let value = "la a es una vocal";
    let regex = Regex::new("la [aeiou] es una vocal")?;

    let matches = regex.test(value)?;
    assert_eq!(matches, true);
    Ok(())
}

#[test]
fn test_bracket_expression_false() -> Result<(), GrepError> {
    let value = "la f es una vocal";
    let regex = Regex::new("la [aeiou] es una vocal")?;

    let matches = regex.test(value)?;
    assert_eq!(matches, false);
    Ok(())
}

#[test]
fn test_bracket_expression_negated() -> Result<(), GrepError> {
    let value = "la z no es una vocal";
    let regex = Regex::new("la [^aeiou] no es una vocal")?;

    let matches = regex.test(value)?;
    assert_eq!(matches, true);
    Ok(())
}

#[test]
fn test_bracket_or() -> Result<(), GrepError> {
    let value = "abd";
    let regex = Regex::new("a[bc]d")?;

    let matches = regex.test(value)?;
    assert_eq!(matches, true);
    Ok(())
}

#[test]
fn test_bracket_or_false() -> Result<(), GrepError> {
    let value = "ald";
    let regex = Regex::new("a[bc]d")?;

    let matches = regex.test(value)?;
    assert_eq!(matches, false);
    Ok(())
}

#[test]
fn test_character_space() -> Result<(), GrepError> {
    let value = "hola mundo";
    let regex = Regex::new("hola[[:space:]]mundo")?;

    let matches = regex.test(value)?;
    assert_eq!(matches, true);
    Ok(())
}

#[test]
fn test_character_space_false() -> Result<(), GrepError> {
    let value = "holamundo";
    let regex = Regex::new("hola[[:space:]]mundo")?;

    let matches = regex.test(value)?;
    assert_eq!(matches, false);
    Ok(())
}

#[test]
fn test_character_alnum() -> Result<(), GrepError> {
    let value = "el caracter a no es un simbolo";
    let regex = Regex::new("el caracter [[:alnum:]] no es un simbolo")?;

    let matches = regex.test(value)?;
    assert_eq!(matches, true);
    Ok(())
}

#[test]
fn test_character_alnum_false() -> Result<(), GrepError> {
    let value = "el caracter $ no es un simbolo";
    let regex = Regex::new("el caracter [[:alnum:]] no es un simbolo")?;

    let matches = regex.test(value)?;
    assert_eq!(matches, false);
    Ok(())
}

#[test]
fn test_anchoring_start() -> Result<(), GrepError> {
    let value_0 = "start with start";
    let value = "starting";
    let value_1 = "not start with start";
    let value_2 = "end with end";
    let value_3 = "only this line";
    let regex = Regex::new("^start")?;

    let matches = regex.clone().test(value)?;
    let matches_0 = regex.clone().test(value_0)?;
    let matches_1 = regex.clone().test(value_1)?;
    let matches_2 = regex.clone().test(value_2)?;
    let matches_3 = regex.clone().test(value_3)?;

    assert_eq!(matches, true);
    assert_eq!(matches_0, true);
    assert_eq!(matches_1, false);
    assert_eq!(matches_2, false);
    assert_eq!(matches_3, false);

    Ok(())
}

#[test]
fn test_anchoring_start_false() -> Result<(), GrepError> {
    let value = "aguante bokita";
    let regex = Regex::new("^bokita")?;

    let matches = regex.test(value)?;
    assert_eq!(matches, false);
    Ok(())
}

#[test]
fn test_anchoring_end() -> Result<(), GrepError> {
    let value = "aguante bokita";
    let regex = Regex::new("bokita$")?;

    let matches = regex.test(value)?;
    assert_eq!(matches, true);
    Ok(())
}

#[test]
fn test_anchoring_end_false() -> Result<(), GrepError> {
    let value = "matiassss";
    let regex = Regex::new("bokita$")?;

    let matches = regex.test(value)?;
    assert_eq!(matches, false);
    Ok(())
}

#[test]
fn test_catedra_uno() -> Result<(), GrepError> {
    let value_0 = "abcd";
    let value = "abcdd";
    let value_1 = "abccd";
    let value_2 = "hola abcd chau";
    let regex = Regex::new("ab.d")?;

    let matches = regex.clone().test(value)?;
    let matches_0 = regex.clone().test(value_0)?;
    let matches_1 = regex.clone().test(value_1)?;
    let matches_2 = regex.clone().test(value_2)?;

    assert_eq!(matches, true);
    assert_eq!(matches_0, true);
    assert_eq!(matches_1, false);
    assert_eq!(matches_2, true);

    Ok(())
}

#[test]
fn test_catedra_dos() -> Result<(), GrepError> {
    let value_0 = "absalolngopsgdehejsd";
    let value = "abcdd";
    let value_1 = "abd";
    let value_2 = "que tul abuelita dime tu";
    let value_3 = "hola abcd chau";
    let value_4 = "te vamos a bochar";

    let regex = Regex::new("ab.*d")?;

    let matches = regex.clone().test(value)?;
    let matches_0 = regex.clone().test(value_0)?;
    let matches_1 = regex.clone().test(value_1)?;
    let matches_2 = regex.clone().test(value_2)?;
    let matches_3 = regex.clone().test(value_3)?;
    let matches_4 = regex.clone().test(value_4)?;

    assert_eq!(matches, true);
    assert_eq!(matches_0, true);
    assert_eq!(matches_1, true);
    assert_eq!(matches_2, true);
    assert_eq!(matches_3, true);
    assert_eq!(matches_4, false);

    Ok(())
}

#[test]
fn test_catedra_tres() -> Result<(), GrepError> {
    let value_0 = "abcd";
    let value = "abcccd";
    let value_1 = "hola abcccd chau";

    let regex = Regex::new("abc{3}d")?;

    let matches = regex.clone().test(value)?;
    let matches_0 = regex.clone().test(value_0)?;
    let matches_1 = regex.clone().test(value_1)?;

    assert_eq!(matches_0, false);
    assert_eq!(matches, true);
    assert_eq!(matches_1, true);

    Ok(())
}

#[test]
fn test_catedra_cuatro() -> Result<(), GrepError> {
    let value_0 = "abcd abcd";
    let value = "abd abcccd abd";
    let value_1 = "abcccccccd abcd";
    let value_2 = "en medio abccd abd fin";

    let regex = Regex::new("abc{2,5}d abc{0,}d")?;

    let matches = regex.clone().test(value)?;
    let matches_0 = regex.clone().test(value_0)?;
    let matches_1 = regex.clone().test(value_1)?;
    let matches_2 = regex.clone().test(value_2)?;

    assert_eq!(matches, true);
    assert_eq!(matches_0, false);
    assert_eq!(matches_1, false);
    assert_eq!(matches_2, true);

    Ok(())
}

#[test]
fn test_catedra_cinco() -> Result<(), GrepError> {
    let value_0 = "abd";
    let value = "abc";
    let value_1 = "agd";
    let value_2 = "cami figura abd";

    let regex = Regex::new("a[bc]d")?;
    let matches_0 = regex.clone().test(value_0)?;
    let matches = regex.clone().test(value)?;
    let matches_1 = regex.clone().test(value_1)?;
    let matches_2 = regex.clone().test(value_2)?;

    assert_eq!(matches_0, true);
    assert_eq!(matches, false);
    assert_eq!(matches_1, false);
    assert_eq!(matches_2, true);
    Ok(())
}

#[test]
fn test_catedra_seis() -> Result<(), GrepError> {
    let value_0 = "abcd";
    let value = "abd";
    let value_1 = "abcccd";
    let value_2 = "hola abcd chau";

    let regex = Regex::new("abc+d")?;
    let matches_0 = regex.clone().test(value_0)?;
    let matches = regex.clone().test(value)?;
    let matches_1 = regex.clone().test(value_1)?;
    let matches_2 = regex.clone().test(value_2)?;

    assert_eq!(matches_0, true);
    assert_eq!(matches, false);
    assert_eq!(matches_1, true);
    assert_eq!(matches_2, true);
    Ok(())
}

#[test]
fn test_catedra_siete() -> Result<(), GrepError> {
    let value_0 = "abcd";
    let value = "abcdd";
    let value_1 = "abd";
    let value_2 = "hola abcd chau";
    let value_3 = "abhhd";
    let regex = Regex::new("ab.?d")?;

    let matches = regex.clone().test(value)?;
    let matches_0 = regex.clone().test(value_0)?;
    let matches_1 = regex.clone().test(value_1)?;
    let matches_2 = regex.clone().test(value_2)?;
    let matches_3 = regex.clone().test(value_3)?;

    assert_eq!(matches, true);
    assert_eq!(matches_0, true);
    assert_eq!(matches_1, true);
    assert_eq!(matches_2, true);
    assert_eq!(matches_3, false);

    Ok(())
}

#[test]
fn test_apple_or_melon() -> Result<(), GrepError> {
    let input = "banana\napple\norange\npineapple\nsoy melon\nen el medio watermelon va";
    let regexes = Regex::crear_regex("apple|melon")?;
    let mut expected_output = String::new();

    for regex in regexes {
        let mut matched_lines = String::new();
        for line in input.lines() {
            if regex.test(line)? {
                matched_lines.push_str(line);
                matched_lines.push('\n');
            }
        }
        expected_output.push_str(&matched_lines);
    }

    let output = "apple\npineapple\nsoy melon\nen el medio watermelon va\n";

    assert_eq!(expected_output, output);

    Ok(())
}

#[test]
fn test_complex_regex() -> Result<(), GrepError> {
    let input = "abc?def\n123*456\n789+10\nhola?\nesta no tiene que estar\nesta tampoco";
    let regexes = Regex::crear_regex("abc\\?def|123\\*456|789\\+10")?;
    let mut expected_output = String::new();

    for regex in regexes {
        let mut matched_lines = String::new();
        for line in input.lines() {
            if regex.test(line)? {
                matched_lines.push_str(line);
                matched_lines.push('\n');
            }
        }
        expected_output.push_str(&matched_lines);
    }

    let output = "abc?def\n123*456\n789+10\n";

    assert_eq!(expected_output, output);

    Ok(())
}
