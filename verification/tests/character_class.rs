use grep_rustico::character_class::CharacterClass;

#[test]
fn character_class_test_validar_caracter_alnum() {
    let clase = CharacterClass::AlNum;
    assert_eq!(clase.valid_character('a'), true);
    assert_eq!(clase.valid_character('1'), true);
    assert_eq!(clase.valid_character('?'), false);
}

#[test]
fn character_class_test_validar_caracter_alpha() {
    let clase = CharacterClass::Alpha;
    assert_eq!(clase.valid_character('a'), true);
    assert_eq!(clase.valid_character('A'), true);

    assert_eq!(clase.valid_character('1'), false);
    assert_eq!(clase.valid_character('$'), false);
}

#[test]
fn character_class_test_validar_caracter_digit() {
    let clase = CharacterClass::Digit;
    assert_eq!(clase.valid_character('a'), false);
    assert_eq!(clase.valid_character('1'), true);
    assert_eq!(clase.valid_character('*'), false);
}

#[test]
fn character_class_test_validar_caracter_lower() {
    let clase = CharacterClass::Lower;
    assert_eq!(clase.valid_character('a'), true);
    assert_eq!(clase.valid_character('A'), false);
    assert_eq!(clase.valid_character('*'), false);
}

#[test]
fn character_class_test_validar_caracter_upper() {
    let clase = CharacterClass::Upper;
    assert_eq!(clase.valid_character('a'), false);
    assert_eq!(clase.valid_character('A'), true);
    assert_eq!(clase.valid_character('*'), false);
}

#[test]
fn character_class_test_validar_caracter_space() {
    let clase = CharacterClass::Space;
    assert_eq!(clase.valid_character(' '), true);
    assert_eq!(clase.valid_character('\t'), true);
    assert_eq!(clase.valid_character('a'), false);
}

#[test]
fn character_class_test_validar_caracter_punct() {
    let clase = CharacterClass::Punct;
    assert_eq!(clase.valid_character('.'), true);
    assert_eq!(clase.valid_character('a'), false);
}

#[test]
fn character_class_test_validar_caracter_custom() {
    let clase = CharacterClass::Custom(vec!['m', 'a', 't', 'i'], false);
    assert_eq!(clase.valid_character('m'), true);
    assert_eq!(clase.valid_character('z'), false);

    let clase_negada = CharacterClass::Custom(vec!['m', 'a', 't'], true);
    assert_eq!(clase_negada.valid_character('t'), false);
}
