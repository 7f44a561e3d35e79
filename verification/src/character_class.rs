//! Character classes as patterns write them, and the reader of named
//! classes.

use vstd::prelude::*;
use crate::ascii::{
    char_is_alnum, char_is_alpha, char_is_digit, char_is_lower, char_is_punct, char_is_space,
    char_is_upper,
};
use crate::char_cursor::{same_text, CharCursor};
use crate::grep_error::GrepError;
use crate::regex_clase::{
    after_named_class, class_by_name, contains_char, named_class, ClassView, RegexClase,
};
use crate::regex_value::{RegexValue, ValueView};

verus! {

/// A character class as a pattern writes it: one of the named classes, or a
/// bracketed list of characters, negated or not.
#[derive(Debug, PartialEq)]
pub enum CharacterClass {
    AlNum,
    Alpha,
    Digit,
    Lower,
    Upper,
    Space,
    Punct,
    Custom(Vec<char>, bool),
}

impl View for CharacterClass {
    type V = ClassView;

    open spec fn view(&self) -> ClassView {
        match self {
            CharacterClass::AlNum => ClassView::AlNum,
            CharacterClass::Alpha => ClassView::Alpha,
            CharacterClass::Digit => ClassView::Digit,
            CharacterClass::Lower => ClassView::Lower,
            CharacterClass::Upper => ClassView::Upper,
            CharacterClass::Space => ClassView::Space,
            CharacterClass::Punct => ClassView::Punct,
            CharacterClass::Custom(chars, negated) => ClassView::Custom(chars@, *negated),
        }
    }
}

impl Clone for CharacterClass {
    fn clone(&self) -> (res: Self)
        ensures
            res@ == self@,
    {
        match self {
            CharacterClass::AlNum => CharacterClass::AlNum,
            CharacterClass::Alpha => CharacterClass::Alpha,
            CharacterClass::Digit => CharacterClass::Digit,
            CharacterClass::Lower => CharacterClass::Lower,
            CharacterClass::Upper => CharacterClass::Upper,
            CharacterClass::Space => CharacterClass::Space,
            CharacterClass::Punct => CharacterClass::Punct,
            CharacterClass::Custom(chars, negado) => CharacterClass::Custom(chars.clone(), *negado),
        }
    }
}

impl CharacterClass {
    /// Whether the class holds `caracter`.
    pub fn valid_character(&self, caracter: char) -> (valido: bool)
        ensures
            valido == self@.accepts(caracter),
    {
        match self {
            CharacterClass::AlNum => char_is_alnum(caracter),
            CharacterClass::Alpha => char_is_alpha(caracter),
            CharacterClass::Digit => char_is_digit(caracter),
            CharacterClass::Lower => char_is_lower(caracter),
            CharacterClass::Upper => char_is_upper(caracter),
            CharacterClass::Space => char_is_space(caracter),
            CharacterClass::Punct => char_is_punct(caracter),
            CharacterClass::Custom(chars, negado) => {
                if *negado {
                    !contains_char(chars, caracter)
                } else {
                    contains_char(chars, caracter)
                }
            },
        }
    }

    /// The same class, as the matcher holds it.
    pub fn to_regex_clase(self) -> (clase: RegexClase)
        ensures
            clase@ == self@,
    {
        match self {
            CharacterClass::AlNum => RegexClase::AlNum,
            CharacterClass::Alpha => RegexClase::Alpha,
            CharacterClass::Digit => RegexClase::Digit,
            CharacterClass::Lower => RegexClase::Lower,
            CharacterClass::Upper => RegexClase::Upper,
            CharacterClass::Space => RegexClase::Space,
            CharacterClass::Punct => RegexClase::Punct,
            CharacterClass::Custom(chars, negado) => RegexClase::Custom(chars, negado),
        }
    }

    /// The class that the bracketed name `name` stands for, if it is one of
    /// the seven known names.
    pub fn from_name(name: &Vec<char>) -> (clase: Option<CharacterClass>)
        ensures
            clase is Some <==> class_by_name(name@) is Some,
            clase matches Some(c) ==> Some(c@) == class_by_name(name@),
    {
        if same_text(name, "[:alnum:]") {
            Some(CharacterClass::AlNum)
        } else if same_text(name, "[:alpha:]") {
            Some(CharacterClass::Alpha)
        } else if same_text(name, "[:digit:]") {
            Some(CharacterClass::Digit)
        } else if same_text(name, "[:lower:]") {
            Some(CharacterClass::Lower)
        } else if same_text(name, "[:upper:]") {
            Some(CharacterClass::Upper)
        } else if same_text(name, "[:space:]") {
            Some(CharacterClass::Space)
        } else if same_text(name, "[:punct:]") {
            Some(CharacterClass::Punct)
        } else {
            None
        }
    }

    /// Reads a named class, such as `[:alpha:]]`, whose outer opening
    /// bracket has been read already.
    ///
    /// It reads through the first `]`, takes what it has read as the name,
    /// and reads one character more, which has to be the outer `]`. It fails
    /// where the input ends before that, where that character is another
    /// one, and where the name is not a known one.
    pub fn read_character_class(chars_iter: &mut CharCursor) -> (value: Result<
        RegexValue,
        GrepError,
    >)
        ensures
            final(chars_iter).remaining() == after_named_class(old(chars_iter).remaining()),
            match value {
                Ok(v) => named_class(old(chars_iter).remaining()) is Some && v@ == ValueView::Clase(
                    named_class(old(chars_iter).remaining())->0,
                ),
                Err(e) => e == GrepError::ErrRegex && named_class(old(chars_iter).remaining())
                    is None,
            },
    {
        let ghost input = chars_iter.remaining();
        proof {
            input.index_of_first_ensures(']');
        }
        let mut class_content: Vec<char> = Vec::new();
        let mut closed = false;
        loop
            invariant_except_break
                !closed,
                forall|j: int| 0 <= j < class_content@.len() ==> class_content@[j] != ']',
            invariant
                input == old(chars_iter).remaining(),
                class_content@.len() <= input.len(),
                class_content@ == input.take(class_content@.len() as int),
                chars_iter.remaining() == input.skip(class_content@.len() as int),
            ensures
                closed ==> input.index_of_first(']') == Some(class_content@.len() - 1),
                !closed ==> input.index_of_first(']') is None && chars_iter.remaining().len() == 0,
            decreases chars_iter.remaining().len(),
        {
            let ghost read = class_content@.len() as int;
            match chars_iter.next() {
                Some(c) => {
                    class_content.push(c);
                    proof {
                        assert(c == input[read]);
                        assert(class_content@ =~= input.take(read + 1));
                        assert(input.skip(read).drop_first() =~= input.skip(read + 1));
                    }
                    if c == ']' {
                        closed = true;
                        proof {
                            assert(forall|j: int| 0 <= j < read ==> input[j] == class_content@[j]);
                            input.index_of_first_ensures(']');
                            assert(input.contains(']'));
                        }
                        break ;
                    }
                },
                None => {
                    proof {
                        assert(read == input.len());
                        assert(forall|j: int|
                            0 <= j < input.len() ==> input[j] == class_content@[j]);
                        input.index_of_first_ensures(']');
                    }
                    break ;
                },
            }
        }
        let ghost read = class_content@.len() as int;
        let after = chars_iter.next();
        proof {
            if closed {
                if read < input.len() {
                    assert(input.skip(read).drop_first() =~= input.skip(read + 1));
                } else {
                    assert(input.skip(read) =~= Seq::<char>::empty());
                }
            }
        }
        if after != Some(']') {
            return Err(GrepError::ErrRegex);
        }
        match CharacterClass::from_name(&class_content) {
            Some(clase) => Ok(RegexValue::Clase(clase.to_regex_clase())),
            None => Err(GrepError::ErrRegex),
        }
    }
}

} // verus!
