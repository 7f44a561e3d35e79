//! Character classes as the matcher holds them.

use vstd::prelude::*;
use crate::char_cursor::CharCursor;
use crate::character_class::CharacterClass;
use crate::grep_error::GrepError;
use crate::regex_value::{RegexValue, ValueView};
use crate::ascii::{
    char_is_alnum, char_is_alpha, char_is_digit, char_is_lower, char_is_punct, char_is_space,
    char_is_upper, is_alnum, is_alpha, is_digit, is_lower, is_punct, is_space, is_upper,
};

verus! {

/// The mathematical content of a character class: a named ASCII category,
/// or a list of characters that is accepted or, when `negated`, refused.
pub enum ClassView {
    AlNum,
    Alpha,
    Digit,
    Lower,
    Upper,
    Space,
    Punct,
    Custom(Seq<char>, bool),
}

impl ClassView {
    /// Whether the class holds the character `c`.
    pub open spec fn accepts(self, c: char) -> bool {
        match self {
            ClassView::AlNum => is_alnum(c),
            ClassView::Alpha => is_alpha(c),
            ClassView::Digit => is_digit(c),
            ClassView::Lower => is_lower(c),
            ClassView::Upper => is_upper(c),
            ClassView::Space => is_space(c),
            ClassView::Punct => is_punct(c),
            ClassView::Custom(chars, negated) => chars.contains(c) != negated,
        }
    }
}

/// The class that a bracketed name such as `[:alpha:]` stands for.
pub open spec fn class_by_name(name: Seq<char>) -> Option<ClassView> {
    if name == "[:alnum:]"@ {
        Some(ClassView::AlNum)
    } else if name == "[:alpha:]"@ {
        Some(ClassView::Alpha)
    } else if name == "[:digit:]"@ {
        Some(ClassView::Digit)
    } else if name == "[:lower:]"@ {
        Some(ClassView::Lower)
    } else if name == "[:upper:]"@ {
        Some(ClassView::Upper)
    } else if name == "[:space:]"@ {
        Some(ClassView::Space)
    } else if name == "[:punct:]"@ {
        Some(ClassView::Punct)
    } else {
        None
    }
}

/// The named class that `input` opens with: a known name, closed by its own
/// `]`, with one more `]` right behind it. `None` where `input` does not
/// start so.
pub open spec fn named_class(input: Seq<char>) -> Option<ClassView> {
    match input.index_of_first(']') {
        Some(close) => if close + 1 < input.len() && input[close + 1] == ']' {
            class_by_name(input.take(close + 1))
        } else {
            None
        },
        None => None,
    }
}

/// What the reader of a named class leaves unread of `input`: it reads
/// through the first `]` and one character more.
pub open spec fn after_named_class(input: Seq<char>) -> Seq<char> {
    match input.index_of_first(']') {
        Some(close) => if close + 2 <= input.len() {
            input.skip(close + 2)
        } else {
            Seq::empty()
        },
        None => Seq::empty(),
    }
}

/// A character class as the matcher holds it.
#[derive(Debug, PartialEq)]
pub enum RegexClase {
    AlNum,
    Alpha,
    Digit,
    Lower,
    Upper,
    Space,
    Punct,
    Custom(Vec<char>, bool),
}

impl View for RegexClase {
    type V = ClassView;

    open spec fn view(&self) -> ClassView {
        match self {
            RegexClase::AlNum => ClassView::AlNum,
            RegexClase::Alpha => ClassView::Alpha,
            RegexClase::Digit => ClassView::Digit,
            RegexClase::Lower => ClassView::Lower,
            RegexClase::Upper => ClassView::Upper,
            RegexClase::Space => ClassView::Space,
            RegexClase::Punct => ClassView::Punct,
            RegexClase::Custom(chars, negated) => ClassView::Custom(chars@, *negated),
        }
    }
}

impl Clone for RegexClase {
    fn clone(&self) -> (res: Self)
        ensures
            res@ == self@,
    {
        match self {
            RegexClase::AlNum => RegexClase::AlNum,
            RegexClase::Alpha => RegexClase::Alpha,
            RegexClase::Digit => RegexClase::Digit,
            RegexClase::Lower => RegexClase::Lower,
            RegexClase::Upper => RegexClase::Upper,
            RegexClase::Space => RegexClase::Space,
            RegexClase::Punct => RegexClase::Punct,
            RegexClase::Custom(chars, negado) => RegexClase::Custom(chars.clone(), *negado),
        }
    }
}

/// Whether `c` occurs in `chars`.
pub fn contains_char(chars: &Vec<char>, c: char) -> (found: bool)
    ensures
        found == chars@.contains(c),
{
    let mut i: usize = 0;
    while i < chars.len()
        invariant
            i <= chars.len(),
            forall|j: int| 0 <= j < i ==> chars@[j] != c,
        decreases chars.len() - i,
    {
        if chars[i] == c {
            return true;
        }
        i += 1;
    }
    false
}

impl RegexClase {
    /// Whether the class holds `caracter`.
    pub fn validar_caracter(&self, caracter: char) -> (valido: bool)
        ensures
            valido == self@.accepts(caracter),
    {
        match self {
            RegexClase::AlNum => char_is_alnum(caracter),
            RegexClase::Alpha => char_is_alpha(caracter),
            RegexClase::Digit => char_is_digit(caracter),
            RegexClase::Lower => char_is_lower(caracter),
            RegexClase::Upper => char_is_upper(caracter),
            RegexClase::Space => char_is_space(caracter),
            RegexClase::Punct => char_is_punct(caracter),
            RegexClase::Custom(chars, negado) => {
                if *negado {
                    !contains_char(chars, caracter)
                } else {
                    contains_char(chars, caracter)
                }
            },
        }
    }

    /// Reads a named class, such as `[:alpha:]]`, whose outer opening
    /// bracket has been read already: see
    /// `CharacterClass::read_character_class`, which does the reading.
    pub fn read_character_class(chars_iter: &mut CharCursor) -> (value: Result<
        RegexValue,
        GrepError,
    >)
        ensures
            final(chars_iter).remaining() == after_named_class(old(chars_iter).remaining()),
            match value {
                Ok(v) => named_class(old(chars_iter).remaining()) is Some && v@ == ValueView::Clase(
                    named_class(old(chars_iter).remaining())->0,
                ),
                Err(e) => e == GrepError::ErrRegex && named_class(old(chars_iter).remaining())
                    is None,
            },
    {
        CharacterClass::read_character_class(chars_iter)
    }
}

} // verus!
