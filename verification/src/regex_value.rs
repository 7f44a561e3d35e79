//! The values that a step matches, and the two ways to compare a value
//! with a text: scanning and exact.

use vstd::prelude::*;
use crate::ascii::{char_width, utf8_width};
use crate::regex_clase::{ClassView, RegexClase};

verus! {

broadcast use vstd::string::group_string_axioms;

/// The mathematical content of a step's value.
pub enum ValueView {
    Literal(char),
    Wildcard,
    Clase(ClassView),
}

impl ValueView {
    /// Whether the value stands for the single character `c`.
    pub open spec fn accepts(self, c: char) -> bool {
        match self {
            ValueView::Literal(l) => c == l,
            ValueView::Wildcard => true,
            ValueView::Clase(clase) => clase.accepts(c),
        }
    }

    /// The least index at or after `from` whose character the value accepts,
    /// or the length of `text` where there is none.
    pub open spec fn find_from(self, text: Seq<char>, from: int) -> int
        decreases text.len() - from,
    {
        if from < 0 || from >= text.len() {
            text.len() as int
        } else if self.accepts(text[from]) {
            from
        } else {
            self.find_from(text, from + 1)
        }
    }

    /// Scanning comparison: how far to advance to stand just past the first
    /// accepted character of `text`, counted as that character's index plus
    /// its width in bytes; zero where no character is accepted.
    pub open spec fn scan(self, text: Seq<char>) -> nat {
        let i = self.find_from(text, 0);
        if i < text.len() {
            (i + utf8_width(text[i])) as nat
        } else {
            0
        }
    }

    /// Exact comparison: the width of the first character of `text` if the
    /// value accepts it, else zero.
    pub open spec fn exact(self, text: Seq<char>) -> nat {
        if text.len() > 0 && self.accepts(text[0]) {
            utf8_width(text[0])
        } else {
            0
        }
    }

    /// `find_from` returns an accepted position that nothing accepted precedes.
    pub proof fn lemma_find_from(self, text: Seq<char>, from: int)
        requires
            0 <= from <= text.len(),
        ensures
            from <= self.find_from(text, from) <= text.len(),
            self.find_from(text, from) < text.len() ==> self.accepts(
                text[self.find_from(text, from)],
            ),
            forall|j: int|
                from <= j < self.find_from(text, from) ==> !self.accepts(#[trigger] text[j]),
        decreases text.len() - from,
    {
        if from < text.len() && !self.accepts(text[from]) {
            self.lemma_find_from(text, from + 1);
        }
    }

    /// A character's encoding in UTF-8 is as long as `utf8_width` says.
    pub proof fn lemma_width_is_encoded_length(c: char)
        ensures
            vstd::utf8::encode_scalar(c as u32).len() == utf8_width(c),
    {
        vstd::utf8::char_is_scalar(c);
        let v = c as u32;
        assert(c <= '\u{7f}' <==> v <= 0x7f);
        assert(c <= '\u{7ff}' <==> v <= 0x7ff);
        assert(c <= '\u{ffff}' <==> v <= 0xffff);
    }

    /// The byte just past the character at `i` lies inside the UTF-8
    /// encoding of `text`, also when counted from `i` as a byte offset.
    pub proof fn lemma_width_in_encoding(text: Seq<char>, i: int)
        requires
            0 <= i < text.len(),
        ensures
            i + utf8_width(text[i]) <= vstd::utf8::encode_utf8(text).len(),
        decreases text.len(),
    {
        let rest = text.drop_first();
        Self::lemma_width_is_encoded_length(text[0]);
        assert(vstd::utf8::encode_utf8(text) == vstd::utf8::encode_scalar(text[0] as u32)
            + vstd::utf8::encode_utf8(rest));
        if i > 0 {
            Self::lemma_width_in_encoding(rest, i - 1);
        }
    }

    /// On ASCII text both comparisons advance by whole characters and stay
    /// inside the text: an exact match has length one.
    pub proof fn lemma_ascii_bounds(self, text: Seq<char>)
        requires
            vstd::utf8::is_ascii_chars(text),
        ensures
            self.scan(text) <= text.len(),
            self.exact(text) <= 1,
            self.exact(text) <= text.len(),
            self.scan(text) == 0 <==> self.find_from(text, 0) == text.len(),
            self.scan(text) != 0 ==> self.scan(text) == self.find_from(text, 0) + 1,
    {
        self.lemma_find_from(text, 0);
    }
}

/// What a step matches: one given character, any character, or a character
/// of a class.
#[derive(Debug, PartialEq)]
pub enum RegexValue {
    Literal(char),
    Wildcard,
    Clase(RegexClase),
}

impl View for RegexValue {
    type V = ValueView;

    open spec fn view(&self) -> ValueView {
        match self {
            RegexValue::Literal(c) => ValueView::Literal(*c),
            RegexValue::Wildcard => ValueView::Wildcard,
            RegexValue::Clase(clase) => ValueView::Clase(clase@),
        }
    }
}

impl Clone for RegexValue {
    fn clone(&self) -> (res: Self)
        ensures
            res@ == self@,
    {
        match self {
            RegexValue::Literal(c) => RegexValue::Literal(*c),
            RegexValue::Wildcard => RegexValue::Wildcard,
            RegexValue::Clase(clase) => RegexValue::Clase(clase.clone()),
        }
    }
}

impl RegexValue {
    /// Whether the value stands for the single character `c`.
    pub fn accepts(&self, c: char) -> (b: bool)
        ensures
            b == self@.accepts(c),
    {
        match self {
            RegexValue::Literal(l) => c == *l,
            RegexValue::Wildcard => true,
            RegexValue::Clase(clase) => clase.validar_caracter(c),
        }
    }

    /// Scanning comparison: looks for the first character of `text` that the
    /// value accepts and returns how far to advance to stand just past it,
    /// or zero where there is none.
    pub fn matches(&self, text: &str) -> (size: usize)
        ensures
            size == self@.scan(text@),
    {
        let bytes = text.as_bytes().len();
        let mut i: usize = 0;
        for c in it: text.chars()
            invariant
                i == it.index(),
                it.seq() == text@,
                bytes == vstd::utf8::encode_utf8(text@).len(),
                self@.find_from(text@, 0) == self@.find_from(text@, i as int),
        {
            proof {
                ValueView::lemma_width_in_encoding(text@, i as int);
            }
            if self.accepts(c) {
                return i + char_width(c);
            }
            i += 1;
        }
        0
    }

    /// Exact comparison: the width of the first character of `value` if the
    /// value accepts it, else zero.
    pub fn is_same(&self, value: &str) -> (size: usize)
        ensures
            size == self@.exact(value@),
    {
        let mut it = value.chars();
        match it.next() {
            Some(c) => {
                if self.accepts(c) {
                    char_width(c)
                } else {
                    0
                }
            },
            None => 0,
        }
    }
}

} // verus!
