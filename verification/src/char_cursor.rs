//! Reading a text one character at a time.
//!
//! The readers of a pattern work on `CharCursor` rather than on
//! `std::str::Chars`. Of a `Chars`, vstd describes what is still to come
//! only as a prophecy, which cannot bound a loop, and it says nothing of the
//! copy through which one would look ahead. A cursor holds the characters
//! and a position, so both are plain facts.

use vstd::prelude::*;

verus! {

broadcast use vstd::string::group_string_axioms;

/// The characters of `text`, in a vector.
pub fn chars_of(text: &str) -> (chars: Vec<char>)
    ensures
        chars@ == text@,
{
    let mut chars: Vec<char> = Vec::new();
    for c in it: text.chars()
        invariant
            it.seq() == text@,
            chars@ == text@.take(it.index()),
    {
        chars.push(c);
    }
    chars
}

/// A text being read from left to right, one character at a time, with a
/// look ahead at what comes next.
pub struct CharCursor {
    chars: Vec<char>,
    pos: usize,
}

impl CharCursor {
    #[verifier::type_invariant]
    spec fn in_bounds(self) -> bool {
        self.pos <= self.chars.len()
    }

    /// The characters that have not been read yet.
    pub closed spec fn remaining(&self) -> Seq<char> {
        self.chars@.skip(self.pos as int)
    }

    /// A cursor at the start of `text`.
    pub fn new(text: &str) -> (cursor: CharCursor)
        ensures
            cursor.remaining() == text@,
    {
        CharCursor::from_chars(chars_of(text))
    }

    /// A cursor at the start of the text that `chars` spells.
    pub fn from_chars(chars: Vec<char>) -> (cursor: CharCursor)
        ensures
            cursor.remaining() == chars@,
    {
        CharCursor { chars, pos: 0 }
    }

    /// Reads one character, if any is left.
    pub fn next(&mut self) -> (c: Option<char>)
        ensures
            old(self).remaining().len() == 0 ==> c is None
                && final(self).remaining() == old(self).remaining(),
            old(self).remaining().len() > 0 ==> c == Some(old(self).remaining()[0])
                && final(self).remaining() == old(self).remaining().drop_first(),
    {
        proof {
            use_type_invariant(&*self);
        }
        if self.pos < self.chars.len() {
            let c = self.chars[self.pos];
            self.pos += 1;
            Some(c)
        } else {
            None
        }
    }

    /// The character that is `ahead` places after the next one to be read,
    /// without reading it.
    pub fn peek(&self, ahead: usize) -> (c: Option<char>)
        ensures
            c == if ahead < self.remaining().len() {
                Some(self.remaining()[ahead as int])
            } else {
                None
            },
    {
        proof {
            use_type_invariant(self);
        }
        if ahead < self.chars.len() - self.pos {
            Some(self.chars[self.pos + ahead])
        } else {
            None
        }
    }
}

/// Whether `chars` spells exactly `text`.
pub fn same_text(chars: &Vec<char>, text: &str) -> (same: bool)
    ensures
        same == (chars@ == text@),
{
    let mut i: usize = 0;
    for c in it: text.chars()
        invariant
            i == it.index(),
            it.seq() == text@,
            i <= chars.len(),
            chars@.take(i as int) == text@.take(i as int),
    {
        if i >= chars.len() || chars[i] != c {
            proof {
                if i < chars.len() {
                    assert(chars@[i as int] != text@[i as int]);
                }
            }
            return false;
        }
        i += 1;
        proof {
            assert(chars@.take(i as int) =~= chars@.take(i - 1).push(chars@[i - 1]));
            assert(text@.take(i as int) =~= text@.take(i - 1).push(text@[i - 1]));
        }
    }
    proof {
        assert(text@.take(i as int) =~= text@);
        if i == chars.len() {
            assert(chars@.take(i as int) =~= chars@);
        }
    }
    i == chars.len()
}

} // verus!
