//! A position in a text, advanced one character at a time.
use vstd::prelude::*;
use vstd::string::StrSliceExecFns;

verus! {

/// The characters of Unicode's White_Space property, the ones `char::is_whitespace` accepts.
pub open spec fn white_space(c: char) -> bool {
    ||| '\u{9}' <= c <= '\u{d}'
    ||| c == ' '
    ||| c == '\u{85}'
    ||| c == '\u{a0}'
    ||| c == '\u{1680}'
    ||| '\u{2000}' <= c <= '\u{200a}'
    ||| c == '\u{2028}'
    ||| c == '\u{2029}'
    ||| c == '\u{202f}'
    ||| c == '\u{205f}'
    ||| c == '\u{3000}'
}

/// The position just past the run of white space that starts at `at`.
pub open spec fn skip_white_space(text: Seq<char>, at: int) -> int
    decreases text.len() - at,
{
    if 0 <= at < text.len() && white_space(text[at]) {
        skip_white_space(text, at + 1)
    } else {
        at
    }
}

pub fn is_white_space(c: char) -> (r: bool)
    ensures
        r == white_space(c),
{
    match c {
        '\u{9}'..='\u{d}' | ' ' | '\u{85}' | '\u{a0}' | '\u{1680}' => true,
        '\u{2000}'..='\u{200a}' | '\u{2028}' | '\u{2029}' | '\u{202f}' | '\u{205f}' => true,
        '\u{3000}' => true,
        _ => false,
    }
}

/// A read-only view of a whole text and an offset into it, counted in characters.
#[derive(Clone, Copy, Debug)]
pub struct Cursor<'a> {
    pub value: &'a str,
    pub index: usize,
}

impl<'a> Cursor<'a> {
    /// The characters of the text.
    pub open spec fn text(&self) -> Seq<char> {
        self.value@
    }

    /// The character at the offset.
    pub fn current(&self) -> (r: char)
        requires
            self.index < self.text().len(),
        ensures
            r == self.text()[self.index as int],
    {
        self.value.get_char(self.index)
    }

    /// The character at the offset and a cursor one past it; the offset itself at the end.
    pub fn next(&self) -> (r: Result<(Cursor<'a>, char), usize>)
        ensures
            match r {
                Ok((next, ch)) => {
                    &&& self.index < self.text().len()
                    &&& next.value == self.value
                    &&& next.index == self.index + 1
                    &&& ch == self.text()[self.index as int]
                },
                Err(at) => self.index >= self.text().len() && at == self.index,
            },
    {
        if self.index < self.value.unicode_len() {
            Ok((Cursor { value: self.value, index: self.index + 1 }, self.current()))
        } else {
            Err(self.index)
        }
    }

    /// The cursor past `ch` where it stands at the offset; the offset otherwise.
    pub fn expect(&self, ch: char) -> (r: Result<Cursor<'a>, usize>)
        ensures
            match r {
                Ok(next) => {
                    &&& self.index < self.text().len()
                    &&& self.text()[self.index as int] == ch
                    &&& next.value == self.value
                    &&& next.index == self.index + 1
                },
                Err(at) => {
                    &&& at == self.index
                    &&& !(self.index < self.text().len() && self.text()[self.index as int] == ch)
                },
            },
    {
        let (next, nch) = self.next()?;
        if nch != ch {
            Err(self.index)
        } else {
            Ok(next)
        }
    }

    /// Moves the offset past the run of white space that starts there.
    pub fn flush_whitespace(&mut self)
        ensures
            final(self).value == old(self).value,
            final(self).index == skip_white_space(old(self).text(), old(self).index as int),
    {
        let len = self.value.unicode_len();
        while self.index < len && is_white_space(self.current())
            invariant
                len == self.text().len(),
                self.value == old(self).value,
                skip_white_space(self.text(), self.index as int) == skip_white_space(
                    old(self).text(),
                    old(self).index as int,
                ),
            decreases len - self.index,
        {
            self.index = self.index + 1;
        }
    }

    /// A cursor at the start of `value`.
    pub fn new(value: &'a str) -> (r: Cursor<'a>)
        ensures
            r.value == value,
            r.index == 0,
    {
        Cursor { value, index: 0 }
    }
}

} // verus!
