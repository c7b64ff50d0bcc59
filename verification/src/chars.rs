//! A character iterator over a string slice that can peek at the next
//! character and knows where in the string it stands.

use vstd::prelude::*;
use vstd::string::*;
use vstd::utf8::*;

verus! {

/// The encoding of two sequences of characters, one after the other, is
/// the encoding of the first followed by that of the second.
pub proof fn lemma_encode_concat(a: Seq<char>, b: Seq<char>)
    ensures
        encode_utf8(a + b) == encode_utf8(a) + encode_utf8(b),
    decreases a.len(),
{
    if a.len() == 0 {
        assert(a + b == b);
    } else {
        assert((a + b).drop_first() == a.drop_first() + b);
        lemma_encode_concat(a.drop_first(), b);
    }
}

/// Where the encoding of the first `k` characters ends, a character ends.
pub proof fn lemma_prefix_boundary(chars: Seq<char>, k: int)
    requires
        0 <= k <= chars.len(),
    ensures
        encode_utf8(chars.take(k)).len() <= encode_utf8(chars).len(),
        is_char_boundary(encode_utf8(chars), encode_utf8(chars.take(k)).len() as int),
    decreases k,
{
    let bytes = encode_utf8(chars);
    encode_utf8_valid_utf8(chars);
    assert(chars == chars.take(k) + chars.skip(k));
    lemma_encode_concat(chars.take(k), chars.skip(k));
    if k > 0 {
        let rest = chars.drop_first();
        encode_utf8_first_scalar(chars);
        assert(pop_first_scalar(bytes) == encode_utf8(rest));
        lemma_prefix_boundary(rest, k - 1);
        assert(chars.take(k).drop_first() == rest.take(k - 1));
    }
}

/// A string slice holds the characters that its bytes encode.
pub proof fn lemma_chars_of_bytes(s: &str, chars: Seq<char>)
    requires
        s.spec_bytes() == encode_utf8(chars),
    ensures
        s@ == chars,
{
    encode_utf8_decode_utf8(chars);
    encode_utf8_decode_utf8(s@);
}

/// Number of bytes that encode the character.
fn utf8_width(c: char) -> (width: usize)
    ensures
        width == encode_scalar(c as u32).len(),
        1 <= width <= 4,
{
    proof {
        char_is_scalar(c);
    }
    let v = c as u32;
    if v < 0x80 {
        1
    } else if v < 0x800 {
        2
    } else if v < 0x10000 {
        3
    } else {
        4
    }
}

/// Splits the first character off a string slice.
fn split_first<'a>(s: &'a str) -> (r: (Option<char>, &'a str))
    ensures
        s@.len() == 0 ==> r.0 is None && r.1@ == s@,
        s@.len() > 0 ==> r.0 == Some(s@[0]) && r.1@ == s@.drop_first(),
{
    broadcast use {axiom_spec_iter, next_postcondition};

    let mut it = s.chars();
    match it.next() {
        Some(c) => {
            let width = utf8_width(c);
            proof {
                let bytes = encode_utf8(s@);
                encode_utf8_valid_utf8(s@);
                encode_utf8_first_scalar(s@);
                assert(pop_first_scalar(bytes) == encode_utf8(s@.drop_first()));
                assert(is_char_boundary(pop_first_scalar(bytes), 0));
                assert(is_char_boundary(bytes, width as int));
            }
            let (_, rest) = s.split_at(width);
            proof {
                lemma_chars_of_bytes(rest, s@.drop_first());
            }
            (Some(c), rest)
        },
        None => (None, s),
    }
}

/// Where a [`Chars`] stands: the characters of its source and the index of
/// its head among them, which is their number once the end is reached.
pub struct Position {
    pub source: Seq<char>,
    pub index: int,
}

impl Position {
    /// Number of bytes that encode the characters before the head.
    pub open spec fn offset(self) -> int {
        encode_utf8(self.source.take(self.index)).len() as int
    }

    /// The character at the head, if the end is not reached.
    pub open spec fn head(self) -> Option<char> {
        if 0 <= self.index < self.source.len() {
            Some(self.source[self.index])
        } else {
            None
        }
    }

    /// The position one character on, or the same at the end.
    pub open spec fn advanced(self) -> Position {
        if self.index < self.source.len() {
            Position { source: self.source, index: self.index + 1 }
        } else {
            self
        }
    }

    /// The characters after the head.
    pub open spec fn tail(self) -> Seq<char> {
        if self.index < self.source.len() {
            self.source.skip(self.index + 1)
        } else {
            Seq::empty()
        }
    }
}

/// Similar to [`core::str::Chars`] but it can peek and retain position information
pub struct Chars<'a> {
    src: &'a str,
    /// Byte offset of the head in `src`.
    at: usize,
    /// What follows the head.
    rest: &'a str,
    ch: Option<char>,
}

/// Points to a valid UTF8 character inside a [`str`], used to take sub strings
#[derive(Copy, Clone)]
pub struct Cursor {
    at: usize,
    position: Ghost<Position>,
}

impl View for Cursor {
    type V = Position;

    closed spec fn view(&self) -> Position {
        self.position@
    }
}

impl Cursor {
    #[verifier::type_invariant]
    spec fn wf(self) -> bool {
        &&& 0 <= self.position@.index <= self.position@.source.len()
        &&& self.at == self.position@.offset()
    }
}

impl<'a> View for Chars<'a> {
    type V = Position;

    closed spec fn view(&self) -> Position {
        Position {
            source: self.src@,
            index: if self.ch is Some {
                self.src@.len() - self.rest@.len() - 1
            } else {
                self.src@.len() as int
            },
        }
    }
}

impl<'a> Chars<'a> {
    #[verifier::type_invariant]
    spec fn wf(self) -> bool {
        &&& 0 <= self@.index <= self.src@.len()
        &&& self.ch == self@.head()
        &&& self.rest@ == self@.tail()
        &&& self.at == self@.offset()
    }

    /// Byte offset of the head from the start of the source.
    pub fn offset_from_source_str(&self) -> (offset: usize)
        ensures
            offset == self@.offset(),
    {
        proof {
            use_type_invariant(self);
        }
        self.at
    }

    /// A cursor that points at the head.
    pub fn cursor(&self) -> (cursor: Cursor)
        ensures
            cursor@ == self@,
    {
        proof {
            use_type_invariant(self);
        }
        Cursor { at: self.at, position: Ghost(self@) }
    }

    /// The next character, without moving on.
    pub fn head(&self) -> (head: Option<char>)
        ensures
            head == self@.head(),
    {
        proof {
            use_type_invariant(self);
        }
        self.ch
    }

    /// The part of the source from the cursor up to the head.
    ///
    /// The cursor must be one of this source, point at one of its
    /// characters and not lie behind the head.
    pub fn sub_str_from_cursor(&self, cursor: Cursor) -> (sub: &'a str)
        requires
            cursor@.source == self@.source,
            cursor@.index < self@.source.len(),
            cursor@.index <= self@.index,
        ensures
            sub@ == self@.source.subrange(cursor@.index, self@.index),
    {
        proof {
            use_type_invariant(self);
            use_type_invariant(cursor);
            let source = self@.source;
            let upto = source.take(self@.index);
            lemma_prefix_boundary(source, self@.index);
            lemma_prefix_boundary(upto, cursor@.index);
            assert(upto.take(cursor@.index) == source.take(cursor@.index));
            assert(upto == upto.take(cursor@.index) + source.subrange(
                cursor@.index,
                self@.index,
            ));
            lemma_encode_concat(
                upto.take(cursor@.index),
                source.subrange(cursor@.index, self@.index),
            );
            assert(source == upto + source.skip(self@.index));
            lemma_encode_concat(upto, source.skip(self@.index));
        }
        let (before, _) = self.src.split_at(self.at);
        proof {
            assert(before.spec_bytes() == encode_utf8(self@.source.take(self@.index)));
        }
        let (_, sub) = before.split_at(cursor.at);
        proof {
            let head = encode_utf8(self@.source.take(cursor@.index));
            let wanted = encode_utf8(self@.source.subrange(cursor@.index, self@.index));
            assert(before.spec_bytes() == head + wanted);
            assert((head + wanted).subrange(cursor.at as int, (head + wanted).len() as int)
                == wanted);
            lemma_chars_of_bytes(sub, self@.source.subrange(cursor@.index, self@.index));
        }
        sub
    }

    /// The string that is iterated over.
    pub fn source(&self) -> (source: &'a str)
        ensures
            source@ == self@.source,
    {
        self.src
    }

    /// What follows the head.
    #[must_use]
    pub fn tail(&self) -> (tail: &'a str)
        ensures
            tail@ == self@.tail(),
    {
        proof {
            use_type_invariant(self);
        }
        self.rest
    }

    /// Returns the head and moves on to the next character.
    pub fn next(&mut self) -> (head: Option<char>)
        ensures
            head == old(self)@.head(),
            final(self)@ == old(self)@.advanced(),
    {
        proof {
            use_type_invariant(&*self);
        }
        let ghost source = self.src@;
        let ghost next = self@.advanced().index;
        proof {
            assert(self.rest@ == source.skip(next));
            assert(source == source.take(next) + source.skip(next));
            lemma_encode_concat(source.take(next), source.skip(next));
        }
        let tmp = self.ch;
        let at = self.src.as_bytes().len() - self.rest.as_bytes().len();
        let (ch, rest) = split_first(self.rest);
        proof {
            if next < source.len() {
                assert(source.skip(next).drop_first() == source.skip(next + 1));
            } else {
                assert(rest@ == Seq::<char>::empty());
            }
        }
        *self = Chars { src: self.src, at, rest, ch };
        tmp
    }
}

impl<'a> From<&'a str> for Chars<'a> {
    /// An iterator that stands at the first character of `src`.
    fn from(src: &'a str) -> (chars: Self)
        ensures
            chars@ == (Position { source: src@, index: 0 }),
    {
        let (ch, rest) = split_first(src);
        proof {
            assert(src@.take(0) == Seq::<char>::empty());
            assert(encode_utf8(Seq::<char>::empty()).len() == 0);
            if src@.len() > 0 {
                assert(src@.drop_first() == src@.skip(1));
            } else {
                assert(rest@ == Seq::<char>::empty());
            }
        }
        Chars { src, at: 0, rest, ch }
    }
}

impl<'a> vstd::std_specs::convert::FromSpecImpl<&'a str> for Chars<'a> {
    /// What `from` returns is stated by its own contract, over the view.
    open spec fn obeys_from_spec() -> bool {
        false
    }

    open spec fn from_spec(src: &'a str) -> Self {
        arbitrary()
    }
}

} // verus!
