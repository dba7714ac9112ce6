//! A cursor over the bytes of a text. Positions are byte offsets; the
//! cursor only ever rests on the first byte of a character or at the end,
//! and reads every line ending as a single line feed.

use vstd::prelude::*;
use vstd::string::StringSliceAdditionalSpecFns;
use vstd::utf8::*;

verus! {

/// The line feed byte.
pub const LF: u8 = 10;

/// The carriage return byte.
pub const CR: u8 = 13;

/// The tab byte.
pub const TAB: u8 = 9;

/// The space byte.
pub const SPACE: u8 = 32;

/// The bytes of `bytes` from offset `i` on.
pub open spec fn tail(bytes: Seq<u8>, i: int) -> Seq<u8> {
    bytes.subrange(i, bytes.len() as int)
}

/// The character that a cursor at offset `i` reads: nothing at the end, a
/// line feed for a carriage return, and else the character encoded there.
pub open spec fn peek_at(bytes: Seq<u8>, i: int) -> Option<char> {
    if i < 0 || i >= bytes.len() {
        None
    } else if bytes[i] == CR {
        Some('\n')
    } else {
        Some(decode_first_scalar(tail(bytes, i)) as char)
    }
}

/// Number of bytes that a cursor at offset `i` takes when it reads one
/// character: two for a carriage return with a line feed after it, one for
/// a carriage return alone, else the length of the encoded character.
pub open spec fn width_at(bytes: Seq<u8>, i: int) -> int {
    if i < 0 || i >= bytes.len() {
        0
    } else if bytes[i] == CR {
        if i + 1 < bytes.len() && bytes[i + 1] == LF {
            2
        } else {
            1
        }
    } else {
        length_of_first_scalar(tail(bytes, i))
    }
}

/// The offset after the character at offset `i`.
pub open spec fn next_at(bytes: Seq<u8>, i: int) -> int {
    i + width_at(bytes, i)
}

/// The first offset at or after `i` that holds neither a space nor a tab.
pub open spec fn skip_blanks(bytes: Seq<u8>, i: int) -> int
    decreases bytes.len() - i,
{
    if 0 <= i < bytes.len() && (bytes[i] == SPACE || bytes[i] == TAB) {
        skip_blanks(bytes, i + 1)
    } else {
        i
    }
}

/// Whether `bytes` begins with a byte-order mark.
pub open spec fn has_bom(bytes: Seq<u8>) -> bool {
    bytes.len() >= 3 && bytes[0] == 0xEF && bytes[1] == 0xBB && bytes[2] == 0xBF
}

/// Whether `prefix` stands at the front of `bytes`.
pub open spec fn is_prefix(prefix: Seq<u8>, bytes: Seq<u8>) -> bool {
    prefix.len() <= bytes.len() && bytes.subrange(0, prefix.len() as int) == prefix
}

/// In valid text an offset before the end is a character boundary exactly
/// when the byte there is no continuation byte.
pub proof fn lemma_boundary_by_byte(bytes: Seq<u8>, i: int)
    requires
        valid_utf8(bytes),
        0 <= i <= bytes.len(),
    ensures
        is_char_boundary(bytes, i) <==> (i == bytes.len() || !is_continuation_byte(bytes[i])),
{
    if i == bytes.len() {
        is_char_boundary_start_end_of_seq(bytes);
    } else {
        is_char_boundary_iff_not_is_continuation_byte(bytes, i);
    }
}

/// Reading one character from a boundary before the end ends on a
/// boundary again.
pub proof fn lemma_step(bytes: Seq<u8>, i: int)
    requires
        valid_utf8(bytes),
        is_char_boundary(bytes, i),
        0 <= i < bytes.len(),
    ensures
        valid_first_scalar(tail(bytes, i)),
        1 <= length_of_first_scalar(tail(bytes, i)) <= 4,
        i + length_of_first_scalar(tail(bytes, i)) <= bytes.len(),
        is_char_boundary(bytes, i + length_of_first_scalar(tail(bytes, i))),
        bytes[i] < 128 ==> length_of_first_scalar(tail(bytes, i)) == 1 && decode_first_scalar(
            tail(bytes, i),
        ) == bytes[i],
        bytes[i] >= 128 ==> length_of_first_scalar(tail(bytes, i)) == (if bytes[i] < 0xE0 {
            2int
        } else if bytes[i] < 0xF0 {
            3int
        } else {
            4int
        }),
{
    let suffix = tail(bytes, i);
    valid_utf8_split(bytes, i);
    let w = length_of_first_scalar(suffix);
    assert(suffix[0] == bytes[i]);
    let rest = pop_first_scalar(suffix);
    assert(valid_utf8(rest));
    if i + w < bytes.len() {
        assert(rest.len() > 0);
        assert(rest[0] == bytes[i + w]);
        assert(valid_first_scalar(rest));
    }
    lemma_boundary_by_byte(bytes, i + w);
    if bytes[i] < 128 {
        assert(decode_first_scalar(suffix) == bytes[i]) by {
            let b = bytes[i];
            assert(b < 128 ==> (b & 0x7F) as u32 == b) by (bit_vector);
        }
    }
}

/// Valid text that stands at the front of valid text ends on a character
/// boundary of it.
pub proof fn lemma_prefix_boundary(a: Seq<u8>, b: Seq<u8>)
    requires
        valid_utf8(a),
        valid_utf8(b),
        is_prefix(a, b),
    ensures
        is_char_boundary(b, a.len() as int),
    decreases a.len(),
{
    if a.len() > 0 {
        assert(a[0] == b.subrange(0, a.len() as int)[0]);
        let w = length_of_first_scalar(a);
        assert(valid_first_scalar(a));
        assert(w == length_of_first_scalar(b));
        let a1 = pop_first_scalar(a);
        let b1 = pop_first_scalar(b);
        assert(b1.subrange(0, a1.len() as int) =~= a1) by {
            assert forall|k: int| 0 <= k < a1.len() implies b1.subrange(0, a1.len() as int)[k]
                == a1[k] by {
                assert(b.subrange(0, a.len() as int)[k + w] == a[k + w]);
            }
        }
        assert(valid_first_scalar(b));
        lemma_prefix_boundary(a1, b1);
    }
}

/// A boundary of the rest of the text is a boundary of the text.
pub proof fn lemma_tail_boundary(bytes: Seq<u8>, i: int, k: int)
    requires
        valid_utf8(bytes),
        0 <= i <= bytes.len(),
        is_char_boundary(bytes, i),
        0 <= k <= bytes.len() - i,
        is_char_boundary(tail(bytes, i), k),
    ensures
        is_char_boundary(bytes, i + k),
{
    valid_utf8_split(bytes, i);
    lemma_boundary_by_byte(tail(bytes, i), k);
    lemma_boundary_by_byte(bytes, i + k);
    if i + k < bytes.len() {
        assert(tail(bytes, i)[k] == bytes[i + k]);
    }
}

/// The first character of a string slice, if it has one.
pub fn first_char(s: &str) -> (r: Option<char>)
    ensures
        r == if s@.len() > 0 {
            Some(s@[0])
        } else {
            None::<char>
        },
{
    let mut it = s.chars();
    it.next()
}

/// A cursor over a text.
#[derive(Debug, Clone)]
pub struct Scanner<'a> {
    input: &'a str,
    bytes: &'a [u8],
    pos: usize,
}

impl<'a> Scanner<'a> {
    /// The bytes of the text.
    pub closed spec fn bytes(&self) -> Seq<u8> {
        self.bytes@
    }

    /// The offset reached, in bytes.
    pub closed spec fn offset(&self) -> int {
        self.pos as int
    }

    /// The cursor holds the bytes of a text and rests on a character
    /// boundary within it.
    pub closed spec fn wf(&self) -> bool {
        &&& self.bytes@ == self.input.spec_bytes()
        &&& self.pos <= self.bytes@.len()
        &&& is_char_boundary(self.bytes@, self.pos as int)
    }

    /// What a valid cursor brings with it.
    pub proof fn lemma_wf(&self)
        requires
            self.wf(),
        ensures
            valid_utf8(self.bytes()),
            0 <= self.offset() <= self.bytes().len() <= usize::MAX,
            is_char_boundary(self.bytes(), self.offset()),
    {
        encode_utf8_valid_utf8(self.input@);
        assert(self.bytes@.len() == self.bytes.len());
    }

    /// A cursor at the start of `input`, or after its byte-order mark if it
    /// begins with one.
    pub fn new(input: &'a str) -> (s: Self)
        ensures
            s.wf(),
            s.bytes() == input.spec_bytes(),
            s.offset() == if has_bom(input.spec_bytes()) {
                3int
            } else {
                0int
            },
    {
        let bytes = input.as_bytes();
        let mut pos: usize = 0;
        proof {
            encode_utf8_valid_utf8(input@);
            is_char_boundary_start_end_of_seq(bytes@);
        }
        if bytes.len() >= 3 && bytes[0] == 0xEF && bytes[1] == 0xBB && bytes[2] == 0xBF {
            pos = 3;
            proof {
                assert(tail(bytes@, 0) == bytes@);
                lemma_step(bytes@, 0);
            }
        }
        Self { input, bytes, pos }
    }

    /// The offset reached, in bytes. On a valid cursor it is a character
    /// boundary of the text, so that the cursor can be set back to it.
    pub fn position(&self) -> (r: usize)
        ensures
            r == self.offset(),
            self.wf() ==> r <= self.bytes().len() && is_char_boundary(self.bytes(), r as int),
    {
        proof {
            if self.wf() {
                self.lemma_wf();
            }
        }
        self.pos
    }

    /// Moves the cursor to offset `pos`, or to the end if `pos` lies beyond
    /// it.
    pub fn set_position(&mut self, pos: usize)
        requires
            old(self).wf(),
            pos >= old(self).bytes().len() || is_char_boundary(old(self).bytes(), pos as int),
        ensures
            final(self).wf(),
            final(self).bytes() == old(self).bytes(),
            final(self).offset() == if pos > old(self).bytes().len() {
                old(self).bytes().len() as int
            } else {
                pos as int
            },
    {
        proof {
            self.lemma_wf();
            is_char_boundary_start_end_of_seq(self.bytes@);
        }
        if pos > self.bytes.len() {
            self.pos = self.bytes.len();
        } else {
            self.pos = pos;
        }
    }

    /// The text from the offset reached to the end.
    pub fn remaining_str(&self) -> (r: &'a str)
        requires
            self.wf(),
        ensures
            r.spec_bytes() == tail(self.bytes(), self.offset()),
            r@ == decode_utf8(tail(self.bytes(), self.offset())),
    {
        let (_, rest) = self.input.split_at(self.pos);
        proof {
            encode_utf8_decode_utf8(rest@);
        }
        rest
    }

    /// Whether the cursor is at the end.
    pub fn is_eof(&self) -> (r: bool)
        ensures
            r == (self.offset() >= self.bytes().len()),
    {
        self.pos >= self.bytes.len()
    }

    /// The character at the cursor, which stays where it is.
    pub fn peek(&self) -> (r: Option<char>)
        requires
            self.wf(),
        ensures
            r == peek_at(self.bytes(), self.offset()),
    {
        if self.is_eof() {
            return None;
        }
        let byte = self.bytes[self.pos];
        if byte == CR {
            return Some('\n');
        }
        proof {
            self.lemma_wf();
            lemma_step(self.bytes@, self.pos as int);
        }
        if byte < 128 {
            Some(byte as char)
        } else {
            let rest = self.remaining_str();
            proof {
                if rest@.len() > 0 {
                    encode_utf8_first_scalar(rest@);
                    char_u32_cast(
                        rest@[0],
                        decode_first_scalar(tail(self.bytes@, self.pos as int)),
                    );
                }
            }
            first_char(rest)
        }
    }

    /// Reads the character at the cursor and moves past it.
    pub fn next_char(&mut self) -> (r: Option<char>)
        requires
            old(self).wf(),
        ensures
            final(self).wf(),
            final(self).bytes() == old(self).bytes(),
            r == peek_at(old(self).bytes(), old(self).offset()),
            final(self).offset() == next_at(old(self).bytes(), old(self).offset()),
    {
        let r = self.peek();
        if self.is_eof() {
            return r;
        }
        let byte = self.bytes[self.pos];
        proof {
            self.lemma_wf();
            lemma_step(self.bytes@, self.pos as int);
        }
        if byte == CR {
            if self.pos + 1 < self.bytes.len() && self.bytes[self.pos + 1] == LF {
                proof {
                    lemma_step(self.bytes@, self.pos + 1);
                }
                self.pos += 2;
            } else {
                self.pos += 1;
            }
        } else if byte < 128 {
            self.pos += 1;
        } else if byte < 0xE0 {
            self.pos += 2;
        } else if byte < 0xF0 {
            self.pos += 3;
        } else {
            self.pos += 4;
        }
        r
    }

    /// Reads the character at the cursor if it is `expected`; otherwise the
    /// cursor stays where it is.
    pub fn match_char(&mut self, expected: char) -> (r: bool)
        requires
            old(self).wf(),
        ensures
            final(self).wf(),
            final(self).bytes() == old(self).bytes(),
            r == (peek_at(old(self).bytes(), old(self).offset()) == Some(expected)),
            final(self).offset() == if r {
                next_at(old(self).bytes(), old(self).offset())
            } else {
                old(self).offset()
            },
    {
        match self.peek() {
            Some(c) => {
                if c == expected {
                    self.next_char();
                    true
                } else {
                    false
                }
            },
            None => false,
        }
    }

    /// Moves past `expected` if the rest of the text begins with it, byte
    /// for byte; otherwise the cursor stays where it is.
    pub fn match_str(&mut self, expected: &str) -> (r: bool)
        requires
            old(self).wf(),
        ensures
            final(self).wf(),
            final(self).bytes() == old(self).bytes(),
            r == is_prefix(expected.spec_bytes(), tail(old(self).bytes(), old(self).offset())),
            final(self).offset() == if r {
                old(self).offset() + expected.spec_bytes().len()
            } else {
                old(self).offset()
            },
    {
        let want = expected.as_bytes();
        let n = want.len();
        let ghost rest = tail(self.bytes@, self.pos as int);
        proof {
            self.lemma_wf();
        }
        if n > self.bytes.len() - self.pos {
            return false;
        }
        let mut i: usize = 0;
        while i < n
            invariant
                self.wf(),
                self.bytes() == old(self).bytes(),
                self.offset() == old(self).offset(),
                rest == tail(self.bytes@, self.pos as int),
                want@ == expected.spec_bytes(),
                n == want.len(),
                i <= n,
                self.pos + n <= self.bytes.len(),
                forall|j: int| 0 <= j < i ==> want@[j] == #[trigger] rest[j],
            decreases n - i,
        {
            if self.bytes[self.pos + i] != want[i] {
                proof {
                    assert(rest[i as int] == self.bytes@[self.pos + i]);
                    assert(rest.subrange(0, n as int)[i as int] != want@[i as int]);
                }
                return false;
            }
            proof {
                assert(rest[i as int] == self.bytes@[self.pos + i]);
            }
            i += 1;
        }
        proof {
            assert(rest.subrange(0, n as int) =~= want@);
            encode_utf8_valid_utf8(expected@);
            valid_utf8_split(self.bytes@, self.pos as int);
            lemma_prefix_boundary(want@, rest);
            lemma_tail_boundary(self.bytes@, self.pos as int, n as int);
        }
        self.pos += n;
        true
    }

    /// Moves past the spaces and tabs at the cursor and says how many
    /// there were.
    pub fn skip_whitespace(&mut self) -> (r: usize)
        requires
            old(self).wf(),
        ensures
            final(self).wf(),
            final(self).bytes() == old(self).bytes(),
            final(self).offset() == skip_blanks(old(self).bytes(), old(self).offset()),
            r == final(self).offset() - old(self).offset(),
    {
        let start = self.pos;
        proof {
            self.lemma_wf();
        }
        while self.pos < self.bytes.len() && (self.bytes[self.pos] == SPACE || self.bytes[self.pos]
            == TAB)
            invariant
                self.wf(),
                self.bytes() == old(self).bytes(),
                valid_utf8(self.bytes@),
                start <= self.pos <= self.bytes@.len(),
                skip_blanks(self.bytes@, self.pos as int) == skip_blanks(
                    self.bytes@,
                    start as int,
                ),
            decreases self.bytes@.len() - self.pos,
        {
            proof {
                lemma_step(self.bytes@, self.pos as int);
            }
            self.pos += 1;
        }
        self.pos - start
    }

    /// Distance from the cursor to the first byte equal to `needle`.
    pub fn find(&self, needle: u8) -> (r: Option<usize>)
        requires
            self.wf(),
        ensures
            match r {
                Some(k) => self.offset() + k < self.bytes().len() && self.bytes()[self.offset()
                    + k] == needle && forall|j: int|
                    self.offset() <= j < self.offset() + k ==> #[trigger] self.bytes()[j]
                        != needle,
                None => forall|j: int|
                    self.offset() <= j < self.bytes().len() ==> #[trigger] self.bytes()[j]
                        != needle,
            },
    {
        let mut k: usize = 0;
        let n = self.bytes.len();
        proof {
            self.lemma_wf();
        }
        while self.pos + k < n
            invariant
                n == self.bytes@.len(),
                self.pos + k <= self.bytes@.len(),
                forall|j: int| self.pos <= j < self.pos + k ==> #[trigger] self.bytes@[j] != needle,
            decreases self.bytes@.len() - k,
        {
            if self.bytes[self.pos + k] == needle {
                return Some(k);
            }
            k += 1;
        }
        None
    }

    /// The text from offset `start` to the cursor.
    pub fn slice_from(&self, start: usize) -> (r: &'a str)
        requires
            self.wf(),
            start <= self.offset(),
            is_char_boundary(self.bytes(), start as int),
        ensures
            r.spec_bytes() == self.bytes().subrange(start as int, self.offset()),
            r@ == decode_utf8(self.bytes().subrange(start as int, self.offset())),
    {
        self.slice(start, self.pos)
    }

    /// The text from offset `start` to offset `end`.
    pub fn slice(&self, start: usize, end: usize) -> (r: &'a str)
        requires
            self.wf(),
            start <= end <= self.bytes().len(),
            is_char_boundary(self.bytes(), start as int),
            is_char_boundary(self.bytes(), end as int),
        ensures
            r.spec_bytes() == self.bytes().subrange(start as int, end as int),
            r@ == decode_utf8(self.bytes().subrange(start as int, end as int)),
    {
        proof {
            self.lemma_wf();
        }
        let (head, _) = self.input.split_at(end);
        proof {
            valid_utf8_split(self.bytes@, end as int);
            lemma_boundary_by_byte(self.bytes@, start as int);
            lemma_boundary_by_byte(head.spec_bytes(), start as int);
            if start < end {
                assert(head.spec_bytes()[start as int] == self.bytes@[start as int]);
            }
        }
        let (_, r) = head.split_at(start);
        proof {
            encode_utf8_decode_utf8(r@);
            assert(r.spec_bytes() =~= self.bytes@.subrange(start as int, end as int));
        }
        r
    }
}

} // verus!
