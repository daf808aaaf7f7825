//! Bytes of a line of text: cutting what surrounds a point or a number,
//! finding a byte, and splitting a line at its comma.

use vstd::prelude::*;
use vstd::slice::slice_subrange;

verus! {

/// The byte ` `.
pub const SPACE: u8 = 0x20;

/// The byte `(`.
pub const OPENING: u8 = 0x28;

/// The byte `)`.
pub const CLOSING: u8 = 0x29;

/// The byte `,`, which stands between the two numbers of a line.
pub const COMMA: u8 = 0x2c;

/// What is cut off the ends of a text.
#[derive(Clone, Copy, Debug, PartialEq, Eq, Structural)]
pub enum Trim {
    /// Spaces and round brackets, around a line.
    Wrapping,
    /// White space, around a number: every character that Unicode counts as
    /// white space, in its UTF-8 bytes.
    Blank,
}

/// Whether `c` is white space of one byte: space, tab, line feed, vertical
/// tab, form feed or carriage return.
pub open spec fn is_blank_byte(c: u8) -> bool {
    c == SPACE || (0x09 <= c <= 0x0d)
}

/// Whether `a, b` are the bytes of white space of two bytes: next line
/// (U+0085) or no-break space (U+00A0).
pub open spec fn is_blank_pair(a: u8, b: u8) -> bool {
    a == 0xc2 && (b == 0x85 || b == 0xa0)
}

/// Whether `a, b, c` are the bytes of white space of three bytes: U+1680,
/// U+2000 to U+200A, U+2028, U+2029, U+202F, U+205F or U+3000.
pub open spec fn is_blank_triple(a: u8, b: u8, c: u8) -> bool {
    ||| a == 0xe1 && b == 0x9a && c == 0x80
    ||| a == 0xe2 && b == 0x80 && (0x80 <= c <= 0x8a || c == 0xa8 || c == 0xa9 || c == 0xaf)
    ||| a == 0xe2 && b == 0x81 && c == 0x9f
    ||| a == 0xe3 && b == 0x80 && c == 0x80
}

impl Trim {
    /// The number of bytes at the start of `s` that make up one character
    /// to cut; 0 if `s` starts with none.
    pub open spec fn cut_at_start(self, s: Seq<u8>) -> nat {
        match self {
            Trim::Wrapping => if s.len() >= 1 && (s[0] == SPACE || s[0] == OPENING || s[0]
                == CLOSING) {
                1
            } else {
                0
            },
            Trim::Blank => if s.len() >= 1 && is_blank_byte(s[0]) {
                1
            } else if s.len() >= 2 && is_blank_pair(s[0], s[1]) {
                2
            } else if s.len() >= 3 && is_blank_triple(s[0], s[1], s[2]) {
                3
            } else {
                0
            },
        }
    }

    /// The number of bytes at the end of `s` that make up one character to
    /// cut; 0 if `s` ends with none.
    pub open spec fn cut_at_end(self, s: Seq<u8>) -> nat {
        let n = s.len() as int;
        match self {
            Trim::Wrapping => if n >= 1 && (s[n - 1] == SPACE || s[n - 1] == OPENING || s[n - 1]
                == CLOSING) {
                1
            } else {
                0
            },
            Trim::Blank => if n >= 1 && is_blank_byte(s[n - 1]) {
                1
            } else if n >= 2 && is_blank_pair(s[n - 2], s[n - 1]) {
                2
            } else if n >= 3 && is_blank_triple(s[n - 3], s[n - 2], s[n - 1]) {
                3
            } else {
                0
            },
        }
    }

    /// Counts the bytes to cut at the start of `text`: one character's.
    pub fn start_cut(self, text: &[u8]) -> (k: usize)
        ensures
            k == self.cut_at_start(text@),
            k <= text@.len(),
    {
        let n = text.len();
        match self {
            Trim::Wrapping => if n >= 1 && (text[0] == SPACE || text[0] == OPENING || text[0]
                == CLOSING) {
                1
            } else {
                0
            },
            Trim::Blank => if n >= 1 && blank_byte(text[0]) {
                1
            } else if n >= 2 && blank_pair(text[0], text[1]) {
                2
            } else if n >= 3 && blank_triple(text[0], text[1], text[2]) {
                3
            } else {
                0
            },
        }
    }

    /// Counts the bytes to cut at the end of `text`: one character's.
    pub fn end_cut(self, text: &[u8]) -> (k: usize)
        ensures
            k == self.cut_at_end(text@),
            k <= text@.len(),
    {
        let n = text.len();
        match self {
            Trim::Wrapping => if n >= 1 && (text[n - 1] == SPACE || text[n - 1] == OPENING
                || text[n - 1] == CLOSING) {
                1
            } else {
                0
            },
            Trim::Blank => if n >= 1 && blank_byte(text[n - 1]) {
                1
            } else if n >= 2 && blank_pair(text[n - 2], text[n - 1]) {
                2
            } else if n >= 3 && blank_triple(text[n - 3], text[n - 2], text[n - 1]) {
                3
            } else {
                0
            },
        }
    }
}

fn blank_byte(c: u8) -> (r: bool)
    ensures
        r == is_blank_byte(c),
{
    c == SPACE || (0x09 <= c && c <= 0x0d)
}

fn blank_pair(a: u8, b: u8) -> (r: bool)
    ensures
        r == is_blank_pair(a, b),
{
    a == 0xc2 && (b == 0x85 || b == 0xa0)
}

fn blank_triple(a: u8, b: u8, c: u8) -> (r: bool)
    ensures
        r == is_blank_triple(a, b, c),
{
    (a == 0xe1 && b == 0x9a && c == 0x80) || (a == 0xe2 && b == 0x80 && ((0x80 <= c && c <= 0x8a)
        || c == 0xa8 || c == 0xa9 || c == 0xaf)) || (a == 0xe2 && b == 0x81 && c == 0x9f) || (a
        == 0xe3 && b == 0x80 && c == 0x80)
}

/// `s` without the characters that `trim` cuts at its start.
pub open spec fn trimmed_start(s: Seq<u8>, trim: Trim) -> Seq<u8>
    decreases s.len(),
{
    let k = trim.cut_at_start(s);
    if 0 < k <= s.len() {
        trimmed_start(s.subrange(k as int, s.len() as int), trim)
    } else {
        s
    }
}

/// `s` without the characters that `trim` cuts at its end.
pub open spec fn trimmed_end(s: Seq<u8>, trim: Trim) -> Seq<u8>
    decreases s.len(),
{
    let k = trim.cut_at_end(s);
    if 0 < k <= s.len() {
        trimmed_end(s.subrange(0, s.len() - k), trim)
    } else {
        s
    }
}

/// `s` without the characters that `trim` cuts at both ends.
pub open spec fn trimmed(s: Seq<u8>, trim: Trim) -> Seq<u8> {
    trimmed_end(trimmed_start(s, trim), trim)
}

/// Cuts from both ends of `text` the characters that `trim` names.
pub fn trim_bytes<'a>(text: &'a [u8], trim: Trim) -> (r: &'a [u8])
    ensures
        r@ == trimmed(text@, trim),
{
    let mut rest: &[u8] = text;
    loop
        invariant
            trimmed_start(rest@, trim) == trimmed_start(text@, trim),
        ensures
            rest@ == trimmed_start(text@, trim),
        decreases rest@.len(),
    {
        let k = trim.start_cut(rest);
        if k == 0 {
            break;
        }
        rest = slice_subrange(rest, k, rest.len());
    }
    loop
        invariant
            trimmed_end(rest@, trim) == trimmed(text@, trim),
        ensures
            rest@ == trimmed(text@, trim),
        decreases rest@.len(),
    {
        let k = trim.end_cut(rest);
        if k == 0 {
            break;
        }
        rest = slice_subrange(rest, 0, rest.len() - k);
    }
    rest
}

/// `i` is where `c` first occurs in `s`, or the length of `s` if it does
/// not occur.
pub open spec fn is_first_at(s: Seq<u8>, c: u8, i: int) -> bool {
    &&& 0 <= i <= s.len()
    &&& forall|j: int| 0 <= j < i ==> #[trigger] s[j] != c
    &&& i < s.len() ==> s[i] == c
}

/// Where `c` first occurs in `s`, or the length of `s`.
pub open spec fn first_at(s: Seq<u8>, c: u8) -> int {
    choose|i: int| is_first_at(s, c, i)
}

/// There is one place where a byte first occurs.
pub proof fn lemma_first_at_unique(s: Seq<u8>, c: u8, i: int, j: int)
    requires
        is_first_at(s, c, i),
        is_first_at(s, c, j),
    ensures
        i == j,
{
    if i < j {
        assert(s[i] != c);
    } else if j < i {
        assert(s[j] != c);
    }
}

/// Finds where `c` first occurs in `text`; the length of `text` if nowhere.
pub fn find_byte(text: &[u8], c: u8) -> (at: usize)
    ensures
        is_first_at(text@, c, at as int),
        at == first_at(text@, c),
{
    let mut at: usize = 0;
    while at < text.len() && text[at] != c
        invariant
            0 <= at <= text.len(),
            forall|j: int| 0 <= j < at ==> #[trigger] text@[j] != c,
        decreases text.len() - at,
    {
        at += 1;
    }
    proof {
        assert(is_first_at(text@, c, at as int));
        lemma_first_at_unique(text@, c, at as int, first_at(text@, c));
    }
    at
}

/// The two fields of a line that holds exactly one comma: what stands
/// before the comma and what stands after it.
pub open spec fn fields_of(body: Seq<u8>) -> Option<(Seq<u8>, Seq<u8>)> {
    let at = first_at(body, COMMA);
    if at < body.len() {
        let rest = body.subrange(at + 1, body.len() as int);
        if first_at(rest, COMMA) < rest.len() {
            None
        } else {
            Some((body.subrange(0, at), rest))
        }
    } else {
        None
    }
}

/// Splits `body` at its comma; there is no result unless it holds exactly
/// one.
pub fn split_fields<'a>(body: &'a [u8]) -> (r: Option<(&'a [u8], &'a [u8])>)
    ensures
        match r {
            Some((left, right)) => fields_of(body@) == Some((left@, right@)),
            None => fields_of(body@) is None,
        },
{
    let at = find_byte(body, COMMA);
    if at < body.len() {
        let rest = slice_subrange(body, at + 1, body.len());
        if find_byte(rest, COMMA) < rest.len() {
            None
        } else {
            Some((slice_subrange(body, 0, at), rest))
        }
    } else {
        None
    }
}

} // verus!
