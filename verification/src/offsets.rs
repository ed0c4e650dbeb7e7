//! Translation between byte offsets and UTF-16 code-unit offsets.
//!
//! The same logical text has two index spaces: byte offsets into its UTF-8
//! encoding (the public, stable index space) and UTF-16 code-unit offsets
//! (the index space of shaping engines). One character occupies one to four
//! bytes but only one or two code units, so the two spaces drift apart as
//! soon as the text leaves ASCII. The [`OffsetTranslator`] converts offsets
//! in both directions, exactly, and only at character boundaries.

use vstd::prelude::*;
use vstd::utf8::{char_is_scalar, encode_scalar, encode_utf8};

verus! {

/// Number of bytes in the UTF-8 encoding of `c`.
pub open spec fn byte_width(c: char) -> nat {
    let u = c as u32;
    if u < 0x80 {
        1
    } else if u < 0x800 {
        2
    } else if u < 0x10000 {
        3
    } else {
        4
    }
}

/// Number of UTF-16 code units in the encoding of `c`: one for characters
/// in the basic plane, two (a surrogate pair) above it.
pub open spec fn unit_width(c: char) -> nat {
    if (c as u32) < 0x10000 {
        1
    } else {
        2
    }
}

/// Total byte length of the UTF-8 encoding of `s`.
pub open spec fn byte_len(s: Seq<char>) -> nat
    decreases s.len(),
{
    if s.len() == 0 {
        0
    } else {
        byte_width(s[0]) + byte_len(s.drop_first())
    }
}

/// Total UTF-16 code-unit length of `s`.
pub open spec fn unit_len(s: Seq<char>) -> nat
    decreases s.len(),
{
    if s.len() == 0 {
        0
    } else {
        unit_width(s[0]) + unit_len(s.drop_first())
    }
}

/// Byte offset at which the character with index `i` starts.
pub open spec fn byte_of_char_index(s: Seq<char>, i: int) -> nat {
    byte_len(s.take(i))
}

/// Code-unit offset at which the character with index `i` starts.
pub open spec fn unit_of_char_index(s: Seq<char>, i: int) -> nat {
    unit_len(s.take(i))
}

/// `b` lies on a character boundary of the byte encoding of `s`.
pub open spec fn is_byte_boundary(s: Seq<char>, b: int) -> bool {
    exists|i: int| 0 <= i <= s.len() && byte_of_char_index(s, i) == b
}

/// `u` lies on a character boundary of the code-unit encoding of `s`.
pub open spec fn is_unit_boundary(s: Seq<char>, u: int) -> bool {
    exists|i: int| 0 <= i <= s.len() && unit_of_char_index(s, i) == u
}

/// The code-unit offset corresponding to byte offset `b`.
/// Meaningful when `b` is a character boundary.
pub open spec fn byte_to_unit(s: Seq<char>, b: int) -> nat
    decreases s.len(),
{
    if b <= 0 || s.len() == 0 {
        0
    } else {
        unit_width(s[0]) + byte_to_unit(s.drop_first(), b - byte_width(s[0]))
    }
}

/// The byte offset corresponding to code-unit offset `u`.
/// Meaningful when `u` is a character boundary.
pub open spec fn unit_to_byte(s: Seq<char>, u: int) -> nat
    decreases s.len(),
{
    if u <= 0 || s.len() == 0 {
        0
    } else {
        byte_width(s[0]) + unit_to_byte(s.drop_first(), u - unit_width(s[0]))
    }
}

/// Appending one character extends the byte length by that character's width.
pub proof fn lemma_byte_len_push(s: Seq<char>, c: char)
    ensures
        byte_len(s.push(c)) == byte_len(s) + byte_width(c),
    decreases s.len(),
{
    if s.len() == 0 {
        assert(s.push(c)[0] == c);
        assert(s.push(c).drop_first() =~= Seq::<char>::empty());
        assert(byte_len(s.push(c)) == byte_width(c) + byte_len(Seq::<char>::empty()));
    } else {
        assert(s.push(c)[0] == s[0]);
        assert(s.push(c).drop_first() =~= s.drop_first().push(c));
        lemma_byte_len_push(s.drop_first(), c);
        assert(byte_len(s.push(c)) == byte_width(s[0]) + byte_len(s.drop_first().push(c)));
        assert(byte_len(s) == byte_width(s[0]) + byte_len(s.drop_first()));
    }
}

/// Appending one character extends the code-unit length by that character's width.
pub proof fn lemma_unit_len_push(s: Seq<char>, c: char)
    ensures
        unit_len(s.push(c)) == unit_len(s) + unit_width(c),
    decreases s.len(),
{
    if s.len() == 0 {
        assert(s.push(c)[0] == c);
        assert(s.push(c).drop_first() =~= Seq::<char>::empty());
        assert(unit_len(s.push(c)) == unit_width(c) + unit_len(Seq::<char>::empty()));
    } else {
        assert(s.push(c)[0] == s[0]);
        assert(s.push(c).drop_first() =~= s.drop_first().push(c));
        lemma_unit_len_push(s.drop_first(), c);
        assert(unit_len(s.push(c)) == unit_width(s[0]) + unit_len(s.drop_first().push(c)));
        assert(unit_len(s) == unit_width(s[0]) + unit_len(s.drop_first()));
    }
}

/// Byte length distributes over concatenation.
pub proof fn lemma_byte_len_concat(a: Seq<char>, b: Seq<char>)
    ensures
        byte_len(a + b) == byte_len(a) + byte_len(b),
    decreases a.len(),
{
    if a.len() == 0 {
        assert(a + b =~= b);
    } else {
        assert((a + b).drop_first() =~= a.drop_first() + b);
        assert((a + b)[0] == a[0]);
        lemma_byte_len_concat(a.drop_first(), b);
    }
}

/// Code-unit length distributes over concatenation.
pub proof fn lemma_unit_len_concat(a: Seq<char>, b: Seq<char>)
    ensures
        unit_len(a + b) == unit_len(a) + unit_len(b),
    decreases a.len(),
{
    if a.len() == 0 {
        assert(a + b =~= b);
    } else {
        assert((a + b).drop_first() =~= a.drop_first() + b);
        assert((a + b)[0] == a[0]);
        lemma_unit_len_concat(a.drop_first(), b);
    }
}

/// Stepping the character index one forward advances both offsets by the
/// widths of the character just passed.
pub proof fn lemma_offset_step(s: Seq<char>, i: int)
    requires
        0 <= i < s.len(),
    ensures
        byte_of_char_index(s, i + 1) == byte_of_char_index(s, i) + byte_width(s[i]),
        unit_of_char_index(s, i + 1) == unit_of_char_index(s, i) + unit_width(s[i]),
{
    assert(s.take(i + 1) =~= s.take(i).push(s[i]));
    lemma_byte_len_push(s.take(i), s[i]);
    lemma_unit_len_push(s.take(i), s[i]);
}

/// Both offset maps are strictly increasing in the character index.
pub proof fn lemma_offset_monotone(s: Seq<char>, i: int, j: int)
    requires
        0 <= i <= j <= s.len(),
    ensures
        byte_of_char_index(s, i) <= byte_of_char_index(s, j),
        unit_of_char_index(s, i) <= unit_of_char_index(s, j),
        i < j ==> byte_of_char_index(s, i) < byte_of_char_index(s, j),
        i < j ==> unit_of_char_index(s, i) < unit_of_char_index(s, j),
    decreases j - i,
{
    if i < j {
        lemma_offset_step(s, i);
        lemma_offset_monotone(s, i + 1, j);
    }
}

/// The whole text's offsets are reached at its last character index.
pub proof fn lemma_offset_at_end(s: Seq<char>)
    ensures
        byte_of_char_index(s, s.len() as int) == byte_len(s),
        unit_of_char_index(s, s.len() as int) == unit_len(s),
{
    assert(s.take(s.len() as int) =~= s);
}

/// A character never takes more code units than bytes, so code-unit
/// offsets never exceed byte offsets.
pub proof fn lemma_unit_len_le_byte_len(s: Seq<char>)
    ensures
        unit_len(s) <= byte_len(s),
    decreases s.len(),
{
    if s.len() > 0 {
        lemma_unit_len_le_byte_len(s.drop_first());
    }
}

/// The byte length used throughout this crate agrees with the length of
/// the text's real UTF-8 encoding.
pub proof fn lemma_byte_len_is_utf8_len(s: Seq<char>)
    ensures
        byte_len(s) == encode_utf8(s).len(),
    decreases s.len(),
{
    if s.len() > 0 {
        char_is_scalar(s[0]);
        assert(encode_scalar(s[0] as u32).len() == byte_width(s[0]));
        lemma_byte_len_is_utf8_len(s.drop_first());
    }
}

/// On a character boundary with `b > 0`, the first character is fully
/// contained in the prefix, and removing it preserves boundedness.
proof fn lemma_boundary_step(s: Seq<char>, b: int)
    requires
        is_byte_boundary(s, b),
        b > 0,
    ensures
        s.len() > 0,
        b >= byte_width(s[0]),
        is_byte_boundary(s.drop_first(), b - byte_width(s[0])),
{
    let i = choose|i: int| 0 <= i <= s.len() && byte_of_char_index(s, i) == b;
    assert(byte_of_char_index(s, 0) == 0) by {
        assert(s.take(0) =~= Seq::<char>::empty());
    }
    assert(i >= 1);
    assert(s.len() > 0);
    assert(s.take(i).drop_first() =~= s.drop_first().take(i - 1));
    assert(byte_of_char_index(s.drop_first(), i - 1) == b - byte_width(s[0])) by {
        assert(s.take(i)[0] == s[0]);
    }
}

/// The code-unit counterpart of `lemma_boundary_step`.
proof fn lemma_unit_boundary_step(s: Seq<char>, u: int)
    requires
        is_unit_boundary(s, u),
        u > 0,
    ensures
        s.len() > 0,
        u >= unit_width(s[0]),
        is_unit_boundary(s.drop_first(), u - unit_width(s[0])),
{
    let i = choose|i: int| 0 <= i <= s.len() && unit_of_char_index(s, i) == u;
    assert(unit_of_char_index(s, 0) == 0) by {
        assert(s.take(0) =~= Seq::<char>::empty());
    }
    assert(i >= 1);
    assert(s.len() > 0);
    assert(s.take(i).drop_first() =~= s.drop_first().take(i - 1));
    assert(unit_of_char_index(s.drop_first(), i - 1) == u - unit_width(s[0])) by {
        assert(s.take(i)[0] == s[0]);
    }
}

/// Translating a boundary byte offset lands on a code-unit boundary, and
/// translating back returns the original offset: the two maps are exact
/// inverses on character boundaries.
pub proof fn lemma_offset_round_trip(s: Seq<char>, b: int)
    requires
        is_byte_boundary(s, b),
        0 <= b,
    ensures
        is_unit_boundary(s, byte_to_unit(s, b) as int),
        unit_to_byte(s, byte_to_unit(s, b) as int) == b,
    decreases s.len(),
{
    if b == 0 {
        assert(unit_of_char_index(s, 0) == 0) by {
            assert(s.take(0) =~= Seq::<char>::empty());
        }
    } else {
        lemma_boundary_step(s, b);
        let rest = s.drop_first();
        let b2 = b - byte_width(s[0]);
        lemma_offset_round_trip(rest, b2);
        let u2 = byte_to_unit(rest, b2) as int;
        assert(byte_to_unit(s, b) == unit_width(s[0]) + u2);
        // a boundary of the tail shifts to a boundary of the whole text
        let j = choose|j: int| 0 <= j <= rest.len() && unit_of_char_index(rest, j) == u2;
        assert(s.take(j + 1).drop_first() =~= rest.take(j));
        assert(s.take(j + 1)[0] == s[0]);
        assert(unit_of_char_index(s, j + 1) == unit_width(s[0]) + u2);
    }
}

/// The reverse direction: translating a boundary code-unit offset to bytes
/// and back returns the original offset.
pub proof fn lemma_offset_round_trip_back(s: Seq<char>, u: int)
    requires
        is_unit_boundary(s, u),
        0 <= u,
    ensures
        is_byte_boundary(s, unit_to_byte(s, u) as int),
        byte_to_unit(s, unit_to_byte(s, u) as int) == u,
    decreases s.len(),
{
    if u == 0 {
        assert(byte_of_char_index(s, 0) == 0) by {
            assert(s.take(0) =~= Seq::<char>::empty());
        }
    } else {
        lemma_unit_boundary_step(s, u);
        let rest = s.drop_first();
        let u2 = u - unit_width(s[0]);
        lemma_offset_round_trip_back(rest, u2);
        let b2 = unit_to_byte(rest, u2) as int;
        assert(unit_to_byte(s, u) == byte_width(s[0]) + b2);
        let j = choose|j: int| 0 <= j <= rest.len() && byte_of_char_index(rest, j) == b2;
        assert(s.take(j + 1).drop_first() =~= rest.take(j));
        assert(s.take(j + 1)[0] == s[0]);
        assert(byte_of_char_index(s, j + 1) == byte_width(s[0]) + b2);
    }
}

/// Translating the byte offset of a character index yields that index's
/// code-unit offset.
pub proof fn lemma_byte_to_unit_at_index(s: Seq<char>, i: int)
    requires
        0 <= i <= s.len(),
    ensures
        byte_to_unit(s, byte_of_char_index(s, i) as int) == unit_of_char_index(s, i),
    decreases s.len(),
{
    if i == 0 {
        assert(s.take(0) =~= Seq::<char>::empty());
    } else {
        let rest = s.drop_first();
        assert(s.take(i).drop_first() =~= rest.take(i - 1));
        assert(s.take(i)[0] == s[0]);
        assert(byte_of_char_index(s, i) == byte_width(s[0]) + byte_of_char_index(rest, i - 1));
        assert(unit_of_char_index(s, i) == unit_width(s[0]) + unit_of_char_index(rest, i - 1));
        lemma_byte_to_unit_at_index(rest, i - 1);
    }
}

/// Translating the code-unit offset of a character index yields that
/// index's byte offset.
pub proof fn lemma_unit_to_byte_at_index(s: Seq<char>, i: int)
    requires
        0 <= i <= s.len(),
    ensures
        unit_to_byte(s, unit_of_char_index(s, i) as int) == byte_of_char_index(s, i),
    decreases s.len(),
{
    if i == 0 {
        assert(s.take(0) =~= Seq::<char>::empty());
    } else {
        let rest = s.drop_first();
        assert(s.take(i).drop_first() =~= rest.take(i - 1));
        assert(s.take(i)[0] == s[0]);
        assert(byte_of_char_index(s, i) == byte_width(s[0]) + byte_of_char_index(rest, i - 1));
        assert(unit_of_char_index(s, i) == unit_width(s[0]) + unit_of_char_index(rest, i - 1));
        lemma_unit_to_byte_at_index(rest, i - 1);
    }
}

/// In text made only of single-byte characters, byte offsets and code-unit
/// offsets coincide: the translation is the identity.
pub proof fn lemma_ascii_identity(s: Seq<char>, b: int)
    requires
        forall|i: int| 0 <= i < s.len() ==> (s[i] as u32) < 0x80,
        0 <= b <= byte_len(s),
    ensures
        byte_len(s) == s.len(),
        byte_to_unit(s, b) == b,
    decreases s.len(),
{
    if s.len() > 0 {
        assert(forall|i: int|
            0 <= i < s.drop_first().len() ==> (s.drop_first()[i] as u32) < 0x80);
        lemma_ascii_identity(s.drop_first(), if b >= 1 { b - 1 } else { 0 });
    }
}

/// Width in bytes of the UTF-8 encoding of `c`, computed.
pub fn char_byte_width(c: char) -> (w: usize)
    ensures
        w == byte_width(c),
{
    let u = c as u32;
    if u < 0x80 {
        1
    } else if u < 0x800 {
        2
    } else if u < 0x10000 {
        3
    } else {
        4
    }
}

/// Width in UTF-16 code units of the encoding of `c`, computed.
pub fn char_unit_width(c: char) -> (w: usize)
    ensures
        w == unit_width(c),
{
    if (c as u32) < 0x10000 {
        1
    } else {
        2
    }
}

/// Converts between byte offsets and UTF-16 code-unit offsets over one
/// logical text, held as its character sequence.
pub struct OffsetTranslator {
    chars: Vec<char>,
}

impl View for OffsetTranslator {
    type V = Seq<char>;

    closed spec fn view(&self) -> Seq<char> {
        self.chars@
    }
}

impl OffsetTranslator {
    /// The translator is usable when the text's byte length fits the
    /// machine's address space (always true of text that ever existed as a
    /// real string).
    pub open spec fn wf(&self) -> bool {
        byte_len(self@) <= usize::MAX
    }

    pub fn from_chars(chars: Vec<char>) -> (t: OffsetTranslator)
        requires
            byte_len(chars@) <= usize::MAX,
        ensures
            t@ == chars@,
            t.wf(),
    {
        OffsetTranslator { chars }
    }

    /// The text's total byte length.
    pub fn byte_length(&self) -> (n: usize)
        requires
            self.wf(),
        ensures
            n == byte_len(self@),
    {
        let ghost s = self@;
        let mut i: usize = 0;
        let mut bpos: usize = 0;
        let n = self.chars.len();
        while i < n
            invariant
                0 <= i <= n,
                n == s.len(),
                s == self@,
                self.wf(),
                bpos == byte_of_char_index(s, i as int),
            decreases n - i,
        {
            proof {
                lemma_offset_step(s, i as int);
                lemma_offset_monotone(s, i as int + 1, s.len() as int);
                lemma_offset_at_end(s);
            }
            bpos = bpos + char_byte_width(self.chars[i]);
            i = i + 1;
        }
        proof {
            lemma_offset_at_end(s);
        }
        bpos
    }

    /// The text's total code-unit length.
    pub fn code_unit_length(&self) -> (n: usize)
        requires
            self.wf(),
        ensures
            n == unit_len(self@),
    {
        let ghost s = self@;
        let mut i: usize = 0;
        let mut upos: usize = 0;
        let n = self.chars.len();
        while i < n
            invariant
                0 <= i <= n,
                n == s.len(),
                s == self@,
                self.wf(),
                upos == unit_of_char_index(s, i as int),
            decreases n - i,
        {
            proof {
                lemma_offset_step(s, i as int);
                lemma_offset_monotone(s, i as int + 1, s.len() as int);
                lemma_offset_at_end(s);
                lemma_unit_len_le_byte_len(s);
            }
            upos = upos + char_unit_width(self.chars[i]);
            i = i + 1;
        }
        proof {
            lemma_offset_at_end(s);
        }
        upos
    }

    /// Whether `b` is a character boundary of the text's byte encoding.
    pub fn is_boundary(&self, b: usize) -> (r: bool)
        requires
            self.wf(),
        ensures
            r == is_byte_boundary(self@, b as int),
    {
        let ghost s = self@;
        let mut i: usize = 0;
        let mut bpos: usize = 0;
        let n = self.chars.len();
        while bpos < b && i < n
            invariant
                0 <= i <= n,
                n == s.len(),
                s == self@,
                self.wf(),
                bpos == byte_of_char_index(s, i as int),
                forall|j: int| 0 <= j < i ==> byte_of_char_index(s, j) < b,
            decreases n - i,
        {
            proof {
                lemma_offset_step(s, i as int);
                lemma_offset_monotone(s, i as int + 1, s.len() as int);
                lemma_offset_at_end(s);
            }
            bpos = bpos + char_byte_width(self.chars[i]);
            i = i + 1;
        }
        if bpos == b {
            proof {
                assert(byte_of_char_index(s, i as int) == b);
            }
            true
        } else {
            proof {
                assert(bpos != b);
                assert forall|j: int| 0 <= j <= s.len() implies byte_of_char_index(s, j) != b by {
                    if j < i {
                    } else {
                        lemma_offset_monotone(s, i as int, j);
                        if bpos > b {
                        } else {
                            // the loop stopped because the text ran out
                            lemma_offset_monotone(s, j, s.len() as int);
                            lemma_offset_at_end(s);
                        }
                    }
                }
            }
            false
        }
    }

    /// Translates a boundary byte offset to the equivalent code-unit
    /// offset.
    pub fn byte_to_code_unit(&self, b: usize) -> (u: usize)
        requires
            self.wf(),
            is_byte_boundary(self@, b as int),
        ensures
            u == byte_to_unit(self@, b as int),
            is_unit_boundary(self@, u as int),
    {
        let ghost s = self@;
        let mut i: usize = 0;
        let mut bpos: usize = 0;
        let mut upos: usize = 0;
        let n = self.chars.len();
        while bpos < b
            invariant
                0 <= i <= n,
                n == s.len(),
                s == self@,
                self.wf(),
                is_byte_boundary(s, b as int),
                bpos <= b,
                bpos == byte_of_char_index(s, i as int),
                upos == unit_of_char_index(s, i as int),
            decreases n - i,
        {
            proof {
                let j = choose|j: int|
                    0 <= j <= s.len() && byte_of_char_index(s, j) == b as int;
                lemma_offset_monotone(s, j, s.len() as int);
                lemma_offset_at_end(s);
                assert(i < n) by {
                    if i == n {
                        lemma_offset_monotone(s, j, n as int);
                    }
                }
                lemma_offset_step(s, i as int);
                assert(i as int + 1 <= j) by {
                    if j <= i as int {
                        lemma_offset_monotone(s, j, i as int);
                    }
                }
                lemma_offset_monotone(s, i as int + 1, j);
                lemma_unit_len_le_byte_len(s);
                lemma_offset_monotone(s, i as int + 1, s.len() as int);
            }
            bpos = bpos + char_byte_width(self.chars[i]);
            upos = upos + char_unit_width(self.chars[i]);
            i = i + 1;
        }
        proof {
            lemma_byte_to_unit_at_index(s, i as int);
        }
        upos
    }

    /// Translates a boundary code-unit offset to the equivalent byte
    /// offset.
    pub fn code_unit_to_byte(&self, u: usize) -> (b: usize)
        requires
            self.wf(),
            is_unit_boundary(self@, u as int),
        ensures
            b == unit_to_byte(self@, u as int),
            is_byte_boundary(self@, b as int),
    {
        let ghost s = self@;
        let mut i: usize = 0;
        let mut bpos: usize = 0;
        let mut upos: usize = 0;
        let n = self.chars.len();
        while upos < u
            invariant
                0 <= i <= n,
                n == s.len(),
                s == self@,
                self.wf(),
                is_unit_boundary(s, u as int),
                upos <= u,
                bpos == byte_of_char_index(s, i as int),
                upos == unit_of_char_index(s, i as int),
            decreases n - i,
        {
            proof {
                let j = choose|j: int|
                    0 <= j <= s.len() && unit_of_char_index(s, j) == u as int;
                lemma_offset_monotone(s, j, s.len() as int);
                lemma_offset_at_end(s);
                assert(i < n) by {
                    if i == n {
                        lemma_offset_monotone(s, j, n as int);
                    }
                }
                lemma_offset_step(s, i as int);
                assert(i as int + 1 <= j) by {
                    if j <= i as int {
                        lemma_offset_monotone(s, j, i as int);
                    }
                }
                lemma_offset_monotone(s, i as int + 1, j);
                lemma_offset_monotone(s, i as int + 1, s.len() as int);
            }
            bpos = bpos + char_byte_width(self.chars[i]);
            upos = upos + char_unit_width(self.chars[i]);
            i = i + 1;
        }
        proof {
            lemma_unit_to_byte_at_index(s, i as int);
        }
        bpos
    }
}

} // verus!
