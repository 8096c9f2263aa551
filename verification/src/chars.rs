//! The characters of a text, one at a time, with a look at the next one.

use vstd::prelude::*;
use vstd::string::*;
use vstd::utf8::*;
use crate::text::lemma_boundary_behind;

verus! {

/// `char::from_u32`: the character of a scalar value; `None` for a number
/// that is none.
#[verifier::external_body]
fn char_of(v: u32) -> (c: Option<char>)
    ensures
        is_scalar(v) ==> c == Some(v as char),
        !is_scalar(v) ==> c is None,
{
    char::from_u32(v)
}

/// Decodes the character that starts at `pos`: its scalar value, and where
/// the next one starts. `None` at the end of the bytes.
pub fn next_code_point(bytes: &[u8], pos: usize) -> (r: Option<(u32, usize)>)
    requires
        valid_utf8(bytes@),
        pos <= bytes@.len(),
        is_char_boundary(bytes@, pos as int),
    ensures
        pos == bytes@.len() ==> r is None,
        pos < bytes@.len() ==> (r matches Some((v, next)) && v == decode_first_scalar(
            bytes@.subrange(pos as int, bytes@.len() as int),
        ) && next == pos + length_of_first_scalar(bytes@.subrange(pos as int, bytes@.len() as int))
            && next <= bytes@.len() && valid_first_scalar(
            bytes@.subrange(pos as int, bytes@.len() as int),
        )),
{
    let n: usize = bytes.len();
    if pos >= n {
        return None;
    }
    let ghost rest = bytes@.subrange(pos as int, n as int);
    proof {
        valid_utf8_split(bytes@, pos as int);
        assert(valid_first_scalar(rest));
        assert(forall|k: int| 0 <= k < rest.len() ==> rest[k] == bytes@[pos + k]);
    }
    let x = bytes[pos];
    if x < 128 {
        proof {
            assert(x & 0x7f == x) by (bit_vector)
                requires
                    x < 128,
            ;
        }
        return Some((x as u32, pos + 1));
    }
    let init = (x & 0x1f) as u32;
    let y = bytes[pos + 1];
    let mut ch = (init << 6) | ((y & 0x3f) as u32);
    let mut next = pos + 2;
    if x >= 0xe0 {
        let z = bytes[pos + 2];
        let y_z = (((y & 0x3f) as u32) << 6) | ((z & 0x3f) as u32);
        ch = (init << 12) | y_z;
        next = pos + 3;
        proof {
            assert(x < 0xf0 ==> (((x & 0x1f) as u32) << 12) | ((((y & 0x3f) as u32) << 6) | ((z
                & 0x3f) as u32)) == (((x & 0x0f) as u32) << 12) | (((y & 0x3f) as u32) << 6) | ((z
                & 0x3f) as u32)) by (bit_vector)
                requires
                    x >= 0xe0,
            ;
        }
        if x >= 0xf0 {
            let w = bytes[pos + 3];
            ch = ((init & 7) << 18) | ((y_z << 6) | ((w & 0x3f) as u32));
            next = pos + 4;
            proof {
                assert(((((x & 0x1f) as u32) & 7) << 18) | ((((((y & 0x3f) as u32) << 6) | ((z
                    & 0x3f) as u32)) << 6) | ((w & 0x3f) as u32)) == (((x & 0x07) as u32) << 18)
                    | (((y & 0x3f) as u32) << 12) | (((z & 0x3f) as u32) << 6) | ((w
                    & 0x3f) as u32)) by (bit_vector);
            }
        }
    }
    Some((ch, next))
}

/// The characters of a text, one at a time. Beside the next character it
/// gives the place in the text behind that character.
pub struct Chars<'a> {
    text: &'a str,
    pos: usize,
    current: Option<char>,
}

impl<'a> Chars<'a> {
    /// The characters that are still to come, the next one first.
    pub closed spec fn remaining(&self) -> Seq<char> {
        match self.current {
            None => Seq::empty(),
            Some(c) => seq![c] + decode_utf8(
                self.text.spec_bytes().subrange(self.pos as int, self.text.spec_bytes().len() as int),
            ),
        }
    }

    /// The place, in bytes from the start of the text, behind the next
    /// character; the length of the text when no character is left.
    pub closed spec fn offset(&self) -> int {
        self.pos as int
    }

    /// The bytes of the text.
    pub closed spec fn source(&self) -> Seq<u8> {
        self.text.spec_bytes()
    }

    #[verifier::type_invariant]
    spec fn well_placed(&self) -> bool {
        &&& self.pos <= self.text.spec_bytes().len()
        &&& is_char_boundary(self.text.spec_bytes(), self.pos as int)
        &&& (self.current is None ==> self.pos == self.text.spec_bytes().len())
    }

    fn decode_at(text: &'a str, pos: usize) -> (r: (Option<char>, usize))
        requires
            pos <= text.spec_bytes().len(),
            is_char_boundary(text.spec_bytes(), pos as int),
        ensures
            r.1 <= text.spec_bytes().len(),
            is_char_boundary(text.spec_bytes(), r.1 as int),
            pos == text.spec_bytes().len() ==> r.0 is None && r.1 == pos,
            pos < text.spec_bytes().len() ==> r.0 is Some && decode_utf8(
                text.spec_bytes().subrange(pos as int, text.spec_bytes().len() as int),
            ) == seq![r.0->0] + decode_utf8(
                text.spec_bytes().subrange(r.1 as int, text.spec_bytes().len() as int),
            ),
    {
        let bytes = text.as_bytes();
        let ghost all = text.spec_bytes();
        proof {
            encode_utf8_valid_utf8(text@);
        }
        match next_code_point(bytes, pos) {
            None => (None, pos),
            Some((v, next)) => {
                let ghost rest = all.subrange(pos as int, all.len() as int);
                proof {
                    valid_utf8_split(all, pos as int);
                    assert(pop_first_scalar(rest) =~= all.subrange(next as int, all.len() as int));
                    assert(is_scalar(v)) by {
                        decode_utf8_first_scalar(rest);
                        lemma_first_is_scalar(rest);
                    }
                    lemma_boundary_behind(all, pos as int);
                }
                (char_of(v), next)
            },
        }
    }

    /// The characters of `text`.
    pub fn new(text: &'a str) -> (c: Chars<'a>)
        ensures
            c.remaining() == text@,
            c.source() == text.spec_bytes(),
    {
        proof {
            encode_utf8_valid_utf8(text@);
            is_char_boundary_start_end_of_seq(text.spec_bytes());
            encode_utf8_decode_utf8(text@);
            assert(text.spec_bytes().subrange(0, text.spec_bytes().len() as int)
                =~= text.spec_bytes());
        }
        let (current, pos) = Chars::decode_at(text, 0);
        proof {
            if text.spec_bytes().len() == 0 {
                assert(text@ =~= decode_utf8(text.spec_bytes()));
            }
        }
        Chars { text, pos, current }
    }

    /// The place, in bytes from the start of the text, behind the next
    /// character: what lies from there on is the text of the characters
    /// behind the next one. The length of the text when no character is left.
    pub fn as_ptr(&self) -> (at: usize)
        ensures
            at == self.offset(),
            at <= self.source().len(),
            self.remaining().len() == 0 ==> at == self.source().len(),
            self.remaining().len() > 0 ==> self.source().subrange(
                at as int,
                self.source().len() as int,
            ) == encode_utf8(self.remaining().drop_first()),
    {
        proof {
            use_type_invariant(self);
            let all = self.text.spec_bytes();
            let rest = all.subrange(self.pos as int, all.len() as int);
            encode_utf8_valid_utf8(self.text@);
            valid_utf8_split(all, self.pos as int);
            decode_utf8_encode_utf8(rest);
            match self.current {
                Some(c) => {
                    assert(self.remaining().drop_first() =~= decode_utf8(rest));
                },
                None => {},
            }
        }
        self.pos
    }

    /// The next character, which stays the next one.
    pub fn peek(&self) -> (c: Option<char>)
        ensures
            self.remaining().len() == 0 ==> c is None,
            self.remaining().len() > 0 ==> c == Some(self.remaining()[0]),
    {
        self.current
    }

    /// The next character, which is taken off.
    pub fn next(&mut self) -> (c: Option<char>)
        ensures
            old(self).remaining().len() == 0 ==> c is None && final(self).remaining()
                == old(self).remaining(),
            old(self).remaining().len() > 0 ==> c == Some(old(self).remaining()[0])
                && final(self).remaining() == old(self).remaining().drop_first(),
            final(self).source() == old(self).source(),
    {
        proof {
            use_type_invariant(&*self);
        }
        let tmp = self.current;
        let ghost before = self.remaining();
        let ghost all = self.text.spec_bytes();
        let (current, pos) = Chars::decode_at(self.text, self.pos);
        proof {
            if self.pos == all.len() {
                assert(all.subrange(all.len() as int, all.len() as int) =~= Seq::<u8>::empty());
            }
        }
        *self = Chars { text: self.text, pos, current };
        proof {
            if tmp is Some {
                assert(self.remaining() =~= before.drop_first());
            }
        }
        tmp
    }
}

/// The first scalar of valid UTF-8 is a scalar value.
proof fn lemma_first_is_scalar(bytes: Seq<u8>)
    requires
        valid_utf8(bytes),
        bytes.len() > 0,
    ensures
        is_scalar(decode_first_scalar(bytes)),
{
    let v = decode_first_scalar(bytes);
    if is_leading_byte_width_1(bytes[0]) {
        let b = bytes[0];
        assert((b & 0x7f) as u32 <= 0x7f) by (bit_vector);
    } else if is_leading_byte_width_2(bytes[0]) {
        let b1 = bytes[0];
        let b2 = bytes[1];
        assert((((b1 & 0x1f) as u32) << 6) | ((b2 & 0x3f) as u32) <= 0x7ff) by (bit_vector);
    } else if is_leading_byte_width_3(bytes[0]) {
        let b1 = bytes[0];
        let b2 = bytes[1];
        let b3 = bytes[2];
        assert((((b1 & 0x0f) as u32) << 12) | (((b2 & 0x3f) as u32) << 6) | ((b3 & 0x3f) as u32)
            <= 0xffff) by (bit_vector);
    } else {
    }
}

} // verus!
