//! Cutting text: where a source that is UTF-8 may be cut into pieces that are
//! UTF-8 again.

use vstd::prelude::*;
use vstd::string::*;
use vstd::utf8::*;
use crate::span::Span;

verus! {

/// Whether `i` is a place where the scanner cuts: the start or the end of the
/// bytes, just behind an ASCII byte, or just before a byte that does not
/// continue a character.
pub open spec fn cut_ok(bytes: Seq<u8>, i: int) -> bool {
    0 <= i <= bytes.len() && (i == 0 || i == bytes.len() || bytes[i - 1] < 0x80
        || !is_continuation_byte(bytes[i]))
}

/// Whether a piece starts and ends at cuts.
pub open spec fn piece_ok(bytes: Seq<u8>, at: (int, int)) -> bool {
    at.0 <= at.1 && cut_ok(bytes, at.0) && cut_ok(bytes, at.1)
}

/// In UTF-8, behind the character that starts at a boundary is a boundary.
pub proof fn lemma_boundary_behind(bytes: Seq<u8>, i: int)
    requires
        valid_utf8(bytes),
        0 <= i < bytes.len(),
        is_char_boundary(bytes, i),
    ensures
        is_char_boundary(
            bytes,
            i + length_of_first_scalar(bytes.subrange(i, bytes.len() as int)),
        ),
    decreases bytes.len(),
{
    let rest = pop_first_scalar(bytes);
    let first = length_of_first_scalar(bytes);
    if i == 0 {
        assert(bytes.subrange(0, bytes.len() as int) =~= bytes);
        assert(is_char_boundary(rest, 0));
    } else {
        reveal_with_fuel(is_char_boundary, 2);
        assert(i >= first);
        assert(rest.subrange(i - first, rest.len() as int) =~= bytes.subrange(
            i,
            bytes.len() as int,
        ));
        lemma_boundary_behind(rest, i - first);
    }
}

/// In UTF-8, every cut is the boundary of a character.
pub proof fn lemma_cut_is_boundary(bytes: Seq<u8>, i: int)
    requires
        valid_utf8(bytes),
        cut_ok(bytes, i),
    ensures
        is_char_boundary(bytes, i),
{
    if i == 0 || i == bytes.len() {
        is_char_boundary_start_end_of_seq(bytes);
    } else if bytes[i - 1] < 0x80 {
        is_char_boundary_iff_not_is_continuation_byte(bytes, i - 1);
        assert(bytes.subrange(i - 1, bytes.len() as int)[0] == bytes[i - 1]);
        lemma_boundary_behind(bytes, i - 1);
    } else {
        is_char_boundary_iff_not_is_continuation_byte(bytes, i);
    }
}

/// The text of `s` between two cuts.
pub fn substr<'a>(s: &'a str, at: Span) -> (r: &'a str)
    requires
        piece_ok(s.spec_bytes(), at@),
    ensures
        r.spec_bytes() == s.spec_bytes().subrange(at.start as int, at.end as int),
{
    let ghost bytes = s.spec_bytes();
    proof {
        encode_utf8_valid_utf8(s@);
        lemma_cut_is_boundary(bytes, at.end as int);
        lemma_cut_is_boundary(bytes, at.start as int);
        valid_utf8_split(bytes, at.end as int);
    }
    let (head, _) = s.split_at(at.end);
    proof {
        let h = bytes.subrange(0, at.end as int);
        assert(head.spec_bytes() == h);
        if at.start < at.end {
            is_char_boundary_iff_not_is_continuation_byte(bytes, at.start as int);
            assert(h[at.start as int] == bytes[at.start as int]);
            is_char_boundary_iff_not_is_continuation_byte(h, at.start as int);
        } else {
            is_char_boundary_start_end_of_seq(h);
        }
    }
    let (_, r) = head.split_at(at.start);
    proof {
        assert(r.spec_bytes() =~= bytes.subrange(at.start as int, at.end as int));
    }
    r
}

} // verus!
