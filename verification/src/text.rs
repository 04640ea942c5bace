//! Byte-level reading of UTF-8 source text: byte classes, runs of bytes of one
//! class, decimal numbers and slices that respect character boundaries.

use crate::tokens::Separator;
use vstd::prelude::*;
use vstd::string::*;
use vstd::utf8::*;

verus! {

/// Space, tab, line feed and carriage return separate tokens.
pub open spec fn is_blank(b: u8) -> bool {
    b == ' ' as u8 || b == '\t' as u8 || b == '\n' as u8 || b == '\r' as u8
}

/// A line feed starts a new line.
pub open spec fn is_line_break(b: u8) -> bool {
    b == '\n' as u8
}

/// The ten decimal digits.
pub open spec fn is_digit(b: u8) -> bool {
    '0' as u8 <= b <= '9' as u8
}

/// A word ends before a blank or a separator.
pub open spec fn is_delimiter(b: u8) -> bool {
    is_blank(b) || Separator::of_byte(b) is Some
}

/// The kinds of byte runs that a token scan steps over.
#[derive(Debug, Clone, Copy)]
pub enum Run {
    /// Decimal digits.
    Digits,
    /// Anything but a blank or a separator.
    Word,
    /// Anything but a double quote.
    Quoted,
}

impl Run {
    /// Whether a byte belongs to a run of this kind.
    pub open spec fn admits(self, b: u8) -> bool {
        match self {
            Run::Digits => is_digit(b),
            Run::Word => !is_delimiter(b),
            Run::Quoted => b != '"' as u8,
        }
    }

    /// Whether a byte belongs to a run of this kind.
    pub fn accepts(&self, b: u8) -> (r: bool)
        ensures
            r == self.admits(b),
    {
        match self {
            Run::Digits => '0' as u8 <= b && b <= '9' as u8,
            Run::Word => !(b == ' ' as u8 || b == '\t' as u8 || b == '\n' as u8 || b == '\r' as u8)
                && Separator::from_byte(b).is_none(),
            Run::Quoted => b != '"' as u8,
        }
    }
}

/// The first offset at or after `from` whose byte does not belong to the run,
/// or the length of the text when every byte from there on belongs to it.
pub open spec fn run_end(src: Seq<u8>, from: int, run: Run) -> int
    decreases src.len() - from,
{
    if 0 <= from < src.len() && run.admits(src[from]) {
        run_end(src, from + 1, run)
    } else {
        from
    }
}

/// A run ends within the text, holds only bytes of its kind, and stops at a
/// byte that is not of its kind.
pub proof fn lemma_run_end(src: Seq<u8>, from: int, run: Run)
    requires
        0 <= from <= src.len(),
    ensures
        from <= run_end(src, from, run) <= src.len(),
        forall|i: int| from <= i < run_end(src, from, run) ==> run.admits(#[trigger] src[i]),
        run_end(src, from, run) < src.len() ==> !run.admits(src[run_end(src, from, run)]),
    decreases src.len() - from,
{
    if from < src.len() && run.admits(src[from]) {
        lemma_run_end(src, from + 1, run);
    }
}

/// Finds where the run that starts at `from` ends.
pub fn find_run_end(bytes: &[u8], from: usize, run: Run) -> (end: usize)
    requires
        from <= bytes@.len(),
    ensures
        end == run_end(bytes@, from as int, run),
        from <= end <= bytes@.len(),
{
    let mut end: usize = from;
    while end < bytes.len() && run.accepts(bytes[end])
        invariant
            from <= end <= bytes@.len(),
            run_end(bytes@, from as int, run) == run_end(bytes@, end as int, run),
        decreases bytes@.len() - end,
    {
        end += 1;
    }
    end
}

/// The number that a run of decimal digits writes.
pub open spec fn decimal_value(digits: Seq<u8>) -> nat
    decreases digits.len(),
{
    if digits.len() == 0 {
        0
    } else {
        decimal_value(digits.drop_last()) * 10 + (digits.last() - '0' as u8) as nat
    }
}

/// Leading digits never write a larger number than the whole run.
pub proof fn lemma_decimal_prefix(digits: Seq<u8>, k: int)
    requires
        0 <= k <= digits.len(),
        forall|i: int| 0 <= i < digits.len() ==> is_digit(#[trigger] digits[i]),
    ensures
        decimal_value(digits.subrange(0, k)) <= decimal_value(digits),
    decreases digits.len(),
{
    if k == digits.len() {
        assert(digits.subrange(0, k) =~= digits);
    } else {
        let front = digits.drop_last();
        lemma_decimal_prefix(front, k);
        assert(front.subrange(0, k) =~= digits.subrange(0, k));
    }
}

/// Reads the digits between two offsets as an unsigned 32-bit number; there
/// is none when the digits write a number that does not fit.
pub fn parse_decimal(bytes: &[u8], from: usize, to: usize) -> (value: Option<u32>)
    requires
        from <= to <= bytes@.len(),
        forall|i: int| from <= i < to ==> is_digit(#[trigger] bytes@[i]),
    ensures
        value == if decimal_value(bytes@.subrange(from as int, to as int)) <= u32::MAX {
            Some(decimal_value(bytes@.subrange(from as int, to as int)) as u32)
        } else {
            None
        },
{
    let ghost digits = bytes@.subrange(from as int, to as int);
    let mut acc: u64 = 0;
    let mut i: usize = from;
    proof {
        assert(digits.subrange(0, 0) =~= Seq::<u8>::empty());
    }
    while i < to
        invariant
            from <= i <= to <= bytes@.len(),
            digits == bytes@.subrange(from as int, to as int),
            forall|j: int| 0 <= j < digits.len() ==> is_digit(#[trigger] digits[j]),
            acc == decimal_value(digits.subrange(0, i - from)),
            acc <= u32::MAX,
        decreases to - i,
    {
        assert(is_digit(digits[i - from]) && digits[i - from] == bytes@[i as int]);
        let digit: u64 = (bytes[i] - '0' as u8) as u64;
        proof {
            let upto = digits.subrange(0, i + 1 - from);
            assert(upto.drop_last() =~= digits.subrange(0, i - from));
            assert(upto.last() == bytes@[i as int]);
        }
        acc = acc * 10 + digit;
        i += 1;
        if acc > u32::MAX as u64 {
            proof {
                lemma_decimal_prefix(digits, i - from);
            }
            return None;
        }
    }
    proof {
        assert(digits.subrange(0, i - from) =~= digits);
    }
    Some(acc as u32)
}

/// Whether two byte strings are the same.
pub fn same_bytes(a: &[u8], b: &[u8]) -> (r: bool)
    ensures
        r == (a@ == b@),
{
    if a.len() != b.len() {
        return false;
    }
    let mut i: usize = 0;
    while i < a.len()
        invariant
            a@.len() == b@.len(),
            0 <= i <= a@.len(),
            forall|j: int| 0 <= j < i ==> a@[j] == b@[j],
        decreases a@.len() - i,
    {
        if a[i] != b[i] {
            return false;
        }
        i += 1;
    }
    assert(a@ =~= b@);
    true
}

/// An offset that holds a one-byte character lies between two characters.
pub proof fn lemma_boundary_at_ascii(bytes: Seq<u8>, i: int)
    requires
        valid_utf8(bytes),
        0 <= i < bytes.len(),
        bytes[i] < 0x80,
    ensures
        is_char_boundary(bytes, i),
{
    is_char_boundary_iff_not_is_continuation_byte(bytes, i);
}

/// The offset right after a one-byte character lies between two characters.
pub proof fn lemma_boundary_after_ascii(bytes: Seq<u8>, i: int)
    requires
        valid_utf8(bytes),
        0 <= i < bytes.len(),
        bytes[i] < 0x80,
    ensures
        is_char_boundary(bytes, i + 1),
{
    lemma_boundary_at_ascii(bytes, i);
    valid_utf8_split(bytes, i);
    let tail = bytes.subrange(i, bytes.len() as int);
    assert(tail[0] == bytes[i]);
    assert(length_of_first_scalar(tail) == 1);
    let rest = pop_first_scalar(tail);
    assert(rest =~= bytes.subrange(i + 1, bytes.len() as int));
    assert(valid_utf8(rest)) by {
        reveal_with_fuel(valid_utf8, 2);
    }
    if i + 1 == bytes.len() {
        is_char_boundary_start_end_of_seq(bytes);
    } else {
        assert(rest[0] == bytes[i + 1]);
        assert(valid_first_scalar(rest)) by {
            reveal_with_fuel(valid_utf8, 2);
        }
        is_char_boundary_iff_not_is_continuation_byte(bytes, i + 1);
    }
}

/// The part of `text` between two byte offsets that both lie between
/// characters.
pub fn slice_between<'a>(text: &'a str, from: usize, to: usize) -> (part: &'a str)
    requires
        from <= to <= text.spec_bytes().len(),
        is_char_boundary(text.spec_bytes(), from as int),
        is_char_boundary(text.spec_bytes(), to as int),
    ensures
        part.spec_bytes() == text.spec_bytes().subrange(from as int, to as int),
{
    let ghost bytes = text.spec_bytes();
    let (head, _) = text.split_at(to);
    proof {
        encode_utf8_valid_utf8(text@);
        valid_utf8_split(bytes, to as int);
        if from == to {
            is_char_boundary_start_end_of_seq(head.spec_bytes());
        } else {
            is_char_boundary_iff_not_is_continuation_byte(bytes, from as int);
            is_char_boundary_iff_not_is_continuation_byte(head.spec_bytes(), from as int);
        }
    }
    let (_, part) = head.split_at(from);
    assert(part.spec_bytes() =~= bytes.subrange(from as int, to as int));
    part
}

} // verus!
