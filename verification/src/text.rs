//! Reading squares written as one character per cell.
use vstd::prelude::*;
use vstd::std_specs::iter::IteratorSpec;

verus! {

/// The value of a digit in the given base (at most 16), either case for letters.
pub open spec fn digit_value(c: char, radix: u32) -> Option<u32> {
    let v: int = if '0' <= c && c <= '9' {
        c as int - '0' as int
    } else if 'a' <= c && c <= 'z' {
        c as int - 'a' as int + 10
    } else if 'A' <= c && c <= 'Z' {
        c as int - 'A' as int + 10
    } else {
        99
    };
    if v < radix {
        Some(v as u32)
    } else {
        None
    }
}

/// The value of the digit `c` in base `radix`, as `char::to_digit` gives it.
pub fn to_digit(c: char, radix: u32) -> (r: Option<u32>)
    requires
        2 <= radix <= 16,
    ensures
        r == digit_value(c, radix),
{
    let v: u32 = if '0' <= c && c <= '9' {
        (c as u32) - ('0' as u32)
    } else if 'a' <= c && c <= 'z' {
        (c as u32) - ('a' as u32) + 10
    } else if 'A' <= c && c <= 'Z' {
        (c as u32) - ('A' as u32) + 10
    } else {
        99
    };
    if v < radix {
        Some(v)
    } else {
        None
    }
}

/// Each character takes at least one byte.
pub proof fn lemma_chars_fit_bytes(chars: Seq<char>)
    ensures
        chars.len() <= vstd::utf8::encode_utf8(chars).len(),
    decreases chars.len(),
{
    if chars.len() > 0 {
        lemma_chars_fit_bytes(chars.drop_first());
        assert(vstd::utf8::encode_scalar(chars[0] as u32).len() >= 1);
    }
}

/// A character stands for a cell value below `bound` in the given base.
pub open spec fn is_cell_digit(c: char, radix: u32, bound: nat) -> bool {
    digit_value(c, radix) matches Some(v) && v < bound
}

/// Every one of the first `k` characters is a cell digit.
pub open spec fn digits_before(chars: Seq<char>, k: int, radix: u32, bound: nat) -> bool {
    forall|i: int| 0 <= i < k ==> #[trigger] is_cell_digit(chars[i], radix, bound)
}

/// Every one of the first `k` characters is a cell digit or a dot.
pub open spec fn cells_before(chars: Seq<char>, k: int, radix: u32, bound: nat) -> bool {
    forall|i: int| 0 <= i < k ==> chars[i] == '.' || #[trigger] is_cell_digit(chars[i], radix, bound)
}

/// The value of a cell digit.
pub open spec fn cell_value(c: char, radix: u32) -> u8 {
    match digit_value(c, radix) {
        Some(v) => v as u8,
        None => 0,
    }
}

/// The characters of `s`.
pub fn chars_of(s: &str) -> (r: Vec<char>)
    ensures
        r@ == s@,
{
    let mut out: Vec<char> = Vec::new();
    let mut it = s.chars();
    proof {
        broadcast use vstd::string::axiom_spec_iter;
    }
    let ghost all = it.remaining();
    assert(all == s@);
    loop
        invariant
            out@ + it.remaining() == all,
            it.obeys_prophetic_iter_laws(),
            it.decrease() is Some,
        ensures
            out@ == all,
        decreases it.decrease()->0,
    {
        let ghost before = it.remaining();
        let c = it.next();
        proof {
            broadcast use vstd::string::next_postcondition;
        }
        match c {
            Some(ch) => {
                out.push(ch);
                assert(out@ + it.remaining() =~= all);
            },
            None => {
                assert(out@ =~= all);
                break;
            },
        }
    }
    out
}

/// The number of bytes that the UTF-8 encoding of `c` takes.
pub fn char_width(c: char) -> (r: usize)
    ensures
        r == vstd::utf8::encode_scalar(c as u32).len(),
        1 <= r <= 4,
{
    let u = c as u32;
    if u < 0x80 {
        1
    } else if u < 0x800 {
        2
    } else if u < 0x10000 {
        proof {
            vstd::utf8::char_is_scalar(c);
        }
        3
    } else {
        4
    }
}

/// Appending a character adds its width to the length of the encoding.
pub proof fn lemma_encode_push(s: Seq<char>, c: char)
    ensures
        vstd::utf8::encode_utf8(s.push(c)).len() == vstd::utf8::encode_utf8(s).len()
            + vstd::utf8::encode_scalar(c as u32).len(),
    decreases s.len(),
{
    if s.len() > 0 {
        lemma_encode_push(s.drop_first(), c);
        assert(s.push(c).drop_first() =~= s.drop_first().push(c));
        assert(s.push(c)[0] == s[0]);
        assert(vstd::utf8::encode_utf8(s.push(c)) == vstd::utf8::encode_scalar(s[0] as u32)
            + vstd::utf8::encode_utf8(s.drop_first().push(c)));
        assert(vstd::utf8::encode_utf8(s) == vstd::utf8::encode_scalar(s[0] as u32)
            + vstd::utf8::encode_utf8(s.drop_first()));
    } else {
        assert(s.push(c).drop_first() =~= Seq::<char>::empty());
        assert(s.push(c)[0] == c);
        assert(vstd::utf8::encode_utf8(s.push(c)) == vstd::utf8::encode_scalar(c as u32)
            + vstd::utf8::encode_utf8(Seq::<char>::empty()));
    }
}

/// The character that writes a digit below 16: '0' to '9', then 'a' to 'f'.
pub open spec fn digit_char(v: int) -> char {
    if v < 10 {
        (48 + v) as char
    } else {
        (87 + v) as char
    }
}

/// The character that writes the digit `v`, as `char::from_digit` gives it.
pub fn to_digit_char(v: u8) -> (c: char)
    requires
        v < 16,
    ensures
        c == digit_char(v as int),
        (c as u32) < 128,
{
    if v < 10 {
        (48u8 + v) as char
    } else {
        (87u8 + v) as char
    }
}

/// A digit written as a character is read back as itself.
pub proof fn lemma_digit_char(v: int, radix: u32)
    requires
        0 <= v < radix,
        2 <= radix <= 16,
    ensures
        digit_value(digit_char(v), radix) == Some(v as u32),
        (digit_char(v) as u32) < 128,
        digit_char(v) != '.',
{
}

/// Text of characters below 128 takes one byte per character.
pub proof fn lemma_ascii_len(s: Seq<char>)
    requires
        forall|k: int| 0 <= k < s.len() ==> (#[trigger] s[k] as u32) < 128,
    ensures
        vstd::utf8::encode_utf8(s).len() == s.len(),
    decreases s.len(),
{
    if s.len() > 0 {
        assert forall|k: int| 0 <= k < s.drop_first().len() implies (#[trigger] s.drop_first()[k] as u32) < 128 by {
            assert(s.drop_first()[k] == s[k + 1]);
        }
        lemma_ascii_len(s.drop_first());
        assert((s[0] as u32) < 128);
    }
}

/// The string of the characters, in order (`String`'s `FromIterator<char>`).
#[verifier::external_body]
pub(crate) fn string_from_chars(chars: Vec<char>) -> (s: String)
    ensures
        s@ == chars@,
{
    String::from_iter(chars)
}

} // verus!
