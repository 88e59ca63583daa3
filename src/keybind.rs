use vstd::prelude::*;
use crate::text::chars_of;

verus! {

/// The source of hotkey events: one event per press of the trigger key.
pub struct Keybind {}

/// What the hotkey source emits.
#[derive(Debug, Clone, Copy, PartialEq, Eq)]
pub enum Event {
    Keypress,
}

/// The digit that a character of a code is typed as; other characters are
/// typed as no key at all.
pub open spec fn digit_of(c: char) -> Option<u8> {
    if '0' <= c && c <= '9' {
        Some((c as u32 - '0' as u32) as u8)
    } else {
        None
    }
}

/// The digit keys typed for `code`, in order.
pub open spec fn digits_of(code: Seq<char>) -> Seq<u8>
    decreases code.len(),
{
    if code.len() == 0 {
        Seq::empty()
    } else {
        let rest = digits_of(code.drop_last());
        match digit_of(code.last()) {
            Some(d) => rest.push(d),
            None => rest,
        }
    }
}

/// The digit keys (`0`-`9`) to type for `code`; characters that are not
/// digits are skipped.
pub fn key_sequence(code: &str) -> (r: Vec<u8>)
    ensures
        r@ == digits_of(code@),
{
    let chars = chars_of(code);
    let mut out: Vec<u8> = Vec::new();
    let mut i: usize = 0;
    while i < chars.len()
        invariant
            i <= chars@.len(),
            chars@ == code@,
            out@ == digits_of(chars@.take(i as int)),
        decreases chars@.len() - i,
    {
        assert(chars@.take(i as int + 1).drop_last() =~= chars@.take(i as int));
        assert(chars@.take(i as int + 1).last() == chars@[i as int]);
        let c = chars[i];
        if '0' <= c && c <= '9' {
            out.push((c as u32 - '0' as u32) as u8);
        }
        i = i + 1;
    }
    assert(chars@.take(chars@.len() as int) =~= chars@);
    out
}

} // verus!
