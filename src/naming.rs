use vstd::prelude::*;
use crate::text::{chars_of, lower_of, lowercase, string_of};

verus! {

/// Longest raid name, in characters.
pub const MAX_NAME_LEN: usize = 20;

/// What a character of a lowercased name becomes: a space turns into an
/// underscore, `a`-`z`, `0`-`9` and `_` stay, anything else is dropped.
pub open spec fn name_char(c: char) -> Option<char> {
    if c == ' ' {
        Some('_')
    } else if ('a' <= c && c <= 'z') || ('0' <= c && c <= '9') || c == '_' {
        Some(c)
    } else {
        None
    }
}

/// The characters of `s` that a raid name keeps, each as `name_char` makes it.
pub open spec fn sanitized(s: Seq<char>) -> Seq<char>
    decreases s.len(),
{
    if s.len() == 0 {
        s
    } else {
        let rest = sanitized(s.drop_last());
        match name_char(s.last()) {
            Some(c) => rest.push(c),
            None => rest,
        }
    }
}

/// The raid name made of already lowercased text: sanitized and cut to
/// `MAX_NAME_LEN` characters.
pub open spec fn normalized(lowered: Seq<char>) -> Seq<char> {
    let t = sanitized(lowered);
    if t.len() > MAX_NAME_LEN {
        t.take(MAX_NAME_LEN as int)
    } else {
        t
    }
}

fn map_name_char(c: char) -> (r: Option<char>)
    ensures
        r == name_char(c),
{
    if c == ' ' {
        Some('_')
    } else if ('a' <= c && c <= 'z') || ('0' <= c && c <= '9') || c == '_' {
        Some(c)
    } else {
        None
    }
}

/// The raid name made of lowercased text.
pub fn normalize_lowered(lowered: &Vec<char>) -> (r: Vec<char>)
    ensures
        r@ == normalized(lowered@),
{
    let mut out: Vec<char> = Vec::new();
    let mut i: usize = 0;
    while i < lowered.len()
        invariant
            i <= lowered@.len(),
            out@ == normalized(lowered@.take(i as int)),
        decreases lowered@.len() - i,
    {
        let ghost t = sanitized(lowered@.take(i as int));
        assert(lowered@.take(i as int + 1).drop_last() =~= lowered@.take(i as int));
        assert(lowered@.take(i as int + 1).last() == lowered@[i as int]);
        match map_name_char(lowered[i]) {
            Some(c) => {
                if out.len() < MAX_NAME_LEN {
                    out.push(c);
                    assert(out@ =~= normalized(lowered@.take(i as int + 1)));
                } else {
                    assert(t.push(c).take(MAX_NAME_LEN as int) =~= t.take(MAX_NAME_LEN as int));
                }
            },
            None => {},
        }
        i = i + 1;
    }
    assert(lowered@.take(lowered@.len() as int) =~= lowered@);
    out
}

/// The raid name made of text a user typed: lowercased, spaces turned into
/// underscores, characters other than `a`-`z`, `0`-`9` and `_` dropped, and
/// cut to `MAX_NAME_LEN` characters.
pub fn normalize_raid_name(raw: &str) -> (r: String)
    ensures
        r@ == normalized(lower_of(raw@)),
{
    let lowered = lowercase(raw);
    let chars = chars_of(lowered.as_str());
    let name = normalize_lowered(&chars);
    string_of(&name)
}

} // verus!
