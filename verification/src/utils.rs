use vstd::prelude::*;

use vstd::std_specs::iter::IteratorSpec;

verus! {

broadcast use vstd::string::group_string_axioms;

pub open spec fn is_ascii_alphabetic(c: char) -> bool {
    ('a' <= c && c <= 'z') || ('A' <= c && c <= 'Z')
}

/// A valid name starts with an ASCII letter, or with `_` followed by at
/// least one more character.
pub open spec fn valid_name(s: Seq<char>) -> bool {
    &&& s.len() > 0
    &&& if s[0] == '_' {
        s.len() > 1
    } else {
        is_ascii_alphabetic(s[0])
    }
}

/// Whether `s` is a valid name.
pub fn is_valid_name(s: &str) -> (r: bool)
    ensures
        r == valid_name(s@),
{
    let mut chars = s.chars();
    let ghost all = chars.remaining();
    match chars.next() {
        Some('_') => {
            let more = chars.next();
            proof {
                if more is Some {
                    assert(all.len() > 1);
                } else {
                    assert(all.len() == 1);
                }
            }
            more.is_some()
        },
        Some(c) => ('a' <= c && c <= 'z') || ('A' <= c && c <= 'Z'),
        None => false,
    }
}

} // verus!
