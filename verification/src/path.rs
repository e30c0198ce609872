//! Paths as text.

use vstd::prelude::*;
use crate::text::{chars_of, push_text, string_of};

verus! {

/// A path with a name behind it: a separator comes between, unless the path ends in one or is
/// empty.
pub open spec fn joined(base: Seq<char>, name: Seq<char>) -> Seq<char> {
    if base.len() == 0 || base.last() == '/' {
        base + name
    } else {
        base + seq!['/'] + name
    }
}

/// Put a relative name behind a path.
pub fn join(base: &str, name: &str) -> (out: String)
    ensures
        out@ == joined(base@, name@),
{
    let mut chars: Vec<char> = chars_of(base);
    if chars.len() > 0 && chars[chars.len() - 1] != '/' {
        chars.push('/');
    }
    push_text(&mut chars, name);
    proof {
        assert(chars@ =~= joined(base@, name@));
    }
    string_of(&chars)
}

/// A path that was joined begins with the base and ends with the name, and exactly one separator
/// stands between the two, whether or not the base ends in one.
pub proof fn law_one_separator_between(base: Seq<char>, name: Seq<char>)
    requires
        base.len() > 0,
        base.last() != '/',
    ensures
        joined(base, name) == joined(base.push('/'), name),
        joined(base, name).len() == base.len() + 1 + name.len(),
        joined(base, name).take(base.len() as int) == base,
        joined(base, name)[base.len() as int] == '/',
        joined(base, name).skip((base.len() + 1) as int) == name,
        joined(Seq::empty(), name) == name,
{
    let path = joined(base, name);
    assert(path =~= joined(base.push('/'), name));
    assert(path.take(base.len() as int) =~= base);
    assert(path.skip((base.len() + 1) as int) =~= name);
    assert(joined(Seq::empty(), name) =~= name);
}

} // verus!
