//! The name by which other devices know this one, until its user picks another.

use crate::text::{same, trim, trimmed};
use vstd::prelude::*;

verus! {

broadcast use vstd::string::group_string_axioms;

/// Names that do not tell one device from another.
pub const PLACEHOLDERS: [&'static str; 3] = ["Android", "Sway", "localhost"];

/// A name that does not tell one device from another.
pub open spec fn is_placeholder(name: Seq<char>) -> bool {
    name == "Android"@ || name == "Sway"@ || name == "localhost"@
}

/// A name that tells a device from another.
pub open spec fn is_name(name: Seq<char>) -> bool {
    name.len() > 0 && !is_placeholder(name)
}

/// Whether `name` tells a device from another.
pub fn names_a_device(name: &str) -> (r: bool)
    ensures
        r == is_name(name@),
{
    !name.is_empty() && !same(name, PLACEHOLDERS[0]) && !same(name, PLACEHOLDERS[1]) && !same(
        name,
        PLACEHOLDERS[2],
    )
}

/// The first of the variables that is set.
pub open spec fn first_set(vars: Seq<Option<String>>) -> Option<Seq<char>>
    decreases vars.len(),
{
    if vars.len() == 0 {
        None
    } else if vars[0] is Some {
        Some(vars[0]->0@)
    } else {
        first_set(vars.drop_first())
    }
}

/// The name to start with: what the first variable that is set holds, if that
/// tells one device from another, and the name of the platform if not.
pub open spec fn default_name(vars: Seq<Option<String>>, android: bool) -> Seq<char> {
    let fallback = if android {
        "Android"@
    } else {
        "Sway"@
    };
    match first_set(vars) {
        Some(v) => if is_name(trimmed(v)) {
            trimmed(v)
        } else {
            fallback
        },
        None => fallback,
    }
}

/// The name to start with, out of the variables that may hold one, in the order
/// in which they are asked.
pub fn default_device_name(vars: &[Option<String>], android: bool) -> (r: String)
    ensures
        r@ == default_name(vars@, android),
        r@.len() > 0,
        !android ==> r@ != "Android"@,
{
    let fallback: &str = if android {
        "Android"
    } else {
        "Sway"
    };
    proof {
        reveal_strlit("Android");
        reveal_strlit("Sway");
        assert("Android"@.len() != "Sway"@.len());
        assert(vars@.skip(0) =~= vars@);
    }
    for i in 0..vars.len()
        invariant
            first_set(vars@) == first_set(vars@.skip(i as int)),
            fallback@ == if android {
                "Android"@
            } else {
                "Sway"@
            },
            fallback@.len() > 0,
            !android ==> fallback@ != "Android"@,
    {
        proof {
            assert(vars@.skip(i as int).drop_first() =~= vars@.skip(i + 1));
        }
        if let Some(v) = &vars[i] {
            let t: String = trim(v.as_str());
            if names_a_device(t.as_str()) {
                return t;
            }
            return fallback.to_owned();
        }
    }
    fallback.to_owned()
}

} // verus!
