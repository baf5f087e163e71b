//! Label resolution: an explicit label is used as given; without one, a
//! sixteen-character random alphanumeric fallback label is drawn, unique
//! only probabilistically.

use vstd::prelude::*;
use rand::distr::Alphanumeric;
use rand::distr::SampleString;

verus! {

/// An ASCII letter or digit.
pub open spec fn is_alnum_char(c: char) -> bool {
    ('a' <= c && c <= 'z') || ('A' <= c && c <= 'Z') || ('0' <= c && c <= '9')
}

/// A well-formed fallback label: sixteen alphanumeric characters.
pub open spec fn is_fallback_label(s: Seq<char>) -> bool {
    s.len() == 16 && forall|i: int| 0 <= i < s.len() ==> is_alnum_char(#[trigger] s[i])
}

/// Relies on rand's `Alphanumeric` distribution through `SampleString`:
/// the sample has exactly the requested number of characters, each an
/// ASCII letter or digit. Nothing more is promised of a random draw.
#[verifier::external_body]
fn random_alphanumeric(len: usize) -> (r: String)
    ensures
        r@.len() == len,
        forall|i: int| 0 <= i < r@.len() ==> is_alnum_char(#[trigger] r@[i]),
{
    Alphanumeric.sample_string(&mut rand::rng(), len)
}

/// Label resolution: the explicit label when one was supplied, else a
/// fresh sixteen-character random alphanumeric fallback. The second
/// component says whether the label was supplied by the caller.
pub fn resolve_label(explicit: Option<String>) -> (r: (String, bool))
    ensures
        match explicit {
            Option::Some(l) => r.1 && r.0@ == l@,
            Option::None => !r.1 && is_fallback_label(r.0@),
        },
{
    match explicit {
        Option::Some(l) => (l, true),
        Option::None => (random_alphanumeric(16), false),
    }
}

} // verus!
