use vstd::prelude::*;

verus! {

/// The character that `char::to_lowercase` yields first for `c`.
pub uninterp spec fn lower_of(c: char) -> char;

/// A character as compared under the given case sensitivity.
pub open spec fn fold(c: char, case_sensitive: bool) -> char {
    if case_sensitive {
        c
    } else {
        lower_of(c)
    }
}

/// Relies on `char::to_lowercase`: the first character of its result (the
/// character itself if the result were empty) depends on `c` alone.
#[verifier::external_body]
fn lowercase(c: char) -> (r: char)
    ensures
        r == lower_of(c),
{
    c.to_lowercase().next().unwrap_or(c)
}

/// Folds `c` to lower case unless the comparison is case sensitive.
pub fn fold_char(c: char, case_sensitive: bool) -> (r: char)
    ensures
        r == fold(c, case_sensitive),
{
    if case_sensitive {
        c
    } else {
        lowercase(c)
    }
}

} // verus!
