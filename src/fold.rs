use vstd::prelude::*;

verus! {

/// The first character that `char::to_lowercase` yields for `c`: its simple
/// lowercase mapping.
pub uninterp spec fn lower_first(c: char) -> char;

/// The comparison form of a character sequence: each character replaced by its
/// simple lowercase mapping. One character maps to exactly one character, so
/// folding keeps every position where it was.
pub open spec fn fold(s: Seq<char>) -> Seq<char> {
    s.map_values(|c: char| lower_first(c))
}

/// What a search compares: the folded form when case is ignored, else the
/// sequence itself.
pub open spec fn compare_form(s: Seq<char>, ignore_case: bool) -> Seq<char> {
    if ignore_case {
        fold(s)
    } else {
        s
    }
}

/// Relies on `char::to_lowercase`, which yields one or more characters; the
/// first of them is named `lower_first(c)`.
#[verifier::external_body]
fn first_lowercase(c: char) -> (r: Option<char>)
    ensures
        r == Some(lower_first(c)),
{
    c.to_lowercase().next()
}

/// Simple lowercase mapping of one character.
pub fn lower_char(c: char) -> (r: char)
    ensures
        r == lower_first(c),
{
    match first_lowercase(c) {
        Some(d) => d,
        None => c,
    }
}

/// The comparison form of `s` under `ignore_case`.
pub fn compare_chars(s: &Vec<char>, ignore_case: bool) -> (r: Vec<char>)
    ensures
        r@ == compare_form(s@, ignore_case),
{
    let mut out: Vec<char> = Vec::new();
    let mut i: usize = 0;
    while i < s.len()
        invariant
            i <= s.len(),
            out@ == compare_form(s@.take(i as int), ignore_case),
        decreases s.len() - i,
    {
        let c = s[i];
        if ignore_case {
            out.push(lower_char(c));
        } else {
            out.push(c);
        }
        i += 1;
        assert(s@.take(i as int) =~= s@.take(i - 1).push(c));
        assert(compare_form(s@.take(i as int), ignore_case) =~= compare_form(
            s@.take(i - 1),
            ignore_case,
        ).push(out@.last()));
    }
    assert(s@.take(i as int) =~= s@);
    out
}

} // verus!
