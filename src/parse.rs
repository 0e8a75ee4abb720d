use num::Complex;
use std::str::FromStr;
use vstd::prelude::*;
use vstd::string::StrSliceExecFns;

verus! {

/// `s` is `left`, then `separator`, then `right`, where `left` holds no
/// `separator`: the split at the first occurrence.
pub open spec fn splits_at_first(s: Seq<char>, separator: char, left: Seq<char>, right: Seq<char>) -> bool {
    &&& s == left + seq![separator] + right
    &&& !left.contains(separator)
}

/// Splits `s` at the first occurrence of `separator`; `None` when it does not occur.
pub fn split_pair<'a>(s: &'a str, separator: char) -> (r: Option<(&'a str, &'a str)>)
    ensures
        r is None <==> !s@.contains(separator),
        r matches Some((left, right)) ==> splits_at_first(s@, separator, left@, right@),
{
    let n = s.unicode_len();
    let mut i: usize = 0;
    while i < n
        invariant
            n == s@.len(),
            i <= n,
            forall|j: int| 0 <= j < i ==> s@[j] != separator,
        decreases n - i,
    {
        if s.get_char(i) == separator {
            let left = s.substring_char(0, i);
            let right = s.substring_char(i + 1, n);
            assert(s@ =~= left@ + seq![separator] + right@);
            assert(!left@.contains(separator)) by {
                assert forall|j: int| 0 <= j < left@.len() implies left@[j] != separator by {
                    assert(left@[j] == s@[j]);
                }
            }
            return Some((left, right));
        }
        i = i + 1;
    }
    None
}

/// Relies on `FromStr::from_str` of `T`: the parsed value, or `None` on its error.
#[verifier::external_body]
fn parse_field<T: FromStr>(s: &str) -> Option<T> {
    T::from_str(s).ok()
}

/// The pair of two parsed halves, left first: `None` when either is missing.
pub open spec fn pair_spec<T>(left: Option<T>, right: Option<T>) -> Option<(T, T)> {
    match (left, right) {
        (Some(a), Some(b)) => Some((a, b)),
        _ => None,
    }
}

/// Pairs the results of parsing the two halves of a pair.
pub fn pair_of<T>(left: Option<T>, right: Option<T>) -> (r: Option<(T, T)>)
    ensures
        r == pair_spec(left, right),
{
    match (left, right) {
        (Some(a), Some(b)) => Some((a, b)),
        _ => None,
    }
}

/// Parses `"<left><separator><right>"` into two values of `T`.
///
/// The string is split at the first `separator`, and each side is parsed on
/// its own with `T::from_str`. The result is `None` when the separator does
/// not occur or when either side does not parse.
pub fn parse_pair<T: FromStr>(s: &str, separator: char) -> (r: Option<(T, T)>)
    ensures
        !s@.contains(separator) ==> r is None,
{
    match split_pair(s, separator) {
        None => None,
        Some((left, right)) => pair_of(parse_field::<T>(left), parse_field::<T>(right)),
    }
}

/// `num::Complex`, read through its two public fields `re` and `im`.
#[verifier::external_type_specification]
#[verifier::reject_recursive_types(T)]
pub struct ExComplex<T>(Complex<T>);

/// The complex number whose real and imaginary parts are the two values of
/// `pair`, in that order.
pub fn complex_of<T>(pair: Option<(T, T)>) -> (r: Option<Complex<T>>)
    ensures
        r is None <==> pair is None,
        r matches Some(z) ==> pair matches Some((a, b)) && z.re == a && z.im == b,
{
    match pair {
        Some((re, im)) => Some(Complex { re, im }),
        None => None,
    }
}

/// Parses `"<re>,<im>"` into a complex number whose parts are parsed with
/// `T::from_str`, as [`parse_pair`] does with the separator `,`.
pub fn parse_complex<T: FromStr>(s: &str) -> (r: Option<Complex<T>>)
    ensures
        !s@.contains(',') ==> r is None,
{
    complex_of(parse_pair::<T>(s, ','))
}

} // verus!
