//! Verified parsing of single lines: locating the delimiter, trimming
//! whitespace, and splitting a line into its key and value.

use vstd::prelude::*;
use vstd::string::StrSliceExecFns;

use crate::model::contains_char;
use crate::model::is_space;
use crate::model::lemma_first_index_of;
use crate::model::lemma_trim_bounds;
use crate::model::line_entry;
use crate::model::trim;
use crate::store::SecretError;

verus! {

/// Whether `c` counts as whitespace for trimming.
fn is_space_char(c: char) -> (b: bool)
    ensures
        b == is_space(c),
{
    c == ' ' || c == '\t' || c == '\n' || c == '\r' || c == '\x0c'
}

/// The position of the first `=` in `line`, if the line has one.
fn find_eq(line: &str) -> (r: Option<usize>)
    ensures
        r matches Some(j) ==> j < line@.len() && line@[j as int] == '=' && (forall|i: int|
            0 <= i < j ==> line@[i] != '='),
        r is None ==> !contains_char(line@, '='),
{
    let n = line.unicode_len();
    let mut k: usize = 0;
    while k < n
        invariant
            k <= n,
            n == line@.len(),
            forall|i: int| 0 <= i < k ==> line@[i] != '=',
        decreases n - k,
    {
        if line.get_char(k) == '=' {
            return Some(k);
        }
        k += 1;
    }
    None
}

/// `s` without its leading and trailing whitespace.
fn trim_str<'a>(s: &'a str) -> (r: &'a str)
    ensures
        r@ == trim(s@),
{
    let n = s.unicode_len();
    let mut a: usize = 0;
    while a < n && is_space_char(s.get_char(a))
        invariant
            a <= n,
            n == s@.len(),
            forall|i: int| 0 <= i < a ==> is_space(s@[i]),
        decreases n - a,
    {
        a += 1;
    }
    let mut b: usize = n;
    while b > a && is_space_char(s.get_char(b - 1))
        invariant
            a <= b <= n,
            n == s@.len(),
            forall|i: int| b <= i < n ==> is_space(s@[i]),
        decreases b,
    {
        b -= 1;
    }
    proof {
        lemma_trim_bounds(s@, a as int, b as int);
    }
    s.substring_char(a, b)
}

/// Splits a line at its first `=` into a trimmed key and a trimmed value; the
/// value keeps any further `=` characters. A line without a delimiter cannot
/// be split and comes back as a `MalformedLine` error carrying the line.
pub fn separate_values_by_eq(line: &str) -> (r: Result<(String, String), SecretError>)
    ensures
        contains_char(line@, '=') ==> (r matches Ok(kv) && line_entry(line@) == Some(
            (kv.0@, kv.1@),
        )),
        !contains_char(line@, '=') ==> (r matches Err(e) && (e
            matches SecretError::MalformedLine(l) && l@ == line@)),
{
    match find_eq(line) {
        Some(j) => {
            proof {
                assert(contains_char(line@, '='));
                lemma_first_index_of(line@, '=');
            }
            let n = line.unicode_len();
            let key = trim_str(line.substring_char(0, j));
            let value = trim_str(line.substring_char(j + 1, n));
            proof {
                assert(line@.subrange(0, j as int) =~= line@.take(j as int));
                assert(line@.subrange(j + 1, line@.len() as int) =~= line@.skip(j + 1));
            }
            Ok((key.to_owned(), value.to_owned()))
        },
        None => Err(SecretError::MalformedLine(line.to_owned())),
    }
}

} // verus!
