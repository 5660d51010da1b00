use lazy_regex::Regex;
use vstd::prelude::*;
use vstd::string::StringSliceAdditionalSpecFns;
use vstd::utf8::{encode_utf8, encode_utf8_decode_utf8, is_char_boundary};

verus! {

/// A compiled regular expression of the `regex` crate, carried through as it is.
#[verifier::external_type_specification]
#[verifier::external_body]
pub struct ExRegex(Regex);

/// The leftmost-first match of `regex` in `haystack`, as the byte offsets of its start and
/// its end in the UTF-8 encoding of `haystack`; `None` where nothing matches.
pub uninterp spec fn leftmost_match(regex: Regex, haystack: Seq<char>) -> Option<(nat, nat)>;

/// `Regex::find`, with the offsets of the `Match` it returns. Trusted: the result is the
/// leftmost-first match, a function of the expression and the haystack alone; its offsets
/// are ordered, lie within the haystack and fall on character boundaries.
#[verifier::external_body]
pub(crate) fn find_leftmost(regex: &Regex, haystack: &str) -> (found: Option<(usize, usize)>)
    ensures
        match found {
            Some((start, end)) => {
                &&& leftmost_match(*regex, haystack@) == Some((start as nat, end as nat))
                &&& start <= end <= haystack.spec_bytes().len()
                &&& is_char_boundary(haystack.spec_bytes(), start as int)
                &&& is_char_boundary(haystack.spec_bytes(), end as int)
            },
            None => leftmost_match(*regex, haystack@) is None,
        },
{
    regex.find(haystack).map(|m| (m.start(), m.end()))
}

/// Whether `a` and `b` hold the same characters, decided on their bytes.
pub fn same_text(a: &str, b: &str) -> (same: bool)
    ensures
        same == (a@ == b@),
{
    let left = a.as_bytes();
    let right = b.as_bytes();
    proof {
        encode_utf8_decode_utf8(a@);
        encode_utf8_decode_utf8(b@);
    }
    if left.len() != right.len() {
        return false;
    }
    let mut index: usize = 0;
    while index < left.len()
        invariant
            index <= left.len() == right.len(),
            left@ == encode_utf8(a@),
            right@ == encode_utf8(b@),
            forall|i: int| 0 <= i < index ==> left@[i] == right@[i],
        decreases left.len() - index,
    {
        if left[index] != right[index] {
            return false;
        }
        index += 1;
    }
    assert(left@ =~= right@);
    true
}

} // verus!
