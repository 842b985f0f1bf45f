use vstd::prelude::*;
use crate::chars::{spec_is_digit, is_digit, chars_to_string, sub_chars, to_char_vec};
use crate::error::{MyError, MyResult};

verus! {

/// A fiscal key holds exactly this many digits once normalized.
pub const NUM_DIGITS: usize = 44;

/// Digit offset at which the two-digit document-type code starts.
pub const CODE_OFFSET: usize = 20;

/// The digit-only normalization of a raw key text.
pub open spec fn spec_digits_of(s: Seq<char>) -> Seq<char> {
    s.filter(|c: char| spec_is_digit(c))
}

/// The code actually found in a digit string: the two digits that sit at the
/// code position of the trailing 44 digits, or nothing when fewer than 44
/// digits are present. Reading from the end makes an over-long digit string
/// still report the digits standing where a key's code would be.
pub open spec fn spec_found_code(d: Seq<char>) -> Seq<char> {
    if d.len() >= 44 {
        d.subrange(d.len() - 24, d.len() - 22)
    } else {
        Seq::empty()
    }
}

/// A raw key text is valid for an expected code when its digit-only
/// normalization has exactly 44 digits and carries that code at digit
/// offset [20, 22).
pub open spec fn spec_key_valid(raw: Seq<char>, expected: Seq<char>) -> bool {
    let d = spec_digits_of(raw);
    d.len() == 44 && d.subrange(20, 22) == expected
}

/// Keeps only the decimal digits of `t`, in order.
pub fn filter_digits(t: &Vec<char>) -> (v: Vec<char>)
    ensures
        v@ == t@.filter(|c: char| spec_is_digit(c)),
{
    let mut v: Vec<char> = Vec::new();
    let mut i: usize = 0;
    while i < t.len()
        invariant
            i <= t@.len(),
            v@ == t@.subrange(0, i as int).filter(|c: char| spec_is_digit(c)),
        decreases t@.len() - i,
    {
        let ghost pre = t@.subrange(0, i as int);
        let ghost post = t@.subrange(0, i + 1 as int);
        proof {
            reveal(Seq::filter);
            assert(post.drop_last() =~= pre);
            assert(post.last() == t@[i as int]);
        }
        if is_digit(t[i]) {
            v.push(t[i]);
        }
        i += 1;
    }
    proof {
        assert(t@.subrange(0, t@.len() as int) =~= t@);
    }
    v
}

/// Whether the character vector reads exactly as the string.
pub fn chars_eq_str(v: &Vec<char>, s: &str) -> (r: bool)
    ensures
        r == (v@ == s@),
{
    let n = s.unicode_len();
    if v.len() != n {
        return false;
    }
    let mut i: usize = 0;
    while i < n
        invariant
            i <= n,
            n == s@.len(),
            n == v@.len(),
            forall|j: int| 0 <= j < i ==> v@[j] == s@[j],
        decreases n - i,
    {
        if v[i] as u32 != s.get_char(i) as u32 {
            proof {
                vstd::utf8::char_u32_cast(v@[i as int], v@[i as int] as u32);
                vstd::utf8::char_u32_cast(s@[i as int], s@[i as int] as u32);
                assert(v@[i as int] != s@[i as int]);
            }
            return false;
        }
        proof {
            vstd::utf8::char_u32_cast(v@[i as int], v@[i as int] as u32);
            vstd::utf8::char_u32_cast(s@[i as int], s@[i as int] as u32);
        }
        i += 1;
    }
    proof {
        assert(v@ =~= s@);
    }
    true
}

/// Validates a raw fiscal key against the code expected for its family.
///
/// Strips every non-digit character, checks that exactly 44 digits remain
/// and that the two digits at offset [20, 22) equal `expected_code`; on
/// success returns the normalized key, otherwise the validation error
/// carrying the file path, the normalized digits, the code found and the
/// code expected.
pub fn verify_key_code(path: &str, key: &str, expected_code: &str) -> (r: MyResult<String>)
    ensures
        r is Ok <==> spec_key_valid(key@, expected_code@),
        r is Ok ==> r->Ok_0@ == spec_digits_of(key@),
        r is Err ==> (match r {
            Err(MyError::InvalidFiscalKey(p, d, f, x)) => p@ == path@ && d@ == spec_digits_of(
                key@,
            ) && f@ == spec_found_code(spec_digits_of(key@)) && x@ == expected_code@,
            _ => false,
        }),
{
    let raw = to_char_vec(key);
    let digits = filter_digits(&raw);
    let code: Vec<char> = if digits.len() >= 44 {
        sub_chars(&digits, digits.len() - 24, digits.len() - 22)
    } else {
        Vec::new()
    };
    proof {
        assert(code@ == spec_found_code(spec_digits_of(key@)));
    }
    if digits.len() == NUM_DIGITS && chars_eq_str(&code, expected_code) {
        proof {
            assert(digits@.subrange(20, 22) =~= code@);
        }
        Ok(chars_to_string(&digits))
    } else {
        proof {
            if digits@.len() == 44 {
                assert(digits@.subrange(20, 22) =~= code@);
            }
        }
        Err(
            MyError::InvalidFiscalKey(
                path.to_owned(),
                chars_to_string(&digits),
                chars_to_string(&code),
                expected_code.to_owned(),
            ),
        )
    }
}

} // verus!
