//! Small verified text helpers shared across the crate.

use vstd::prelude::*;

verus! {

/// Character-wise string equality.
#[verifier::loop_isolation(false)]
pub fn str_eq(a: &str, b: &str) -> (r: bool)
    ensures
        r == (a@ == b@),
{
    let n = a.unicode_len();
    let m = b.unicode_len();
    if n != m {
        return false;
    }
    let mut i: usize = 0;
    while i < n
        invariant
            i <= n,
            forall|k: int| 0 <= k < i ==> a@[k] == b@[k],
        decreases n - i,
    {
        if a.get_char(i) != b.get_char(i) {
            return false;
        }
        i = i + 1;
    }
    proof {
        assert(a@ =~= b@);
    }
    true
}

/// The uppercase form of ASCII letters, other characters unchanged.
pub open spec fn to_upper(c: char) -> char {
    if 'a' <= c <= 'z' {
        ((c as u8) - 32) as char
    } else {
        c
    }
}

/// A character sequence mapped to ASCII uppercase.
pub open spec fn upper_of(s: Seq<char>) -> Seq<char> {
    s.map_values(|c: char| to_upper(c))
}

/// ASCII-uppercases a string: `a..z` become `A..Z`, all else is kept.
#[verifier::loop_isolation(false)]
pub fn to_ascii_upper(s: &str) -> (r: String)
    ensures
        r@ == upper_of(s@),
{
    let n = s.unicode_len();
    let mut out = String::new();
    let mut i: usize = 0;
    while i < n
        invariant
            i <= n,
            n == s@.len(),
            out@ =~= upper_of(s@).take(i as int),
        decreases n - i,
    {
        let c = s.get_char(i);
        if 'a' <= c && c <= 'z' {
            proof {
                assert((c as int) >= 'a' as int);
                assert((c as int) <= 'z' as int);
            }
            let b = c as u8;
            out.push((b - 32) as char);
        } else {
            out.push(c);
        }
        proof {
            assert(out@ =~= upper_of(s@).take(i + 1));
        }
        i = i + 1;
    }
    proof {
        assert(upper_of(s@).take(n as int) =~= upper_of(s@));
    }
    out
}

/// The lowercase form of ASCII letters, other characters unchanged.
pub open spec fn to_lower(c: char) -> char {
    if 'A' <= c <= 'Z' {
        ((c as u8) + 32) as char
    } else {
        c
    }
}

/// A character sequence mapped to ASCII lowercase.
pub open spec fn lower_of(s: Seq<char>) -> Seq<char> {
    s.map_values(|c: char| to_lower(c))
}

/// ASCII-lowercases a string: `A..Z` become `a..z`, all else is kept.
#[verifier::loop_isolation(false)]
pub fn to_ascii_lower(s: &str) -> (r: String)
    ensures
        r@ == lower_of(s@),
{
    let n = s.unicode_len();
    let mut out = String::new();
    let mut i: usize = 0;
    while i < n
        invariant
            i <= n,
            n == s@.len(),
            out@ =~= lower_of(s@).take(i as int),
        decreases n - i,
    {
        let c = s.get_char(i);
        if 'A' <= c && c <= 'Z' {
            proof {
                assert((c as int) >= 'A' as int);
                assert((c as int) <= 'Z' as int);
            }
            let b = c as u8;
            out.push((b + 32) as char);
        } else {
            out.push(c);
        }
        proof {
            assert(out@ =~= lower_of(s@).take(i + 1));
        }
        i = i + 1;
    }
    proof {
        assert(lower_of(s@).take(n as int) =~= lower_of(s@));
    }
    out
}

} // verus!
