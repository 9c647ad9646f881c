use vstd::prelude::*;
use vstd::string::StrSliceExecFns;

verus! {

/// Character-exact equality of two string slices.
///
/// `==` on `&str` carries no specification, so the tokenizer and the grammar
/// compare token text through this function instead.
pub fn str_eq(a: &str, b: &str) -> (r: bool)
    ensures
        r == (a@ == b@),
{
    let n = a.unicode_len();
    if n != b.unicode_len() {
        return false;
    }
    let mut i: usize = 0;
    while i < n
        invariant
            n == a@.len(),
            n == b@.len(),
            i <= n,
            forall|j: int| 0 <= j < i ==> a@[j] == b@[j],
        decreases n - i,
    {
        if a.get_char(i) != b.get_char(i) {
            return false;
        }
        i = i + 1;
    }
    proof {
        assert(a@ =~= b@);
    }
    true
}

/// Character-exact equality of an owned string and a string slice.
pub fn string_eq_str(a: &String, b: &str) -> (r: bool)
    ensures
        r == (a@ == b@),
{
    str_eq(a.as_str(), b)
}

/// Whether some element of `v` reads `name`.
pub open spec fn contains_name(v: Seq<String>, name: Seq<char>) -> bool {
    exists|k: int| 0 <= k < v.len() && (#[trigger] v[k])@ == name
}

/// Whether the list holds a string that reads like `name`.
pub fn vec_contains_name(v: &Vec<String>, name: &str) -> (r: bool)
    ensures
        r == contains_name(v@, name@),
{
    let n = v.len();
    let mut k: usize = 0;
    while k < n
        invariant
            k <= n,
            n == v@.len(),
            forall|j: int| 0 <= j < k ==> (#[trigger] v@[j])@ != name@,
        decreases n - k,
    {
        if str_eq(v[k].as_str(), name) {
            return true;
        }
        k = k + 1;
    }
    false
}

/// Whether `a` begins with the characters of `prefix`.
pub fn str_starts_with(a: &str, prefix: &str) -> (r: bool)
    ensures
        r == (a@.len() >= prefix@.len() && a@.subrange(0, prefix@.len() as int) == prefix@),
{
    let np = prefix.unicode_len();
    let na = a.unicode_len();
    if na < np {
        return false;
    }
    let mut i: usize = 0;
    while i < np
        invariant
            i <= np,
            np == prefix@.len(),
            na == a@.len(),
            np <= na,
            forall|j: int| 0 <= j < i ==> a@[j] == prefix@[j],
        decreases np - i,
    {
        if a.get_char(i) != prefix.get_char(i) {
            proof {
                assert(a@.subrange(0, np as int)[i as int] != prefix@[i as int]);
            }
            return false;
        }
        i = i + 1;
    }
    proof {
        assert(a@.subrange(0, np as int) =~= prefix@);
    }
    true
}

} // verus!
