//! Small character-level string utilities.

use vstd::prelude::*;
use vstd::string::StrSliceExecFns;

verus! {

/// `a` equals `b` up to ASCII case, where `b` is already lowercase.
pub open spec fn lower_eq(a: char, b: char) -> bool {
    a as u32 == b as u32 || (65 <= a as u32 <= 90 && a as u32 + 32 == b as u32)
}

/// `s` equals `t` up to ASCII case of `s`, where `t` is lowercase.
pub open spec fn matches_ci(s: Seq<char>, t: Seq<char>) -> bool {
    s.len() == t.len() && forall|i: int| 0 <= i < s.len() ==> lower_eq(#[trigger] s[i], t[i])
}

/// The characters of a string slice.
pub fn chars_vec(s: &str) -> (v: Vec<char>)
    ensures
        v@ == s@,
{
    let n = s.unicode_len();
    let mut v: Vec<char> = Vec::new();
    let mut i: usize = 0;
    while i < n
        invariant
            i <= n,
            n == s@.len(),
            v@.len() == i,
            forall|k: int| 0 <= k < i ==> v@[k] == s@[k],
        decreases n - i,
    {
        v.push(s.get_char(i));
        i = i + 1;
    }
    proof {
        assert(v@ =~= s@);
    }
    v
}

/// The characters `v[a..b]`.
pub fn sub_vec(v: &Vec<char>, a: usize, b: usize) -> (r: Vec<char>)
    requires
        a <= b <= v@.len(),
    ensures
        r@ == v@.subrange(a as int, b as int),
{
    let mut r: Vec<char> = Vec::new();
    let mut k: usize = a;
    while k < b
        invariant
            a <= k <= b <= v@.len(),
            r@.len() == k - a,
            forall|t: int| 0 <= t < k - a ==> r@[t] == v@[a + t],
        decreases b - k,
    {
        r.push(v[k]);
        k = k + 1;
    }
    proof {
        assert(r@ =~= v@.subrange(a as int, b as int));
    }
    r
}

/// Whether `v` equals the lowercase literal `t` up to ASCII case.
pub fn eq_ci_str(v: &Vec<char>, t: &str) -> (r: bool)
    ensures
        r == matches_ci(v@, t@),
{
    let n = t.unicode_len();
    if v.len() != n {
        return false;
    }
    let mut i: usize = 0;
    while i < n
        invariant
            i <= n,
            n == t@.len(),
            v@.len() == n,
            forall|k: int| 0 <= k < i ==> lower_eq(#[trigger] v@[k], t@[k]),
        decreases n - i,
    {
        let a = v[i];
        let b = t.get_char(i);
        let au: u32 = a as u32;
        let bu: u32 = b as u32;
        assert(a == v@[i as int] && b == t@[i as int]);
        if au == bu || (65 <= au && au <= 90 && au + 32 == bu) {
            assert(lower_eq(v@[i as int], t@[i as int]));
        } else {
            assert(!lower_eq(v@[i as int], t@[i as int]));
            return false;
        }
        i = i + 1;
    }
    true
}

/// Whether some entry of `ex` is the string `p`.
pub open spec fn in_list(ex: Seq<String>, p: Seq<char>) -> bool {
    exists|k: int| 0 <= k < ex.len() && (#[trigger] ex[k])@ == p
}

/// Whether some entry of `ex` equals `p`.
pub fn in_list_exec(ex: &Vec<String>, p: &String) -> (r: bool)
    ensures
        r == in_list(ex@, p@),
{
    let mut i: usize = 0;
    while i < ex.len()
        invariant
            i <= ex@.len(),
            forall|k: int| 0 <= k < i ==> (#[trigger] ex@[k])@ != p@,
        decreases ex@.len() - i,
    {
        if ex[i] == *p {
            assert(ex@[i as int]@ == p@);
            return true;
        }
        i = i + 1;
    }
    false
}

} // verus!
