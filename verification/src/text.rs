//! Character-level helpers shared by the parser and the zone resolver.
//!
//! Matching in this crate is ASCII-case-insensitive throughout, so the
//! central notion here is the lower-cased code point of a character and the
//! equivalence of two character sequences up to ASCII case.
use vstd::prelude::*;

verus! {

/// The code point of `c`, with ASCII upper-case letters folded to lower case.
pub open spec fn lower_cp(c: char) -> int {
    if 65 <= c as int <= 90 {
        c as int + 32
    } else {
        c as int
    }
}

/// Two character sequences are equal up to ASCII case.
pub open spec fn eq_ci(a: Seq<char>, b: Seq<char>) -> bool {
    a.len() == b.len() && forall|i: int| 0 <= i < a.len() ==> lower_cp(a[i]) == lower_cp(#[trigger] b[i])
}

/// `eq_ci` is an equivalence: reflexive, symmetric and transitive.
pub proof fn lemma_eq_ci_equivalence(a: Seq<char>, b: Seq<char>, c: Seq<char>)
    ensures
        eq_ci(a, a),
        eq_ci(a, b) ==> eq_ci(b, a),
        eq_ci(a, b) && eq_ci(b, c) ==> eq_ci(a, c),
{
}

/// Executable form of `lower_cp`.
pub fn lower_cp_of(c: char) -> (r: u32)
    ensures
        r == lower_cp(c),
{
    let n = c as u32;
    if 65 <= n && n <= 90 {
        n + 32
    } else {
        n
    }
}

/// The characters of `s`, in order.
pub fn chars_of(s: &str) -> (r: Vec<char>)
    ensures
        r@ == s@,
{
    let n = s.unicode_len();
    let mut r: Vec<char> = Vec::new();
    let mut i: usize = 0;
    while i < n
        invariant
            n == s@.len(),
            i <= n,
            r@ == s@.subrange(0, i as int),
        decreases n - i,
    {
        let c = s.get_char(i);
        r.push(c);
        i = i + 1;
        proof {
            assert(r@ =~= s@.subrange(0, i as int));
        }
    }
    proof {
        assert(r@ =~= s@);
    }
    r
}

/// Relies on `String::push`: appends exactly the given character.
#[verifier::external_body]
fn push_char(s: &mut String, c: char)
    ensures
        final(s)@ == old(s)@.push(c),
{
    s.push(c);
}

/// A `String` holding exactly the characters of `v`.
pub fn string_of(v: &Vec<char>) -> (r: String)
    ensures
        r@ == v@,
{
    let mut r = String::new();
    let mut i: usize = 0;
    while i < v.len()
        invariant
            i <= v.len(),
            r@ == v@.subrange(0, i as int),
        decreases v.len() - i,
    {
        push_char(&mut r, v[i]);
        i = i + 1;
        proof {
            assert(r@ =~= v@.subrange(0, i as int));
        }
    }
    proof {
        assert(r@ =~= v@);
    }
    r
}

/// A `String` holding exactly the characters of `v[lo..hi]`.
pub fn string_of_range(v: &Vec<char>, lo: usize, hi: usize) -> (r: String)
    requires
        lo <= hi <= v.len(),
    ensures
        r@ == v@.subrange(lo as int, hi as int),
{
    let mut r = String::new();
    let mut i: usize = lo;
    while i < hi
        invariant
            lo <= i <= hi <= v.len(),
            r@ == v@.subrange(lo as int, i as int),
        decreases hi - i,
    {
        push_char(&mut r, v[i]);
        i = i + 1;
        proof {
            assert(r@ =~= v@.subrange(lo as int, i as int));
        }
    }
    r
}

/// Case-insensitive comparison of `v[lo..hi]` against the characters of `s`.
pub fn eq_ci_range(v: &Vec<char>, lo: usize, hi: usize, s: &str) -> (r: bool)
    requires
        lo <= hi <= v.len(),
    ensures
        r == eq_ci(v@.subrange(lo as int, hi as int), s@),
{
    let n = s.unicode_len();
    if n != hi - lo {
        return false;
    }
    let mut i: usize = 0;
    while i < n
        invariant
            n == s@.len(),
            lo <= hi <= v.len(),
            n == hi - lo,
            i <= n,
            forall|j: int| 0 <= j < i ==> lower_cp(v@[lo + j]) == lower_cp(#[trigger] s@[j]),
        decreases n - i,
    {
        let a = lower_cp_of(v[lo + i]);
        let b = lower_cp_of(s.get_char(i));
        if a != b {
            assert(!eq_ci(v@.subrange(lo as int, hi as int), s@)) by {
                assert(v@.subrange(lo as int, hi as int)[i as int] == v@[lo + i]);
            }
            return false;
        }
        i = i + 1;
    }
    assert forall|j: int| 0 <= j < n implies lower_cp(v@.subrange(lo as int, hi as int)[j])
        == lower_cp(s@[j]) by {
        assert(v@.subrange(lo as int, hi as int)[j] == v@[lo + j]);
    }
    true
}

/// Exact comparison of two whole strings.
pub fn str_eq(a: &str, b: &str) -> (r: bool)
    ensures
        r == (a@ == b@),
{
    let n = a.unicode_len();
    if n != b.unicode_len() {
        return false;
    }
    let mut i: usize = 0;
    while i < n
        invariant
            n == a@.len() == b@.len(),
            i <= n,
            forall|j: int| 0 <= j < i ==> a@[j] == #[trigger] b@[j],
        decreases n - i,
    {
        if a.get_char(i) != b.get_char(i) {
            return false;
        }
        i = i + 1;
    }
    proof {
        assert(a@ =~= b@);
    }
    true
}

/// Case-insensitive comparison of two whole strings.
pub fn str_eq_ci(a: &str, b: &str) -> (r: bool)
    ensures
        r == eq_ci(a@, b@),
{
    let v = chars_of(a);
    let n = v.len();
    assert(v@.subrange(0, n as int) =~= a@);
    eq_ci_range(&v, 0, n, b)
}

} // verus!
