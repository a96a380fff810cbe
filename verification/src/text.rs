use vstd::prelude::*;
use vstd::string::StrSliceExecFns;

verus! {

/// Whether the character sequence `t` occurs in `s` starting at index `i`.
pub open spec fn matches_at(s: Seq<char>, i: int, t: Seq<char>) -> bool {
    0 <= i && i + t.len() <= s.len() && s.subrange(i, i + t.len()) == t
}

/// A concatenation occurs at `i` exactly when its parts occur back to back.
pub proof fn lemma_matches_split(s: Seq<char>, i: int, a: Seq<char>, b: Seq<char>)
    ensures
        matches_at(s, i, a + b) <==> (matches_at(s, i, a) && matches_at(s, i + a.len(), b)),
{
    if matches_at(s, i, a + b) {
        assert forall|k: int| 0 <= k < a.len() implies s.subrange(i, i + a.len())[k] == a[k] by {
            assert(s.subrange(i, i + (a + b).len())[k] == (a + b)[k]);
        }
        assert(s.subrange(i, i + a.len()) =~= a);
        assert forall|k: int| 0 <= k < b.len() implies s.subrange(
            i + a.len(),
            i + a.len() + b.len(),
        )[k] == b[k] by {
            assert(s.subrange(i, i + (a + b).len())[a.len() + k] == (a + b)[a.len() + k]);
        }
        assert(s.subrange(i + a.len(), i + a.len() + b.len()) =~= b);
    }
    if matches_at(s, i, a) && matches_at(s, i + a.len(), b) {
        assert forall|k: int| 0 <= k < (a + b).len() implies s.subrange(i, i + (a + b).len())[k]
            == (a + b)[k] by {
            if k < a.len() {
                assert(s.subrange(i, i + a.len())[k] == a[k]);
            } else {
                assert(s.subrange(i + a.len(), i + a.len() + b.len())[k - a.len()] == b[k
                    - a.len()]);
            }
        }
        assert(s.subrange(i, i + (a + b).len()) =~= a + b);
    }
}

/// The characters of a string, in order.
pub fn string_to_chars(s: &str) -> (r: Vec<char>)
    ensures
        r@ == s@,
{
    let n = s.unicode_len();
    let mut r: Vec<char> = Vec::new();
    let mut i: usize = 0;
    while i < n
        invariant
            0 <= i <= n,
            n == s@.len(),
            r@ == s@.take(i as int),
        decreases n - i,
    {
        r.push(s.get_char(i));
        i += 1;
        proof {
            assert(r@ =~= s@.take(i as int));
        }
    }
    proof {
        assert(s@.take(n as int) =~= s@);
    }
    r
}

/// Relies on `String: FromIterator<char>`: collecting characters yields the
/// string of exactly those characters, in order.
#[verifier::external_body]
pub fn chars_to_string(v: &Vec<char>) -> (r: String)
    ensures
        r@ == v@,
{
    v.iter().collect()
}

/// Appends every character of `lit` to `out`.
pub fn push_str_chars(out: &mut Vec<char>, lit: &str)
    ensures
        final(out)@ == old(out)@ + lit@,
{
    let n = lit.unicode_len();
    let mut i: usize = 0;
    while i < n
        invariant
            0 <= i <= n,
            n == lit@.len(),
            out@ == old(out)@ + lit@.take(i as int),
        decreases n - i,
    {
        out.push(lit.get_char(i));
        i += 1;
        proof {
            assert(old(out)@ + lit@.take(i as int) =~= (old(out)@ + lit@.take(i - 1)).push(
                lit@[i - 1],
            ));
        }
    }
    proof {
        assert(old(out)@ + lit@.take(n as int) =~= old(out)@ + lit@);
    }
}

/// Whether `lit` occurs in `v` starting at `i`; on a match, returns the
/// index just past it.
pub fn match_lit(v: &Vec<char>, i: usize, lit: &str) -> (r: Option<usize>)
    ensures
        match r {
            Some(j) => matches_at(v@, i as int, lit@) && j == i + lit@.len(),
            None => !matches_at(v@, i as int, lit@),
        },
{
    let n = lit.unicode_len();
    let len = v.len();
    if n > len || i > len - n {
        proof {
            assert(!matches_at(v@, i as int, lit@));
        }
        return None;
    }
    let mut k: usize = 0;
    while k < n
        invariant
            0 <= k <= n,
            n == lit@.len(),
            len == v@.len(),
            i + n <= len,
            forall|m: int| 0 <= m < k ==> v@[i + m] == lit@[m],
        decreases n - k,
    {
        if v[i + k] != lit.get_char(k) {
            proof {
                if matches_at(v@, i as int, lit@) {
                    assert(v@.subrange(i as int, i + lit@.len())[k as int] == lit@[k as int]);
                }
            }
            return None;
        }
        k += 1;
    }
    proof {
        assert(v@.subrange(i as int, i + lit@.len()) =~= lit@);
    }
    Some(i + n)
}

} // verus!
