//! The text of sums of terms, as Magma prints ring elements: unit and
//! compound coefficients, powers of generators, signs between terms.

use vstd::prelude::*;
use vstd::string::StringExecFns;

use crate::text::{decimal, push_decimal};

verus! {

/// `t` occurs in `s`.
pub open spec fn contains_text(s: Seq<char>, t: Seq<char>) -> bool {
    exists|i: int| 0 <= i && i + t.len() <= s.len() && #[trigger] s.subrange(i, i + t.len()) == t
}

/// Printed text that is a sum or difference, and so needs brackets as a
/// factor.
pub open spec fn is_compound_text(s: Seq<char>) -> bool {
    contains_text(s, seq![' ', '+', ' ']) || contains_text(s, seq![' ', '-', ' '])
}

/// One term `coef*mono` of a sum, with Magma's conventions for unit and
/// compound coefficients.
pub open spec fn term_text(coef: Seq<char>, mono: Seq<char>) -> Seq<char> {
    if mono.len() == 0 {
        coef
    } else if coef == seq!['1'] {
        mono
    } else if coef == seq!['-', '1'] {
        seq!['-'] + mono
    } else if is_compound_text(coef) {
        seq!['('] + coef + seq![')', '*'] + mono
    } else {
        coef + seq!['*'] + mono
    }
}

/// A term after the first: joined by ` - ` when it starts with a minus
/// sign (which it then loses), else by ` + `.
pub open spec fn joined_term(t: Seq<char>) -> Seq<char> {
    if t.len() > 0 && t[0] == '-' {
        seq![' ', '-', ' '] + t.drop_first()
    } else {
        seq![' ', '+', ' '] + t
    }
}

/// The terms joined by ` + ` and ` - `, from the first.
pub open spec fn joined(terms: Seq<Seq<char>>) -> Seq<char>
    decreases terms.len(),
{
    if terms.len() == 0 {
        seq![]
    } else if terms.len() == 1 {
        terms[0]
    } else {
        joined(terms.drop_last()) + joined_term(terms.last())
    }
}

/// The sum of the terms: `0` when there are none.
pub open spec fn sum_text(terms: Seq<Seq<char>>) -> Seq<char> {
    if terms.len() == 0 {
        seq!['0']
    } else {
        joined(terms)
    }
}

/// The power `name^k`: empty for `k = 0`, the name for `k = 1`.
pub open spec fn power_of(name: Seq<char>, k: nat) -> Seq<char> {
    if k == 0 {
        seq![]
    } else if k == 1 {
        name
    } else {
        name + seq!['^'] + decimal(k)
    }
}

/// The terms `c_k*name^k` of the coefficients (given by their text) with
/// `lo <= k < hi` that are not zero, from the highest power down.
pub open spec fn poly_terms(coeffs: Seq<Seq<char>>, name: Seq<char>, lo: int, hi: int) -> Seq<Seq<char>>
    decreases hi - lo,
{
    if lo >= hi {
        seq![]
    } else if coeffs[lo] == seq!['0'] {
        poly_terms(coeffs, name, lo + 1, hi)
    } else {
        poly_terms(coeffs, name, lo + 1, hi).push(term_text(coeffs[lo], power_of(name, lo as nat)))
    }
}

/// The characters of `s`.
fn chars_of(s: &str) -> (v: Vec<char>)
    ensures
        v@ == s@,
{
    let mut v: Vec<char> = Vec::new();
    for c in it: s.chars()
        invariant
            it.seq() == s@,
            v@ == s@.take(it.index() as int),
    {
        v.push(c);
        assert(v@ =~= s@.take(it.index() + 1));
    }
    assert(s@.take(s@.len() as int) =~= s@);
    v
}

/// Append `v[from..]` to `out`.
fn push_from(out: &mut String, v: &Vec<char>, from: usize)
    requires
        from <= v.len(),
    ensures
        final(out)@ == old(out)@ + v@.subrange(from as int, v.len() as int),
{
    let mut i = from;
    while i < v.len()
        invariant
            from <= i <= v.len(),
            out@ == old(out)@ + v@.subrange(from as int, i as int),
        decreases v.len() - i,
    {
        out.push(v[i]);
        i += 1;
        assert(out@ =~= old(out)@ + v@.subrange(from as int, i as int));
    }
}

/// Whether printed text is a sum or difference (and so needs brackets as
/// a factor).
pub fn is_compound(s: &str) -> (b: bool)
    ensures
        b == is_compound_text(s@),
{
    let v = chars_of(s);
    let n = v.len();
    let ghost plus = seq![' ', '+', ' '];
    let ghost minus = seq![' ', '-', ' '];
    let mut i: usize = 0;
    while n - i >= 3
        invariant
            i <= n,
            v@ == s@,
            n == v.len(),
            plus == seq![' ', '+', ' '],
            minus == seq![' ', '-', ' '],
            forall|j: int| 0 <= j < i && j + 3 <= n ==> #[trigger] v@.subrange(j, j + 3) != plus && v@.subrange(j, j + 3) != minus,
        decreases n - i,
    {
        if v[i] == ' ' && (v[i + 1] == '+' || v[i + 1] == '-') && v[i + 2] == ' ' {
            proof {
                let w = v@.subrange(i as int, i + 3);
                if v[i + 1] == '+' {
                    assert(w =~= plus);
                    assert(contains_text(s@, plus));
                } else {
                    assert(w =~= minus);
                    assert(contains_text(s@, minus));
                }
            }
            return true;
        }
        proof {
            let w = v@.subrange(i as int, i + 3);
            assert(w[0] == v@[i as int] && w[1] == v@[i + 1] && w[2] == v@[i + 2]);
            assert(plus[0] == ' ' && plus[1] == '+' && plus[2] == ' ');
            assert(minus[0] == ' ' && minus[1] == '-' && minus[2] == ' ');
        }
        i += 1;
    }
    proof {
        assert forall|j: int| 0 <= j && j + plus.len() <= s@.len() implies #[trigger] s@.subrange(j, j + plus.len()) != plus by {
            assert(j < i);
        }
        assert forall|j: int| 0 <= j && j + minus.len() <= s@.len() implies #[trigger] s@.subrange(j, j + minus.len()) != minus by {
            assert(j < i);
        }
    }
    false
}

/// One term `coef*mono` of a sum, with Magma's conventions for unit and
/// compound coefficients.
pub fn term(coef: &str, mono: &str) -> (t: String)
    ensures
        t@ == term_text(coef@, mono@),
{
    let c = chars_of(coef);
    let mut out = String::new();
    if mono.unicode_len() == 0 {
        out.append(coef);
    } else if c.len() == 1 && c[0] == '1' {
        assert(coef@ =~= seq!['1']);
        out.append(mono);
    } else if c.len() == 2 && c[0] == '-' && c[1] == '1' {
        assert(coef@ =~= seq!['-', '1']);
        out.push('-');
        out.append(mono);
    } else {
        proof {
            assert(coef@ != seq!['1']) by {
                if coef@ == seq!['1'] {
                    assert(coef@.len() == 1 && coef@[0] == '1');
                }
            }
            assert(coef@ != seq!['-', '1']) by {
                if coef@ == seq!['-', '1'] {
                    assert(coef@.len() == 2 && coef@[0] == '-' && coef@[1] == '1');
                }
            }
        }
        if is_compound(coef) {
            out.push('(');
            out.append(coef);
            out.push(')');
            out.push('*');
            out.append(mono);
        } else {
            out.append(coef);
            out.push('*');
            out.append(mono);
        }
    }
    assert(out@ =~= term_text(coef@, mono@));
    out
}

/// Join terms with ` + ` and ` - `.
pub fn join_terms(terms: &[String]) -> (s: String)
    ensures
        s@ == sum_text(terms@.map_values(|t: String| t@)),
{
    let ghost ts = terms@.map_values(|t: String| t@);
    let mut out = String::new();
    if terms.len() == 0 {
        out.push('0');
        assert(out@ =~= seq!['0']);
        return out;
    }
    let mut i: usize = 0;
    while i < terms.len()
        invariant
            ts == terms@.map_values(|t: String| t@),
            i <= terms.len(),
            terms.len() > 0,
            out@ == joined(ts.take(i as int)),
        decreases terms.len() - i,
    {
        let t = terms[i].as_str();
        assert(t@ == ts[i as int]);
        let ghost before = out@;
        if i == 0 {
            out.append(t);
        } else {
            let v = chars_of(t);
            if v.len() > 0 && v[0] == '-' {
                out.push(' ');
                out.push('-');
                out.push(' ');
                push_from(&mut out, &v, 1);
                assert(v@.subrange(1, v.len() as int) =~= t@.drop_first());
            } else {
                out.push(' ');
                out.push('+');
                out.push(' ');
                out.append(t);
            }
        }
        proof {
            let q = ts.take(i + 1);
            assert(q.drop_last() =~= ts.take(i as int));
            assert(q.last() == ts[i as int]);
            if i == 0 {
                assert(q.len() == 1);
                assert(out@ =~= q[0]);
            } else {
                assert(out@ =~= before + joined_term(ts[i as int]));
            }
        }
        i += 1;
    }
    assert(ts.take(terms.len() as int) =~= ts);
    out
}

/// The power `name^k`: empty for `k = 0`, the name for `k = 1`.
pub fn power(name: &str, k: u64) -> (s: String)
    ensures
        s@ == power_of(name@, k as nat),
{
    let mut out = String::new();
    if k == 0 {
        assert(out@ =~= Seq::<char>::empty());
    } else if k == 1 {
        out.append(name);
        assert(out@ =~= name@);
    } else {
        out.append(name);
        out.push('^');
        push_decimal(&mut out, k);
        assert(out@ =~= name@ + seq!['^'] + decimal(k as nat));
    }
    out
}

/// A polynomial in `name` with integer coefficients, given by their
/// decimal text (constant term first).
pub fn int_poly(coeffs: &[String], name: &str) -> (s: String)
    ensures
        s@ == sum_text(poly_terms(coeffs@.map_values(|c: String| c@), name@, 0, coeffs@.len() as int)),
{
    let ghost cs = coeffs@.map_values(|c: String| c@);
    let mut terms: Vec<String> = Vec::new();
    let mut k: usize = coeffs.len();
    while k > 0
        invariant
            cs == coeffs@.map_values(|c: String| c@),
            k <= coeffs.len(),
            terms@.map_values(|t: String| t@) == poly_terms(cs, name@, k as int, coeffs.len() as int),
        decreases k,
    {
        k -= 1;
        let c = coeffs[k].as_str();
        assert(c@ == cs[k as int]);
        let v = chars_of(c);
        let ghost before = terms@.map_values(|t: String| t@);
        if v.len() == 1 && v[0] == '0' {
            assert(cs[k as int] =~= seq!['0']);
        } else {
            assert(cs[k as int] != seq!['0']) by {
                if cs[k as int] == seq!['0'] {
                    assert(v@.len() == 1 && v@[0] == '0');
                }
            }
            let p = power(name, k as u64);
            let t = term(c, p.as_str());
            terms.push(t);
            assert(terms@.map_values(|t: String| t@) =~= before.push(term_text(cs[k as int], power_of(name@, k as nat))));
        }
    }
    join_terms(&terms)
}

} // verus!
