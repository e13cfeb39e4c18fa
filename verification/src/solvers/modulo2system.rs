//! Systems of linear equations over GF(2).
//!
//! An equation states that the XOR of the values of a subset of variables
//! equals a scalar constant. `Modulo2System::gaussian_elimination` solves a
//! system densely; `Modulo2System::lazy_gaussian_elimination` peels
//! low-degree equations first and defers a small residual to the dense
//! solver.

use crate::bits::bit_vec::{
    lemma_word_and_bit, lemma_word_clear_bit, lemma_zero_word_has_no_bits, word_bit, BitVec,
};
use vstd::prelude::*;
use vstd::std_specs::bits::axiom_u64_trailing_zeros;

verus! {

/// The one failure a caller can branch on: the equations are contradictory.
#[derive(Clone, Copy, Debug, PartialEq, Eq, Structural)]
pub enum SolverError {
    Unsolvable,
}

/// Mathematical content of one equation: its coefficient row and constant.
pub ghost struct EqModel {
    pub coeffs: Seq<bool>,
    pub c: usize,
}

/// Mathematical content of a system: shared variable count and its rows.
pub ghost struct SysModel {
    pub num_vars: usize,
    pub eqs: Seq<EqModel>,
}

/// XOR of `values[j]` over every set coefficient `j` at or after position `i`.
pub open spec fn dot(coeffs: Seq<bool>, values: Seq<usize>, i: int) -> usize
    decreases coeffs.len() - i,
{
    if i < 0 || i >= coeffs.len() {
        0usize
    } else if coeffs[i] {
        values[i] ^ dot(coeffs, values, i + 1)
    } else {
        dot(coeffs, values, i + 1)
    }
}

/// `values` satisfies the equation.
pub open spec fn eq_sat(eq: EqModel, values: Seq<usize>) -> bool {
    dot(eq.coeffs, values, 0) == eq.c
}

/// `values` satisfies every equation of the system.
pub open spec fn sys_sat(s: SysModel, values: Seq<usize>) -> bool {
    forall|k: int| 0 <= k < s.eqs.len() ==> eq_sat(#[trigger] s.eqs[k], values)
}

/// A row with no set coefficient.
pub open spec fn zero_row(m: EqModel) -> bool {
    forall|j: int| 0 <= j < m.coeffs.len() ==> !m.coeffs[j]
}

/// `v` is the leading (lowest set) variable of the row.
pub open spec fn leads_row(m: EqModel, v: int) -> bool {
    &&& 0 <= v < m.coeffs.len()
    &&& m.coeffs[v]
    &&& forall|j: int| 0 <= j < v ==> !m.coeffs[j]
}

/// The row obtained by adding `e2` into `e1` over GF(2).
pub open spec fn combined(e1: EqModel, e2: EqModel) -> EqModel {
    EqModel {
        coeffs: Seq::new(e1.coeffs.len(), |k: int| e1.coeffs[k] != e2.coeffs[k]),
        c: e1.c ^ e2.c,
    }
}

pub open spec fn strictly_increasing(s: Seq<usize>) -> bool {
    forall|i: int, j: int| 0 <= i < j < s.len() ==> #[trigger] s[i] < #[trigger] s[j]
}

pub open spec fn nondecreasing(s: Seq<usize>) -> bool {
    forall|i: int, j: int| 0 <= i < j < s.len() ==> #[trigger] s[i] <= #[trigger] s[j]
}

/// How often `v` occurs in `s`.
pub open spec fn count_val(s: Seq<usize>, v: usize) -> nat
    decreases s.len(),
{
    if s.len() == 0 {
        0nat
    } else {
        count_val(s.drop_last(), v) + (if s.last() == v {
            1nat
        } else {
            0nat
        })
    }
}

proof fn lemma_xor_assoc(a: usize, b: usize, c: usize)
    by (bit_vector)
    ensures
        (a ^ b) ^ c == a ^ (b ^ c),
{
}

proof fn lemma_xor_basics(a: usize, b: usize)
    by (bit_vector)
    ensures
        a ^ b == b ^ a,
        a ^ 0 == a,
        0 ^ a == a,
        a ^ a == 0,
        (a ^ b) ^ b == a,
{
}

/// `dot` ignores a range with no set coefficient.
proof fn lemma_dot_skip(coeffs: Seq<bool>, values: Seq<usize>, i: int, j: int)
    requires
        0 <= i <= j,
        forall|k: int| i <= k < j && k < coeffs.len() ==> !coeffs[k],
    ensures
        dot(coeffs, values, i) == dot(coeffs, values, j),
    decreases j - i,
{
    if i < j && i < coeffs.len() {
        lemma_dot_skip(coeffs, values, i + 1, j);
    }
}

/// `dot` depends only on the values at or after `i`.
proof fn lemma_dot_agree(coeffs: Seq<bool>, v1: Seq<usize>, v2: Seq<usize>, i: int)
    requires
        forall|k: int| i <= k < coeffs.len() ==> v1[k] == v2[k],
    ensures
        dot(coeffs, v1, i) == dot(coeffs, v2, i),
    decreases coeffs.len() - i,
{
    if 0 <= i < coeffs.len() {
        lemma_dot_agree(coeffs, v1, v2, i + 1);
    }
}

/// Updating one variable's value XORs its old and new value into the product
/// exactly when that variable's coefficient is set.
proof fn lemma_dot_update(coeffs: Seq<bool>, values: Seq<usize>, i: int, v: int, x: usize)
    requires
        0 <= i,
        0 <= v < coeffs.len(),
        values.len() == coeffs.len(),
    ensures
        dot(coeffs, values.update(v, x), i) == (if i <= v && coeffs[v] {
            (dot(coeffs, values, i) ^ values[v]) ^ x
        } else {
            dot(coeffs, values, i)
        }),
    decreases coeffs.len() - i,
{
    let upd = values.update(v, x);
    if i >= coeffs.len() {
    } else if i == v {
        lemma_dot_agree(coeffs, upd, values, i + 1);
        if coeffs[v] {
            let a = values[v];
            let d = dot(coeffs, values, v + 1);
            assert((((a ^ d) ^ a) ^ x) == x ^ d) by (bit_vector);
        }
    } else if i < v {
        lemma_dot_update(coeffs, values, i + 1, v, x);
        if coeffs[i] && coeffs[v] {
            let w = values[i];
            let d = dot(coeffs, values, i + 1);
            let a = values[v];
            assert(w ^ ((d ^ a) ^ x) == ((w ^ d) ^ a) ^ x) by (bit_vector);
        }
    } else {
        lemma_dot_agree(coeffs, upd, values, i);
    }
}

/// `dot` is linear: the product of a GF(2) sum of rows is the XOR of the
/// products of the rows.
proof fn lemma_dot_xor(c1: Seq<bool>, c2: Seq<bool>, c3: Seq<bool>, values: Seq<usize>, i: int)
    requires
        c1.len() == c3.len(),
        c2.len() == c3.len(),
        forall|k: int| 0 <= k < c3.len() ==> (c3[k] == (c1[k] != c2[k])),
    ensures
        dot(c3, values, i) == dot(c1, values, i) ^ dot(c2, values, i),
    decreases c3.len() - i,
{
    if i < 0 || i >= c3.len() {
        assert(0usize ^ 0usize == 0usize) by (bit_vector);
    } else {
        lemma_dot_xor(c1, c2, c3, values, i + 1);
        let v = values[i];
        let d1 = dot(c1, values, i + 1);
        let d2 = dot(c2, values, i + 1);
        if c1[i] && c2[i] {
            assert((v ^ d1) ^ (v ^ d2) == d1 ^ d2) by (bit_vector);
        } else if c1[i] {
            assert(v ^ (d1 ^ d2) == (v ^ d1) ^ d2) by (bit_vector);
        } else if c2[i] {
            assert(v ^ (d1 ^ d2) == d1 ^ (v ^ d2)) by (bit_vector);
        }
    }
}

/// A row with no coefficient has product zero, so it is satisfied exactly
/// when its constant is zero.
pub proof fn lemma_zero_row_sat(m: EqModel, values: Seq<usize>)
    requires
        zero_row(m),
    ensures
        eq_sat(m, values) <==> m.c == 0,
{
    lemma_dot_skip(m.coeffs, values, 0, m.coeffs.len() as int);
}

/// Adding one row into another preserves, in both directions, whether a
/// candidate solution satisfies the pair.
pub proof fn lemma_combine_sat(e1: EqModel, e2: EqModel, sol: Seq<usize>)
    requires
        e1.coeffs.len() == e2.coeffs.len(),
        eq_sat(e2, sol),
    ensures
        eq_sat(e1, sol) <==> eq_sat(combined(e1, e2), sol),
{
    let e3 = combined(e1, e2);
    lemma_dot_xor(e1.coeffs, e2.coeffs, e3.coeffs, sol, 0);
    let d1 = dot(e1.coeffs, sol, 0);
    let c1 = e1.c;
    let c2 = e2.c;
    assert((d1 ^ c2 == c1 ^ c2) <==> d1 == c1) by (bit_vector);
}

/// Two systems that exactly the same assignments satisfy.
pub open spec fn equisat(s1: SysModel, s2: SysModel) -> bool {
    forall|sol: Seq<usize>| (#[trigger] sys_sat(s1, sol)) == sys_sat(s2, sol)
}

/// Every assignment that satisfies the system also satisfies the row.
spec fn row_implied_by(s: SysModel, m: EqModel) -> bool {
    forall|sol: Seq<usize>| #[trigger] sys_sat(s, sol) ==> eq_sat(m, sol)
}

pub proof fn lemma_equisat_sym(s1: SysModel, s2: SysModel)
    requires
        equisat(s1, s2),
    ensures
        equisat(s2, s1),
{
    assert forall|sol: Seq<usize>| (#[trigger] sys_sat(s2, sol)) == sys_sat(s1, sol) by {
        assert(sys_sat(s1, sol) == sys_sat(s2, sol));
    }
}

pub proof fn lemma_equisat_trans(s1: SysModel, s2: SysModel, s3: SysModel)
    requires
        equisat(s1, s2),
        equisat(s2, s3),
    ensures
        equisat(s1, s3),
{
    assert forall|sol: Seq<usize>| (#[trigger] sys_sat(s1, sol)) == sys_sat(s3, sol) by {
        assert(sys_sat(s1, sol) == sys_sat(s2, sol));
        assert(sys_sat(s2, sol) == sys_sat(s3, sol));
    }
}

/// The all-zero row over `nv` variables.
pub open spec fn zero_model(nv: nat) -> EqModel {
    EqModel { coeffs: Seq::new(nv, |k: int| false), c: 0 }
}

/// Pointwise XOR of two selection vectors.
pub open spec fn sel_xor(s1: Seq<bool>, s2: Seq<bool>) -> Seq<bool> {
    Seq::new(s1.len(), |k: int| s1[k] != s2[k])
}

/// The GF(2) sum of the rows selected by `sel`.
pub open spec fn xor_sel(rows: Seq<EqModel>, sel: Seq<bool>, nv: nat) -> EqModel
    decreases sel.len(),
{
    if sel.len() == 0 {
        zero_model(nv)
    } else if sel.last() {
        combined(xor_sel(rows, sel.drop_last(), nv), rows[sel.len() - 1])
    } else {
        xor_sel(rows, sel.drop_last(), nv)
    }
}

/// `m` is a GF(2) combination of the given rows.
pub open spec fn combination_of(m: EqModel, rows: Seq<EqModel>, nv: nat) -> bool {
    exists|sel: Seq<bool>| sel.len() == rows.len() && m == #[trigger] xor_sel(rows, sel, nv)
}

proof fn lemma_xor_sel_len(rows: Seq<EqModel>, sel: Seq<bool>, nv: nat)
    ensures
        xor_sel(rows, sel, nv).coeffs.len() == nv,
    decreases sel.len(),
{
    if sel.len() > 0 {
        lemma_xor_sel_len(rows, sel.drop_last(), nv);
    }
}

proof fn lemma_combined_zero_left(m: EqModel, nv: nat)
    requires
        m.coeffs.len() == nv,
    ensures
        combined(zero_model(nv), m) == m,
{
    assert(combined(zero_model(nv), m).coeffs =~= m.coeffs);
    let c = m.c;
    assert(0usize ^ c == c) by (bit_vector);
}

/// The GF(2) sum distributes over the XOR of selections.
proof fn lemma_xor_sel_add(rows: Seq<EqModel>, s1: Seq<bool>, s2: Seq<bool>, nv: nat)
    requires
        s1.len() == s2.len(),
        s1.len() <= rows.len(),
        forall|k: int| 0 <= k < rows.len() ==> (#[trigger] rows[k]).coeffs.len() == nv,
    ensures
        xor_sel(rows, sel_xor(s1, s2), nv) == combined(
            xor_sel(rows, s1, nv),
            xor_sel(rows, s2, nv),
        ),
    decreases s1.len(),
{
    let sx = sel_xor(s1, s2);
    lemma_xor_sel_len(rows, s1, nv);
    lemma_xor_sel_len(rows, s2, nv);
    if s1.len() == 0 {
        assert(combined(zero_model(nv), zero_model(nv)).coeffs =~= zero_model(nv).coeffs);
        assert(0usize ^ 0usize == 0usize) by (bit_vector);
    } else {
        let n = s1.len();
        let s1p = s1.drop_last();
        let s2p = s2.drop_last();
        lemma_xor_sel_add(rows, s1p, s2p, nv);
        lemma_xor_sel_len(rows, s1p, nv);
        lemma_xor_sel_len(rows, s2p, nv);
        assert(sx.drop_last() =~= sel_xor(s1p, s2p));
        assert(sx.last() == (s1.last() != s2.last()));
        let a = xor_sel(rows, s1p, nv);
        let b = xor_sel(rows, s2p, nv);
        let r = rows[n - 1];
        if s1.last() && s2.last() {
            // the shared last row cancels
            assert(combined(combined(a, r), combined(b, r)) == combined(a, b)) by {
                assert(combined(combined(a, r), combined(b, r)).coeffs =~= combined(
                    a,
                    b,
                ).coeffs);
                let xa = a.c;
                let xb = b.c;
                let xr = r.c;
                assert((xa ^ xr) ^ (xb ^ xr) == xa ^ xb) by (bit_vector);
            }
        } else if s1.last() {
            assert(combined(combined(a, r), b) == combined(combined(a, b), r)) by {
                assert(combined(combined(a, r), b).coeffs =~= combined(
                    combined(a, b),
                    r,
                ).coeffs);
                let xa = a.c;
                let xb = b.c;
                let xr = r.c;
                assert((xa ^ xr) ^ xb == (xa ^ xb) ^ xr) by (bit_vector);
            }
        } else if s2.last() {
            assert(combined(a, combined(b, r)) == combined(combined(a, b), r)) by {
                assert(combined(a, combined(b, r)).coeffs =~= combined(
                    combined(a, b),
                    r,
                ).coeffs);
                let xa = a.c;
                let xb = b.c;
                let xr = r.c;
                assert(xa ^ (xb ^ xr) == (xa ^ xb) ^ xr) by (bit_vector);
            }
        }
    }
}

/// The selection that picks exactly one row yields that row.
proof fn lemma_xor_sel_unit(rows: Seq<EqModel>, sel: Seq<bool>, k: int, nv: nat)
    requires
        0 <= k < sel.len(),
        sel.len() <= rows.len(),
        forall|t: int| 0 <= t < sel.len() ==> ((#[trigger] sel[t]) <==> t == k),
        rows[k].coeffs.len() == nv,
    ensures
        xor_sel(rows, sel, nv) == rows[k],
    decreases sel.len(),
{
    if sel.len() - 1 == k {
        let pre = sel.drop_last();
        assert forall|t: int| 0 <= t < pre.len() implies !(#[trigger] pre[t]) by {
            assert(sel[t] <==> t == k);
        }
        lemma_xor_sel_all_false(rows, sel.drop_last(), nv);
        lemma_combined_zero_left(rows[k], nv);
    } else {
        lemma_xor_sel_unit(rows, sel.drop_last(), k, nv);
    }
}

/// The empty selection yields the all-zero row.
proof fn lemma_xor_sel_all_false(rows: Seq<EqModel>, sel: Seq<bool>, nv: nat)
    requires
        forall|t: int| 0 <= t < sel.len() ==> !(#[trigger] sel[t]),
    ensures
        xor_sel(rows, sel, nv) == zero_model(nv),
    decreases sel.len(),
{
    if sel.len() > 0 {
        lemma_xor_sel_all_false(rows, sel.drop_last(), nv);
    }
}

/// The XOR of the selections chosen by `sel2`, each of length `m`.
spec fn sel_fold(sels: Seq<Seq<bool>>, sel2: Seq<bool>, m: nat) -> Seq<bool>
    decreases sel2.len(),
{
    if sel2.len() == 0 {
        Seq::new(m, |k: int| false)
    } else if sel2.last() {
        sel_xor(sel_fold(sels, sel2.drop_last(), m), sels[sel2.len() - 1])
    } else {
        sel_fold(sels, sel2.drop_last(), m)
    }
}

proof fn lemma_sel_fold_len(sels: Seq<Seq<bool>>, sel2: Seq<bool>, m: nat)
    ensures
        sel_fold(sels, sel2, m).len() == m,
    decreases sel2.len(),
{
    if sel2.len() > 0 {
        lemma_sel_fold_len(sels, sel2.drop_last(), m);
    }
}

/// A combination of rows that are themselves combinations of original rows
/// is a combination of the original rows.
proof fn lemma_xor_sel_compose(
    orig: Seq<EqModel>,
    mid: Seq<EqModel>,
    sels: Seq<Seq<bool>>,
    sel2: Seq<bool>,
    nv: nat,
)
    requires
        sel2.len() <= mid.len(),
        sels.len() == mid.len(),
        forall|i: int|
            0 <= i < mid.len() ==> (#[trigger] sels[i]).len() == orig.len() && mid[i] == xor_sel(
                orig,
                sels[i],
                nv,
            ),
        forall|k: int| 0 <= k < orig.len() ==> (#[trigger] orig[k]).coeffs.len() == nv,
    ensures
        xor_sel(mid, sel2, nv) == xor_sel(orig, sel_fold(sels, sel2, orig.len()), nv),
    decreases sel2.len(),
{
    let m = orig.len();
    lemma_sel_fold_len(sels, sel2, m);
    if sel2.len() == 0 {
        lemma_xor_sel_all_false(orig, sel_fold(sels, sel2, m), nv);
    } else {
        let n = sel2.len();
        lemma_xor_sel_compose(orig, mid, sels, sel2.drop_last(), nv);
        lemma_sel_fold_len(sels, sel2.drop_last(), m);
        if sel2.last() {
            lemma_xor_sel_add(orig, sel_fold(sels, sel2.drop_last(), m), sels[n - 1], nv);
        }
    }
}

/// Each row of a system with the same solution set is a consequence of the
/// original rows: every assignment satisfying the original system
/// satisfies it. The solvers only combine and swap rows, so this holds of
/// each row they leave behind.
pub proof fn lemma_equisat_rows_implied(s1: SysModel, s2: SysModel, k: int, sol: Seq<usize>)
    requires
        equisat(s1, s2),
        0 <= k < s2.eqs.len(),
        sys_sat(s1, sol),
    ensures
        eq_sat(s2.eqs[k], sol),
{
    assert(sys_sat(s2, sol) == sys_sat(s1, sol));
}

/// Adding row `j` into row `i` (a GF(2) row operation) preserves the
/// solution set of the system.
proof fn lemma_sys_update_combined(s: SysModel, i: int, j: int)
    requires
        0 <= i < s.eqs.len(),
        0 <= j < s.eqs.len(),
        i != j,
        s.eqs[i].coeffs.len() == s.eqs[j].coeffs.len(),
    ensures
        equisat(
            s,
            SysModel { num_vars: s.num_vars, eqs: s.eqs.update(i, combined(s.eqs[i], s.eqs[j])) },
        ),
{
    let t = SysModel { num_vars: s.num_vars, eqs: s.eqs.update(i, combined(s.eqs[i], s.eqs[j])) };
    assert forall|sol: Seq<usize>| (#[trigger] sys_sat(s, sol)) == sys_sat(t, sol) by {
        if sys_sat(s, sol) {
            assert(eq_sat(s.eqs[j], sol));
            lemma_combine_sat(s.eqs[i], s.eqs[j], sol);
            assert forall|k: int| 0 <= k < t.eqs.len() implies eq_sat(#[trigger] t.eqs[k], sol) by {
                assert(eq_sat(s.eqs[k], sol));
            }
        }
        if sys_sat(t, sol) {
            assert(eq_sat(t.eqs[j], sol));
            assert(eq_sat(s.eqs[j], sol));
            lemma_combine_sat(s.eqs[i], s.eqs[j], sol);
            assert(eq_sat(t.eqs[i], sol));
            assert forall|k: int| 0 <= k < s.eqs.len() implies eq_sat(#[trigger] s.eqs[k], sol) by {
                if k != i {
                    assert(eq_sat(t.eqs[k], sol));
                }
            }
        }
    }
}

/// Swapping two rows preserves the solution set of the system.
proof fn lemma_sys_swap(s: SysModel, i: int, j: int)
    requires
        0 <= i < s.eqs.len(),
        0 <= j < s.eqs.len(),
    ensures
        equisat(
            s,
            SysModel { num_vars: s.num_vars, eqs: s.eqs.update(i, s.eqs[j]).update(j, s.eqs[i]) },
        ),
{
    let t = SysModel { num_vars: s.num_vars, eqs: s.eqs.update(i, s.eqs[j]).update(j, s.eqs[i]) };
    assert forall|sol: Seq<usize>| (#[trigger] sys_sat(s, sol)) == sys_sat(t, sol) by {
        if sys_sat(s, sol) {
            assert forall|k: int| 0 <= k < t.eqs.len() implies eq_sat(#[trigger] t.eqs[k], sol) by {
                assert(eq_sat(s.eqs[i], sol));
                assert(eq_sat(s.eqs[j], sol));
                assert(eq_sat(s.eqs[k], sol));
            }
        }
        if sys_sat(t, sol) {
            assert forall|k: int| 0 <= k < s.eqs.len() implies eq_sat(#[trigger] s.eqs[k], sol) by {
                assert(eq_sat(t.eqs[i], sol));
                assert(eq_sat(t.eqs[j], sol));
                if k != i && k != j {
                    assert(eq_sat(t.eqs[k], sol));
                }
            }
        }
    }
}

/// One equation over GF(2): a coefficient bit per variable and a constant.
pub struct Modulo2Equation {
    bit_vector: BitVec,
    c: usize,
    first_var: Option<usize>,
}

impl Clone for Modulo2Equation {
    /// A clone has the same model, leading variable and well-formedness.
    fn clone(&self) -> (r: Self)
        ensures
            r@ == self@,
            r.wf() == self.wf(),
            r.lead() == self.lead(),
    {
        Modulo2Equation {
            bit_vector: self.bit_vector.clone(),
            c: self.c,
            first_var: self.first_var,
        }
    }
}

impl View for Modulo2Equation {
    type V = EqModel;

    closed spec fn view(&self) -> EqModel {
        EqModel { coeffs: self.bit_vector@, c: self.c }
    }
}

impl Modulo2Equation {
    /// The cached leading variable is the lowest set coefficient, and is
    /// `None` exactly when the row is all-zero.
    pub closed spec fn wf(self) -> bool {
        &&& self.bit_vector.wf()
        &&& match self.first_var {
            None => zero_row(self@),
            Some(v) => {
                &&& v < self@.coeffs.len()
                &&& self@.coeffs[v as int]
                &&& forall|j: int| 0 <= j < v ==> !self@.coeffs[j]
            },
        }
    }

    /// The cached leading variable.
    pub closed spec fn lead(self) -> Option<usize> {
        self.first_var
    }

    /// An equation over `num_vars` variables with zero coefficients.
    pub fn new(c: usize, num_vars: usize) -> (r: Modulo2Equation)
        requires
            num_vars <= usize::MAX - 63,
        ensures
            r.wf(),
            r@.coeffs.len() == num_vars,
            zero_row(r@),
            r@.c == c,
            r.lead() is None,
    {
        Modulo2Equation { bit_vector: BitVec::new(num_vars), c, first_var: None }
    }

    /// Set the coefficient of `variable`, which must not already be set.
    pub fn add(&mut self, variable: usize) -> (r: &mut Modulo2Equation)
        requires
            old(self).wf(),
            variable < old(self)@.coeffs.len(),
            !old(self)@.coeffs[variable as int],
        ensures
            (*r).wf(),
            (*r)@.coeffs == old(self)@.coeffs.update(variable as int, true),
            (*r)@.c == old(self)@.c,
            *final(self) == *final(r),
    {
        self.bit_vector.set(variable, true);
        let new_first = match self.first_var {
            Some(fv) => if fv < variable {
                fv
            } else {
                variable
            },
            None => variable,
        };
        self.first_var = Some(new_first);
        self
    }

    /// The indices of the set coefficients, in increasing order.
    pub fn variables(&self) -> (r: Vec<usize>)
        requires
            self.wf(),
        ensures
            strictly_increasing(r@),
            forall|k: int| 0 <= k < r@.len() ==> r@[k] < self@.coeffs.len() && self@.coeffs[r@[k] as int],
            forall|j: int| 0 <= j < self@.coeffs.len() && self@.coeffs[j] ==> r@.contains(j as usize),
    {
        let n = self.bit_vector.len();
        let mut r: Vec<usize> = Vec::new();
        let mut v: usize = 0;
        while v < n
            invariant
                self.wf(),
                n == self@.coeffs.len(),
                v <= n,
                strictly_increasing(r@),
                forall|k: int| 0 <= k < r@.len() ==> r@[k] < v && self@.coeffs[r@[k] as int],
                forall|j: int| 0 <= j < v && self@.coeffs[j] ==> r@.contains(j as usize),
            decreases n - v,
        {
            if self.bit_vector.get(v) {
                let ghost prev = r@;
                r.push(v);
                proof {
                    assert(r@[r@.len() - 1] == v);
                    assert forall|j: int| 0 <= j < v + 1 && self@.coeffs[j] implies r@.contains(
                        j as usize,
                    ) by {
                        if j < v {
                            let k = choose|k: int| 0 <= k < prev.len() && prev[k] == j as usize;
                            assert(r@[k] == j as usize);
                        } else {
                            assert(r@[r@.len() - 1] == j as usize);
                        }
                    }
                }
            }
            v = v + 1;
        }
        r
    }

    /// XOR another equation's coefficients and constant into this one,
    /// recomputing the cached leading variable.
    pub fn add_equation(&mut self, equation: &Modulo2Equation)
        requires
            old(self).wf(),
            equation.wf(),
            old(self)@.coeffs.len() == equation@.coeffs.len(),
        ensures
            final(self).wf(),
            final(self)@ == combined(old(self)@, equation@),
    {
        self.c = self.c ^ equation.c;
        self.bit_vector.xor(&equation.bit_vector);
        proof {
            assert(self@.coeffs =~= combined(old(self)@, equation@).coeffs);
        }
        self.first_var = None;
        let n_words = self.bit_vector.num_words();
        let mut wi: usize = 0;
        while wi < n_words
            invariant
                self.bit_vector.wf(),
                self@ == combined(old(self)@, equation@),
                self.first_var is None,
                n_words == (self.bit_vector@.len() + 63) / 64,
                64 * n_words >= self.bit_vector@.len(),
                wi <= n_words,
                forall|k: int|
                    0 <= k < 64 * wi && k < self.bit_vector@.len() ==> !self.bit_vector@[k],
            decreases n_words - wi,
        {
            let w = self.bit_vector.word(wi);
            if w != 0 {
                let tz = w.trailing_zeros();
                proof {
                    axiom_u64_trailing_zeros(w);
                    assert(word_bit(w, tz as int));
                    assert(64 * wi + (tz as int) < self.bit_vector@.len());
                }
                let fv = wi * 64 + tz as usize;
                self.first_var = Some(fv);
                proof {
                    assert forall|j: int| 0 <= j < fv implies !self.bit_vector@[j] by {
                        if j >= 64 * wi {
                            let jw = (j - 64 * wi) as u64;
                            assert((w >> jw) & 1u64 == 0u64);
                            assert(!word_bit(w, j - 64 * wi));
                        }
                    }
                }
                return ;
            }
            proof {
                lemma_zero_word_has_no_bits();
                assert forall|k: int|
                    0 <= k < 64 * (wi + 1) && k < self.bit_vector@.len() implies !self.bit_vector@[k] by {
                    if k >= 64 * wi {
                        assert(!word_bit(w, k - 64 * wi));
                    }
                }
            }
            wi = wi + 1;
        }
    }

    /// The row is all-zero yet its constant is nonzero: a contradiction.
    pub fn is_unsolvable(&self) -> (r: bool)
        requires
            self.wf(),
        ensures
            r == (zero_row(self@) && self@.c != 0),
    {
        self.first_var.is_none() && self.c != 0
    }

    /// The row is all-zero and its constant is zero: trivially true.
    pub fn is_identity(&self) -> (r: bool)
        requires
            self.wf(),
        ensures
            r == (zero_row(self@) && self@.c == 0),
    {
        self.first_var.is_none() && self.c == 0
    }

    /// XOR of `values[j]` over every set bit `j` of `bits`, scanning one
    /// word at a time and skipping zero words.
    pub fn scalar_product(bits: &BitVec, values: &Vec<usize>) -> (r: usize)
        requires
            bits.wf(),
            values@.len() == bits@.len(),
        ensures
            r == dot(bits@, values@, 0),
    {
        let ghost total = dot(bits@, values@, 0);
        let n_words = bits.num_words();
        let mut sum: usize = 0;
        let mut wi: usize = 0;
        proof {
            lemma_xor_basics(total, 0);
        }
        while wi < n_words
            invariant
                bits.wf(),
                values@.len() == bits@.len(),
                bits@.len() <= usize::MAX - 63,
                n_words == (bits@.len() + 63) / 64,
                64 * n_words >= bits@.len(),
                wi <= n_words,
                total == dot(bits@, values@, 0),
                total == sum ^ dot(bits@, values@, 64 * wi as int),
            decreases n_words - wi,
        {
            let mut word = bits.word(wi);
            let ghost mut b: int = 0;
            while word != 0
                invariant
                    bits.wf(),
                    values@.len() == bits@.len(),
                    bits@.len() <= usize::MAX - 63,
                    wi < n_words,
                    n_words == (bits@.len() + 63) / 64,
                    0 <= b <= 64,
                    forall|j: int|
                        0 <= j < 64 ==> (word_bit(word, j) <==> (b <= j && 64 * wi + j
                            < bits@.len() && bits@[64 * wi + j])),
                    total == sum ^ dot(bits@, values@, 64 * wi + b),
                decreases 64 - b,
            {
                let tz = word.trailing_zeros();
                proof {
                    axiom_u64_trailing_zeros(word);
                    assert(word_bit(word, tz as int));
                    assert(b <= tz as int);
                    assert forall|k: int|
                        64 * wi + b <= k < 64 * wi + tz as int && k < bits@.len() implies !bits@[k] by {
                        let j = k - 64 * wi;
                        assert((word >> (j as u64)) & 1u64 == 0u64);
                        assert(!word_bit(word, j));
                    }
                    lemma_dot_skip(bits@, values@, 64 * wi + b, 64 * wi + tz as int);
                    let p = 64 * wi + tz as int;
                    let vv = values@[p];
                    let d = dot(bits@, values@, p + 1);
                    lemma_xor_assoc(sum, vv, d);
                }
                let idx = wi * 64 + tz as usize;
                sum = sum ^ values[idx];
                let ghost prev = word;
                word = word & !(1u64 << (tz as u64));
                proof {
                    assert forall|j: int|
                        0 <= j < 64 implies (word_bit(word, j) <==> (tz as int + 1 <= j && 64 * wi
                        + j < bits@.len() && bits@[64 * wi + j])) by {
                        lemma_word_clear_bit(prev, tz as u64, j);
                    }
                    b = tz as int + 1;
                }
            }
            proof {
                lemma_zero_word_has_no_bits();
                assert forall|k: int|
                    64 * wi + b <= k < 64 * (wi + 1) && k < bits@.len() implies !bits@[k] by {
                    assert(!word_bit(word, k - 64 * wi));
                }
                lemma_dot_skip(bits@, values@, 64 * wi + b, 64 * (wi + 1));
            }
            wi = wi + 1;
        }
        proof {
            assert(dot(bits@, values@, 64 * wi as int) == 0);
            lemma_xor_basics(sum, 0);
        }
        sum
    }
}

proof fn lemma_count_push(s: Seq<usize>, y: usize, v: usize)
    ensures
        count_val(s.push(y), v) == count_val(s, v) + (if y == v {
            1nat
        } else {
            0nat
        }),
{
    assert(s.push(y).drop_last() =~= s);
    assert(s.push(y).last() == y);
}

/// Sum of all entries of a sequence.
spec fn sum_vals(s: Seq<usize>) -> int
    decreases s.len(),
{
    if s.len() == 0 {
        0
    } else {
        sum_vals(s.drop_last()) + s.last()
    }
}

proof fn lemma_sum_zero(s: Seq<usize>)
    requires
        forall|i: int| 0 <= i < s.len() ==> s[i] == 0,
    ensures
        sum_vals(s) == 0,
    decreases s.len(),
{
    if s.len() > 0 {
        lemma_sum_zero(s.drop_last());
    }
}

proof fn lemma_sum_update(s: Seq<usize>, i: int, y: usize)
    requires
        0 <= i < s.len(),
    ensures
        sum_vals(s.update(i, y)) == sum_vals(s) - s[i] + y,
    decreases s.len(),
{
    if i == s.len() - 1 {
        assert(s.update(i, y).drop_last() =~= s.drop_last());
    } else {
        assert(s.update(i, y).drop_last() =~= s.drop_last().update(i, y));
        lemma_sum_update(s.drop_last(), i, y);
    }
}

proof fn lemma_elem_le_sum(s: Seq<usize>, i: int)
    requires
        0 <= i < s.len(),
    ensures
        s[i] <= sum_vals(s),
        sum_vals(s) >= 0,
    decreases s.len(),
{
    if s.len() == 1 {
        assert(s.drop_last().len() == 0);
        assert(sum_vals(s) == sum_vals(s.drop_last()) + s.last());
    } else if i == s.len() - 1 {
        lemma_elem_le_sum(s.drop_last(), 0);
        assert(sum_vals(s) == sum_vals(s.drop_last()) + s.last());
    } else {
        lemma_elem_le_sum(s.drop_last(), i);
        assert(s.drop_last()[i] == s[i]);
        assert(sum_vals(s) == sum_vals(s.drop_last()) + s.last());
    }
}

proof fn lemma_sum_take_succ(s: Seq<usize>, k: int)
    requires
        0 <= k < s.len(),
    ensures
        sum_vals(s.take(k + 1)) == sum_vals(s.take(k)) + s[k],
{
    assert(s.take(k + 1).drop_last() =~= s.take(k));
    assert(s.take(k + 1).last() == s[k]);
}

proof fn lemma_sum_take_le(s: Seq<usize>, k: int)
    requires
        0 <= k <= s.len(),
    ensures
        sum_vals(s.take(k)) <= sum_vals(s),
    decreases s.len() - k,
{
    if k == s.len() {
        assert(s.take(k) =~= s);
    } else {
        lemma_sum_take_succ(s, k);
        lemma_sum_take_le(s, k + 1);
    }
}

proof fn lemma_strictly_increasing_at_least(s: Seq<usize>, i: int)
    requires
        strictly_increasing(s),
        0 <= i < s.len(),
    ensures
        s[i] >= i,
    decreases i,
{
    if i > 0 {
        lemma_strictly_increasing_at_least(s, i - 1);
        assert(s[i - 1] < s[i]);
    }
}

/// A strictly increasing sequence of values below `bound` has at most
/// `bound` entries.
proof fn lemma_strictly_increasing_len_bound(s: Seq<usize>, bound: int)
    requires
        0 <= bound,
        strictly_increasing(s),
        forall|k: int| 0 <= k < s.len() ==> s[k] < bound,
    ensures
        s.len() <= bound,
{
    if s.len() > 0 {
        lemma_strictly_increasing_at_least(s, s.len() - 1);
        assert(s[s.len() - 1] < bound);
    }
}

/// A value occurs in a sequence exactly when its count is positive.
pub proof fn lemma_count_pos_iff_contains(s: Seq<usize>, v: usize)
    ensures
        (count_val(s, v) > 0) <==> s.contains(v),
    decreases s.len(),
{
    if s.len() == 0 {
        assert(!s.contains(v));
    } else {
        let pre = s.drop_last();
        lemma_count_pos_iff_contains(pre, v);
        if s.contains(v) && s.last() != v {
            let k = choose|k: int| 0 <= k < s.len() && s[k] == v;
            assert(pre[k] == v);
            assert(pre.contains(v));
        }
        if pre.contains(v) {
            let k = choose|k: int| 0 <= k < pre.len() && pre[k] == v;
            assert(s[k] == v);
        }
        if s.last() == v {
            assert(s[s.len() - 1] == v);
        }
    }
}

/// `r` is the canonical form of the adjacency list `l`: entries are strictly
/// increasing, and a value survives exactly when it occurs an odd number of
/// times, so that pairs of duplicates cancel.
pub open spec fn canonical_form(r: Seq<usize>, l: Seq<usize>) -> bool {
    &&& strictly_increasing(r)
    &&& forall|v: usize| (#[trigger] count_val(l, v)) % 2 == 1 <==> r.contains(v)
}

/// Cancel pairs of equal entries in a sorted adjacency list, compacting the
/// survivors to the front.
fn normalize_adjacency(eq: &mut Vec<usize>)
    requires
        nondecreasing(old(eq)@),
    ensures
        canonical_form(final(eq)@, old(eq)@),
        forall|k: int| 0 <= k < final(eq)@.len() ==> old(eq)@.contains(#[trigger] final(eq)@[k]),
{
    let len = eq.len();
    if len == 0 {
        proof {
            assert forall|v: usize| ((#[trigger] count_val(eq@, v)) % 2 == 1)
                <==> eq@.contains(v) by {
                assert(count_val(eq@, v) == 0);
                assert(!eq@.contains(v));
            }
        }
        return ;
    }
    let mut curr_eq = eq[0];
    let mut curr_coeff = true;
    let mut j: usize = 0;
    let mut i: usize = 1;
    proof {
        assert(old(eq)@.take(1) =~= Seq::empty().push(old(eq)@[0]));
        lemma_count_push(Seq::empty(), old(eq)@[0], curr_eq);
        assert forall|v: usize|
            v != curr_eq implies ((#[trigger] count_val(old(eq)@.take(1), v)) % 2 == 1
            <==> eq@.take(0).contains(v)) by {
            lemma_count_push(Seq::empty(), old(eq)@[0], v);
            lemma_count_pos_iff_contains(eq@.take(0), v);
        }
    }
    while i < len
        invariant
            nondecreasing(old(eq)@),
            eq@.len() == len,
            len == old(eq)@.len(),
            len >= 1,
            1 <= i <= len,
            j < i,
            forall|k: int| i <= k < len ==> eq@[k] == old(eq)@[k],
            curr_eq == old(eq)@[i - 1],
            strictly_increasing(eq@.take(j as int)),
            forall|k: int| 0 <= k < j ==> eq@[k] < curr_eq,
            forall|k: int| 0 <= k < j ==> old(eq)@.contains(#[trigger] eq@[k]),
            forall|v: usize|
                v != curr_eq ==> ((#[trigger] count_val(old(eq)@.take(i as int), v)) % 2 == 1
                    <==> eq@.take(j as int).contains(v)),
            (count_val(old(eq)@.take(i as int), curr_eq) % 2 == 1) == curr_coeff,
            !eq@.take(j as int).contains(curr_eq),
        decreases len - i,
    {
        let x = eq[i];
        proof {
            assert(x == old(eq)@[i as int]);
            assert(old(eq)@[i - 1] <= old(eq)@[i as int]);
            assert(old(eq)@.take(i + 1) =~= old(eq)@.take(i as int).push(old(eq)@[i as int]));
        }
        if x != curr_eq {
            let ghost old_take_j = eq@.take(j as int);
            if curr_coeff {
                eq[j] = curr_eq;
                j = j + 1;
                proof {
                    assert(eq@.take(j as int) =~= old_take_j.push(curr_eq));
                    assert forall|v: usize| eq@.take(j as int).contains(v) implies (old_take_j.contains(
                        v,
                    ) || v == curr_eq) by {
                        let k = choose|k: int|
                            0 <= k < eq@.take(j as int).len() && eq@.take(j as int)[k] == v;
                        if k < j - 1 {
                            assert(old_take_j[k] == v);
                        }
                    }
                    assert(old(eq)@[i - 1] == curr_eq);
                    assert(old(eq)@.contains(curr_eq));
                }
            }
            let ghost take_j_now = eq@.take(j as int);
            proof {
                // every compacted entry stays below the new run value
                assert forall|k: int| 0 <= k < j implies eq@[k] < x by {
                    assert(eq@[k] <= curr_eq);
                }
                assert forall|v: usize|
                    v != x implies ((#[trigger] count_val(old(eq)@.take(i + 1), v)) % 2 == 1
                    <==> take_j_now.contains(v)) by {
                    lemma_count_push(old(eq)@.take(i as int), old(eq)@[i as int], v);
                    if v == curr_eq {
                        if curr_coeff {
                            assert(take_j_now[j - 1] == curr_eq);
                        } else {
                            if take_j_now.contains(v) {
                                let k = choose|k: int|
                                    0 <= k < take_j_now.len() && take_j_now[k] == v;
                                assert(eq@[k] < curr_eq);
                            }
                        }
                    } else {
                        assert(count_val(old(eq)@.take(i as int), v) % 2 == 1
                            <==> old_take_j.contains(v));
                        if old_take_j.contains(v) {
                            let k = choose|k: int|
                                0 <= k < old_take_j.len() && old_take_j[k] == v;
                            assert(take_j_now[k] == v);
                        }
                        if take_j_now.contains(v) {
                            let k = choose|k: int|
                                0 <= k < take_j_now.len() && take_j_now[k] == v;
                            if k < old_take_j.len() {
                                assert(old_take_j[k] == v);
                            }
                        }
                    }
                }
                lemma_count_push(old(eq)@.take(i as int), old(eq)@[i as int], x);
                if take_j_now.contains(x) {
                    let k = choose|k: int| 0 <= k < take_j_now.len() && take_j_now[k] == x;
                    assert(eq@[k] < x);
                }
                // a fresh run starts with an even prior count
                assert(count_val(old(eq)@.take(i + 1), x) % 2 == 1);
            }
            curr_eq = x;
            curr_coeff = true;
        } else {
            proof {
                lemma_count_push(old(eq)@.take(i as int), old(eq)@[i as int], curr_eq);
                assert forall|v: usize|
                    v != curr_eq implies ((#[trigger] count_val(old(eq)@.take(i + 1), v)) % 2 == 1
                    <==> eq@.take(j as int).contains(v)) by {
                    lemma_count_push(old(eq)@.take(i as int), old(eq)@[i as int], v);
                }
            }
            curr_coeff = !curr_coeff;
        }
        i = i + 1;
    }
    proof {
        assert(old(eq)@.take(len as int) =~= old(eq)@);
    }
    let ghost old_take_j = eq@.take(j as int);
    if curr_coeff {
        eq[j] = curr_eq;
        j = j + 1;
        proof {
            assert(eq@.take(j as int) =~= old_take_j.push(curr_eq));
        }
    }
    let ghost take_j_final = eq@.take(j as int);
    proof {
        if curr_coeff {
            assert(take_j_final[j - 1] == curr_eq);
            assert(take_j_final.contains(curr_eq));
            assert forall|v: usize| take_j_final.contains(v) implies (old_take_j.contains(v) || v
                == curr_eq) by {
                let k = choose|k: int| 0 <= k < take_j_final.len() && take_j_final[k] == v;
                if k < j - 1 {
                    assert(old_take_j[k] == v);
                }
            }
            assert forall|v: usize| old_take_j.contains(v) implies take_j_final.contains(v) by {
                let k = choose|k: int| 0 <= k < old_take_j.len() && old_take_j[k] == v;
                assert(take_j_final[k] == v);
            }
            assert(strictly_increasing(take_j_final)) by {
                assert forall|a: int, b: int|
                    0 <= a < b < take_j_final.len() implies #[trigger] take_j_final[a]
                    < #[trigger] take_j_final[b] by {
                    if b == j - 1 {
                        assert(take_j_final[a] == old_take_j[a]);
                    } else {
                        assert(take_j_final[a] == old_take_j[a] && take_j_final[b]
                            == old_take_j[b]);
                    }
                }
            }
            assert(old(eq)@[i - 1] == curr_eq);
            assert(old(eq)@.contains(curr_eq));
        } else {
            if take_j_final.contains(curr_eq) {
                let k = choose|k: int| 0 <= k < take_j_final.len() && take_j_final[k] == curr_eq;
                assert(eq@[k] < curr_eq);
            }
        }
        assert forall|v: usize| ((#[trigger] count_val(old(eq)@, v)) % 2 == 1)
            <==> take_j_final.contains(v) by {
            assert(count_val(old(eq)@, v) == count_val(old(eq)@.take(len as int), v));
        }
        assert forall|k: int| 0 <= k < take_j_final.len() implies old(eq)@.contains(
            #[trigger] take_j_final[k],
        ) by {
            if !(curr_coeff && k == j - 1) {
                assert(take_j_final[k] == eq@.take((j as int) - (if curr_coeff {
                    1int
                } else {
                    0int
                }))[k]);
            }
        }
    }
    eq.truncate(j);
    proof {
        assert(eq@ =~= take_j_final);
    }
}

/// An ordered collection of equations sharing a variable count.
pub struct Modulo2System {
    num_vars: usize,
    equations: Vec<Modulo2Equation>,
}

impl View for Modulo2System {
    type V = SysModel;

    closed spec fn view(&self) -> SysModel {
        SysModel {
            num_vars: self.num_vars,
            eqs: Seq::new(self.equations@.len(), |k: int| self.equations@[k]@),
        }
    }
}

impl Clone for Modulo2System {
    /// A clone has the same model and the same well-formedness.
    fn clone(&self) -> (r: Self)
        ensures
            r@ == self@,
            r.wf() == self.wf(),
    {
        let equations = self.equations.clone();
        proof {
            assert forall|k: int|
                0 <= k < equations@.len() implies (#[trigger] equations@[k])@
                == self.equations@[k]@ && equations@[k].wf() == self.equations@[k].wf() by {
                assert(cloned::<Modulo2Equation>(self.equations@[k], equations@[k]));
            }
        }
        let r = Modulo2System { num_vars: self.num_vars, equations };
        proof {
            assert(r@.eqs =~= self@.eqs);
        }
        r
    }
}

/// Non-zero rows appear in strictly increasing order of leading variable.
spec fn rows_sorted(s: Modulo2System) -> bool {
    forall|a: int, b: int|
        #![trigger s.equations@[a], s.equations@[b]]
        0 <= a < b < s.equations@.len() ==> match (
            s.equations@[a].lead(),
            s.equations@[b].lead(),
        ) {
            (Some(x), Some(y)) => x < y,
            _ => true,
        }
}

/// No row is all-zero with a nonzero constant.
spec fn no_unsolvable_rows(s: Modulo2System) -> bool {
    forall|k: int|
        0 <= k < s.equations@.len() ==> ((#[trigger] s.equations@[k]).lead() is None
            ==> s.equations@[k]@.c == 0)
}

impl Modulo2System {
    /// Every row is well formed and as wide as the system.
    pub closed spec fn wf(self) -> bool {
        &&& self.num_vars <= usize::MAX - 63
        &&& forall|k: int|
            0 <= k < self.equations@.len() ==> (#[trigger] self.equations@[k]).wf()
                && self.equations@[k]@.coeffs.len() == self.num_vars
    }

    /// An empty system over `num_vars` variables.
    pub fn new(num_vars: usize) -> (r: Modulo2System)
        requires
            num_vars <= usize::MAX - 63,
        ensures
            r.wf(),
            r@.num_vars == num_vars,
            r@.eqs.len() == 0,
    {
        Modulo2System { num_vars, equations: Vec::new() }
    }

    /// A system made of the given rows.
    fn from(num_vars: usize, equations: Vec<Modulo2Equation>) -> (r: Modulo2System)
        requires
            num_vars <= usize::MAX - 63,
            forall|k: int|
                0 <= k < equations@.len() ==> (#[trigger] equations@[k]).wf()
                    && equations@[k]@.coeffs.len() == num_vars,
        ensures
            r.wf(),
            r@.num_vars == num_vars,
            r@.eqs.len() == equations@.len(),
            forall|k: int| 0 <= k < equations@.len() ==> r@.eqs[k] == (#[trigger] equations@[k])@,
    {
        Modulo2System { num_vars, equations }
    }

    /// Append an equation, which must be as wide as the system.
    pub fn add(&mut self, equation: Modulo2Equation)
        requires
            old(self).wf(),
            equation.wf(),
            equation@.coeffs.len() == old(self)@.num_vars,
        ensures
            final(self).wf(),
            final(self)@.num_vars == old(self)@.num_vars,
            final(self)@.eqs == old(self)@.eqs.push(equation@),
    {
        self.equations.push(equation);
        proof {
            assert(self@.eqs =~= old(self)@.eqs.push(equation@));
        }
    }

    /// Whether `solution` satisfies every equation of the system.
    pub fn check(&self, solution: &Vec<usize>) -> (r: bool)
        requires
            self.wf(),
            solution@.len() == self@.num_vars,
        ensures
            r == sys_sat(self@, solution@),
    {
        let n = self.equations.len();
        let mut k: usize = 0;
        while k < n
            invariant
                self.wf(),
                solution@.len() == self@.num_vars,
                n == self.equations@.len(),
                k <= n,
                forall|m: int| 0 <= m < k ==> eq_sat(#[trigger] self@.eqs[m], solution@),
            decreases n - k,
        {
            let sp = Modulo2Equation::scalar_product(&self.equations[k].bit_vector, solution);
            if self.equations[k].c != sp {
                assert(!eq_sat(self@.eqs[k as int], solution@));
                return false;
            }
            k = k + 1;
        }
        true
    }

    /// Bring the system into echelon form by pairwise row operations and
    /// swaps, failing exactly when a contradictory row is present or
    /// appears. All-zero rows are tolerated: a contradiction fails the
    /// call, an identity row is simply left behind and never pivots.
    #[verifier::loop_isolation(false)]
    fn echelon_form(&mut self) -> (r: Result<(), SolverError>)
        requires
            old(self).wf(),
        ensures
            final(self).wf(),
            final(self)@.num_vars == old(self)@.num_vars,
            final(self)@.eqs.len() == old(self)@.eqs.len(),
            equisat(old(self)@, final(self)@),
            forall|k: int|
                0 <= k < final(self)@.eqs.len() ==> combination_of(
                    #[trigger] final(self)@.eqs[k],
                    old(self)@.eqs,
                    old(self)@.num_vars as nat,
                ),
            r is Ok ==> rows_sorted(*final(self)) && no_unsolvable_rows(*final(self)),
            r is Err ==> forall|sol: Seq<usize>| !sys_sat(old(self)@, sol),
    {
        let n = self.equations.len();
        let ghost nv_g = self@.num_vars as nat;
        let ghost orig_rows = old(self)@.eqs;
        let ghost mut sels: Seq<Seq<bool>> = Seq::new(
            n as nat,
            |k: int| Seq::new(n as nat, |t: int| t == k),
        );
        proof {
            assert forall|k: int|
                0 <= k < n implies (#[trigger] sels[k]).len() == n && self@.eqs[k] == xor_sel(
                orig_rows,
                sels[k],
                nv_g,
            ) by {
                lemma_xor_sel_unit(orig_rows, sels[k], k, nv_g);
            }
        }
        // reject rows that are contradictions on their own
        let mut k: usize = 0;
        while k < n
            invariant
                self.wf(),
                *self == *old(self),
                n == self.equations@.len(),
                k <= n,
                forall|m: int|
                    0 <= m < k ==> ((#[trigger] self.equations@[m]).lead() is None
                        ==> self.equations@[m]@.c == 0),
            decreases n - k,
        {
            if self.equations[k].is_unsolvable() {
                proof {
                    let bad = self@.eqs[k as int];
                    assert forall|sol: Seq<usize>| !sys_sat(old(self)@, sol) by {
                        lemma_zero_row_sat(bad, sol);
                        if sys_sat(old(self)@, sol) {
                            assert(eq_sat(old(self)@.eqs[k as int], sol));
                        }
                    }
                    assert forall|k2: int|
                        0 <= k2 < n implies combination_of(
                        #[trigger] self@.eqs[k2],
                        old(self)@.eqs,
                        nv_g,
                    ) by {
                        assert(self@.eqs[k2] == xor_sel(orig_rows, sels[k2], nv_g));
                    }
                }
                return Err(SolverError::Unsolvable);
            }
            k = k + 1;
        }
        if n == 0 {
            return Ok(());
        }
        let mut i: usize = 0;
        while i < n - 1
            invariant
                self.wf(),
                n == self.equations@.len(),
                n == old(self)@.eqs.len(),
                n >= 1,
                i < n,
                self@.num_vars == old(self)@.num_vars,
                equisat(old(self)@, self@),
                no_unsolvable_rows(*self),
                sels.len() == n,
                forall|k2: int|
                    0 <= k2 < n ==> (#[trigger] sels[k2]).len() == n && self@.eqs[k2] == xor_sel(
                        orig_rows,
                        sels[k2],
                        nv_g,
                    ),
                // rows before `i` are zero or lead every later non-zero row
                forall|a: int, b: int|
                    #![trigger self.equations@[a], self.equations@[b]]
                    0 <= a < b < n && a < i ==> match (
                        self.equations@[a].lead(),
                        self.equations@[b].lead(),
                    ) {
                        (Some(x), Some(y)) => x < y,
                        _ => true,
                    },
            decreases n - i,
        {
            if self.equations[i].first_var.is_some() {
                let mut j = i + 1;
                let mut zeroed = false;
                while j < n && !zeroed
                    invariant
                        self.wf(),
                        n == self.equations@.len(),
                        n == old(self)@.eqs.len(),
                        i < j <= n,
                        i < n - 1,
                        self@.num_vars == old(self)@.num_vars,
                        equisat(old(self)@, self@),
                        no_unsolvable_rows(*self),
                        sels.len() == n,
                        forall|k2: int|
                            0 <= k2 < n ==> (#[trigger] sels[k2]).len() == n && self@.eqs[k2]
                                == xor_sel(orig_rows, sels[k2], nv_g),
                        forall|a: int, b: int|
                            #![trigger self.equations@[a], self.equations@[b]]
                            0 <= a < b < n && a < i ==> match (
                                self.equations@[a].lead(),
                                self.equations@[b].lead(),
                            ) {
                                (Some(x), Some(y)) => x < y,
                                _ => true,
                            },
                        !zeroed ==> (#[trigger] self.equations@[i as int]).lead() is Some,
                        !zeroed ==> forall|k2: int|
                            i < k2 < j ==> match (#[trigger] self.equations@[k2]).lead() {
                                Some(y) => self.equations@[i as int].lead().unwrap() < y,
                                None => true,
                            },
                        zeroed ==> self.equations@[i as int].lead() is None
                            && self.equations@[i as int]@.c == 0,
                    decreases n - j,
                {
                    if self.equations[j].first_var.is_some() {
                        let fvi = self.equations[i].first_var.unwrap();
                        let fvj = self.equations[j].first_var.unwrap();
                        if fvi == fvj {
                            let eq_j = self.equations[j].clone();
                            let mut row = self.equations[i].clone();
                            row.add_equation(&eq_j);
                            let ghost pre = *self;
                            self.equations[i] = row;
                            proof {
                                assert(self@.eqs =~= pre@.eqs.update(
                                    i as int,
                                    combined(pre@.eqs[i as int], pre@.eqs[j as int]),
                                ));
                                lemma_sys_update_combined(pre@, i as int, j as int);
                                lemma_equisat_trans(old(self)@, pre@, self@);
                                lemma_xor_sel_add(orig_rows, sels[i as int], sels[j as int], nv_g);
                                sels = sels.update(
                                    i as int,
                                    sel_xor(sels[i as int], sels[j as int]),
                                );
                            }
                            if self.equations[i].is_unsolvable() {
                                proof {
                                    let bad = self@.eqs[i as int];
                                    assert forall|sol: Seq<usize>| !sys_sat(old(self)@, sol) by {
                                        lemma_zero_row_sat(bad, sol);
                                        assert(!eq_sat(bad, sol));
                                        assert(!sys_sat(self@, sol));
                                        assert(sys_sat(old(self)@, sol) == sys_sat(self@, sol));
                                    }
                                    assert forall|k2: int|
                                        0 <= k2 < n implies combination_of(
                                        #[trigger] self@.eqs[k2],
                                        old(self)@.eqs,
                                        nv_g,
                                    ) by {
                                        assert(self@.eqs[k2] == xor_sel(
                                            orig_rows,
                                            sels[k2],
                                            nv_g,
                                        ));
                                    }
                                }
                                return Err(SolverError::Unsolvable);
                            }
                            if self.equations[i].is_identity() {
                                zeroed = true;
                            } else {
                                let ghost fvi_new = self.equations@[i as int].lead().unwrap();
                                proof {
                                    // the combined row has no coefficient at or
                                    // below the old shared leading variable
                                    let ci = pre@.eqs[i as int].coeffs;
                                    let cj = pre@.eqs[j as int].coeffs;
                                    assert(self@.eqs[i as int].coeffs[fvi_new as int]);
                                    if fvi_new <= fvj {
                                        assert(ci[fvi_new as int] == cj[fvi_new as int]);
                                    }
                                }
                            }
                        }
                        if !zeroed {
                            let fvi_cur = self.equations[i].first_var.unwrap();
                            if fvi_cur > fvj {
                                let tmp_i = self.equations[i].clone();
                                let tmp_j = self.equations[j].clone();
                                let ghost pre3 = *self;
                                self.equations[i] = tmp_j;
                                self.equations[j] = tmp_i;
                                proof {
                                    assert(self@.eqs =~= pre3@.eqs.update(
                                        i as int,
                                        pre3@.eqs[j as int],
                                    ).update(j as int, pre3@.eqs[i as int]));
                                    lemma_sys_swap(pre3@, i as int, j as int);
                                    lemma_equisat_trans(old(self)@, pre3@, self@);
                                    sels = sels.update(i as int, sels[j as int]).update(
                                        j as int,
                                        sels[i as int],
                                    );
                                }
                            }
                        }
                    }
                    j = j + 1;
                }
            }
            i = i + 1;
        }
        proof {
            lemma_equisat_sym(old(self)@, self@);
            assert forall|k2: int|
                0 <= k2 < n implies combination_of(
                #[trigger] self@.eqs[k2],
                old(self)@.eqs,
                nv_g,
            ) by {
                assert(self@.eqs[k2] == xor_sel(orig_rows, sels[k2], nv_g));
            }
        }
        Ok(())
    }

    /// Solve the system by Gaussian elimination: echelon form, then back
    /// substitution in reverse row order.
    ///
    /// Returns a satisfying assignment exactly when one exists; the system
    /// is left in echelon form, with the same solution set it started
    /// with, and every variable that leads no remaining row keeps the
    /// value zero.
    pub fn gaussian_elimination(&mut self) -> (r: Result<Vec<usize>, SolverError>)
        requires
            old(self).wf(),
        ensures
            final(self).wf(),
            final(self)@.num_vars == old(self)@.num_vars,
            final(self)@.eqs.len() == old(self)@.eqs.len(),
            equisat(old(self)@, final(self)@),
            forall|k: int|
                0 <= k < final(self)@.eqs.len() ==> combination_of(
                    #[trigger] final(self)@.eqs[k],
                    old(self)@.eqs,
                    old(self)@.num_vars as nat,
                ),
            r is Ok ==> r.unwrap()@.len() == old(self)@.num_vars && sys_sat(
                final(self)@,
                r.unwrap()@,
            ) && sys_sat(old(self)@, r.unwrap()@),
            r is Ok ==> forall|v: int|
                0 <= v < old(self)@.num_vars && (forall|m: int|
                    0 <= m < final(self)@.eqs.len() ==> !leads_row(
                        #[trigger] final(self)@.eqs[m],
                        v,
                    )) ==> #[trigger] r.unwrap()@[v] == 0,
            r is Err ==> forall|sol: Seq<usize>| !sys_sat(old(self)@, sol),
            old(self)@.eqs.len() == 0 ==> r is Ok && forall|v: int|
                0 <= v < old(self)@.num_vars ==> r.unwrap()@[v] == 0,
    {
        let nv = self.num_vars;
        let mut solution: Vec<usize> = Vec::new();
        while solution.len() < nv
            invariant
                solution@.len() <= nv,
                forall|v: int| 0 <= v < solution@.len() ==> solution@[v] == 0,
            decreases nv - solution@.len(),
        {
            solution.push(0);
        }
        match self.echelon_form() {
            Err(e) => {
                proof {
                    if old(self)@.eqs.len() == 0 {
                        assert(sys_sat(old(self)@, solution@));
                    }
                }
                return Err(e);
            },
            Ok(()) => {},
        }
        let n = self.equations.len();
        let mut k = n;
        while k > 0
            invariant
                self.wf(),
                n == self.equations@.len(),
                k <= n,
                self@.num_vars == nv,
                solution@.len() == nv,
                rows_sorted(*self),
                no_unsolvable_rows(*self),
                equisat(old(self)@, self@),
                forall|k2: int|
                    0 <= k2 < n ==> combination_of(
                        #[trigger] self@.eqs[k2],
                        old(self)@.eqs,
                        old(self)@.num_vars as nat,
                    ),
                forall|m: int| k <= m < n ==> eq_sat(#[trigger] self@.eqs[m], solution@),
                forall|v: int|
                    0 <= v < nv && solution@[v] != 0 ==> exists|m: int|
                        k <= m < n && (#[trigger] self.equations@[m]).lead() == Some(v as usize),
            decreases k,
        {
            k = k - 1;
            let ghost pre_sol = solution@;
            match self.equations[k].first_var {
                None => {
                    proof {
                        lemma_zero_row_sat(self@.eqs[k as int], solution@);
                    }
                },
                Some(fv) => {
                    proof {
                        if solution@[fv as int] != 0 {
                            let m = choose|m: int|
                                k + 1 <= m < n && (#[trigger] self.equations@[m]).lead() == Some(
                                    fv,
                                );
                            assert(self.equations@[k as int].lead() == Some(fv));
                            assert(false);
                        }
                    }
                    let sp = Modulo2Equation::scalar_product(
                        &self.equations[k].bit_vector,
                        &solution,
                    );
                    let x = self.equations[k].c ^ sp;
                    solution[fv] = x;
                    proof {
                        let row = self@.eqs[k as int];
                        let c = row.c;
                        let d = dot(row.coeffs, pre_sol, 0);
                        lemma_dot_update(row.coeffs, pre_sol, 0, fv as int, x);
                        assert(((d ^ 0usize) ^ (c ^ d)) == c) by (bit_vector);
                        assert(eq_sat(row, solution@));
                        assert forall|m: int|
                            k < m < n implies eq_sat(#[trigger] self@.eqs[m], solution@) by {
                            let rm = self@.eqs[m];
                            assert(!rm.coeffs[fv as int]) by {
                                match self.equations@[m].lead() {
                                    None => {},
                                    Some(vm) => {
                                        assert(fv < vm);
                                    },
                                }
                            }
                            lemma_dot_update(rm.coeffs, pre_sol, 0, fv as int, x);
                        }
                        assert forall|v: int|
                            0 <= v < nv && solution@[v] != 0 implies exists|m: int|
                                k <= m < n && (#[trigger] self.equations@[m]).lead() == Some(
                                    v as usize,
                                ) by {
                            if v == fv as int {
                                assert(self.equations@[k as int].lead() == Some(v as usize));
                            } else {
                                assert(pre_sol[v] != 0);
                                let m = choose|m: int|
                                    k + 1 <= m < n && (#[trigger] self.equations@[m]).lead()
                                        == Some(v as usize);
                                assert(self.equations@[m].lead() == Some(v as usize));
                            }
                        }
                    }
                },
            }
        }
        proof {
            lemma_equisat_sym(old(self)@, self@);
            assert(sys_sat(self@, solution@));
            assert(sys_sat(old(self)@, solution@) == sys_sat(self@, solution@));
            assert forall|v: int|
                0 <= v < nv && (forall|m: int|
                    0 <= m < self@.eqs.len() ==> !leads_row(
                        #[trigger] self@.eqs[m],
                        v,
                    )) implies #[trigger] solution@[v] == 0 by {
                if solution@[v] != 0 {
                    let m = choose|m: int|
                        0 <= m < n && (#[trigger] self.equations@[m]).lead() == Some(v as usize);
                    assert(leads_row(self@.eqs[m], v));
                }
            }
        }
        Ok(solution)
    }

    /// Solve a sparse system by peeling: canonicalize the adjacency lists,
    /// repeatedly resolve equations with at most one live variable, hand the
    /// leftover rows to the dense solver, and back-substitute the peeled
    /// pivots. The system is mutated in place by GF(2) row operations, so
    /// its solution set is unchanged, and a failure is reported exactly
    /// when the system has no solution.
    ///
    /// `var2_eq` maps each variable to the sorted indices of the equations
    /// it occurs in (an index occurring an even number of times cancels
    /// out), `c` holds the constants, and `variable` gives the order in
    /// which variables are preferentially made idle. Each processed
    /// adjacency list is left in canonical form.
    #[verifier::loop_isolation(false)]
    pub fn lazy_gaussian_elimination(
        system: &mut Modulo2System,
        var2_eq: &mut Vec<Vec<usize>>,
        c: &Vec<usize>,
        variable: &Vec<usize>,
    ) -> (r: Result<Vec<usize>, SolverError>)
        requires
            old(system).wf(),
            old(system)@.eqs.len() == c@.len(),
            c@.len() < usize::MAX,
            old(var2_eq)@.len() == old(system)@.num_vars,
            forall|v: int|
                0 <= v < old(var2_eq)@.len() ==> nondecreasing((#[trigger] old(var2_eq)@[v])@),
            forall|v: int, k: int|
                0 <= v < old(var2_eq)@.len() && 0 <= k < old(var2_eq)@[v]@.len() ==> (#[trigger] old(
                    var2_eq,
                )@[v]@[k]) < c@.len(),
            variable@.no_duplicates(),
            forall|k: int| 0 <= k < variable@.len() ==> (#[trigger] variable@[k]) < old(var2_eq)@.len(),
            forall|v: int|
                0 <= v < old(var2_eq)@.len() && old(var2_eq)@[v]@.len() > 0 ==> variable@.contains(
                    v as usize,
                ),
        ensures
            final(system).wf(),
            final(system)@.num_vars == old(system)@.num_vars,
            final(system)@.eqs.len() == old(system)@.eqs.len(),
            equisat(old(system)@, final(system)@),
            forall|k: int|
                0 <= k < final(system)@.eqs.len() ==> combination_of(
                    #[trigger] final(system)@.eqs[k],
                    old(system)@.eqs,
                    old(system)@.num_vars as nat,
                ),
            r is Ok ==> r.unwrap()@.len() == old(system)@.num_vars && sys_sat(
                final(system)@,
                r.unwrap()@,
            ) && sys_sat(old(system)@, r.unwrap()@),
            r is Err ==> forall|sol: Seq<usize>| !sys_sat(old(system)@, sol),
            c@.len() == 0 ==> r is Ok && *final(system) == *old(system) && *final(var2_eq)
                == *old(var2_eq) && forall|v: int|
                0 <= v < old(system)@.num_vars ==> r.unwrap()@[v] == 0,
            c@.len() > 0 ==> forall|v: int|
                0 <= v < old(var2_eq)@.len() ==> (if variable@.contains(v as usize) {
                    canonical_form((#[trigger] final(var2_eq)@[v])@, old(var2_eq)@[v]@)
                } else {
                    final(var2_eq)@[v] == old(var2_eq)@[v]
                }),
    {
        let num_equations = c.len();
        let num_vars = var2_eq.len();
        proof {
            assert forall|sol: Seq<usize>| (#[trigger] sys_sat(old(system)@, sol)) == sys_sat(
                old(system)@,
                sol,
            ) by {}
        }
        if num_equations == 0 {
            let solution = zero_vec(num_vars);
            return Ok(solution);
        }
        let mut weight: Vec<usize> = zero_vec(num_vars);
        let mut priority: Vec<usize> = zero_vec(num_equations);

        // canonicalize the adjacency lists and compute degrees
        let mut vi: usize = 0;
        while vi < variable.len()
            invariant
                vi <= variable@.len(),
                var2_eq@.len() == num_vars,
                forall|v: int| 0 <= v < num_vars ==> nondecreasing((#[trigger] var2_eq@[v])@),
                forall|v: int, k: int|
                    0 <= v < num_vars && 0 <= k < var2_eq@[v]@.len() ==> (#[trigger] var2_eq@[v]@[k])
                        < num_equations,
                forall|v: int|
                    0 <= v < num_vars ==> (if variable@.take(vi as int).contains(v as usize) {
                        canonical_form((#[trigger] var2_eq@[v])@, old(var2_eq)@[v]@)
                    } else {
                        var2_eq@[v] == old(var2_eq)@[v]
                    }),
                weight@.len() == num_vars,
                priority@.len() == num_equations,
                forall|v: int| 0 <= v < num_vars ==> (#[trigger] weight@[v]) <= num_equations,
                forall|e: int| 0 <= e < num_equations ==> (#[trigger] priority@[e]) <= vi,
            decreases variable@.len() - vi,
        {
            let v = variable[vi];
            proof {
                if variable@.take(vi as int).contains(v) {
                    let k = choose|k: int| 0 <= k < vi && variable@.take(vi as int)[k] == v;
                    assert(variable@[k] == variable@[vi as int]);
                    assert(false);
                }
            }
            let ghost pre_list = var2_eq@[v as int]@;
            normalize_adjacency(&mut var2_eq[v]);
            proof {
                assert forall|k: int|
                    0 <= k < var2_eq@[v as int]@.len() implies (#[trigger] var2_eq@[v as int]@[k])
                    < num_equations by {
                    assert(pre_list.contains(var2_eq@[v as int]@[k]));
                    let k2 = choose|k2: int|
                        0 <= k2 < pre_list.len() && pre_list[k2] == var2_eq@[v as int]@[k];
                    assert(pre_list[k2] < num_equations);
                }
                assert forall|x: int, y: int|
                    0 <= x < y < var2_eq@[v as int]@.len() implies (#[trigger] var2_eq@[v as int]@[x])
                    <= (#[trigger] var2_eq@[v as int]@[y]) by {
                    assert(var2_eq@[v as int]@[x] < var2_eq@[v as int]@[y]);
                }
                lemma_strictly_increasing_len_bound(var2_eq@[v as int]@, num_equations as int);
                assert(variable@.take(vi + 1) =~= variable@.take(vi as int).push(v));
                assert(variable@.take(vi + 1)[vi as int] == v);
                assert forall|w: int|
                    0 <= w < num_vars implies (if variable@.take(vi + 1).contains(w as usize) {
                    canonical_form((#[trigger] var2_eq@[w])@, old(var2_eq)@[w]@)
                } else {
                    var2_eq@[w] == old(var2_eq)@[w]
                }) by {
                    if variable@.take(vi + 1).contains(w as usize) {
                        if w != v as int {
                            let taken = variable@.take(vi + 1);
                            let k = choose|k: int| 0 <= k < taken.len() && taken[k] == w as usize;
                            assert(k < vi);
                            assert(variable@.take(vi as int)[k] == w as usize);
                        } else {
                            assert(canonical_form(var2_eq@[v as int]@, pre_list));
                        }
                    } else {
                        if variable@.take(vi as int).contains(w as usize) {
                            let k = choose|k: int|
                                0 <= k < vi && variable@.take(vi as int)[k] == w as usize;
                            assert(variable@.take(vi + 1)[k] == w as usize);
                        }
                    }
                }
            }
            let deg = var2_eq[v].len();
            weight[v] = deg;
            let ghost list = var2_eq@[v as int]@;
            let mut t: usize = 0;
            while t < deg
                invariant
                    t <= deg,
                    list == var2_eq@[v as int]@,
                    deg == list.len(),
                    priority@.len() == num_equations,
                    forall|e: int|
                        0 <= e < num_equations ==> (#[trigger] priority@[e]) <= vi + (
                        if list.take(t as int).contains(e as usize) {
                            1int
                        } else {
                            0int
                        }),
                decreases deg - t,
            {
                let e = var2_eq[v][t];
                proof {
                    if list.take(t as int).contains(e) {
                        let k = choose|k: int|
                            0 <= k < t && list.take(t as int)[k] == e;
                        assert(list[k] < list[t as int]);
                    }
                }
                priority[e] = priority[e] + 1;
                proof {
                    assert(list.take(t + 1)[t as int] == e);
                    assert(list.take(t + 1).contains(e));
                    assert forall|e2: int|
                        0 <= e2 < num_equations implies (#[trigger] priority@[e2]) <= vi + (
                    if list.take(t + 1).contains(e2 as usize) {
                        1int
                    } else {
                        0int
                    }) by {
                        if !list.take(t + 1).contains(e2 as usize) {
                            assert(e2 != e as int);
                            if list.take(t as int).contains(e2 as usize) {
                                let k = choose|k: int|
                                    0 <= k < t && list.take(t as int)[k] == e2 as usize;
                                assert(list.take(t + 1)[k] == e2 as usize);
                            }
                        }
                    }
                }
                t = t + 1;
            }
            proof {
                assert forall|e: int|
                    0 <= e < num_equations implies (#[trigger] priority@[e]) <= vi + 1 by {}
            }
            vi = vi + 1;
        }

        proof {
            assert(variable@.take(variable@.len() as int) =~= variable@);
        }

        // order the variables by ascending weight with a counting sort
        let mut variables: Vec<usize> = zero_vec(num_vars);
        let mut count: Vec<usize> = zero_vec(num_equations + 1);
        proof {
            lemma_sum_zero(count@);
        }
        let mut x: usize = 0;
        while x < num_vars
            invariant
                x <= num_vars,
                count@.len() == num_equations + 1,
                sum_vals(count@) == x,
                forall|m: int| 0 <= m < count@.len() ==> (#[trigger] count@[m]) <= x,
            decreases num_vars - x,
        {
            let w = weight[x];
            proof {
                lemma_elem_le_sum(count@, w as int);
                lemma_sum_update(count@, w as int, (count@[w as int] + 1) as usize);
            }
            count[w] = count[w] + 1;
            x = x + 1;
        }
        let ghost count0 = count@;
        proof {
            lemma_sum_take_succ(count0, 0);
            lemma_sum_zero(count0.take(0));
        }
        let mut m: usize = 1;
        while m < num_equations + 1
            invariant
                1 <= m <= num_equations + 1,
                count@.len() == num_equations + 1,
                count0.len() == num_equations + 1,
                sum_vals(count0) == num_vars,
                forall|t: int| m <= t < count0.len() ==> (#[trigger] count@[t]) == count0[t],
                forall|t: int|
                    0 <= t < m ==> (#[trigger] count@[t]) == sum_vals(count0.take(t + 1)),
            decreases num_equations + 1 - m,
        {
            proof {
                lemma_sum_take_succ(count0, m as int);
                lemma_sum_take_le(count0, m as int + 1);
            }
            count[m] = count[m] + count[m - 1];
            m = m + 1;
        }
        proof {
            assert forall|t: int| 0 <= t < count@.len() implies (#[trigger] count@[t])
                <= num_vars by {
                lemma_sum_take_le(count0, t + 1);
            }
        }
        let mut y: usize = num_vars;
        while y > 0
            invariant
                y <= num_vars,
                count@.len() == num_equations + 1,
                variables@.len() == num_vars,
                forall|t: int| 0 <= t < count@.len() ==> (#[trigger] count@[t]) <= num_vars,
                forall|k: int| 0 <= k < num_vars ==> (#[trigger] variables@[k]) < num_vars,
            decreases y,
        {
            y = y - 1;
            let w = weight[y];
            let pos = count[w];
            if pos > 0 {
                count[w] = pos - 1;
                variables[pos - 1] = y;
            }
        }

        // queue of equations with at most one live variable
        let mut equation_list: Vec<usize> = Vec::new();
        let mut e: usize = num_equations;
        while e > 0
            invariant
                e <= num_equations,
                forall|k: int|
                    0 <= k < equation_list@.len() ==> (#[trigger] equation_list@[k])
                        < num_equations,
            decreases e,
        {
            e = e - 1;
            if priority[e] <= 1 {
                equation_list.push(e);
            }
        }

        let mut dense: Vec<Modulo2Equation> = Vec::new();
        let mut solved: Vec<usize> = Vec::new();
        let mut pivots: Vec<usize> = Vec::new();

        let n_idle_words = (num_vars + 63) / 64;
        let mut idle_normalized: Vec<u64> = Vec::new();
        while idle_normalized.len() < n_idle_words
            invariant
                idle_normalized@.len() <= n_idle_words,
            decreases n_idle_words - idle_normalized@.len(),
        {
            idle_normalized.push(u64::MAX);
        }

        let ghost nv_g = old(system)@.num_vars as nat;
        let ghost orig_rows = old(system)@.eqs;
        let ghost mut sels: Seq<Seq<bool>> = Seq::new(
            num_equations as nat,
            |k: int| Seq::new(num_equations as nat, |t: int| t == k),
        );
        proof {
            assert forall|k: int|
                0 <= k < num_equations implies (#[trigger] sels[k]).len() == num_equations
                && system@.eqs[k] == xor_sel(orig_rows, sels[k], nv_g) by {
                lemma_xor_sel_unit(orig_rows, sels[k], k, nv_g);
            }
        }

        let mut remaining = system.equations.len();
        let mut bailed = false;
        while remaining != 0 && !bailed
            invariant
                system.wf(),
                system@.num_vars == num_vars,
                system@.eqs.len() == num_equations,
                equisat(old(system)@, system@),
                sels.len() == num_equations,
                forall|k2: int|
                    0 <= k2 < num_equations ==> (#[trigger] sels[k2]).len() == num_equations
                        && system@.eqs[k2] == xor_sel(orig_rows, sels[k2], nv_g),
                weight@.len() == num_vars,
                priority@.len() == num_equations,
                variables@.len() <= num_vars,
                forall|k: int|
                    0 <= k < variables@.len() ==> (#[trigger] variables@[k]) < num_vars,
                forall|k: int|
                    0 <= k < equation_list@.len() ==> (#[trigger] equation_list@[k])
                        < num_equations,
                var2_eq@.len() == num_vars,
                forall|v: int, k: int|
                    0 <= v < num_vars && 0 <= k < var2_eq@[v]@.len() ==> (#[trigger] var2_eq@[v]@[k])
                        < num_equations,
                idle_normalized@.len() == n_idle_words,
                forall|k: int|
                    0 <= k < dense@.len() ==> (#[trigger] dense@[k]).wf()
                        && dense@[k]@.coeffs.len() == num_vars && row_implied_by(
                        old(system)@,
                        dense@[k]@,
                    ),
                solved@.len() == pivots@.len(),
                forall|k: int| 0 <= k < solved@.len() ==> (#[trigger] solved@[k]) < num_equations,
                forall|k: int| 0 <= k < pivots@.len() ==> (#[trigger] pivots@[k]) < num_vars,
                remaining <= num_equations,
            decreases remaining, variables@.len(), (if bailed {
                0int
            } else {
                1int
            }),
        {
            if equation_list.len() == 0 {
                let ghost vars_len0 = variables@.len();
                let mut found: Option<usize> = None;
                while found.is_none() && variables.len() > 0
                    invariant
                        variables@.len() <= vars_len0,
                        found is Some ==> variables@.len() < vars_len0,
                        variables@.len() <= num_vars,
                        forall|k: int|
                            0 <= k < variables@.len() ==> (#[trigger] variables@[k]) < num_vars,
                        found is Some ==> found.unwrap() < num_vars,
                    decreases variables@.len(),
                {
                    let v0 = variables.pop().unwrap();
                    if weight[v0] != 0 {
                        found = Some(v0);
                    }
                }
                match found {
                    None => {
                        // nothing left to activate; let the residual solver
                        // and the final check judge what remains
                        bailed = true;
                    },
                    Some(var) => {
                        let wq = var / 64;
                        proof {
                            crate::bits::bit_vec::lemma_bit_index(num_vars as int, var as int);
                        }
                        let bit = idle_normalized[wq] ^ (1u64 << ((var % 64) as u64));
                        idle_normalized[wq] = bit;
                        let deg = var2_eq[var].len();
                        let mut t: usize = 0;
                        while t < deg
                            invariant
                                t <= deg,
                                deg == var2_eq@[var as int]@.len(),
                                priority@.len() == num_equations,
                                forall|k: int|
                                    0 <= k < equation_list@.len() ==> (
                                    #[trigger] equation_list@[k]) < num_equations,
                            decreases deg - t,
                        {
                            let e2 = var2_eq[var][t];
                            let p = priority[e2];
                            if p > 0 {
                                priority[e2] = p - 1;
                                if p - 1 == 1 {
                                    equation_list.push(e2);
                                }
                            }
                            t = t + 1;
                        }
                    },
                }
            } else {
                remaining = remaining - 1;
                let first = equation_list.pop().unwrap();
                let p = priority[first];
                if p == 0 {
                    if system.equations[first].is_unsolvable() {
                        proof {
                            let bad = system@.eqs[first as int];
                            assert forall|sol: Seq<usize>| !sys_sat(old(system)@, sol) by {
                                lemma_zero_row_sat(bad, sol);
                                assert(!sys_sat(system@, sol));
                                assert(sys_sat(old(system)@, sol) == sys_sat(system@, sol));
                            }
                            assert forall|k2: int|
                                0 <= k2 < num_equations implies combination_of(
                                #[trigger] system@.eqs[k2],
                                old(system)@.eqs,
                                nv_g,
                            ) by {
                                assert(system@.eqs[k2] == xor_sel(orig_rows, sels[k2], nv_g));
                            }
                        }
                        return Err(SolverError::Unsolvable);
                    }
                    if !system.equations[first].is_identity() {
                        let ghost pushed = system@.eqs[first as int];
                        proof {
                            assert forall|sol: Seq<usize>|
                                sys_sat(old(system)@, sol) implies eq_sat(pushed, sol) by {
                                assert(sys_sat(system@, sol) == sys_sat(old(system)@, sol));
                                assert(eq_sat(system@.eqs[first as int], sol));
                            }
                            assert(row_implied_by(old(system)@, pushed));
                        }
                        dense.push(system.equations[first].clone());
                    }
                } else if p == 1 {
                    let row = system.equations[first].clone();
                    let nw = row.bit_vector.num_words();
                    proof {
                        assert(nw == n_idle_words);
                    }
                    let mut wq: usize = 0;
                    let mut masked: u64 = 0;
                    while wq < nw && masked == 0
                        invariant
                            wq <= nw,
                            row.wf(),
                            row@.coeffs.len() == num_vars,
                            masked != 0 ==> wq < nw && forall|j: int|
                                0 <= j < 64 && word_bit(masked, j) ==> 64 * wq + j < num_vars
                                    && row@.coeffs[64 * wq + j],
                        decreases nw - wq, (if masked == 0 {
                            1int
                        } else {
                            0int
                        }),
                    {
                        let w = row.bit_vector.word(wq);
                        let mw = w & idle_normalized[wq];
                        if mw != 0 {
                            proof {
                                assert forall|j: int|
                                    0 <= j < 64 && word_bit(mw, j) implies 64 * wq + j < num_vars
                                    && row@.coeffs[64 * wq + j] by {
                                    lemma_word_and_bit(w, idle_normalized@[wq as int], j);
                                }
                            }
                            masked = mw;
                        } else {
                            wq = wq + 1;
                        }
                    }
                    if masked == 0 {
                        // no live variable found: defer the row to the
                        // residual system instead
                        if system.equations[first].is_unsolvable() {
                            proof {
                                let bad = system@.eqs[first as int];
                                assert forall|sol: Seq<usize>| !sys_sat(old(system)@, sol) by {
                                    lemma_zero_row_sat(bad, sol);
                                    assert(!sys_sat(system@, sol));
                                    assert(sys_sat(old(system)@, sol) == sys_sat(system@, sol));
                                }
                                assert forall|k2: int|
                                    0 <= k2 < num_equations implies combination_of(
                                    #[trigger] system@.eqs[k2],
                                    old(system)@.eqs,
                                    nv_g,
                                ) by {
                                    assert(system@.eqs[k2] == xor_sel(orig_rows, sels[k2], nv_g));
                                }
                            }
                            return Err(SolverError::Unsolvable);
                        }
                        if !system.equations[first].is_identity() {
                            let ghost pushed = system@.eqs[first as int];
                            proof {
                                assert forall|sol: Seq<usize>|
                                    sys_sat(old(system)@, sol) implies eq_sat(pushed, sol) by {
                                    assert(sys_sat(system@, sol) == sys_sat(old(system)@, sol));
                                    assert(eq_sat(system@.eqs[first as int], sol));
                                }
                                assert(row_implied_by(old(system)@, pushed));
                            }
                            dense.push(system.equations[first].clone());
                        }
                    } else {
                        let tz = masked.trailing_zeros();
                        proof {
                            axiom_u64_trailing_zeros(masked);
                            assert(word_bit(masked, tz as int));
                            assert(64 * wq + (tz as int) < num_vars);
                        }
                        let pivot = wq * 64 + tz as usize;
                        pivots.push(pivot);
                        solved.push(first);
                        weight[pivot] = 0;
                        let deg = var2_eq[pivot].len();
                        let mut t: usize = 0;
                        while t < deg
                            invariant
                                t <= deg,
                                deg == var2_eq@[pivot as int]@.len(),
                                priority@.len() == num_equations,
                                forall|k: int|
                                    0 <= k < equation_list@.len() ==> (
                                    #[trigger] equation_list@[k]) < num_equations,
                                system.wf(),
                                system@.num_vars == num_vars,
                                system@.eqs.len() == num_equations,
                                equisat(old(system)@, system@),
                                sels.len() == num_equations,
                                forall|k2: int|
                                    0 <= k2 < num_equations ==> (#[trigger] sels[k2]).len()
                                        == num_equations && system@.eqs[k2] == xor_sel(
                                        orig_rows,
                                        sels[k2],
                                        nv_g,
                                    ),
                                system@.eqs[first as int] == row@,
                            decreases deg - t,
                        {
                            let e2 = var2_eq[pivot][t];
                            if e2 != first {
                                let p2 = priority[e2];
                                if p2 > 0 {
                                    priority[e2] = p2 - 1;
                                    if p2 - 1 == 1 {
                                        equation_list.push(e2);
                                    }
                                }
                                let mut target = system.equations[e2].clone();
                                target.add_equation(&row);
                                let ghost pre = *system;
                                system.equations[e2] = target;
                                proof {
                                    assert(system@.eqs =~= pre@.eqs.update(
                                        e2 as int,
                                        combined(pre@.eqs[e2 as int], pre@.eqs[first as int]),
                                    ));
                                    lemma_sys_update_combined(pre@, e2 as int, first as int);
                                    lemma_equisat_trans(old(system)@, pre@, system@);
                                    lemma_xor_sel_add(
                                        orig_rows,
                                        sels[e2 as int],
                                        sels[first as int],
                                        nv_g,
                                    );
                                    sels = sels.update(
                                        e2 as int,
                                        sel_xor(sels[e2 as int], sels[first as int]),
                                    );
                                }
                            }
                            t = t + 1;
                        }
                    }
                }
                // a popped equation always has priority zero or one when the
                // adjacency lists agree with the system; any other row is
                // left to the final check
            }
        }

        proof {
            assert forall|k2: int|
                0 <= k2 < num_equations implies combination_of(
                #[trigger] system@.eqs[k2],
                old(system)@.eqs,
                nv_g,
            ) by {
                assert(system@.eqs[k2] == xor_sel(orig_rows, sels[k2], nv_g));
            }
        }

        // solve the residual system densely
        let ghost dense_rows = dense@;
        let mut dense_system = Modulo2System::from(num_vars, dense);
        let ghost dense_model = dense_system@;
        let solution_res = dense_system.gaussian_elimination();
        let mut solution = match solution_res {
            Err(_) => {
                proof {
                    // the residual rows are all implied by the input system,
                    // so an unsolvable residual means an unsolvable input
                    assert forall|sol: Seq<usize>| !sys_sat(old(system)@, sol) by {
                        if sys_sat(old(system)@, sol) {
                            assert forall|k: int|
                                0 <= k < dense_model.eqs.len() implies eq_sat(
                                #[trigger] dense_model.eqs[k],
                                sol,
                            ) by {
                                assert(row_implied_by(old(system)@, dense_rows[k]@));
                                assert(dense_model.eqs[k] == dense_rows[k]@);
                            }
                            assert(sys_sat(dense_model, sol));
                        }
                    }
                }
                return Err(SolverError::Unsolvable);
            },
            Ok(s) => s,
        };

        // back-substitute the peeled pivots, in the reverse of the order in
        // which they were recorded
        let ns = solved.len();
        let mut t: usize = ns;
        while t > 0
            invariant
                t <= ns,
                solution@.len() == num_vars,
                system.wf(),
                system@.num_vars == num_vars,
                system@.eqs.len() == num_equations,
                equisat(old(system)@, system@),
            decreases t,
        {
            t = t - 1;
            let first = solved[t];
            let pivot = pivots[t];
            let sp = Modulo2Equation::scalar_product(
                &system.equations[first].bit_vector,
                &solution,
            );
            let xv = system.equations[first].c ^ sp;
            solution[pivot] = xv;
        }

        // validate the assignment against the final rows; the row
        // operations above preserved the solution set, so a passing check
        // also certifies the system as it was handed in
        if system.check(&solution) {
            proof {
                assert(sys_sat(old(system)@, solution@) == sys_sat(system@, solution@));
            }
            Ok(solution)
        } else {
            // the peeling bookkeeping disagreed with the rows, which can
            // only happen when the adjacency input does not describe the
            // system; decide solvability on the full system instead
            let ghost before_fallback = system@;
            let fallback = system.gaussian_elimination();
            proof {
                lemma_equisat_trans(old(system)@, before_fallback, system@);
                assert forall|k2: int|
                    0 <= k2 < system@.eqs.len() implies combination_of(
                    #[trigger] system@.eqs[k2],
                    old(system)@.eqs,
                    nv_g,
                ) by {
                    assert(combination_of(system@.eqs[k2], before_fallback.eqs, nv_g));
                    let sel2 = choose|sel2: Seq<bool>|
                        sel2.len() == before_fallback.eqs.len() && system@.eqs[k2] == xor_sel(
                            before_fallback.eqs,
                            sel2,
                            nv_g,
                        );
                    lemma_xor_sel_compose(orig_rows, before_fallback.eqs, sels, sel2, nv_g);
                    lemma_sel_fold_len(sels, sel2, orig_rows.len());
                }
            }
            match fallback {
                Ok(sol2) => {
                    proof {
                        assert(sys_sat(old(system)@, sol2@) == sys_sat(system@, sol2@));
                    }
                    Ok(sol2)
                },
                Err(e) => {
                    proof {
                        assert forall|sol: Seq<usize>| !sys_sat(old(system)@, sol) by {
                            assert(sys_sat(old(system)@, sol) == sys_sat(before_fallback, sol));
                        }
                    }
                    Err(e)
                },
            }
        }
    }

    /// Solve by peeling without a caller-supplied system: build one row per
    /// constant from the canonicalized adjacency lists, solve it, and
    /// discard it.
    ///
    /// A returned solution satisfies, for every equation index, the row
    /// that the adjacency input describes: variable `w` occurs in row `i`
    /// exactly when `i` appears an odd number of times in `var2_eq[w]`.
    /// Failure is reported exactly when no assignment satisfies those
    /// rows.
    #[verifier::loop_isolation(false)]
    pub fn lazy_gaussian_elimination_fresh(
        var2_eq: &mut Vec<Vec<usize>>,
        c: &Vec<usize>,
        variable: &Vec<usize>,
    ) -> (r: Result<Vec<usize>, SolverError>)
        requires
            old(var2_eq)@.len() <= usize::MAX - 63,
            c@.len() < usize::MAX,
            forall|v: int|
                0 <= v < old(var2_eq)@.len() ==> nondecreasing((#[trigger] old(var2_eq)@[v])@),
            forall|v: int, k: int|
                0 <= v < old(var2_eq)@.len() && 0 <= k < old(var2_eq)@[v]@.len() ==> (#[trigger] old(
                    var2_eq,
                )@[v]@[k]) < c@.len(),
            variable@.no_duplicates(),
            forall|k: int| 0 <= k < variable@.len() ==> (#[trigger] variable@[k]) < old(var2_eq)@.len(),
            forall|v: int|
                0 <= v < old(var2_eq)@.len() && old(var2_eq)@[v]@.len() > 0 ==> variable@.contains(
                    v as usize,
                ),
        ensures
            r is Ok ==> r.unwrap()@.len() == old(var2_eq)@.len() && implied_sat(
                adj_views(old(var2_eq)@),
                c@,
                r.unwrap()@,
            ),
            r is Err ==> forall|sol: Seq<usize>|
                !#[trigger] implied_sat(adj_views(old(var2_eq)@), c@, sol),
            c@.len() == 0 ==> r is Ok && *final(var2_eq) == *old(var2_eq) && forall|v: int|
                0 <= v < old(var2_eq)@.len() ==> r.unwrap()@[v] == 0,
            c@.len() > 0 ==> forall|v: int|
                0 <= v < old(var2_eq)@.len() ==> (if variable@.contains(v as usize) {
                    canonical_form((#[trigger] final(var2_eq)@[v])@, old(var2_eq)@[v]@)
                } else {
                    final(var2_eq)@[v] == old(var2_eq)@[v]
                }),
    {
        let num_equations = c.len();
        let num_vars = var2_eq.len();
        if num_equations == 0 {
            let solution = zero_vec(num_vars);
            return Ok(solution);
        }
        let ghost adj0 = adj_views(old(var2_eq)@);
        let mut sys = Modulo2System::new(num_vars);
        let mut i: usize = 0;
        while i < num_equations
            invariant
                sys.wf(),
                sys@.num_vars == num_vars,
                sys@.eqs.len() == i,
                i <= num_equations,
                forall|e: int|
                    0 <= e < i ==> (#[trigger] sys@.eqs[e]).c == c@[e] && sys@.eqs[e].coeffs.len()
                        == num_vars && forall|w: int| 0 <= w < num_vars ==> !sys@.eqs[e].coeffs[w],
            decreases num_equations - i,
        {
            sys.add(Modulo2Equation::new(c[i], num_vars));
            i = i + 1;
        }
        let mut vi: usize = 0;
        while vi < variable.len()
            invariant
                vi <= variable@.len(),
                var2_eq@.len() == num_vars,
                sys.wf(),
                sys@.num_vars == num_vars,
                sys@.eqs.len() == num_equations,
                forall|e: int|
                    0 <= e < num_equations ==> (#[trigger] sys@.eqs[e]).c == c@[e]
                        && sys@.eqs[e].coeffs.len() == num_vars,
                forall|w: int|
                    0 <= w < num_vars ==> (if variable@.take(vi as int).contains(w as usize) {
                        canonical_form((#[trigger] var2_eq@[w])@, adj0[w])
                    } else {
                        var2_eq@[w] == old(var2_eq)@[w]
                    }),
                forall|e: int, w: int|
                    0 <= e < num_equations && 0 <= w < num_vars ==> ((#[trigger] sys@.eqs[e].coeffs[w])
                        <==> (variable@.take(vi as int).contains(w as usize)
                        && var2_eq@[w]@.contains(e as usize))),
                forall|v: int, k: int|
                    0 <= v < num_vars && 0 <= k < var2_eq@[v]@.len() ==> (#[trigger] var2_eq@[v]@[k])
                        < num_equations,
            decreases variable@.len() - vi,
        {
            let v = variable[vi];
            proof {
                if variable@.take(vi as int).contains(v) {
                    let k = choose|k: int| 0 <= k < vi && variable@.take(vi as int)[k] == v;
                    assert(variable@[k] == variable@[vi as int]);
                    assert(false);
                }
            }
            let ghost pre_list = var2_eq@[v as int]@;
            normalize_adjacency(&mut var2_eq[v]);
            proof {
                assert forall|k: int|
                    0 <= k < var2_eq@[v as int]@.len() implies (#[trigger] var2_eq@[v as int]@[k])
                    < num_equations by {
                    assert(pre_list.contains(var2_eq@[v as int]@[k]));
                    let k2 = choose|k2: int|
                        0 <= k2 < pre_list.len() && pre_list[k2] == var2_eq@[v as int]@[k];
                    assert(pre_list[k2] < num_equations);
                }
            }
            let ghost list = var2_eq@[v as int]@;
            let deg = var2_eq[v].len();
            let mut t: usize = 0;
            while t < deg
                invariant
                    t <= deg,
                    list == var2_eq@[v as int]@,
                    deg == list.len(),
                    sys.wf(),
                    sys@.num_vars == num_vars,
                    sys@.eqs.len() == num_equations,
                    forall|e: int|
                        0 <= e < num_equations ==> (#[trigger] sys@.eqs[e]).c == c@[e]
                            && sys@.eqs[e].coeffs.len() == num_vars,
                    forall|e: int, w: int|
                        0 <= e < num_equations && 0 <= w < num_vars ==> ((
                        #[trigger] sys@.eqs[e].coeffs[w]) <==> ((variable@.take(
                            vi as int,
                        ).contains(w as usize) && var2_eq@[w]@.contains(e as usize)) || (w
                            == v as int && list.take(t as int).contains(e as usize)))),
                decreases deg - t,
            {
                let e = var2_eq[v][t];
                proof {
                    assert(list[t as int] == e);
                    if list.take(t as int).contains(e) {
                        let k = choose|k: int| 0 <= k < t && list.take(t as int)[k] == e;
                        assert(list[k] < list[t as int]);
                    }
                    assert(!sys@.eqs[e as int].coeffs[v as int]);
                }
                let mut row = sys.equations[e].clone();
                row.add(v);
                let ghost pre_sys = sys@;
                sys.equations[e] = row;
                proof {
                    assert(sys@.eqs =~= pre_sys.eqs.update(
                        e as int,
                        EqModel {
                            coeffs: pre_sys.eqs[e as int].coeffs.update(v as int, true),
                            c: pre_sys.eqs[e as int].c,
                        },
                    ));
                    assert(list.take(t + 1)[t as int] == e);
                    assert forall|e2: int, w: int|
                        0 <= e2 < num_equations && 0 <= w < num_vars implies ((
                    #[trigger] sys@.eqs[e2].coeffs[w]) <==> ((variable@.take(vi as int).contains(
                        w as usize,
                    ) && var2_eq@[w]@.contains(e2 as usize)) || (w == v as int && list.take(
                        t + 1,
                    ).contains(e2 as usize)))) by {
                        if e2 == e as int && w == v as int {
                        } else {
                            if list.take(t + 1).contains(e2 as usize) && e2 != e as int {
                                let taken = list.take(t + 1);
                                let k = choose|k: int| 0 <= k < taken.len() && taken[k] == e2 as usize;
                                assert(k < t);
                                assert(list.take(t as int)[k] == e2 as usize);
                            }
                            if list.take(t as int).contains(e2 as usize) {
                                let k = choose|k: int|
                                    0 <= k < t && list.take(t as int)[k] == e2 as usize;
                                assert(list.take(t + 1)[k] == e2 as usize);
                            }
                        }
                    }
                }
                t = t + 1;
            }
            proof {
                assert(list.take(deg as int) =~= list);
                assert(variable@.take(vi + 1) =~= variable@.take(vi as int).push(v));
                assert(variable@.take(vi + 1)[vi as int] == v);
                assert forall|w: int|
                    0 <= w < num_vars implies (if variable@.take(vi + 1).contains(w as usize) {
                    canonical_form((#[trigger] var2_eq@[w])@, adj0[w])
                } else {
                    var2_eq@[w] == old(var2_eq)@[w]
                }) by {
                    if variable@.take(vi + 1).contains(w as usize) {
                        if w != v as int {
                            let taken = variable@.take(vi + 1);
                            let k = choose|k: int| 0 <= k < taken.len() && taken[k] == w as usize;
                            assert(k < vi);
                            assert(variable@.take(vi as int)[k] == w as usize);
                        } else {
                            assert(pre_list == adj0[v as int]);
                            assert(canonical_form(list, pre_list));
                        }
                    } else {
                        if variable@.take(vi as int).contains(w as usize) {
                            let k = choose|k: int|
                                0 <= k < vi && variable@.take(vi as int)[k] == w as usize;
                            assert(variable@.take(vi + 1)[k] == w as usize);
                        }
                    }
                }
                assert forall|e2: int, w: int|
                    0 <= e2 < num_equations && 0 <= w < num_vars implies ((
                #[trigger] sys@.eqs[e2].coeffs[w]) <==> (variable@.take(vi + 1).contains(w as usize)
                    && var2_eq@[w]@.contains(e2 as usize))) by {
                    if w == v as int {
                    } else {
                        if variable@.take(vi + 1).contains(w as usize) {
                            let taken = variable@.take(vi + 1);
                            let k = choose|k: int| 0 <= k < taken.len() && taken[k] == w as usize;
                            assert(k < vi);
                            assert(variable@.take(vi as int)[k] == w as usize);
                        }
                        if variable@.take(vi as int).contains(w as usize) {
                            let k = choose|k: int|
                                0 <= k < vi && variable@.take(vi as int)[k] == w as usize;
                            assert(variable@.take(vi + 1)[k] == w as usize);
                        }
                    }
                }
            }
            vi = vi + 1;
        }
        proof {
            assert(variable@.take(variable@.len() as int) =~= variable@);
            assert forall|i2: int| 0 <= i2 < num_equations implies (#[trigger] sys@.eqs[i2])
                == implied_row(adj0, c@, i2) by {
                let row = sys@.eqs[i2];
                let goal = implied_row(adj0, c@, i2);
                assert forall|w: int| 0 <= w < num_vars implies row.coeffs[w] == goal.coeffs[w] by {
                    if variable@.contains(w as usize) {
                        assert(canonical_form(var2_eq@[w]@, adj0[w]));
                        lemma_count_pos_iff_contains(adj0[w], i2 as usize);
                    } else {
                        assert(var2_eq@[w]@ == adj0[w]);
                        if adj0[w].len() > 0 {
                            assert(old(var2_eq)@[w]@.len() > 0);
                            assert(false);
                        }
                        assert(count_val(adj0[w], i2 as usize) == 0);
                    }
                }
                assert(row.coeffs =~= goal.coeffs);
            }
            assert forall|w: int|
                0 <= w < num_vars implies nondecreasing((#[trigger] var2_eq@[w])@) by {
                if variable@.contains(w as usize) {
                    assert forall|a: int, b: int|
                        0 <= a < b < var2_eq@[w]@.len() implies (#[trigger] var2_eq@[w]@[a]) <= (
                    #[trigger] var2_eq@[w]@[b]) by {
                        assert(var2_eq@[w]@[a] < var2_eq@[w]@[b]);
                    }
                } else {
                    assert(var2_eq@[w]@ == adj0[w]);
                }
            }
            assert forall|w: int|
                0 <= w < num_vars && var2_eq@[w]@.len() > 0 implies variable@.contains(
                w as usize,
            ) by {
                if !variable@.contains(w as usize) {
                    assert(var2_eq@[w]@ == adj0[w]);
                    assert(old(var2_eq)@[w]@.len() > 0);
                }
            }
        }
        let ghost sys_at_call = sys@;
        let ghost mid_adj = var2_eq@;
        let r = Modulo2System::lazy_gaussian_elimination(&mut sys, var2_eq, c, variable);
        proof {
            if r is Ok {
                let sol = r.unwrap()@;
                assert(sys_sat(sys_at_call, sol));
                assert forall|i2: int| 0 <= i2 < c@.len() implies eq_sat(
                    #[trigger] implied_row(adj0, c@, i2),
                    sol,
                ) by {
                    assert(eq_sat(sys_at_call.eqs[i2], sol));
                }
                assert(implied_sat(adj0, c@, sol));
            }
            if r is Err {
                assert forall|sol: Seq<usize>| !#[trigger] implied_sat(adj0, c@, sol) by {
                    if implied_sat(adj0, c@, sol) {
                        assert forall|k: int| 0 <= k < sys_at_call.eqs.len() implies eq_sat(
                            #[trigger] sys_at_call.eqs[k],
                            sol,
                        ) by {
                            assert(eq_sat(implied_row(adj0, c@, k), sol));
                            assert(sys_at_call.eqs[k] == implied_row(adj0, c@, k));
                        }
                        assert(sys_sat(sys_at_call, sol));
                        assert(false);
                    }
                }
            }
            assert forall|w: int|
                0 <= w < old(var2_eq)@.len() implies (if variable@.contains(w as usize) {
                canonical_form((#[trigger] var2_eq@[w])@, old(var2_eq)@[w]@)
            } else {
                var2_eq@[w] == old(var2_eq)@[w]
            }) by {
                if variable@.contains(w as usize) {
                    assert(canonical_form(mid_adj[w]@, adj0[w]));
                    assert(canonical_form(var2_eq@[w]@, mid_adj[w]@));
                    lemma_canonical_idempotent(var2_eq@[w]@, mid_adj[w]@, adj0[w]);
                } else {
                    assert(mid_adj[w] == old(var2_eq)@[w]);
                    assert(var2_eq@[w] == mid_adj[w]);
                }
            }
        }
        r
    }

    /// Solve this system with the peeling solver, deriving the adjacency
    /// lists, constants and processing order from the system's own rows.
    /// Failure is reported exactly when the system has no solution.
    #[verifier::loop_isolation(false)]
    pub fn lazy_gaussian_elimination_constructor(&mut self) -> (r: Result<Vec<usize>, SolverError>)
        requires
            old(self).wf(),
            old(self)@.eqs.len() < usize::MAX,
        ensures
            final(self).wf(),
            final(self)@.num_vars == old(self)@.num_vars,
            final(self)@.eqs.len() == old(self)@.eqs.len(),
            equisat(old(self)@, final(self)@),
            forall|k: int|
                0 <= k < final(self)@.eqs.len() ==> combination_of(
                    #[trigger] final(self)@.eqs[k],
                    old(self)@.eqs,
                    old(self)@.num_vars as nat,
                ),
            r is Ok ==> r.unwrap()@.len() == old(self)@.num_vars && sys_sat(
                final(self)@,
                r.unwrap()@,
            ) && sys_sat(old(self)@, r.unwrap()@),
            r is Err ==> forall|sol: Seq<usize>| !sys_sat(old(self)@, sol),
            old(self)@.eqs.len() == 0 ==> r is Ok && forall|v: int|
                0 <= v < old(self)@.num_vars ==> r.unwrap()@[v] == 0,
    {
        let num_vars = self.num_vars;
        let num_eqs = self.equations.len();
        let mut var2_eq: Vec<Vec<usize>> = Vec::new();
        while var2_eq.len() < num_vars
            invariant
                var2_eq@.len() <= num_vars,
                forall|v: int| 0 <= v < var2_eq@.len() ==> (#[trigger] var2_eq@[v])@.len() == 0,
            decreases num_vars - var2_eq@.len(),
        {
            var2_eq.push(Vec::new());
        }
        let mut c: Vec<usize> = zero_vec(num_eqs);
        let mut i: usize = 0;
        while i < num_eqs
            invariant
                i <= num_eqs,
                c@.len() == num_eqs,
                var2_eq@.len() == num_vars,
                forall|v: int|
                    0 <= v < num_vars ==> strictly_increasing((#[trigger] var2_eq@[v])@),
                forall|v: int, k: int|
                    0 <= v < num_vars && 0 <= k < var2_eq@[v]@.len() ==> (#[trigger] var2_eq@[v]@[k])
                        < i,
            decreases num_eqs - i,
        {
            c[i] = self.equations[i].c;
            let vars = self.equations[i].variables();
            let mut t: usize = 0;
            while t < vars.len()
                invariant
                    t <= vars@.len(),
                    var2_eq@.len() == num_vars,
                    forall|k: int| 0 <= k < vars@.len() ==> (#[trigger] vars@[k]) < num_vars,
                    strictly_increasing(vars@),
                    forall|v: int|
                        0 <= v < num_vars ==> strictly_increasing((#[trigger] var2_eq@[v])@),
                    forall|v: int, k: int|
                        0 <= v < num_vars && 0 <= k < var2_eq@[v]@.len() ==> (
                        #[trigger] var2_eq@[v]@[k]) <= i,
                    forall|v: int|
                        0 <= v < num_vars && (#[trigger] var2_eq@[v])@.len() > 0
                            && var2_eq@[v]@.last() == i ==> vars@.take(t as int).contains(
                            v as usize,
                        ),
                decreases vars@.len() - t,
            {
                let x = vars[t];
                proof {
                    if var2_eq@[x as int]@.len() > 0 && var2_eq@[x as int]@.last() == i {
                        let k = choose|k: int|
                            0 <= k < t && vars@.take(t as int)[k] == x;
                        assert(vars@[k] < vars@[t as int]);
                    }
                }
                let ghost pre_list = var2_eq@[x as int]@;
                var2_eq[x].push(i);
                proof {
                    assert(var2_eq@[x as int]@ == pre_list.push(i));
                    assert(var2_eq@[x as int]@.last() == i);
                    assert(vars@.take(t + 1)[t as int] == x);
                    assert forall|v: int|
                        0 <= v < num_vars && (#[trigger] var2_eq@[v])@.len() > 0
                            && var2_eq@[v]@.last() == i implies vars@.take(t + 1).contains(
                        v as usize,
                    ) by {
                        if v != x as int {
                            let k = choose|k: int|
                                0 <= k < t && vars@.take(t as int)[k] == v as usize;
                            assert(vars@.take(t + 1)[k] == v as usize);
                        }
                    }
                    assert forall|v: int, k: int|
                        0 <= v < num_vars && 0 <= k < var2_eq@[v]@.len() implies (
                    #[trigger] var2_eq@[v]@[k]) <= i by {
                        if v == x as int && k < pre_list.len() {
                            assert(var2_eq@[v]@[k] == pre_list[k]);
                        }
                    }
                }
                t = t + 1;
            }
            proof {
                assert forall|v: int, k: int|
                    0 <= v < num_vars && 0 <= k < var2_eq@[v]@.len() implies (
                #[trigger] var2_eq@[v]@[k]) < i + 1 by {}
            }
            i = i + 1;
        }
        let mut variable: Vec<usize> = Vec::new();
        while variable.len() < num_vars
            invariant
                variable@.len() <= num_vars,
                forall|k: int| 0 <= k < variable@.len() ==> (#[trigger] variable@[k]) == k,
            decreases num_vars - variable@.len(),
        {
            let next = variable.len();
            variable.push(next);
        }
        proof {
            assert(variable@.no_duplicates());
            assert forall|v: int|
                0 <= v < var2_eq@.len() && var2_eq@[v]@.len() > 0 implies variable@.contains(
                v as usize,
            ) by {
                assert(variable@[v] == v as usize);
            }
            assert forall|v: int|
                0 <= v < var2_eq@.len() implies nondecreasing((#[trigger] var2_eq@[v])@) by {
                assert forall|a: int, b: int|
                    0 <= a < b < var2_eq@[v]@.len() implies (#[trigger] var2_eq@[v]@[a]) <= (
                #[trigger] var2_eq@[v]@[b]) by {
                    assert(var2_eq@[v]@[a] < var2_eq@[v]@[b]);
                }
            }
        }
        Modulo2System::lazy_gaussian_elimination(self, &mut var2_eq, &c, &variable)
    }
}

proof fn lemma_count_filter(l: Seq<usize>, e: usize, v: usize)
    ensures
        count_val(l.filter(|x: usize| x != e), v) == (if v == e {
            0nat
        } else {
            count_val(l, v)
        }),
    decreases l.len(),
{
    let p = (|x: usize| x != e);
    if l.len() > 0 {
        lemma_count_filter(l.drop_last(), e, v);
        reveal(Seq::filter);
        if p(l.last()) {
            lemma_count_push(l.drop_last().filter(p), l.last(), v);
        }
    }
}

/// Two strictly increasing sequences with the same members are equal.
proof fn lemma_sorted_same_membership_equal(r1: Seq<usize>, r2: Seq<usize>)
    requires
        strictly_increasing(r1),
        strictly_increasing(r2),
        forall|v: usize| r1.contains(v) <==> r2.contains(v),
    ensures
        r1 == r2,
    decreases r1.len(),
{
    if r1.len() == 0 {
        if r2.len() > 0 {
            assert(r2.contains(r2[0]));
        }
        assert(r1 =~= r2);
    } else if r2.len() == 0 {
        assert(r1.contains(r1[0]));
    } else {
        assert(r1.contains(r1[0]));
        assert(r2.contains(r1[0]));
        assert(r2.contains(r2[0]));
        assert(r1.contains(r2[0]));
        let k1 = choose|k: int| 0 <= k < r2.len() && r2[k] == r1[0];
        let k2 = choose|k: int| 0 <= k < r1.len() && r1[k] == r2[0];
        assert(k1 > 0 ==> r2[0] < r2[k1]);
        assert(k2 > 0 ==> r1[0] < r1[k2]);
        assert(r1[0] == r2[0]);
        let t1 = r1.subrange(1, r1.len() as int);
        let t2 = r2.subrange(1, r2.len() as int);
        assert forall|v: usize| t1.contains(v) <==> t2.contains(v) by {
            if t1.contains(v) {
                let k = choose|k: int| 0 <= k < t1.len() && t1[k] == v;
                assert(r1[k + 1] == v);
                assert(r1[0] < v);
                assert(r2.contains(v));
                let m = choose|m: int| 0 <= m < r2.len() && r2[m] == v;
                assert(m > 0);
                assert(t2[m - 1] == v);
            }
            if t2.contains(v) {
                let k = choose|k: int| 0 <= k < t2.len() && t2[k] == v;
                assert(r2[k + 1] == v);
                assert(r2[0] < v);
                assert(r1.contains(v));
                let m = choose|m: int| 0 <= m < r1.len() && r1[m] == v;
                assert(m > 0);
                assert(t1[m - 1] == v);
            }
        }
        lemma_sorted_same_membership_equal(t1, t2);
        assert(r1.len() == r2.len());
        assert forall|idx: int| 0 <= idx < r1.len() implies r1[idx] == r2[idx] by {
            if idx > 0 {
                assert(t1[idx - 1] == r1[idx]);
                assert(t2[idx - 1] == r2[idx]);
            }
        }
        assert(r1 =~= r2);
    }
}

proof fn lemma_count_le_one(s: Seq<usize>, v: usize)
    requires
        strictly_increasing(s),
    ensures
        count_val(s, v) <= 1,
    decreases s.len(),
{
    if s.len() > 0 {
        let pre = s.drop_last();
        assert forall|i: int, j: int|
            0 <= i < j < pre.len() implies (#[trigger] pre[i]) < (#[trigger] pre[j]) by {
            assert(s[i] < s[j]);
        }
        lemma_count_le_one(pre, v);
        if s.last() == v {
            lemma_count_pos_iff_contains(pre, v);
            if pre.contains(v) {
                let k = choose|k: int| 0 <= k < pre.len() && pre[k] == v;
                assert(s[k] < s[s.len() - 1]);
            }
        }
    }
}

/// Canonicalizing is idempotent: the canonical form of a canonical form is
/// itself.
proof fn lemma_canonical_idempotent(r2: Seq<usize>, r: Seq<usize>, l: Seq<usize>)
    requires
        canonical_form(r, l),
        canonical_form(r2, r),
    ensures
        r2 == r,
{
    assert forall|v: usize| r2.contains(v) <==> r.contains(v) by {
        lemma_count_le_one(r, v);
        lemma_count_pos_iff_contains(r, v);
        assert(count_val(r, v) % 2 == 1 <==> r2.contains(v));
    }
    lemma_sorted_same_membership_equal(r2, r);
}

/// Peeling cancellation: an adjacency list in which a given equation index
/// occurs an even number of times has exactly the same canonical form as
/// the list with that index entirely absent, so the pairs cancel out.
pub proof fn lemma_peeling_cancellation(
    r1: Seq<usize>,
    r2: Seq<usize>,
    l1: Seq<usize>,
    l2: Seq<usize>,
    e: usize,
)
    requires
        canonical_form(r1, l1),
        canonical_form(r2, l2),
        count_val(l1, e) % 2 == 0,
        l2 == l1.filter(|x: usize| x != e),
    ensures
        r1 == r2,
{
    assert forall|v: usize| r1.contains(v) <==> r2.contains(v) by {
        lemma_count_filter(l1, e, v);
        assert(count_val(l1, v) % 2 == 1 <==> r1.contains(v));
        assert(count_val(l2, v) % 2 == 1 <==> r2.contains(v));
    }
    lemma_sorted_same_membership_equal(r1, r2);
}

/// Idempotent redundancy: appending a copy of a row the system already
/// holds leaves the solution set unchanged, so neither solvability nor the
/// outcome of a check can differ.
pub proof fn lemma_redundant_equation(s: SysModel, k: int)
    requires
        0 <= k < s.eqs.len(),
    ensures
        equisat(s, SysModel { num_vars: s.num_vars, eqs: s.eqs.push(s.eqs[k]) }),
        (exists|sol: Seq<usize>| sys_sat(s, sol)) <==> (exists|sol: Seq<usize>|
            sys_sat(SysModel { num_vars: s.num_vars, eqs: s.eqs.push(s.eqs[k]) }, sol)),
{
    let t = SysModel { num_vars: s.num_vars, eqs: s.eqs.push(s.eqs[k]) };
    assert forall|sol: Seq<usize>| (#[trigger] sys_sat(s, sol)) == sys_sat(t, sol) by {
        if sys_sat(s, sol) {
            assert forall|m: int| 0 <= m < t.eqs.len() implies eq_sat(#[trigger] t.eqs[m], sol) by {
                if m < s.eqs.len() {
                    assert(eq_sat(s.eqs[m], sol));
                } else {
                    assert(t.eqs[m] == s.eqs[k]);
                    assert(eq_sat(s.eqs[k], sol));
                }
            }
        }
        if sys_sat(t, sol) {
            assert forall|m: int| 0 <= m < s.eqs.len() implies eq_sat(#[trigger] s.eqs[m], sol) by {
                assert(eq_sat(t.eqs[m], sol));
            }
        }
    }
    if exists|sol: Seq<usize>| sys_sat(s, sol) {
        let sol = choose|sol: Seq<usize>| sys_sat(s, sol);
        assert(sys_sat(t, sol));
    }
    if exists|sol: Seq<usize>| sys_sat(t, sol) {
        let sol = choose|sol: Seq<usize>| sys_sat(t, sol);
        assert(sys_sat(s, sol));
    }
}

/// Failure detection: two rows over the single variable `0` with different
/// constants admit no solution at all, so a solver whose success implies a
/// passing check must report such a system unsolvable.
pub proof fn lemma_conflicting_pair_unsolvable(s: SysModel)
    requires
        s.eqs.len() == 2,
        forall|k: int|
            0 <= k < 2 ==> (#[trigger] s.eqs[k]).coeffs.len() >= 1 && s.eqs[k].coeffs[0]
                && forall|j: int| 1 <= j < s.eqs[k].coeffs.len() ==> !s.eqs[k].coeffs[j],
        s.eqs[0].c != s.eqs[1].c,
    ensures
        forall|sol: Seq<usize>| !sys_sat(s, sol),
{
    assert forall|sol: Seq<usize>| !sys_sat(s, sol) by {
        assert forall|k: int| 0 <= k < 2 implies dot((#[trigger] s.eqs[k]).coeffs, sol, 0)
            == sol[0] by {
            lemma_dot_skip(s.eqs[k].coeffs, sol, 1, s.eqs[k].coeffs.len() as int);
            lemma_xor_basics(sol[0], 0);
        }
        if sys_sat(s, sol) {
            assert(eq_sat(s.eqs[0], sol));
            assert(eq_sat(s.eqs[1], sol));
        }
    }
}

/// The equation row that an adjacency structure describes: variable `w`
/// has a coefficient in row `i` exactly when `i` occurs an odd number of
/// times in `w`'s list, and the constant is `cs[i]`.
pub open spec fn implied_row(adj: Seq<Seq<usize>>, cs: Seq<usize>, i: int) -> EqModel {
    EqModel {
        coeffs: Seq::new(adj.len(), |w: int| count_val(adj[w], i as usize) % 2 == 1),
        c: cs[i],
    }
}

/// The per-variable views of a vector of adjacency lists.
pub open spec fn adj_views(v2e: Seq<Vec<usize>>) -> Seq<Seq<usize>> {
    Seq::new(v2e.len(), |w: int| v2e[w]@)
}

/// `sol` satisfies every row that the adjacency structure describes.
pub open spec fn implied_sat(adj: Seq<Seq<usize>>, cs: Seq<usize>, sol: Seq<usize>) -> bool {
    forall|i: int| 0 <= i < cs.len() ==> eq_sat(#[trigger] implied_row(adj, cs, i), sol)
}

/// Peeling cancellation at the level of the rows an adjacency structure
/// describes: when some variable lists an equation index an even number of
/// times, every implied row is the same as if that index were entirely
/// absent from the list.
pub proof fn lemma_even_pair_implies_same_rows(
    adj1: Seq<Seq<usize>>,
    adj2: Seq<Seq<usize>>,
    cs: Seq<usize>,
    v: int,
    e: usize,
)
    requires
        adj1.len() == adj2.len(),
        0 <= v < adj1.len(),
        count_val(adj1[v], e) % 2 == 0,
        adj2[v] == adj1[v].filter(|x: usize| x != e),
        forall|w: int| 0 <= w < adj1.len() && w != v ==> adj2[w] == #[trigger] adj1[w],
    ensures
        forall|i: int| 0 <= i < cs.len() ==> implied_row(adj1, cs, i) == implied_row(adj2, cs, i),
{
    assert forall|i: int| 0 <= i < cs.len() implies implied_row(adj1, cs, i) == implied_row(
        adj2,
        cs,
        i,
    ) by {
        let r1 = implied_row(adj1, cs, i);
        let r2 = implied_row(adj2, cs, i);
        assert forall|w: int| 0 <= w < adj1.len() implies r1.coeffs[w] == r2.coeffs[w] by {
            if w == v {
                lemma_count_filter(adj1[v], e, i as usize);
            }
        }
        assert(r1.coeffs =~= r2.coeffs);
    }
}

/// A vector of `n` zeros.
fn zero_vec(n: usize) -> (r: Vec<usize>)
    ensures
        r@.len() == n,
        forall|i: int| 0 <= i < n ==> r@[i] == 0,
{
    let mut r: Vec<usize> = Vec::new();
    while r.len() < n
        invariant
            r@.len() <= n,
            forall|i: int| 0 <= i < r@.len() ==> r@[i] == 0,
        decreases n - r@.len(),
    {
        r.push(0);
    }
    r
}

} // verus!


