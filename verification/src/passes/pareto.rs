use vstd::prelude::*;

verus! {

/// `a` Pareto-dominates `b`: no component of `a` is smaller, and some component is larger.
pub open spec fn dominates_spec(a: Seq<usize>, b: Seq<usize>) -> bool {
    &&& forall|i: int| 0 <= i < a.len() ==> b[i] <= a[i]
    &&& exists|i: int| 0 <= i < a.len() && b[i] < a[i]
}

/// Whether `a` Pareto-dominates `b`; the vectors have the same length.
pub fn dominates(a: &[usize], b: &[usize]) -> (r: bool)
    requires
        a@.len() == b@.len(),
    ensures
        r == dominates_spec(a@, b@),
{
    let mut strict_improvement = false;
    let mut i: usize = 0;
    while i < a.len()
        invariant
            i <= a@.len(),
            a@.len() == b@.len(),
            forall|j: int| 0 <= j < i ==> b@[j] <= a@[j],
            strict_improvement == exists|j: int| 0 <= j < i && b@[j] < a@[j],
        decreases a.len() - i,
    {
        if b[i] > a[i] {
            return false;
        } else if b[i] < a[i] {
            strict_improvement = true;
        }
        i = i + 1;
    }
    strict_improvement
}

/// No vector dominates itself.
pub proof fn law_dominates_irreflexive(a: Seq<usize>)
    ensures
        !dominates_spec(a, a),
{
}

/// Dominance is transitive.
pub proof fn law_dominates_transitive(a: Seq<usize>, b: Seq<usize>, c: Seq<usize>)
    requires
        a.len() == b.len(),
        b.len() == c.len(),
        dominates_spec(a, b),
        dominates_spec(b, c),
    ensures
        dominates_spec(a, c),
{
    let i = choose|i: int| 0 <= i < a.len() && b[i] < a[i];
    assert(c[i] <= b[i]);
}

} // verus!
