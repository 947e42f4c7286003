//! Set operations on ordered sets of strings, as insertion-ordered sets
//! combine them: the result keeps the order of the left operand, followed by
//! what it takes from the right one in that operand's order.

use vstd::prelude::*;
use crate::chars::views;
use crate::builtins::contains_str;

verus! {

/// Generic set operations.
#[derive(Clone, Copy, PartialEq, Eq, Structural, Debug)]
pub enum SetOp {
    /// Intersection.
    And,
    /// Union.
    Or,
    /// Symmetric difference.
    Xor,
    /// Difference.
    Sub,
}

/// The members of `a` whose membership in `b` is `want`, in order.
pub open spec fn keep(a: Seq<Seq<char>>, b: Seq<Seq<char>>, want: bool) -> Seq<Seq<char>> {
    a.filter(|x: Seq<char>| b.contains(x) == want)
}

/// The result of a set operation.
pub open spec fn set_op_spec(op: SetOp, a: Seq<Seq<char>>, b: Seq<Seq<char>>) -> Seq<Seq<char>> {
    match op {
        SetOp::And => keep(a, b, true),
        SetOp::Or => a + keep(b, a, false),
        SetOp::Xor => keep(a, b, false) + keep(b, a, false),
        SetOp::Sub => keep(a, b, false),
    }
}

/// Whether a value belongs to the result of a set operation.
pub open spec fn member(op: SetOp, in_a: bool, in_b: bool) -> bool {
    match op {
        SetOp::And => in_a && in_b,
        SetOp::Or => in_a || in_b,
        SetOp::Xor => in_a != in_b,
        SetOp::Sub => in_a && !in_b,
    }
}

fn keep_exec(a: &Vec<String>, b: &Vec<String>, want: bool) -> (r: Vec<String>)
    ensures
        views(r@) == keep(views(a@), views(b@), want),
{
    let ghost pred = |x: Seq<char>| views(b@).contains(x) == want;
    let mut out: Vec<String> = Vec::new();
    let mut i: usize = 0;
    proof {
        reveal(Seq::filter);
        assert(views(a@).take(0).filter(pred) =~= Seq::<Seq<char>>::empty());
        assert(views(out@) =~= Seq::<Seq<char>>::empty());
    }
    while i < a.len()
        invariant
            i <= a@.len(),
            pred == (|x: Seq<char>| views(b@).contains(x) == want),
            views(out@) == views(a@).take(i as int).filter(pred),
        decreases a@.len() - i,
    {
        let found = contains_str(b, 0, &a[i]);
        proof {
            assert(views(b@).skip(0) =~= views(b@));
            reveal(Seq::filter);
            assert(views(a@).take(i + 1).drop_last() =~= views(a@).take(i as int));
            assert(views(a@).take(i + 1).last() == a@[i as int]@);
        }
        let ghost before = views(out@);
        if found == want {
            out.push(a[i].clone());
            assert(views(out@) =~= before.push(a@[i as int]@));
        }
        i = i + 1;
    }
    assert(views(a@).take(a@.len() as int) =~= views(a@));
    out
}

impl SetOp {
    /// Combine two ordered sets.
    pub fn apply(&self, a: &Vec<String>, b: &Vec<String>) -> (r: Vec<String>)
        ensures
            views(r@) == set_op_spec(*self, views(a@), views(b@)),
    {
        match self {
            SetOp::And => keep_exec(a, b, true),
            SetOp::Or => {
                let mut out = a.clone();
                let extra = keep_exec(b, a, false);
                let mut i: usize = 0;
                assert(views(out@) =~= views(a@));
                while i < extra.len()
                    invariant
                        i <= extra@.len(),
                        views(out@) == views(a@) + views(extra@).take(i as int),
                    decreases extra@.len() - i,
                {
                    let ghost before = views(out@);
                    out.push(extra[i].clone());
                    assert(views(out@) =~= before.push(extra@[i as int]@));
                    assert(views(extra@).take(i + 1) =~= views(extra@).take(i as int).push(
                        extra@[i as int]@,
                    ));
                    assert(views(out@) =~= views(a@) + views(extra@).take(i + 1));
                    i = i + 1;
                }
                assert(views(extra@).take(extra@.len() as int) =~= views(extra@));
                out
            },
            SetOp::Xor => {
                let mut out = keep_exec(a, b, false);
                let extra = keep_exec(b, a, false);
                let ghost first = views(out@);
                let mut i: usize = 0;
                assert(first + views(extra@).take(0) =~= first);
                while i < extra.len()
                    invariant
                        i <= extra@.len(),
                        views(out@) == first + views(extra@).take(i as int),
                    decreases extra@.len() - i,
                {
                    let ghost before = views(out@);
                    out.push(extra[i].clone());
                    assert(views(out@) =~= before.push(extra@[i as int]@));
                    assert(views(extra@).take(i + 1) =~= views(extra@).take(i as int).push(
                        extra@[i as int]@,
                    ));
                    assert(views(out@) =~= first + views(extra@).take(i + 1));
                    i = i + 1;
                }
                assert(views(extra@).take(extra@.len() as int) =~= views(extra@));
                out
            },
            SetOp::Sub => keep_exec(a, b, false),
        }
    }
}

proof fn lemma_keep_contains(a: Seq<Seq<char>>, b: Seq<Seq<char>>, want: bool, x: Seq<char>)
    ensures
        keep(a, b, want).contains(x) <==> (a.contains(x) && b.contains(x) == want),
{
    broadcast use vstd::seq_lib::group_filter_ensures;

    let pred = |y: Seq<char>| b.contains(y) == want;
    let k = a.filter(pred);
    if k.contains(x) {
        let i = choose|i: int| 0 <= i < k.len() && k[i] == x;
        assert(pred(k[i]));
        assert(a.filter(pred).len() <= a.len());
        lemma_filter_member(a, pred, i);
    }
    if a.contains(x) && b.contains(x) == want {
        let i = choose|i: int| 0 <= i < a.len() && a[i] == x;
        assert(a.filter(pred).contains(a[i]));
    }
}

proof fn lemma_filter_member(a: Seq<Seq<char>>, pred: spec_fn(Seq<char>) -> bool, i: int)
    requires
        0 <= i < a.filter(pred).len(),
    ensures
        a.contains(a.filter(pred)[i]),
    decreases a.len(),
{
    reveal(Seq::filter);
    if a.len() > 0 {
        let sub = a.drop_last().filter(pred);
        if i < sub.len() {
            lemma_filter_member(a.drop_last(), pred, i);
            let j = choose|j: int| 0 <= j < a.drop_last().len() && a.drop_last()[j] == sub[i];
            assert(a[j] == a.filter(pred)[i]);
        } else {
            assert(a.filter(pred)[i] == a.last());
            assert(a[a.len() - 1] == a.last());
        }
    }
}

/// A value belongs to the result of a set operation exactly when its
/// membership in the two operands says so.
pub proof fn lemma_set_op_member(op: SetOp, a: Seq<Seq<char>>, b: Seq<Seq<char>>, x: Seq<char>)
    ensures
        set_op_spec(op, a, b).contains(x) <==> member(op, a.contains(x), b.contains(x)),
{
    lemma_keep_contains(a, b, true, x);
    lemma_keep_contains(a, b, false, x);
    lemma_keep_contains(b, a, false, x);
    let k1 = keep(a, b, false);
    let k2 = keep(b, a, false);
    lemma_add_contains(a, k2, x);
    lemma_add_contains(k1, k2, x);
}

proof fn lemma_add_contains(a: Seq<Seq<char>>, b: Seq<Seq<char>>, x: Seq<char>)
    ensures
        (a + b).contains(x) <==> (a.contains(x) || b.contains(x)),
{
    if (a + b).contains(x) {
        let i = choose|i: int| 0 <= i < (a + b).len() && (a + b)[i] == x;
        if i < a.len() {
            assert(a[i] == x);
        } else {
            assert(b[i - a.len()] == x);
        }
    }
    if a.contains(x) {
        let i = choose|i: int| 0 <= i < a.len() && a[i] == x;
        assert((a + b)[i] == x);
    }
    if b.contains(x) {
        let i = choose|i: int| 0 <= i < b.len() && b[i] == x;
        assert((a + b)[a.len() + i] == x);
    }
}

} // verus!
