//! Putting back in order results that arrive out of order: each result comes
//! tagged with its position in the sequence of work handed out, is held until
//! every earlier one has been handed on, and then goes out in its turn. The
//! caller receives the tagged results (from worker threads, say) and asks
//! for the next one in turn whenever it can.

use vstd::prelude::*;
use std::collections::HashMap;

verus! {

broadcast use vstd::std_specs::hash::group_hash_axioms;

/// A buffer of results waiting for their turn.
pub struct Reorder<T> {
    next: usize,
    pending: HashMap<usize, T>,
}

/// The state after asking for the next result: when the result whose turn it
/// is has arrived, it goes out and the turn moves on; otherwise nothing
/// changes.
pub open spec fn take_step<T>(next: nat, pending: Map<usize, T>) -> (nat, Map<usize, T>, Option<T>) {
    if next <= usize::MAX && pending.contains_key(next as usize) {
        ((next + 1) as nat, pending.remove(next as usize), Some(pending[next as usize]))
    } else {
        (next, pending, None)
    }
}

/// What `k` requests in a row hand out.
pub open spec fn drained<T>(next: nat, pending: Map<usize, T>, k: nat) -> Seq<Option<T>>
    decreases k,
{
    if k == 0 {
        Seq::empty()
    } else {
        let (n, p, r) = take_step(next, pending);
        seq![r] + drained(n, p, (k - 1) as nat)
    }
}

impl<T> Reorder<T> {
    /// Whose turn it is: the position of the next result to hand out.
    pub closed spec fn turn(&self) -> nat {
        self.next as nat
    }

    /// The results that arrived and wait, by position.
    pub closed spec fn waiting(&self) -> Map<usize, T> {
        self.pending@
    }

    /// An empty buffer, starting with the first position.
    pub fn new() -> (r: Self)
        ensures
            r.turn() == 0,
            r.waiting() == Map::<usize, T>::empty(),
    {
        Reorder { next: 0, pending: HashMap::new() }
    }

    /// Hold a result that arrived tagged with its position.
    pub fn accept(&mut self, id: usize, item: T)
        ensures
            final(self).turn() == old(self).turn(),
            final(self).waiting() == old(self).waiting().insert(id, item),
    {
        self.pending.insert(id, item);
    }

    /// Hand out the result whose turn it is, if it has arrived.
    pub fn take_ready(&mut self) -> (r: Option<T>)
        requires
            old(self).turn() < usize::MAX,
        ensures
            (final(self).turn(), final(self).waiting(), r) == take_step(
                old(self).turn(),
                old(self).waiting(),
            ),
    {
        match self.pending.remove(&self.next) {
            Some(item) => {
                self.next = self.next + 1;
                Some(item)
            },
            None => None,
        }
    }
}

/// Results go out in the order of their positions: when the results for the
/// next `k` positions have all arrived, `k` requests hand them out one by one,
/// each in its turn, whatever order they arrived in.
pub proof fn lemma_drained_in_order<T>(next: nat, pending: Map<usize, T>, k: nat)
    requires
        next + k <= usize::MAX + 1,
        forall|i: nat| i < k ==> pending.contains_key(#[trigger] ((next + i) as usize)),
    ensures
        drained(next, pending, k) == Seq::new(k, |i: int| Some(pending[(next + i) as usize])),
    decreases k,
{
    if k > 0 {
        assert(pending.contains_key((next + 0nat) as usize));
        let (n, p, r) = take_step(next, pending);
        assert(n == next + 1 && r == Some(pending[next as usize]));
        assert forall|i: nat| i < (k - 1) as nat implies p.contains_key(#[trigger] ((n + i) as usize)) by {
            assert(pending.contains_key((next + (i + 1) as nat) as usize));
            assert((n + i) as usize != next as usize);
        }
        lemma_drained_in_order(n, p, (k - 1) as nat);
        assert forall|i: int| 0 <= i < k - 1 implies #[trigger] p[(n + i) as usize] == pending[(next
            + (i + 1)) as usize] by {
            assert((n + i) as usize != next as usize);
        }
        assert(drained(next, pending, k) =~= Seq::new(k, |i: int| Some(pending[(next + i) as usize])));
    }
}

/// Each position from 0 up to the number of results is the tag of exactly
/// one result.
pub open spec fn tags_each_position<T>(a: Seq<(usize, T)>) -> bool {
    &&& forall|j: int, k: int| 0 <= j < k < a.len() ==> a[j].0 != a[k].0
    &&& forall|j: int| 0 <= j < a.len() ==> a[j].0 < a.len()
    &&& forall|p: int| 0 <= p < a.len() ==> #[trigger] is_tag(a, p)
}

/// Some result is tagged with position `p`.
pub open spec fn is_tag<T>(a: Seq<(usize, T)>, p: int) -> bool {
    exists|j: int| 0 <= j < a.len() && a[j].0 == p
}

/// The index of the result tagged with position `p`.
pub open spec fn origin<T>(a: Seq<(usize, T)>, p: int) -> int {
    choose|j: int| 0 <= j < a.len() && a[j].0 == p
}

/// Hand out a whole stream of tagged results: they arrive in the given
/// order, and after each arrival every result whose turn has come goes out.
/// What comes out is the results in the order of their positions, whatever
/// order they arrived in.
pub fn in_order<T>(arrivals: Vec<(usize, T)>) -> (r: Vec<T>)
    requires
        tags_each_position(arrivals@),
        arrivals@.len() < usize::MAX,
    ensures
        r@.len() == arrivals@.len(),
        forall|j: int| 0 <= j < arrivals@.len() ==> r@[#[trigger] arrivals@[j].0 as int] == arrivals@[j].1,
{
    let ghost a = arrivals@;
    let n = arrivals.len();
    assert forall|p: int| 0 <= p < n implies 0 <= #[trigger] origin(a, p) < n && a[origin(a, p)].0 == p by {
        assert(is_tag(a, p));
    }
    assert forall|j: int| 0 <= j < n implies #[trigger] origin(a, a[j].0 as int) == j by {
        let o = origin(a, a[j].0 as int);
        if o != j {
            if o < j {
                assert(a[o].0 != a[j].0);
            } else {
                assert(a[j].0 != a[o].0);
            }
        }
    }
    let mut rest = arrivals;
    let mut buf: Reorder<T> = Reorder::new();
    let mut out: Vec<T> = Vec::new();
    let ghost mut k: int = 0;
    while rest.len() > 0
        invariant
            n == a.len(),
            n < usize::MAX,
            0 <= k <= n,
            k + rest@.len() == n,
            rest@ == a.skip(k),
            tags_each_position(a),
            forall|p: int| 0 <= p < n ==> 0 <= #[trigger] origin(a, p) < n && a[origin(a, p)].0 == p,
            forall|j: int| 0 <= j < n ==> #[trigger] origin(a, a[j].0 as int) == j,
            buf.turn() <= n,
            out@.len() == buf.turn(),
            forall|p: int| 0 <= p < buf.turn() ==> #[trigger] origin(a, p) < k && out@[p] == a[origin(a, p)].1,
            forall|p: usize| #[trigger] buf.waiting().contains_key(p) <==> (buf.turn() <= p < n && origin(a, p as int) < k),
            forall|p: usize| #[trigger] buf.waiting().contains_key(p) ==> buf.waiting()[p] == a[origin(a, p as int)].1,
            buf.turn() < n ==> !buf.waiting().contains_key(buf.turn() as usize),
        decreases rest@.len(),
    {
        assert(rest@[0] == a[k]);
        let (id, item) = rest.remove(0);
        assert(rest@ =~= a.skip(k + 1));
        assert(origin(a, id as int) == k);
        buf.accept(id, item);
        proof {
            k = k + 1;
        }
        loop
            invariant
                n == a.len(),
                n < usize::MAX,
                0 <= k <= n,
                k + rest@.len() == n,
                rest@ == a.skip(k),
                tags_each_position(a),
                forall|p: int| 0 <= p < n ==> 0 <= #[trigger] origin(a, p) < n && a[origin(a, p)].0 == p,
                forall|j: int| 0 <= j < n ==> #[trigger] origin(a, a[j].0 as int) == j,
                buf.turn() <= n,
                out@.len() == buf.turn(),
                forall|p: int| 0 <= p < buf.turn() ==> #[trigger] origin(a, p) < k && out@[p] == a[origin(a, p)].1,
                forall|p: usize| #[trigger] buf.waiting().contains_key(p) <==> (buf.turn() <= p < n && origin(a, p as int) < k),
                forall|p: usize| #[trigger] buf.waiting().contains_key(p) ==> buf.waiting()[p] == a[origin(a, p as int)].1,
            ensures
                buf.turn() < n ==> !buf.waiting().contains_key(buf.turn() as usize),
            decreases n - buf.turn(),
        {
            let ghost t = buf.turn();
            match buf.take_ready() {
                Some(x) => {
                    assert(out@.push(x)[t as int] == x);
                    out.push(x);
                },
                None => {
                    break;
                },
            }
        }
    }
    proof {
        if buf.turn() < n {
            let t = buf.turn();
            assert(origin(a, t as int) < n);
            assert(buf.waiting().contains_key(t as usize));
        }
        assert forall|j: int| 0 <= j < n implies out@[#[trigger] a[j].0 as int] == a[j].1 by {
            assert(origin(a, a[j].0 as int) == j);
        }
    }
    out
}

} // verus!
