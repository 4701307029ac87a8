//! The order of backpropagation: a depth-first search over the autograd graph.
use vstd::prelude::*;
use std::collections::{HashMap, HashSet};
use crate::tensor::{same_tensor, same_tensors, Tensor};

verus! {

broadcast use vstd::std_specs::hash::group_hash_axioms;

/// A depth-first search from `t`, skipping tensors whose id is in `visited`:
/// the ids visited afterwards, and the tensors reached, each after all of its
/// parents (post-order).
pub open spec fn dfs<S, O: ?Sized>(t: Tensor<S, O>, visited: Set<u64>) -> (Set<u64>, Seq<
    Tensor<S, O>,
>)
    decreases t,
{
    if visited.contains(t.id.0) {
        (visited, Seq::empty())
    } else {
        match t.node {
            Some(n) => {
                let r = dfs_parents(n.parents@, 0, visited.insert(t.id.0));
                (r.0, r.1.push(t))
            },
            None => (visited.insert(t.id.0), seq![t]),
        }
    }
}

/// The depth-first search of `ps[i..]`, one parent after the other.
pub open spec fn dfs_parents<S, O: ?Sized>(ps: Seq<Tensor<S, O>>, i: int, visited: Set<u64>) -> (Set<
    u64,
>, Seq<Tensor<S, O>>)
    decreases ps, ps.len() - i,
{
    if 0 <= i < ps.len() {
        let a = dfs(ps[i], visited);
        let b = dfs_parents(ps, i + 1, a.0);
        (b.0, a.1 + b.1)
    } else {
        (visited, Seq::empty())
    }
}

/// The last element first.
pub open spec fn reversed<A>(s: Seq<A>) -> Seq<A> {
    Seq::new(s.len(), |i: int| s[s.len() - 1 - i])
}

/// The order in which backpropagation from `t` visits the graph: the reverse
/// of the post-order of a depth-first search from `t`, so from the loss
/// towards the leaves.
pub open spec fn backward_order<S, O: ?Sized>(t: Tensor<S, O>) -> Seq<Tensor<S, O>> {
    reversed(dfs(t, Set::empty()).1)
}

fn dfs_exec<S, O: ?Sized>(
    tensor: &Tensor<S, O>,
    visited: &mut HashSet<u64>,
    sorted: &mut Vec<Tensor<S, O>>,
)
    ensures
        final(visited)@ == dfs(*tensor, old(visited)@).0,
        final(sorted)@.len() == old(sorted)@.len() + dfs(*tensor, old(visited)@).1.len(),
        final(sorted)@.take(old(sorted)@.len() as int) == old(sorted)@,
        same_tensors(final(sorted)@.skip(old(sorted)@.len() as int), dfs(*tensor, old(visited)@).1),
    decreases *tensor,
{
    let ghost v_in = visited@;
    let ghost s_in = sorted@;
    if visited.contains(&tensor.id.0) {
        assert(sorted@.take(s_in.len() as int) =~= s_in);
        assert(sorted@.skip(s_in.len() as int) =~= Seq::<Tensor<S, O>>::empty());
        return;
    }
    visited.insert(tensor.id.0);
    match &tensor.node {
        Some(node) => {
            let ghost ps = node.parents@;
            let ghost v0 = visited@;
            let ghost target = dfs_parents(ps, 0, v0);
            let ghost mut done: Seq<Tensor<S, O>> = Seq::empty();
            let mut i: usize = 0;
            assert(sorted@.take(s_in.len() as int) =~= s_in);
            assert(sorted@.skip(s_in.len() as int) =~= Seq::<Tensor<S, O>>::empty());
            assert(target.1 =~= done + dfs_parents(ps, 0, visited@).1);
            while i < node.parents.len()
                invariant
                    i <= ps.len(),
                    ps == node.parents@,
                    tensor.node == Some(*node),
                    target == dfs_parents(ps, 0, v0),
                    dfs_parents(ps, i as int, visited@).0 == target.0,
                    target.1 == done + dfs_parents(ps, i as int, visited@).1,
                    sorted@.len() == s_in.len() + done.len(),
                    sorted@.take(s_in.len() as int) == s_in,
                    same_tensors(sorted@.skip(s_in.len() as int), done),
                decreases ps.len() - i,
            {
                let ghost vb = visited@;
                let ghost sb = sorted@;
                proof {
                    let nd = tensor.node->0;
                    assert(decreases_to!(*tensor => tensor.node));
                    assert(decreases_to!(tensor.node => nd));
                    assert(decreases_to!(nd => nd.parents));
                    assert(decreases_to!(nd.parents => nd.parents@));
                    assert(decreases_to!(nd.parents@ => nd.parents@[i as int]));
                }
                dfs_exec(&node.parents[i], visited, sorted);
                proof {
                    let a = dfs(ps[i as int], vb);
                    let rest = dfs_parents(ps, i + 1, a.0);
                    assert(dfs_parents(ps, i as int, vb) == (rest.0, a.1 + rest.1));
                    assert(target.1 =~= (done + a.1) + rest.1);
                    assert(sorted@.take(s_in.len() as int) =~= sb.take(s_in.len() as int)) by {
                        assert forall|j: int| 0 <= j < s_in.len() implies sorted@[j] == sb[j] by {
                            assert(sorted@.take(sb.len() as int)[j] == sb[j]);
                        }
                    }
                    assert forall|j: int| 0 <= j < done.len() + a.1.len() implies same_tensor(
                        #[trigger] sorted@.skip(s_in.len() as int)[j],
                        (done + a.1)[j],
                    ) by {
                        if j < done.len() {
                            assert(sorted@.take(sb.len() as int)[s_in.len() + j] == sb[s_in.len()
                                + j]);
                            assert(sb.skip(s_in.len() as int)[j] == sb[s_in.len() + j]);
                        } else {
                            assert(sorted@.skip(sb.len() as int)[j - done.len()] == sorted@[sb.len()
                                + j - done.len()]);
                        }
                    }
                    done = done + a.1;
                }
                i = i + 1;
            }
            proof {
                assert(dfs_parents(ps, i as int, visited@) == (visited@, Seq::<Tensor<S, O>>::empty()));
                assert(done =~= target.1);
            }
        },
        None => {
            assert(sorted@.take(s_in.len() as int) =~= s_in);
            assert(sorted@.skip(s_in.len() as int) =~= Seq::<Tensor<S, O>>::empty());
        },
    }
    let ghost sb = sorted@;
    sorted.push(tensor.clone());
    proof {
        assert(sorted@.take(s_in.len() as int) =~= sb.take(s_in.len() as int));
        let d = dfs(*tensor, v_in).1;
        assert forall|j: int| 0 <= j < d.len() implies same_tensor(
            #[trigger] sorted@.skip(s_in.len() as int)[j],
            d[j],
        ) by {
            if j < d.len() - 1 {
                assert(sb.skip(s_in.len() as int)[j] == sb[s_in.len() + j]);
            }
        }
    }
}

impl<S, O: ?Sized> Tensor<S, O> {
    /// The tensors of the graph that ends at this one, in the order that
    /// backpropagation needs: a depth-first search lists each tensor after its
    /// parents, and the reversed list runs from the loss to the leaves.
    pub fn topo_sort(&self) -> (order: Vec<Tensor<S, O>>)
        ensures
            same_tensors(order@, backward_order(*self)),
    {
        let mut visited: HashSet<u64> = HashSet::new();
        let mut sorted: Vec<Tensor<S, O>> = Vec::new();
        dfs_exec(self, &mut visited, &mut sorted);
        assert(sorted@.skip(0) =~= sorted@);
        let ghost post = sorted@;
        let ghost n = post.len();
        let mut order: Vec<Tensor<S, O>> = Vec::new();
        while sorted.len() > 0
            invariant
                n == post.len(),
                sorted@ == post.take(n - order@.len()),
                order@.len() <= n,
                forall|j: int| 0 <= j < order@.len() ==> #[trigger] order@[j] == post[n - 1 - j],
            decreases sorted@.len(),
        {
            let ghost k = order@.len();
            let ghost before = sorted@;
            let t = sorted.pop().unwrap();
            proof {
                assert(t == before.last());
                assert(before.last() == post[n - 1 - k]);
                assert(sorted@ =~= post.take(n - k - 1));
            }
            order.push(t);
        }
        proof {
            let d = dfs(*self, Set::empty()).1;
            assert forall|j: int| 0 <= j < order@.len() implies same_tensor(
                #[trigger] order@[j],
                backward_order(*self)[j],
            ) by {
                assert(same_tensor(post[n - 1 - j], d[n - 1 - j]));
            }
        }
        order
    }
}

/// `m2` is `m` with the gradient `g` of the input `p` accumulated under its
/// id: added by `plus` to the gradient already held there, or held as it is;
/// nothing changes when there is no gradient or `p` takes none.
pub open spec fn accumulated<S, O: ?Sized, A: Fn(&Tensor<S, O>, &Tensor<S, O>) -> Tensor<S, O>>(
    m: Map<u64, Tensor<S, O>>,
    p: Tensor<S, O>,
    g: Option<Tensor<S, O>>,
    plus: A,
    m2: Map<u64, Tensor<S, O>>,
) -> bool {
    if g is Some && p.requires_grad {
        if m.contains_key(p.id.0) {
            exists|s: Tensor<S, O>|
                #[trigger] plus.ensures((&m[p.id.0], &g->0), s) && m2 == m.insert(p.id.0, s)
        } else {
            m2 == m.insert(p.id.0, g->0)
        }
    } else {
        m2 == m
    }
}

/// Accumulating a gradient changes only the entry of its input's id: with a
/// gradient already held there, the new entry is what `plus` makes of the
/// held and the new gradient, otherwise it is the new gradient; every other
/// entry stays, and nothing changes for a missing gradient or an input that
/// takes none.
pub proof fn lemma_accumulated_entries<S, O: ?Sized, A: Fn(&Tensor<S, O>, &Tensor<S, O>) -> Tensor<S, O>>(
    m: Map<u64, Tensor<S, O>>,
    p: Tensor<S, O>,
    g: Option<Tensor<S, O>>,
    plus: A,
    m2: Map<u64, Tensor<S, O>>,
)
    requires
        accumulated(m, p, g, plus, m2),
    ensures
        forall|k: u64|
            k != p.id.0 ==> (#[trigger] m2.contains_key(k) == m.contains_key(k) && (m.contains_key(k)
                ==> m2[k] == m[k])),
        g is Some && p.requires_grad ==> {
            &&& m2.contains_key(p.id.0)
            &&& m.contains_key(p.id.0) ==> plus.ensures((&m[p.id.0], &g->0), m2[p.id.0])
            &&& !m.contains_key(p.id.0) ==> m2[p.id.0] == g->0
        },
        !(g is Some && p.requires_grad) ==> m2 == m,
{
    if g is Some && p.requires_grad && m.contains_key(p.id.0) {
        let s = choose|s: Tensor<S, O>|
            #[trigger] plus.ensures((&m[p.id.0], &g->0), s) && m2 == m.insert(p.id.0, s);
        assert(m2[p.id.0] == s);
    }
}

/// `b` is `a` after the gradient `outs[i]` is accumulated under the input
/// `ps[i]` (a gradient without an input is dropped).
pub open spec fn accumulates_at<S, O: ?Sized, A: Fn(&Tensor<S, O>, &Tensor<S, O>) -> Tensor<S, O>>(
    ps: Seq<Tensor<S, O>>,
    outs: Seq<Option<Tensor<S, O>>>,
    plus: A,
    a: Map<u64, Tensor<S, O>>,
    i: int,
    b: Map<u64, Tensor<S, O>>,
) -> bool {
    if i < ps.len() {
        accumulated(a, ps[i], outs[i], plus, b)
    } else {
        b == a
    }
}

/// `trace` lists the gradient maps as the gradients `outs` are accumulated
/// one after the other, from the first map to the last.
pub open spec fn accumulation_trace<S, O: ?Sized, A: Fn(&Tensor<S, O>, &Tensor<S, O>) -> Tensor<S, O>>(
    ps: Seq<Tensor<S, O>>,
    outs: Seq<Option<Tensor<S, O>>>,
    plus: A,
    trace: Seq<Map<u64, Tensor<S, O>>>,
) -> bool {
    &&& trace.len() == outs.len() + 1
    &&& forall|i: int|
        0 <= i < outs.len() ==> #[trigger] accumulates_at(ps, outs, plus, trace[i], i, trace[i + 1])
}

/// One step of backpropagation at `t`: when `t` was made by an operation and
/// a gradient is held for its id, the input gradients that `backward_of`
/// gives for `t` and that gradient are accumulated under the inputs' ids.
pub open spec fn backprop_step<
    S,
    O: ?Sized,
    B: Fn(&Tensor<S, O>, &Tensor<S, O>) -> Vec<Option<Tensor<S, O>>>,
    A: Fn(&Tensor<S, O>, &Tensor<S, O>) -> Tensor<S, O>,
>(t: Tensor<S, O>, m: Map<u64, Tensor<S, O>>, backward_of: B, plus: A, m2: Map<u64, Tensor<S, O>>) -> bool {
    match t.node {
        Some(n) => if m.contains_key(t.id.0) {
            exists|outs: Vec<Option<Tensor<S, O>>>, trace: Seq<Map<u64, Tensor<S, O>>>|
                #![trigger backward_of.ensures((&t, &m[t.id.0]), outs), accumulation_trace(n.parents@, outs@, plus, trace)]
                backward_of.ensures((&t, &m[t.id.0]), outs) && accumulation_trace(
                    n.parents@,
                    outs@,
                    plus,
                    trace,
                ) && trace[0] == m && trace.last() == m2
        } else {
            m2 == m
        },
        None => m2 == m,
    }
}

/// `trace` lists the gradient maps as backpropagation steps through
/// `order`, one tensor after the other.
pub open spec fn backprop_trace<
    S,
    O: ?Sized,
    B: Fn(&Tensor<S, O>, &Tensor<S, O>) -> Vec<Option<Tensor<S, O>>>,
    A: Fn(&Tensor<S, O>, &Tensor<S, O>) -> Tensor<S, O>,
>(order: Seq<Tensor<S, O>>, backward_of: B, plus: A, trace: Seq<Map<u64, Tensor<S, O>>>) -> bool {
    &&& trace.len() == order.len() + 1
    &&& forall|i: int|
        0 <= i < order.len() ==> #[trigger] backprop_step(order[i], trace[i], backward_of, plus, trace[i + 1])
}

/// Backpropagation from `loss`, whose own gradient is `seed`: in the backward
/// order (from the loss towards the leaves), the gradient held for each
/// tensor made by an operation is handed with the tensor to `backward_of`, the
/// backward rule of its operation, and the input gradients that come back are
/// accumulated by `plus` under the inputs' ids. The result holds the
/// gradient of every tensor reached that takes one, by id.
pub fn backpropagate<S, O: ?Sized, B, A>(
    loss: &Tensor<S, O>,
    seed: Tensor<S, O>,
    backward_of: &B,
    plus: &A,
) -> (grads: HashMap<u64, Tensor<S, O>>) where
    B: Fn(&Tensor<S, O>, &Tensor<S, O>) -> Vec<Option<Tensor<S, O>>>,
    A: Fn(&Tensor<S, O>, &Tensor<S, O>) -> Tensor<S, O>,

    requires
        forall|t: &Tensor<S, O>, g: &Tensor<S, O>| #[trigger] backward_of.requires((t, g)),
        forall|a: &Tensor<S, O>, b: &Tensor<S, O>| #[trigger] plus.requires((a, b)),
    ensures
        exists|order: Seq<Tensor<S, O>>, trace: Seq<Map<u64, Tensor<S, O>>>|
            #![trigger same_tensors(order, backward_order(*loss)), backprop_trace(order, *backward_of, *plus, trace)]
            {
                &&& same_tensors(order, backward_order(*loss))
                &&& backprop_trace(order, *backward_of, *plus, trace)
                &&& trace[0] == map![loss.id.0 => seed]
                &&& trace.last() == grads@
            },
{
    broadcast use vstd::std_specs::vec::group_vec_axioms;

    let order = loss.topo_sort();
    let mut grads: HashMap<u64, Tensor<S, O>> = HashMap::new();
    grads.insert(loss.id.0, seed);
    let ghost m0 = grads@;
    assert(m0 =~= map![loss.id.0 => seed]);
    let ghost mut trace: Seq<Map<u64, Tensor<S, O>>> = seq![m0];
    let mut i: usize = 0;
    while i < order.len()
        invariant
            i <= order@.len(),
            forall|t: &Tensor<S, O>, g: &Tensor<S, O>| #[trigger] backward_of.requires((t, g)),
            forall|a: &Tensor<S, O>, b: &Tensor<S, O>| #[trigger] plus.requires((a, b)),
            trace.len() == i + 1,
            trace[0] == m0,
            trace.last() == grads@,
            forall|k: int|
                0 <= k < i ==> #[trigger] backprop_step(order@[k], trace[k], *backward_of, *plus, trace[k + 1]),
        decreases order@.len() - i,
    {
        let t = &order[i];
        let ghost before = grads@;
        match &t.node {
            None => {
                assert(backprop_step(order@[i as int], before, *backward_of, *plus, before));
            },
            Some(node) => {
                let outs_opt = match grads.get(&t.id.0) {
                    Some(g) => Some(backward_of(t, g)),
                    None => None,
                };
                match outs_opt {
                    None => {
                        assert(backprop_step(order@[i as int], before, *backward_of, *plus, before));
                    },
                    Some(outs) => {
                        let ghost outs_v = outs;
                        let ghost ps = node.parents@;
                        let ghost mut acc: Seq<Map<u64, Tensor<S, O>>> = seq![before];
                        let mut j: usize = 0;
                        for g in it: outs.into_iter()
                            invariant
                                j == it.index(),
                                j <= outs_v@.len(),
                                it.seq() == outs_v@,
                                ps == node.parents@,
                                forall|a: &Tensor<S, O>, b: &Tensor<S, O>| #[trigger] plus.requires((a, b)),
                                acc.len() == j + 1,
                                acc[0] == before,
                                acc.last() == grads@,
                                forall|k: int|
                                    0 <= k < j ==> #[trigger] accumulates_at(ps, outs_v@, *plus, acc[k], k, acc[k + 1]),
                        {
                            assert(j < outs_v@.len() && g == outs_v@[j as int]);
                            let ghost mid = grads@;
                            if j < node.parents.len() && node.parents[j].requires_grad {
                                let pid = node.parents[j].id.0;
                                match g {
                                    Some(gt) => {
                                        let total = match grads.remove(&pid) {
                                            Some(prev) => {
                                                let s = plus(&prev, &gt);
                                                assert(plus.ensures((&mid[pid], &gt), s));
                                                s
                                            },
                                            None => gt,
                                        };
                                        grads.insert(pid, total);
                                        assert(grads@ =~= mid.insert(pid, total));
                                    },
                                    None => {},
                                }
                            }
                            assert(accumulates_at(ps, outs_v@, *plus, mid, j as int, grads@));
                            proof {
                                acc = acc.push(grads@);
                            }
                            assert(outs_v.len() == outs_v@.len());
                            j = j + 1;
                        }
                        assert(accumulation_trace(ps, outs_v@, *plus, acc));
                        assert(backprop_step(order@[i as int], before, *backward_of, *plus, grads@));
                    },
                }
            },
        }
        proof {
            trace = trace.push(grads@);
        }
        i = i + 1;
    }
    assert(backprop_trace(order@, *backward_of, *plus, trace));
    grads
}

/// The ids of a sequence of tensors.
pub open spec fn ids<S, O: ?Sized>(s: Seq<Tensor<S, O>>) -> Set<u64> {
    Set::new(|x: u64| exists|m: int| 0 <= m < s.len() && #[trigger] s[m].id.0 == x)
}

/// No id occurs twice in the sequence.
pub open spec fn distinct_ids<S, O: ?Sized>(s: Seq<Tensor<S, O>>) -> bool {
    forall|a: int, b: int|
        0 <= a < s.len() && 0 <= b < s.len() && a != b ==> #[trigger] s[a].id != #[trigger] s[b].id
}

/// The inputs of the operation that produced `x` (none for a leaf).
pub open spec fn parents_of<S, O: ?Sized>(x: Tensor<S, O>) -> Seq<Tensor<S, O>> {
    match x.node {
        Some(n) => n.parents@,
        None => Seq::empty(),
    }
}

/// Every parent of every entry of `s` is in `before`, or has its id on an
/// earlier entry of `s`.
pub open spec fn parents_listed_before<S, O: ?Sized>(s: Seq<Tensor<S, O>>, before: Set<u64>) -> bool {
    forall|k: int, j: int|
        0 <= k < s.len() && 0 <= j < parents_of(s[k]).len() ==> before.contains(
            #[trigger] parents_of(s[k])[j].id.0,
        ) || exists|m: int| 0 <= m < k && s[m].id == parents_of(s[k])[j].id
}

/// Every parent of every entry of `s` has its id on a later entry of `s`.
pub open spec fn parents_listed_after<S, O: ?Sized>(s: Seq<Tensor<S, O>>) -> bool {
    forall|k: int, j: int|
        #![trigger parents_of(s[k])[j]]
        0 <= k < s.len() && 0 <= j < parents_of(s[k]).len() ==> exists|m: int|
            #![trigger s[m]]
            k < m < s.len() && s[m].id == parents_of(s[k])[j].id
}

/// No tensor of the graph that ends at `t` reaches its own id through its
/// inputs: along the graph's edges, ids form no cycle.
pub open spec fn ids_acyclic<S, O: ?Sized>(t: Tensor<S, O>) -> bool
    decreases t,
{
    match t.node {
        Some(n) => !reach_parents(n.parents@, 0).contains(t.id.0) && ids_acyclic_parents(
            n.parents@,
            0,
        ),
        None => true,
    }
}

/// Every `ps[j]`, `j >= i`, satisfies `ids_acyclic`.
pub open spec fn ids_acyclic_parents<S, O: ?Sized>(ps: Seq<Tensor<S, O>>, i: int) -> bool
    decreases ps, ps.len() - i,
{
    if 0 <= i < ps.len() {
        ids_acyclic(ps[i]) && ids_acyclic_parents(ps, i + 1)
    } else {
        true
    }
}

proof fn lemma_ids_acyclic_parents<S, O: ?Sized>(ps: Seq<Tensor<S, O>>, i: int, j: int)
    requires
        0 <= i <= j < ps.len(),
        ids_acyclic_parents(ps, i),
    ensures
        ids_acyclic(ps[j]),
    decreases j - i,
{
    if i < j {
        lemma_ids_acyclic_parents(ps, i + 1, j);
    }
}

/// A tensor reaches its own id.
proof fn lemma_reach_self<S, O: ?Sized>(x: Tensor<S, O>)
    ensures
        reach(x).contains(x.id.0),
{
}

/// The ids reached from an input of `x` are reached from `x`, and among those
/// reached through its inputs.
proof fn lemma_reach_parent<S, O: ?Sized>(x: Tensor<S, O>, j: int)
    requires
        0 <= j < parents_of(x).len(),
    ensures
        reach(parents_of(x)[j]).subset_of(reach_parents(parents_of(x), 0)),
        reach_parents(parents_of(x), 0).subset_of(reach(x)),
        reach(parents_of(x)[j]).contains(parents_of(x)[j].id.0),
{
    lemma_reach_parents_contains(parents_of(x), 0, j);
    lemma_reach_self(parents_of(x)[j]);
}

proof fn lemma_ids_append<S, O: ?Sized>(a: Seq<Tensor<S, O>>, b: Seq<Tensor<S, O>>)
    ensures
        ids(a + b) == ids(a).union(ids(b)),
{
    assert forall|x: u64| ids(a + b).contains(x) <==> ids(a).union(ids(b)).contains(x) by {
        if ids(a + b).contains(x) {
            let m = choose|m: int| 0 <= m < (a + b).len() && #[trigger] (a + b)[m].id.0 == x;
            if m < a.len() {
                assert(a[m].id.0 == x);
            } else {
                assert(b[m - a.len()].id.0 == x);
            }
        }
        if ids(a).contains(x) {
            let m = choose|m: int| 0 <= m < a.len() && #[trigger] a[m].id.0 == x;
            assert((a + b)[m].id.0 == x);
        }
        if ids(b).contains(x) {
            let m = choose|m: int| 0 <= m < b.len() && #[trigger] b[m].id.0 == x;
            assert((a + b)[a.len() + m].id.0 == x);
        }
    }
    assert(ids(a + b) =~= ids(a).union(ids(b)));
}

/// What a depth-first search visits: the visited ids grow by exactly the ids
/// of the tensors listed, which were not visited before and are all distinct.
pub proof fn lemma_dfs_visits<S, O: ?Sized>(t: Tensor<S, O>, v: Set<u64>)
    ensures
        dfs(t, v).0 == v.union(ids(dfs(t, v).1)),
        distinct_ids(dfs(t, v).1),
        forall|k: int| 0 <= k < dfs(t, v).1.len() ==> !v.contains(#[trigger] dfs(t, v).1[k].id.0),
    decreases t,
{
    if v.contains(t.id.0) {
        assert(v.union(ids(Seq::<Tensor<S, O>>::empty())) =~= v);
    } else {
        let v1 = v.insert(t.id.0);
        match t.node {
            Some(n) => {
                lemma_dfs_parents_visits(n.parents@, 0, v1);
                let r = dfs_parents(n.parents@, 0, v1);
                let s = r.1.push(t);
                assert(s =~= r.1 + seq![t]);
                lemma_ids_append(r.1, seq![t]);
                assert(ids(seq![t]) =~= set![t.id.0]) by {
                    assert(seq![t][0].id.0 == t.id.0);
                }
                assert(r.0 =~= v1.union(ids(r.1)));
                assert(dfs(t, v).0 =~= v.union(ids(s)));
                assert forall|a: int, b: int|
                    0 <= a < s.len() && 0 <= b < s.len() && a != b implies #[trigger] s[a].id
                    != #[trigger] s[b].id by {
                    if a < r.1.len() && b == r.1.len() {
                        assert(!v1.contains(r.1[a].id.0));
                    }
                    if b < r.1.len() && a == r.1.len() {
                        assert(!v1.contains(r.1[b].id.0));
                    }
                }
                assert forall|k: int| 0 <= k < s.len() implies !v.contains(#[trigger] s[k].id.0) by {
                    if k < r.1.len() {
                        assert(!v1.contains(r.1[k].id.0));
                    }
                }
            },
            None => {
                let s = seq![t];
                assert(ids(s) =~= set![t.id.0]) by {
                    assert(s[0].id.0 == t.id.0);
                }
                assert(v1 =~= v.union(ids(s)));
            },
        }
    }
}

/// `lemma_dfs_visits` for the search of `ps[i..]`.
pub proof fn lemma_dfs_parents_visits<S, O: ?Sized>(ps: Seq<Tensor<S, O>>, i: int, v: Set<u64>)
    ensures
        dfs_parents(ps, i, v).0 == v.union(ids(dfs_parents(ps, i, v).1)),
        distinct_ids(dfs_parents(ps, i, v).1),
        forall|k: int|
            0 <= k < dfs_parents(ps, i, v).1.len() ==> !v.contains(
                #[trigger] dfs_parents(ps, i, v).1[k].id.0,
            ),
    decreases ps, ps.len() - i,
{
    if 0 <= i < ps.len() {
        lemma_dfs_visits(ps[i], v);
        let a = dfs(ps[i], v);
        lemma_dfs_parents_visits(ps, i + 1, a.0);
        let b = dfs_parents(ps, i + 1, a.0);
        let s = a.1 + b.1;
        lemma_ids_append(a.1, b.1);
        assert(b.0 =~= v.union(ids(s)));
        assert forall|x: int, y: int|
            0 <= x < s.len() && 0 <= y < s.len() && x != y implies #[trigger] s[x].id
            != #[trigger] s[y].id by {
            if x < a.1.len() && y >= a.1.len() {
                assert(a.0.contains(a.1[x].id.0));
                assert(!a.0.contains(b.1[y - a.1.len()].id.0));
            }
            if y < a.1.len() && x >= a.1.len() {
                assert(a.0.contains(a.1[y].id.0));
                assert(!a.0.contains(b.1[x - a.1.len()].id.0));
            }
        }
        assert forall|k: int| 0 <= k < s.len() implies !v.contains(#[trigger] s[k].id.0) by {
            if k >= a.1.len() {
                assert(!a.0.contains(b.1[k - a.1.len()].id.0));
            }
        }
    } else {
        assert(v.union(ids(Seq::<Tensor<S, O>>::empty())) =~= v);
    }
}

/// The search from `t` lists every tensor after its parents: each parent of a
/// listed tensor was visited before the search began, or is listed earlier.
/// Every listed tensor reaches only ids that `t` reaches.
pub proof fn lemma_dfs_post_order<S, O: ?Sized>(t: Tensor<S, O>, v: Set<u64>)
    requires
        ids_acyclic(t),
    ensures
        parents_listed_before(dfs(t, v).1, v),
        forall|k: int|
            0 <= k < dfs(t, v).1.len() ==> reach(#[trigger] dfs(t, v).1[k]).subset_of(reach(t)),
    decreases t,
{
    lemma_dfs_visits(t, v);
    if !v.contains(t.id.0) {
        let v1 = v.insert(t.id.0);
        match t.node {
            Some(n) => {
                let ps = n.parents@;
                assert(parents_of(t) == ps);
                lemma_dfs_parents_post_order(ps, 0, v1);
                lemma_dfs_parents_visits(ps, 0, v1);
                let r = dfs_parents(ps, 0, v1);
                let s = r.1.push(t);
                assert forall|k: int, j: int|
                    0 <= k < s.len() && 0 <= j < parents_of(s[k]).len() implies v.contains(
                    #[trigger] parents_of(s[k])[j].id.0,
                ) || exists|m: int| 0 <= m < k && s[m].id == parents_of(s[k])[j].id by {
                    let p = parents_of(s[k])[j];
                    if k < r.1.len() {
                        assert(s[k] == r.1[k]);
                        if v1.contains(p.id.0) {
                            lemma_reach_parent(r.1[k], j);
                            assert(reach(r.1[k]).subset_of(reach_parents(ps, 0)));
                            assert(p.id.0 != t.id.0);
                        } else {
                            let m = choose|m: int| 0 <= m < k && r.1[m].id == p.id;
                            assert(s[m] == r.1[m]);
                        }
                    } else {
                        assert(s[k] == t);
                        lemma_reach_parent(t, j);
                        lemma_dfs_parents_reaches(ps, 0, v1, j);
                        assert(r.0.contains(p.id.0));
                        assert(r.0 == v1.union(ids(r.1)));
                        if !v.contains(p.id.0) {
                            assert(p.id.0 != t.id.0);
                            assert(ids(r.1).contains(p.id.0));
                            let m = choose|m: int| 0 <= m < r.1.len() && #[trigger] r.1[m].id.0
                                == p.id.0;
                            assert(s[m] == r.1[m]);
                        }
                    }
                }
                assert forall|k: int| 0 <= k < s.len() implies reach(#[trigger] s[k]).subset_of(
                    reach(t),
                ) by {
                    if k < r.1.len() {
                        assert(s[k] == r.1[k]);
                    }
                }
            },
            None => {
                let s = seq![t];
                assert(parents_of(t) =~= Seq::<Tensor<S, O>>::empty());
                assert(s[0] == t);
            },
        }
    }
}

/// `lemma_dfs_post_order` for the search of `ps[i..]`.
pub proof fn lemma_dfs_parents_post_order<S, O: ?Sized>(ps: Seq<Tensor<S, O>>, i: int, v: Set<u64>)
    requires
        ids_acyclic_parents(ps, i),
    ensures
        parents_listed_before(dfs_parents(ps, i, v).1, v),
        forall|k: int|
            0 <= k < dfs_parents(ps, i, v).1.len() ==> reach(
                #[trigger] dfs_parents(ps, i, v).1[k],
            ).subset_of(reach_parents(ps, i)),
    decreases ps, ps.len() - i,
{
    if 0 <= i < ps.len() {
        lemma_dfs_post_order(ps[i], v);
        lemma_dfs_visits(ps[i], v);
        let a = dfs(ps[i], v);
        lemma_dfs_parents_post_order(ps, i + 1, a.0);
        let b = dfs_parents(ps, i + 1, a.0);
        let s = a.1 + b.1;
        assert forall|k: int, j: int|
            0 <= k < s.len() && 0 <= j < parents_of(s[k]).len() implies v.contains(
            #[trigger] parents_of(s[k])[j].id.0,
        ) || exists|m: int| 0 <= m < k && s[m].id == parents_of(s[k])[j].id by {
            let p = parents_of(s[k])[j];
            if k < a.1.len() {
                assert(s[k] == a.1[k]);
                if !v.contains(p.id.0) {
                    let m = choose|m: int| 0 <= m < k && a.1[m].id == p.id;
                    assert(s[m] == a.1[m]);
                }
            } else {
                let kb = k - a.1.len();
                assert(s[k] == b.1[kb]);
                if a.0.contains(p.id.0) {
                    if !v.contains(p.id.0) {
                        assert(ids(a.1).contains(p.id.0));
                        let m = choose|m: int| 0 <= m < a.1.len() && #[trigger] a.1[m].id.0 == p.id.0;
                        assert(s[m] == a.1[m]);
                    }
                } else {
                    let m = choose|m: int| 0 <= m < kb && b.1[m].id == p.id;
                    assert(s[a.1.len() + m] == b.1[m]);
                }
            }
        }
        assert forall|k: int| 0 <= k < s.len() implies reach(#[trigger] s[k]).subset_of(
            reach_parents(ps, i),
        ) by {
            if k < a.1.len() {
                assert(s[k] == a.1[k]);
            } else {
                assert(s[k] == b.1[k - a.1.len()]);
            }
        }
    }
}

/// After the search of `ps[i..]`, the id of every `ps[j]`, `j >= i`, is visited.
proof fn lemma_dfs_parents_reaches<S, O: ?Sized>(ps: Seq<Tensor<S, O>>, i: int, v: Set<u64>, j: int)
    requires
        0 <= i <= j < ps.len(),
    ensures
        dfs_parents(ps, i, v).0.contains(ps[j].id.0),
    decreases ps.len() - i,
{
    let a = dfs(ps[i], v);
    lemma_dfs_visits(ps[i], v);
    lemma_dfs_parents_visits(ps, i + 1, a.0);
    if i == j {
        if !v.contains(ps[i].id.0) {
            lemma_dfs_lists_root(ps[i], v);
            assert(ids(a.1).contains(ps[i].id.0));
        }
    } else {
        lemma_dfs_parents_reaches(ps, i + 1, a.0, j);
    }
}

/// A search from an unvisited tensor lists that tensor last.
pub proof fn lemma_dfs_lists_root<S, O: ?Sized>(t: Tensor<S, O>, v: Set<u64>)
    requires
        !v.contains(t.id.0),
    ensures
        dfs(t, v).1.len() > 0,
        dfs(t, v).1.last() == t,
{
}

/// Backpropagation starts at the loss: the tensor the search began from is
/// first in the order.
pub proof fn lemma_backward_order_starts_at_loss<S, O: ?Sized>(t: Tensor<S, O>)
    ensures
        backward_order(t).len() > 0,
        backward_order(t)[0] == t,
{
    lemma_dfs_lists_root(t, Set::empty());
}

/// No tensor is listed twice by backpropagation: ids in the order are distinct.
pub proof fn lemma_backward_order_distinct<S, O: ?Sized>(t: Tensor<S, O>)
    ensures
        distinct_ids(backward_order(t)),
{
    lemma_dfs_visits(t, Set::empty());
    let d = dfs(t, Set::empty()).1;
    let o = backward_order(t);
    assert forall|a: int, b: int|
        0 <= a < o.len() && 0 <= b < o.len() && a != b implies #[trigger] o[a].id
        != #[trigger] o[b].id by {
        assert(o[a] == d[d.len() - 1 - a]);
        assert(o[b] == d[d.len() - 1 - b]);
    }
}

/// When no id reaches itself along the graph, backpropagation visits every
/// tensor before the inputs of the operation that produced it: the gradient of
/// a tensor is complete before it is pushed to its parents.
pub proof fn lemma_backward_order_children_first<S, O: ?Sized>(t: Tensor<S, O>)
    requires
        ids_acyclic(t),
    ensures
        parents_listed_after(backward_order(t)),
{
    lemma_dfs_post_order(t, Set::empty());
    let d = dfs(t, Set::empty()).1;
    let o = backward_order(t);
    let n = d.len();
    assert forall|k: int, j: int|
        #![trigger parents_of(o[k])[j]]
        0 <= k < o.len() && 0 <= j < parents_of(o[k]).len() implies exists|m: int|
        #![trigger o[m]]
        k < m < o.len() && o[m].id == parents_of(o[k])[j].id by {
        let kd = n - 1 - k;
        assert(o[k] == d[kd]);
        let p = parents_of(d[kd])[j];
        assert(!Set::<u64>::empty().contains(p.id.0));
        let md = choose|md: int| 0 <= md < kd && d[md].id == p.id;
        let m = n - 1 - md;
        assert(o[m] == d[md]);
        assert(k < m < o.len() && o[m].id == parents_of(o[k])[j].id);
    }
    assert(parents_listed_after(o));
}

/// The ids of the tensors of the graph that ends at `t`: `t` and, through the
/// operation that made it, everything its inputs reach.
pub open spec fn reach<S, O: ?Sized>(t: Tensor<S, O>) -> Set<u64>
    decreases t,
{
    match t.node {
        Some(n) => reach_parents(n.parents@, 0).insert(t.id.0),
        None => set![t.id.0],
    }
}

/// The ids reached from `ps[i..]`.
pub open spec fn reach_parents<S, O: ?Sized>(ps: Seq<Tensor<S, O>>, i: int) -> Set<u64>
    decreases ps, ps.len() - i,
{
    if 0 <= i < ps.len() {
        reach(ps[i]).union(reach_parents(ps, i + 1))
    } else {
        Set::empty()
    }
}

/// `x` is a tensor of the graph that ends at `t`.
pub open spec fn in_graph<S, O: ?Sized>(x: Tensor<S, O>, t: Tensor<S, O>) -> bool
    decreases t,
{
    x == t || match t.node {
        Some(n) => in_graph_parents(x, n.parents@, 0),
        None => false,
    }
}

/// `x` is a tensor of the graph of one of `ps[i..]`.
pub open spec fn in_graph_parents<S, O: ?Sized>(x: Tensor<S, O>, ps: Seq<Tensor<S, O>>, i: int) -> bool
    decreases ps, ps.len() - i,
{
    0 <= i < ps.len() && (in_graph(x, ps[i]) || in_graph_parents(x, ps, i + 1))
}

/// Ids name tensors consistently in the graph of `root`: two of its tensors
/// with one id reach the same ids.
pub open spec fn ids_consistent<S, O: ?Sized>(root: Tensor<S, O>) -> bool {
    forall|x: Tensor<S, O>, y: Tensor<S, O>|
        #![trigger in_graph(x, root), in_graph(y, root)]
        in_graph(x, root) && in_graph(y, root) && x.id == y.id ==> reach(x) == reach(y)
}

/// No id of `s` is in `gray`.
pub open spec fn avoids(s: Set<u64>, gray: Set<u64>) -> bool {
    forall|x: u64| #[trigger] s.contains(x) ==> !gray.contains(x)
}

/// Every tensor of the graph of `root` whose id is visited but not on the
/// search path (`gray`) has its whole graph visited.
pub open spec fn finished_outside<S, O: ?Sized>(root: Tensor<S, O>, v: Set<u64>, gray: Set<u64>) -> bool {
    forall|x: Tensor<S, O>|
        #[trigger] in_graph(x, root) && v.contains(x.id.0) && !gray.contains(x.id.0) ==> reach(
            x,
        ).subset_of(v)
}

/// Every tensor of the graph of `root` whose id became visited between `v`
/// and `w` has its whole graph visited in `w`.
pub open spec fn newly_finished<S, O: ?Sized>(root: Tensor<S, O>, v: Set<u64>, w: Set<u64>) -> bool {
    forall|x: Tensor<S, O>|
        #[trigger] in_graph(x, root) && w.contains(x.id.0) && !v.contains(x.id.0) ==> reach(
            x,
        ).subset_of(w)
}

proof fn lemma_in_graph_parents_elim<S, O: ?Sized>(
    x: Tensor<S, O>,
    ps: Seq<Tensor<S, O>>,
    i: int,
) -> (k: int)
    requires
        in_graph_parents(x, ps, i),
    ensures
        i <= k < ps.len(),
        in_graph(x, ps[k]),
    decreases ps.len() - i,
{
    if in_graph(x, ps[i]) {
        i
    } else {
        lemma_in_graph_parents_elim(x, ps, i + 1)
    }
}

proof fn lemma_in_graph_parents_intro<S, O: ?Sized>(
    x: Tensor<S, O>,
    ps: Seq<Tensor<S, O>>,
    i: int,
    k: int,
)
    requires
        0 <= i <= k < ps.len(),
        in_graph(x, ps[k]),
    ensures
        in_graph_parents(x, ps, i),
    decreases k - i,
{
    if i < k {
        lemma_in_graph_parents_intro(x, ps, i + 1, k);
    }
}

/// The inputs of a tensor of a graph are in the graph.
pub proof fn lemma_in_graph_parent<S, O: ?Sized>(x: Tensor<S, O>, root: Tensor<S, O>, j: int)
    requires
        in_graph(x, root),
        0 <= j < parents_of(x).len(),
    ensures
        in_graph(parents_of(x)[j], root),
    decreases root,
{
    let p = parents_of(x)[j];
    if x == root {
        let ps = parents_of(root);
        assert(in_graph(p, p));
        lemma_in_graph_parents_intro(p, ps, 0, j);
    } else {
        let ps = root.node->0.parents@;
        let k = lemma_in_graph_parents_elim(x, ps, 0);
        assert(decreases_to!(root => ps[k])) by {
            let nd = root.node->0;
            assert(decreases_to!(root => root.node));
            assert(decreases_to!(root.node => nd));
            assert(decreases_to!(nd => nd.parents));
            assert(decreases_to!(nd.parents => nd.parents@));
            assert(decreases_to!(nd.parents@ => nd.parents@[k]));
        }
        lemma_in_graph_parent(x, ps[k], j);
        lemma_in_graph_parents_intro(p, ps, 0, k);
    }
}

proof fn lemma_reach_parents_contains<S, O: ?Sized>(ps: Seq<Tensor<S, O>>, i: int, k: int)
    requires
        0 <= i <= k < ps.len(),
    ensures
        reach(ps[k]).subset_of(reach_parents(ps, i)),
    decreases k - i,
{
    if i < k {
        lemma_reach_parents_contains(ps, i + 1, k);
    }
}

/// Everything a search from `t` lists is reached from `t`.
pub proof fn lemma_dfs_within_reach<S, O: ?Sized>(t: Tensor<S, O>, v: Set<u64>)
    ensures
        ids(dfs(t, v).1).subset_of(reach(t)),
    decreases t,
{
    if !v.contains(t.id.0) {
        match t.node {
            Some(n) => {
                lemma_dfs_parents_within_reach(n.parents@, 0, v.insert(t.id.0));
                let r = dfs_parents(n.parents@, 0, v.insert(t.id.0));
                assert(r.1.push(t) =~= r.1 + seq![t]);
                lemma_ids_append(r.1, seq![t]);
                assert(ids(seq![t]) =~= set![t.id.0]) by {
                    assert(seq![t][0].id.0 == t.id.0);
                }
            },
            None => {
                assert(ids(seq![t]) =~= set![t.id.0]) by {
                    assert(seq![t][0].id.0 == t.id.0);
                }
            },
        }
    } else {
        assert(ids(Seq::<Tensor<S, O>>::empty()) =~= Set::<u64>::empty());
    }
}

/// Everything the search of `ps[i..]` lists is reached from `ps[i..]`.
pub proof fn lemma_dfs_parents_within_reach<S, O: ?Sized>(
    ps: Seq<Tensor<S, O>>,
    i: int,
    v: Set<u64>,
)
    ensures
        ids(dfs_parents(ps, i, v).1).subset_of(reach_parents(ps, i)),
    decreases ps, ps.len() - i,
{
    if 0 <= i < ps.len() {
        lemma_dfs_within_reach(ps[i], v);
        let a = dfs(ps[i], v);
        lemma_dfs_parents_within_reach(ps, i + 1, a.0);
        lemma_ids_append(a.1, dfs_parents(ps, i + 1, a.0).1);
    } else {
        assert(ids(Seq::<Tensor<S, O>>::empty()) =~= Set::<u64>::empty());
    }
}

/// A search from `t` visits everything `t` reaches, provided the ids on the
/// search path (`gray`) are not reached from `t` and every other visited
/// tensor of the graph was already finished; the tensors it newly visits are
/// finished when it returns.
pub proof fn lemma_dfs_complete<S, O: ?Sized>(
    root: Tensor<S, O>,
    t: Tensor<S, O>,
    v: Set<u64>,
    gray: Set<u64>,
)
    requires
        ids_consistent(root),
        in_graph(t, root),
        ids_acyclic(t),
        gray.subset_of(v),
        avoids(reach(t), gray),
        finished_outside(root, v, gray),
    ensures
        reach(t).subset_of(dfs(t, v).0),
        v.subset_of(dfs(t, v).0),
        newly_finished(root, v, dfs(t, v).0),
    decreases t,
{
    lemma_dfs_visits(t, v);
    lemma_reach_self(t);
    if v.contains(t.id.0) {
        assert(!gray.contains(t.id.0));
        assert(reach(t).subset_of(v));
    } else {
        let v1 = v.insert(t.id.0);
        let g1 = gray.insert(t.id.0);
        match t.node {
            Some(n) => {
                let ps = n.parents@;
                assert(parents_of(t) == ps);
                assert forall|j: int| 0 <= j < ps.len() implies in_graph(#[trigger] ps[j], root)
                    && ids_acyclic(ps[j]) && avoids(reach(ps[j]), g1) by {
                    lemma_in_graph_parent(t, root, j);
                    lemma_ids_acyclic_parents(ps, 0, j);
                    lemma_reach_parent(t, j);
                    assert forall|x: u64| #[trigger] reach(ps[j]).contains(x) implies !g1.contains(
                        x,
                    ) by {
                        assert(reach(t).contains(x));
                        assert(reach_parents(ps, 0).contains(x));
                    }
                }
                assert(finished_outside(root, v1, g1)) by {
                    assert forall|x: Tensor<S, O>|
                        #[trigger] in_graph(x, root) && v1.contains(x.id.0) && !g1.contains(
                            x.id.0,
                        ) implies reach(x).subset_of(v1) by {
                        assert(v.contains(x.id.0));
                    }
                }
                lemma_dfs_parents_complete(root, ps, 0, v1, g1);
                let r = dfs_parents(ps, 0, v1);
                assert(reach(t).subset_of(r.0));
                assert forall|x: Tensor<S, O>|
                    #[trigger] in_graph(x, root) && r.0.contains(x.id.0) && !v.contains(
                        x.id.0,
                    ) implies reach(x).subset_of(r.0) by {
                    if x.id.0 == t.id.0 {
                        assert(reach(x) == reach(t));
                    }
                }
            },
            None => {
                assert forall|x: Tensor<S, O>|
                    #[trigger] in_graph(x, root) && v1.contains(x.id.0) && !v.contains(
                        x.id.0,
                    ) implies reach(x).subset_of(v1) by {
                    assert(reach(x) == reach(t));
                }
            },
        }
    }
}

/// `lemma_dfs_complete` for the search of `ps[i..]`.
pub proof fn lemma_dfs_parents_complete<S, O: ?Sized>(
    root: Tensor<S, O>,
    ps: Seq<Tensor<S, O>>,
    i: int,
    v: Set<u64>,
    gray: Set<u64>,
)
    requires
        ids_consistent(root),
        forall|j: int|
            0 <= j < ps.len() ==> in_graph(#[trigger] ps[j], root) && ids_acyclic(ps[j]) && avoids(
                reach(ps[j]),
                gray,
            ),
        gray.subset_of(v),
        finished_outside(root, v, gray),
    ensures
        reach_parents(ps, i).subset_of(dfs_parents(ps, i, v).0),
        v.subset_of(dfs_parents(ps, i, v).0),
        newly_finished(root, v, dfs_parents(ps, i, v).0),
    decreases ps, ps.len() - i,
{
    lemma_dfs_parents_visits(ps, i, v);
    if 0 <= i < ps.len() {
        let p = ps[i];
        assert(in_graph(p, root) && ids_acyclic(p) && avoids(reach(p), gray));
        lemma_dfs_complete(root, p, v, gray);
        let a = dfs(p, v);
        assert(finished_outside(root, a.0, gray)) by {
            assert forall|x: Tensor<S, O>|
                #[trigger] in_graph(x, root) && a.0.contains(x.id.0) && !gray.contains(
                    x.id.0,
                ) implies reach(x).subset_of(a.0) by {
                if v.contains(x.id.0) {
                    assert(reach(x).subset_of(v));
                }
            }
        }
        lemma_dfs_parents_complete(root, ps, i + 1, a.0, gray);
        let b = dfs_parents(ps, i + 1, a.0);
        assert forall|x: Tensor<S, O>|
            #[trigger] in_graph(x, root) && b.0.contains(x.id.0) && !v.contains(
                x.id.0,
            ) implies reach(x).subset_of(b.0) by {
            if a.0.contains(x.id.0) {
                assert(reach(x).subset_of(a.0));
            }
        }
    }
}

/// Backpropagation reaches the whole graph: when no id reaches itself along
/// the graph and ids name its tensors consistently, the ids listed are
/// exactly those of the tensors the loss depends on.
pub proof fn lemma_backward_order_complete<S, O: ?Sized>(t: Tensor<S, O>)
    requires
        ids_acyclic(t),
        ids_consistent(t),
    ensures
        ids(backward_order(t)) == reach(t),
{
    let e = Set::<u64>::empty();
    assert(in_graph(t, t));
    lemma_dfs_complete(t, t, e, e);
    lemma_dfs_visits(t, e);
    lemma_dfs_within_reach(t, e);
    let d = dfs(t, e).1;
    let o = backward_order(t);
    assert(ids(o) =~= ids(d)) by {
        assert forall|x: u64| ids(o).contains(x) <==> ids(d).contains(x) by {
            if ids(o).contains(x) {
                let m = choose|m: int| 0 <= m < o.len() && #[trigger] o[m].id.0 == x;
                assert(d[d.len() - 1 - m].id.0 == x);
            }
            if ids(d).contains(x) {
                let m = choose|m: int| 0 <= m < d.len() && #[trigger] d[m].id.0 == x;
                assert(o[d.len() - 1 - m].id.0 == x);
            }
        }
    }
    assert(dfs(t, e).0 =~= ids(d));
    assert(ids(o) =~= reach(t));
}
} // verus!
