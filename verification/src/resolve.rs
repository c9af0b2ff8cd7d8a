//! Transitive resolution: propagates variable requirements and further
//! references along dependency edges until no node has a pending
//! dependency, rejecting unknown references and cycles. Whenever every
//! reference names a loaded entry and the reference graph is acyclic,
//! resolution succeeds.
use vstd::prelude::*;
use crate::graph::{BuildError, Node, find_node, graph_wf, node_names, same_identity};
use crate::names::{contains_name, distinct_names, name_set, remove_name, union_names};

verus! {

/// Every variable name any node of `ns` requires.
pub open spec fn all_vars(ns: Seq<Node>) -> Set<Seq<char>> {
    Set::new(|v: Seq<char>| exists|k: int| 0 <= k < ns.len() && ns[k].vars().contains(v))
}

/// A direct reference edge of the graph as built: the node named `a`
/// lists `b` as a dependency.
pub open spec fn edge(ns: Seq<Node>, a: Seq<char>, b: Seq<char>) -> bool {
    exists|i: int|
        0 <= i < ns.len() && (#[trigger] ns[i]).name@ == a && ns[i].deps().contains(b)
}

/// `b` can be reached from `a` along at most `k + 1` reference edges.
pub open spec fn reaches(ns: Seq<Node>, a: Seq<char>, b: Seq<char>, k: nat) -> bool
    decreases k,
{
    edge(ns, a, b) || (k > 0 && exists|m: Seq<char>|
        #[trigger] edge(ns, a, m) && reaches(ns, m, b, (k - 1) as nat))
}

/// `b` is reachable from `a` along reference edges.
pub open spec fn reachable(ns: Seq<Node>, a: Seq<char>, b: Seq<char>) -> bool {
    exists|k: nat| reaches(ns, a, b, k)
}

/// No entry can reach itself along reference edges.
pub open spec fn acyclic(ns: Seq<Node>) -> bool {
    forall|n: Seq<char>| !(#[trigger] reachable(ns, n, n))
}

/// Every dependency of the graph names a loaded entry.
pub open spec fn deps_known(ns: Seq<Node>) -> bool {
    forall|i: int, d: Seq<char>|
        0 <= i < ns.len() && #[trigger] ns[i].deps().contains(d) ==> exists|j: int|
            0 <= j < ns.len() && (#[trigger] ns[j]).name@ == d
}

/// Everything node `i` is owed after resolution: its own scanned
/// variables plus those of every entry it reaches along reference
/// edges.
pub open spec fn closure_vars(pre: Seq<Node>, i: int) -> Set<Seq<char>> {
    pre[i].vars().union(
        Set::new(
            |v: Seq<char>|
                exists|j: int|
                    0 <= j < pre.len() && #[trigger] pre[j].vars().contains(v) && reachable(
                        pre,
                        pre[i].name@,
                        pre[j].name@,
                    ),
        ),
    )
}

pub proof fn lemma_reaches_widen(ns: Seq<Node>, a: Seq<char>, b: Seq<char>, k1: nat, k2: nat)
    requires
        reaches(ns, a, b, k1),
        k1 <= k2,
    ensures
        reaches(ns, a, b, k2),
    decreases k1,
{
    if !edge(ns, a, b) {
        let m = choose|m: Seq<char>|
            #[trigger] edge(ns, a, m) && reaches(ns, m, b, (k1 - 1) as nat);
        lemma_reaches_widen(ns, m, b, (k1 - 1) as nat, (k2 - 1) as nat);
    }
}

pub proof fn lemma_reaches_trans(
    ns: Seq<Node>,
    a: Seq<char>,
    b: Seq<char>,
    c: Seq<char>,
    k1: nat,
    k2: nat,
)
    requires
        reaches(ns, a, b, k1),
        reaches(ns, b, c, k2),
    ensures
        reaches(ns, a, c, (k1 + k2 + 1) as nat),
    decreases k1,
{
    if edge(ns, a, b) {
        lemma_reaches_widen(ns, b, c, k2, (k1 + k2) as nat);
        assert(reaches(ns, a, c, (k1 + k2 + 1) as nat));
    } else {
        let m = choose|m: Seq<char>|
            #[trigger] edge(ns, a, m) && reaches(ns, m, b, (k1 - 1) as nat);
        lemma_reaches_trans(ns, m, b, c, (k1 - 1) as nat, k2);
        assert(reaches(ns, a, c, (k1 + k2 + 1) as nat));
    }
}

/// Whatever is reached is reached over a final edge.
pub proof fn lemma_reaches_last_edge(ns: Seq<Node>, a: Seq<char>, b: Seq<char>, k: nat)
    requires
        reaches(ns, a, b, k),
    ensures
        exists|x: Seq<char>| #[trigger] edge(ns, x, b),
    decreases k,
{
    if edge(ns, a, b) {
        assert(edge(ns, a, b));
    } else {
        let m = choose|m: Seq<char>|
            #[trigger] edge(ns, a, m) && reaches(ns, m, b, (k - 1) as nat);
        lemma_reaches_last_edge(ns, m, b, (k - 1) as nat);
    }
}

/// A reachable entry's closure is contained in the reacher's.
pub proof fn lemma_closure_step(pre: Seq<Node>, i: int, t: int)
    requires
        0 <= i < pre.len(),
        0 <= t < pre.len(),
        reachable(pre, pre[i].name@, pre[t].name@),
    ensures
        closure_vars(pre, t) <= closure_vars(pre, i),
{
    assert forall|v: Seq<char>| closure_vars(pre, t).contains(v) implies closure_vars(
        pre,
        i,
    ).contains(v) by {
        if pre[t].vars().contains(v) {
            assert(pre[t].vars().contains(v) && reachable(pre, pre[i].name@, pre[t].name@));
        } else {
            let j = choose|j: int|
                0 <= j < pre.len() && #[trigger] pre[j].vars().contains(v) && reachable(
                    pre,
                    pre[t].name@,
                    pre[j].name@,
                );
            let k1 = choose|k: nat| reaches(pre, pre[i].name@, pre[t].name@, k);
            let k2 = choose|k: nat| reaches(pre, pre[t].name@, pre[j].name@, k);
            lemma_reaches_trans(pre, pre[i].name@, pre[t].name@, pre[j].name@, k1, k2);
            assert(pre[j].vars().contains(v) && reachable(pre, pre[i].name@, pre[j].name@));
        }
    }
}

/// Resolution never adds, drops or renames nodes, and keeps them
/// well-formed.
pub open spec fn resolve_frame(pre: Seq<Node>, post: Seq<Node>) -> bool {
    &&& post.len() == pre.len()
    &&& forall|i: int| 0 <= i < pre.len() ==> same_identity(pre[i], #[trigger] post[i])
    &&& forall|i: int| 0 <= i < pre.len() ==> (#[trigger] post[i]).wf()
}

/// The node named `d` ended with its variables contained in node `i`'s.
pub open spec fn propagated(post: Seq<Node>, i: int, d: Seq<char>) -> bool {
    exists|j: int|
        0 <= j < post.len() && (#[trigger] post[j]).name@ == d && post[j].vars() <= post[i].vars()
}

/// What successful resolution guarantees, relative to the graph as
/// built: no dependency pending; variables only grew, and only by
/// variables some node required; a node with nothing to resolve is
/// untouched; and whatever a node referenced has passed its variables
/// on to it.
pub open spec fn resolved_ok(pre: Seq<Node>, post: Seq<Node>) -> bool {
    &&& post.len() == pre.len()
    &&& forall|i: int| 0 <= i < post.len() ==> (#[trigger] post[i]).deps() == Set::<Seq<char>>::empty()
    &&& forall|i: int| 0 <= i < pre.len() ==> (#[trigger] pre[i]).vars() <= post[i].vars()
    &&& forall|i: int| 0 <= i < post.len() ==> (#[trigger] post[i]).vars() <= all_vars(pre)
    &&& forall|i: int|
        0 <= i < pre.len() && (#[trigger] pre[i]).deps() == Set::<Seq<char>>::empty() ==> post[i]
            == pre[i]
    &&& forall|i: int, d: Seq<char>|
        0 <= i < pre.len() && #[trigger] pre[i].deps().contains(d) ==> propagated(post, i, d)
    &&& forall|i: int| 0 <= i < post.len() ==> (#[trigger] post[i]).vars() == closure_vars(pre, i)
}

/// What a failed resolution reports. An unknown dependency is a name
/// that some original reference chain leads to while no loaded entry
/// carries it, so the graph as built referenced an unloaded entry. A
/// cycle error names an entry that genuinely reaches itself along the
/// original reference edges.
pub open spec fn resolve_err(e: BuildError, pre: Seq<Node>, cur: Seq<Node>) -> bool {
    match e {
        BuildError::UnknownDependency(n) => !deps_known(pre) && (forall|j: int|
            0 <= j < cur.len() ==> (#[trigger] cur[j]).name@ != n@),
        BuildError::CyclicDependency(n) => reachable(pre, n@, n@),
        _ => false,
    }
}

/// Every dependency still pending is justified by original edges: its
/// owner's entry reaches it in the graph as built.
pub open spec fn deps_reachable(pre: Seq<Node>, cur: Seq<Node>) -> bool {
    forall|i: int, d: Seq<char>|
        0 <= i < cur.len() && #[trigger] cur[i].deps().contains(d) ==> reachable(
            pre,
            cur[i].name@,
            d,
        )
}

/// The node named `n` still lists a dependency that reaches back to
/// `n` along original edges.
pub open spec fn cycle_pending(pre: Seq<Node>, cur: Seq<Node>, n: Seq<char>) -> bool {
    exists|i: int, d: Seq<char>|
        0 <= i < cur.len() && cur[i].name@ == n && #[trigger] cur[i].deps().contains(d)
            && reachable(pre, d, n)
}

/// Every entry that lies on a cycle of the graph as built still has a
/// pending dependency leading back to it: a cycle can never drain
/// silently.
pub open spec fn cycles_guarded(pre: Seq<Node>, cur: Seq<Node>) -> bool {
    forall|n: Seq<char>| #[trigger] reachable(pre, n, n) ==> cycle_pending(pre, cur, n)
}

/// At the start, every cycle member's first cycle edge is pending.
proof fn lemma_guard_init(pre: Seq<Node>)
    ensures
        cycles_guarded(pre, pre),
{
    assert forall|n: Seq<char>| #[trigger] reachable(pre, n, n) implies cycle_pending(
        pre,
        pre,
        n,
    ) by {
        let k = choose|k: nat| reaches(pre, n, n, k);
        if edge(pre, n, n) {
            let i = choose|i: int|
                0 <= i < pre.len() && (#[trigger] pre[i]).name@ == n && pre[i].deps().contains(n);
            assert(reaches(pre, n, n, k));
            assert(pre[i].deps().contains(n) && reachable(pre, n, n));
        } else {
            let m = choose|m: Seq<char>|
                #[trigger] edge(pre, n, m) && reaches(pre, m, n, (k - 1) as nat);
            let i = choose|i: int|
                0 <= i < pre.len() && (#[trigger] pre[i]).name@ == n && pre[i].deps().contains(m);
            assert(pre[i].deps().contains(m) && reachable(pre, m, n));
        }
    }
}

/// With every dependency drained and every cycle guarded, the graph as
/// built was acyclic.
proof fn lemma_guard_empty(pre: Seq<Node>, cur: Seq<Node>)
    requires
        cycles_guarded(pre, cur),
        forall|i: int| 0 <= i < cur.len() ==> (#[trigger] cur[i]).deps() == Set::<Seq<char>>::empty(),
    ensures
        acyclic(pre),
{
    assert forall|n: Seq<char>| !(#[trigger] reachable(pre, n, n)) by {
        if reachable(pre, n, n) {
            assert(cycle_pending(pre, cur, n));
            let (i, d) = choose|i: int, d: Seq<char>|
                0 <= i < cur.len() && cur[i].name@ == n && #[trigger] cur[i].deps().contains(d)
                    && reachable(pre, d, n);
            assert(false);
        }
    }
}

/// One sweep keeps every cycle guarded: when the pending dependency it
/// discharges led back to a cycle member, the swept entry itself lies
/// on that cycle, so the dependency that guards the swept entry is
/// folded into the member and keeps guarding it.
proof fn lemma_guard_sweep(
    pre: Seq<Node>,
    sp: Seq<Node>,
    cur: Seq<Node>,
    idx: int,
    dd: Seq<char>,
    vs: Set<Seq<char>>,
    ds: Set<Seq<char>>,
)
    requires
        cycles_guarded(pre, sp),
        deps_reachable(pre, sp),
        graph_wf(sp),
        cur.len() == sp.len(),
        0 <= idx < sp.len(),
        vs == sp[idx].vars(),
        ds == sp[idx].deps(),
        !sp[idx].deps().contains(dd),
        sp[idx].name@ == dd,
        forall|m: int| 0 <= m < sp.len() ==> swept(sp, cur, m, dd, vs, ds),
    ensures
        cycles_guarded(pre, cur),
{
    assert forall|n: Seq<char>| #[trigger] reachable(pre, n, n) implies cycle_pending(
        pre,
        cur,
        n,
    ) by {
        assert(cycle_pending(pre, sp, n));
        let (i, d) = choose|i: int, d: Seq<char>|
            0 <= i < sp.len() && sp[i].name@ == n && #[trigger] sp[i].deps().contains(d)
                && reachable(pre, d, n);
        assert(swept(sp, cur, i, dd, vs, ds));
        if d != dd {
            if sp[i].deps().contains(dd) {
                assert(cur[i].deps() == sp[i].deps().remove(dd).union(ds));
                assert(cur[i].deps().contains(d));
                assert(same_identity(sp[i], cur[i]));
            } else {
                assert(cur[i] == sp[i]);
            }
            assert(cur[i].name@ == n && cur[i].deps().contains(d) && reachable(pre, d, n));
        } else {
            // the discharged dependency led back to `n`, so the swept
            // entry lies on a cycle through `n`
            assert(sp[i].deps().contains(dd));
            assert(reachable(pre, n, dd));
            let ka = choose|k: nat| reaches(pre, dd, n, k);
            let kb = choose|k: nat| reaches(pre, n, dd, k);
            lemma_reaches_trans(pre, dd, n, dd, ka, kb);
            assert(reachable(pre, dd, dd));
            assert(cycle_pending(pre, sp, dd));
            let (i2, d2) = choose|i2: int, d2: Seq<char>|
                0 <= i2 < sp.len() && sp[i2].name@ == dd && #[trigger] sp[i2].deps().contains(d2)
                    && reachable(pre, d2, dd);
            if i2 != idx {
                assert(node_names(sp)[i2] == sp[i2].name@);
                assert(node_names(sp)[idx] == sp[idx].name@);
                if i2 < idx {
                    assert(node_names(sp)[i2] != node_names(sp)[idx]);
                } else {
                    assert(node_names(sp)[idx] != node_names(sp)[i2]);
                }
                assert(false);
            }
            assert(ds.contains(d2));
            assert(cur[i].deps() == sp[i].deps().remove(dd).union(ds));
            assert(cur[i].deps().contains(d2));
            assert(same_identity(sp[i], cur[i]));
            let kc = choose|k: nat| reaches(pre, d2, dd, k);
            lemma_reaches_trans(pre, d2, dd, n, kc, ka);
            assert(reachable(pre, d2, n));
            assert(cur[i].name@ == n && cur[i].deps().contains(d2) && reachable(pre, d2, n));
        }
    }
}

/// The resolver's loop invariant: the frame, growth bounded by the
/// original variables, untouched dependency-free nodes, every pending
/// dependency justified by original edges, and for every original edge
/// either the dependency is still pending or its target has already
/// folded both of its sets into the owner.
pub open spec fn resolve_inv(pre: Seq<Node>, cur: Seq<Node>) -> bool {
    &&& resolve_frame(pre, cur)
    &&& forall|i: int| 0 <= i < pre.len() ==> (#[trigger] pre[i]).vars() <= cur[i].vars()
    &&& forall|i: int| 0 <= i < cur.len() ==> (#[trigger] cur[i]).vars() <= all_vars(pre)
    &&& forall|i: int|
        0 <= i < pre.len() && (#[trigger] pre[i]).deps() == Set::<Seq<char>>::empty() ==> cur[i]
            == pre[i]
    &&& deps_reachable(pre, cur)
    &&& forall|i: int| 0 <= i < cur.len() ==> (#[trigger] cur[i]).vars() <= closure_vars(pre, i)
    &&& forall|i: int, d: Seq<char>|
        0 <= i < pre.len() && #[trigger] pre[i].deps().contains(d) ==> edge_state(cur, i, d)
}

/// An original edge is either still pending or already absorbed.
pub open spec fn edge_state(cur: Seq<Node>, i: int, d: Seq<char>) -> bool {
    cur[i].deps().contains(d) || (exists|j: int|
        0 <= j < cur.len() && (#[trigger] cur[j]).name@ == d && cur[j].vars() <= cur[i].vars()
            && cur[j].deps() <= cur[i].deps())
}

/// What one sweep for the dependency `d` does to node `m`: a node that
/// listed `d` drops it and gains the target's variables `vs` and
/// remaining dependencies `ds`; every other node is untouched.
pub open spec fn swept(
    pre: Seq<Node>,
    cur: Seq<Node>,
    m: int,
    d: Seq<char>,
    vs: Set<Seq<char>>,
    ds: Set<Seq<char>>,
) -> bool {
    if pre[m].deps().contains(d) {
        &&& same_identity(pre[m], cur[m])
        &&& cur[m].wf()
        &&& cur[m].vars() == pre[m].vars().union(vs)
        &&& cur[m].deps() == pre[m].deps().remove(d).union(ds)
    } else {
        cur[m] == pre[m]
    }
}

/// The name no longer occurs in any dependency set.
pub open spec fn name_swept(cur: Seq<Node>, n: Seq<char>) -> bool {
    forall|i: int| 0 <= i < cur.len() ==> !(#[trigger] cur[i]).deps().contains(n)
}

/// Some node's first pending dependency, or nothing when every
/// dependency set is empty.
fn find_pending(nodes: &Vec<Node>) -> (r: Option<String>)
    ensures
        match r {
            Some(d) => exists|i: int|
                0 <= i < nodes@.len() && (#[trigger] nodes@[i]).deps().contains(d@),
            None => forall|i: int|
                0 <= i < nodes@.len() ==> (#[trigger] nodes@[i]).deps() == Set::<Seq<char>>::empty(),
        },
{
    let mut i: usize = 0;
    while i < nodes.len()
        invariant
            i <= nodes@.len(),
            forall|j: int|
                0 <= j < i ==> (#[trigger] nodes@[j]).deps() == Set::<Seq<char>>::empty(),
        decreases nodes@.len() - i,
    {
        if nodes[i].dependencies.len() > 0 {
            let d = nodes[i].dependencies[0].clone();
            proof {
                assert(nodes@[i as int].deps().contains(d@));
            }
            return Some(d);
        }
        proof {
            assert(nodes@[i as int].deps() =~= Set::<Seq<char>>::empty());
        }
        i = i + 1;
    }
    None
}

/// A fresh vector spelling the same names.
fn clone_names(v: &Vec<String>) -> (r: Vec<String>)
    ensures
        r@ == v@,
{
    let mut out: Vec<String> = Vec::new();
    let mut i: usize = 0;
    while i < v.len()
        invariant
            i <= v@.len(),
            out@ == v@.take(i as int),
        decreases v@.len() - i,
    {
        out.push(v[i].clone());
        proof {
            assert(out@ =~= v@.take(i + 1));
        }
        i = i + 1;
    }
    proof {
        assert(v@.take(v@.len() as int) =~= v@);
    }
    out
}

/// A pending name that no node carries shows the built graph
/// referenced an unloaded entry.
proof fn lemma_unknown_pending(pre: Seq<Node>, cur: Seq<Node>, n: Seq<char>)
    requires
        deps_reachable(pre, cur),
        node_names(cur) == node_names(pre),
        cur.len() == pre.len(),
        exists|i: int| 0 <= i < cur.len() && (#[trigger] cur[i]).deps().contains(n),
        forall|j: int| 0 <= j < cur.len() ==> (#[trigger] cur[j]).name@ != n,
    ensures
        !deps_known(pre),
{
    let w = choose|i: int| 0 <= i < cur.len() && (#[trigger] cur[i]).deps().contains(n);
    assert(cur[w].deps().contains(n));
    assert(reachable(pre, cur[w].name@, n));
    let k = choose|k: nat| reaches(pre, cur[w].name@, n, k);
    lemma_reaches_last_edge(pre, cur[w].name@, n, k);
    let x = choose|x: Seq<char>| #[trigger] edge(pre, x, n);
    let i = choose|i: int|
        0 <= i < pre.len() && (#[trigger] pre[i]).name@ == x && pre[i].deps().contains(n);
    if deps_known(pre) {
        assert(pre[i].deps().contains(n));
        let j = choose|j: int| 0 <= j < pre.len() && (#[trigger] pre[j]).name@ == n;
        assert(node_names(cur)[j] == node_names(pre)[j]);
        assert(node_names(cur)[j] == cur[j].name@);
        assert(node_names(pre)[j] == pre[j].name@);
        assert(cur[j].name@ == n);
        assert(false);
    }
}

/// Resolves the graph to a fixed point: repeatedly picks any pending
/// dependency, checks that its entry exists and that resolving it does
/// not close a cycle, and folds its variables and remaining
/// dependencies into every node that listed it. When every reference
/// names a loaded entry and the reference graph is acyclic, the result
/// is always a success, and each entry ends with exactly its own
/// variables and those of every entry it reaches — so the order in
/// which pending dependencies are picked cannot affect the outcome
/// (`lemma_resolution_deterministic`).
pub fn resolve(nodes: &mut Vec<Node>) -> (r: Result<(), BuildError>)
    requires
        graph_wf(old(nodes)@),
    ensures
        resolve_frame(old(nodes)@, final(nodes)@),
        graph_wf(final(nodes)@),
        match r {
            Ok(_) => resolved_ok(old(nodes)@, final(nodes)@),
            Err(e) => resolve_err(e, old(nodes)@, final(nodes)@),
        },
        deps_known(old(nodes)@) && acyclic(old(nodes)@) ==> r is Ok,
        r is Ok ==> acyclic(old(nodes)@),
{
    let ghost pre = old(nodes)@;
    proof {
        assert forall|i: int, d: Seq<char>|
            0 <= i < pre.len() && #[trigger] pre[i].deps().contains(d) implies edge_state(
            pre,
            i,
            d,
        ) by {}
        assert forall|i: int| 0 <= i < pre.len() implies (#[trigger] pre[i]).vars() <= all_vars(
            pre,
        ) by {
            assert forall|v: Seq<char>| pre[i].vars().contains(v) implies all_vars(pre).contains(
                v,
            ) by {
                assert(0 <= i < pre.len() && pre[i].vars().contains(v));
            }
        }
        assert forall|i: int, d: Seq<char>|
            0 <= i < pre.len() && #[trigger] pre[i].deps().contains(d) implies reachable(
            pre,
            pre[i].name@,
            d,
        ) by {
            assert(edge(pre, pre[i].name@, d));
            assert(reaches(pre, pre[i].name@, d, 0));
        }
        lemma_guard_init(pre);
        assert forall|i: int| 0 <= i < pre.len() implies (#[trigger] pre[i]).vars()
            <= closure_vars(pre, i) by {
            assert forall|v: Seq<char>| pre[i].vars().contains(v) implies closure_vars(
                pre,
                i,
            ).contains(v) by {}
        }
    }
    // Each sweep removes one entry's name from every dependency set for
    // good, so as many sweeps as there are nodes always reach the fixed
    // point: after that many, every entry name has been swept and only
    // a name that no entry carries could still be pending.
    let ghost mut swept_ids: Set<int> = Set::empty();
    let mut fuel = nodes.len();
    while fuel > 0
        invariant
            pre == old(nodes)@,
            resolve_inv(pre, nodes@),
            graph_wf(nodes@),
            distinct_seqs_names_eq(pre, nodes@),
            cycles_guarded(pre, nodes@),
            swept_ids.finite(),
            swept_ids.len() + fuel == pre.len(),
            forall|t: int| #[trigger] swept_ids.contains(t) ==> 0 <= t < pre.len(),
            forall|t: int|
                #[trigger] swept_ids.contains(t) ==> name_swept(nodes@, pre[t].name@),
        decreases fuel,
    {
        let pending = find_pending(nodes);
        let todo = match pending {
            None => {
                proof {
                    finish_resolved(pre, nodes@);
                    lemma_guard_empty(pre, nodes@);
                }
                return Ok(());
            },
            Some(todo) => todo,
        };
        let idx = match find_node(nodes, &todo) {
            None => {
                proof {
                    lemma_unknown_pending(pre, nodes@, todo@);
                    let ghost reported = BuildError::UnknownDependency(todo);
                    assert(reported matches BuildError::UnknownDependency(m) && m@ == todo@);
                    assert(resolve_err(reported, pre, nodes@));
                }
                return Err(BuildError::UnknownDependency(todo));
            },
            Some(idx) => idx,
        };
        if contains_name(&nodes[idx].dependencies, &todo) {
            proof {
                assert(nodes@[idx as int].deps().contains(todo@));
                assert(reachable(pre, nodes@[idx as int].name@, todo@));
                assert(nodes@[idx as int].name@ == todo@);
                let ghost reported = BuildError::CyclicDependency(todo);
                assert(reported matches BuildError::CyclicDependency(m) && m@ == todo@);
                assert(resolve_err(reported, pre, nodes@));
            }
            return Err(BuildError::CyclicDependency(todo));
        }
        let variables = clone_names(&nodes[idx].variables);
        let dependencies = clone_names(&nodes[idx].dependencies);
        let ghost sweep_pre = nodes@;
        let ghost dd = todo@;
        let ghost vs = name_set(variables@);
        let ghost ds = name_set(dependencies@);
        proof {
            // the swept entry cannot have been swept before: its name
            // is pending right now
            assert(same_identity(pre[idx as int], sweep_pre[idx as int]));
            assert(pre[idx as int].name@ == dd);
            if swept_ids.contains(idx as int) {
                assert(name_swept(sweep_pre, dd));
                let w = choose|i: int|
                    0 <= i < sweep_pre.len() && (#[trigger] sweep_pre[i]).deps().contains(dd);
                assert(false);
            }
        }
        let mut j: usize = 0;
        while j < nodes.len()
            invariant
                j <= nodes@.len(),
                nodes@.len() == sweep_pre.len(),
                idx < sweep_pre.len(),
                dd == todo@,
                vs == name_set(variables@),
                ds == name_set(dependencies@),
                distinct_names(variables@),
                distinct_names(dependencies@),
                vs == sweep_pre[idx as int].vars(),
                ds == sweep_pre[idx as int].deps(),
                !sweep_pre[idx as int].deps().contains(dd),
                sweep_pre[idx as int].name@ == dd,
                forall|m: int| 0 <= m < sweep_pre.len() ==> (#[trigger] sweep_pre[m]).wf(),
                forall|m: int| j <= m < sweep_pre.len() ==> nodes@[m] == sweep_pre[m],
                forall|m: int| 0 <= m < j ==> swept(sweep_pre, nodes@, m, dd, vs, ds),
            decreases nodes@.len() - j,
        {
            let ghost iter_pre = nodes@;
            proof {
                assert(nodes@[j as int] == sweep_pre[j as int]);
                assert(sweep_pre[j as int].wf());
            }
            let has = contains_name(&nodes[j].dependencies, &todo);
            if has {
                let ghost before_j = nodes@[j as int];
                remove_name(&mut nodes[j].dependencies, &todo);
                proof {
                    assert(nodes@[j as int].deps() == before_j.deps().remove(dd));
                    assert(nodes@[j as int].variables == before_j.variables);
                }
                let ghost mid1_j = nodes@[j as int];
                union_names(&mut nodes[j].variables, &variables);
                proof {
                    assert(nodes@[j as int].vars() == mid1_j.vars().union(vs));
                    assert(nodes@[j as int].dependencies == mid1_j.dependencies);
                }
                let ghost mid2_j = nodes@[j as int];
                union_names(&mut nodes[j].dependencies, &dependencies);
                proof {
                    assert(nodes@[j as int].deps() == mid2_j.deps().union(ds));
                    assert(nodes@[j as int].vars() =~= sweep_pre[j as int].vars().union(vs));
                    assert(nodes@[j as int].deps() =~= sweep_pre[j as int].deps().remove(
                        dd,
                    ).union(ds));
                    assert(swept(sweep_pre, nodes@, j as int, dd, vs, ds));
                }
            } else {
                proof {
                    assert(swept(sweep_pre, nodes@, j as int, dd, vs, ds));
                }
            }
            proof {
                assert forall|m: int| 0 <= m < j + 1 implies swept(
                    sweep_pre,
                    nodes@,
                    m,
                    dd,
                    vs,
                    ds,
                ) by {
                    if m < j {
                        assert(swept(sweep_pre, iter_pre, m, dd, vs, ds));
                        assert(nodes@[m] == iter_pre[m]);
                    }
                }
            }
            j = j + 1;
        }
        proof {
            restore_inv(pre, sweep_pre, nodes@, idx as int, dd, vs, ds);
            lemma_guard_sweep(pre, sweep_pre, nodes@, idx as int, dd, vs, ds);
            // the swept name is gone from every dependency set, and the
            // names swept earlier stay gone
            assert forall|i: int| 0 <= i < nodes@.len() implies !(
            #[trigger] nodes@[i]).deps().contains(dd) by {
                assert(swept(sweep_pre, nodes@, i, dd, vs, ds));
            }
            assert forall|t: int| #[trigger] swept_ids.contains(t) implies name_swept(
                nodes@,
                pre[t].name@,
            ) by {
                assert(name_swept(sweep_pre, pre[t].name@));
                assert forall|i: int| 0 <= i < nodes@.len() implies !(
                #[trigger] nodes@[i]).deps().contains(pre[t].name@) by {
                    assert(swept(sweep_pre, nodes@, i, dd, vs, ds));
                    assert(!sweep_pre[i].deps().contains(pre[t].name@));
                    assert(!sweep_pre[idx as int].deps().contains(pre[t].name@));
                }
            }
            swept_ids = swept_ids.insert(idx as int);
            assert(name_swept(nodes@, pre[idx as int].name@));
        }
        fuel = fuel - 1;
    }
    match find_pending(nodes) {
        None => {
            proof {
                finish_resolved(pre, nodes@);
                lemma_guard_empty(pre, nodes@);
            }
            Ok(())
        },
        Some(todo) => {
            match find_node(nodes, &todo) {
                None => {
                    proof {
                        lemma_unknown_pending(pre, nodes@, todo@);
                        let ghost reported = BuildError::UnknownDependency(todo);
                        assert(reported matches BuildError::UnknownDependency(m) && m@ == todo@);
                        assert(resolve_err(reported, pre, nodes@));
                    }
                    Err(BuildError::UnknownDependency(todo))
                },
                Some(found) => {
                    // every entry name has been swept by now, so a
                    // pending name cannot belong to any node
                    proof {
                        let all = vstd::set_lib::set_int_range(0, pre.len() as int);
                        vstd::set_lib::lemma_int_range(0, pre.len() as int);
                        if !swept_ids.contains(found as int) {
                            assert(swept_ids.subset_of(all.remove(found as int)));
                            vstd::set_lib::lemma_len_subset(
                                swept_ids,
                                all.remove(found as int),
                            );
                            assert(false);
                        }
                        assert(name_swept(nodes@, pre[found as int].name@));
                        assert(same_identity(pre[found as int], nodes@[found as int]));
                        assert(pre[found as int].name@ == todo@);
                        let w = choose|i: int|
                            0 <= i < nodes@.len() && (#[trigger] nodes@[i]).deps().contains(
                                todo@,
                            );
                        assert(false);
                    }
                    unreached()
                },
            }
        },
    }
}

/// Resolution keeps every node's name, so the names stay distinct.
pub open spec fn distinct_seqs_names_eq(pre: Seq<Node>, cur: Seq<Node>) -> bool {
    node_names(cur) == node_names(pre)
}

/// With every dependency drained, an entry's variables cover every
/// entry it reaches: the witness of each discharged original edge
/// carries its target's final variables into the owner, step by step
/// along the reference path.
proof fn lemma_finish_lower(pre: Seq<Node>, cur: Seq<Node>, i: int, j: int, k: nat)
    requires
        resolve_inv(pre, cur),
        graph_wf(cur),
        node_names(cur) == node_names(pre),
        forall|t: int| 0 <= t < cur.len() ==> (#[trigger] cur[t]).deps() == Set::<Seq<char>>::empty(),
        0 <= i < pre.len(),
        0 <= j < pre.len(),
        reaches(pre, pre[i].name@, pre[j].name@, k),
    ensures
        cur[j].vars() <= cur[i].vars(),
    decreases k,
{
    assert forall|a: int| 0 <= a < pre.len() implies (#[trigger] node_names(pre)[a]) == pre[
        a
    ].name@ && node_names(cur)[a] == cur[a].name@ by {}
    if edge(pre, pre[i].name@, pre[j].name@) {
        let x = choose|x: int|
            0 <= x < pre.len() && (#[trigger] pre[x]).name@ == pre[i].name@
                && pre[x].deps().contains(pre[j].name@);
        if x != i {
            assert(node_names(pre)[x] != node_names(pre)[i] || x == i) by {
                if x < i {
                    assert(node_names(cur)[x] != node_names(cur)[i]);
                } else {
                    assert(node_names(cur)[i] != node_names(cur)[x]);
                }
            }
            assert(false);
        }
        assert(edge_state(cur, i, pre[j].name@));
        assert(!cur[i].deps().contains(pre[j].name@));
        let w = choose|w: int|
            0 <= w < cur.len() && (#[trigger] cur[w]).name@ == pre[j].name@ && cur[w].vars()
                <= cur[i].vars() && cur[w].deps() <= cur[i].deps();
        if w != j {
            if w < j {
                assert(node_names(cur)[w] != node_names(cur)[j]);
            } else {
                assert(node_names(cur)[j] != node_names(cur)[w]);
            }
            assert(cur[j].name@ == pre[j].name@);
            assert(false);
        }
    } else {
        let m = choose|m: Seq<char>|
            #[trigger] edge(pre, pre[i].name@, m) && reaches(pre, m, pre[j].name@, (k - 1) as nat);
        let x = choose|x: int|
            0 <= x < pre.len() && (#[trigger] pre[x]).name@ == pre[i].name@
                && pre[x].deps().contains(m);
        if x != i {
            if x < i {
                assert(node_names(cur)[x] != node_names(cur)[i]);
            } else {
                assert(node_names(cur)[i] != node_names(cur)[x]);
            }
            assert(false);
        }
        assert(edge_state(cur, i, m));
        assert(!cur[i].deps().contains(m));
        let w = choose|w: int|
            0 <= w < cur.len() && (#[trigger] cur[w]).name@ == m && cur[w].vars() <= cur[i].vars()
                && cur[w].deps() <= cur[i].deps();
        assert(pre[w].name@ == m);
        lemma_finish_lower(pre, cur, w, j, (k - 1) as nat);
    }
}

/// With the invariant holding and no dependency pending, the graph is
/// resolved: each entry's final variables are exactly its closure.
proof fn finish_resolved(pre: Seq<Node>, cur: Seq<Node>)
    requires
        resolve_inv(pre, cur),
        graph_wf(cur),
        node_names(cur) == node_names(pre),
        forall|i: int| 0 <= i < cur.len() ==> (#[trigger] cur[i]).deps() == Set::<Seq<char>>::empty(),
    ensures
        resolved_ok(pre, cur),
{
    assert forall|i: int, d: Seq<char>|
        0 <= i < pre.len() && #[trigger] pre[i].deps().contains(d) implies propagated(
        cur,
        i,
        d,
    ) by {
        assert(edge_state(cur, i, d));
        assert(!cur[i].deps().contains(d));
    }
    assert forall|i: int| 0 <= i < cur.len() implies (#[trigger] cur[i]).vars() == closure_vars(
        pre,
        i,
    ) by {
        assert(cur[i].vars() <= closure_vars(pre, i));
        assert forall|v: Seq<char>| closure_vars(pre, i).contains(v) implies cur[i].vars().contains(
            v,
        ) by {
            if pre[i].vars().contains(v) {
                assert(pre[i].vars() <= cur[i].vars());
            } else {
                let j = choose|j: int|
                    0 <= j < pre.len() && #[trigger] pre[j].vars().contains(v) && reachable(
                        pre,
                        pre[i].name@,
                        pre[j].name@,
                    );
                let k = choose|k: nat| reaches(pre, pre[i].name@, pre[j].name@, k);
                lemma_finish_lower(pre, cur, i, j, k);
                assert(pre[j].vars() <= cur[j].vars());
            }
        }
        assert(cur[i].vars() =~= closure_vars(pre, i));
    }
}

/// One sweep preserves the resolver's invariant.
proof fn restore_inv(
    pre: Seq<Node>,
    sp: Seq<Node>,
    cur: Seq<Node>,
    idx: int,
    dd: Seq<char>,
    vs: Set<Seq<char>>,
    ds: Set<Seq<char>>,
)
    requires
        resolve_inv(pre, sp),
        graph_wf(sp),
        distinct_seqs_names_eq(pre, sp),
        cur.len() == sp.len(),
        0 <= idx < sp.len(),
        vs == sp[idx].vars(),
        ds == sp[idx].deps(),
        !sp[idx].deps().contains(dd),
        sp[idx].name@ == dd,
        forall|m: int| 0 <= m < sp.len() ==> swept(sp, cur, m, dd, vs, ds),
    ensures
        resolve_inv(pre, cur),
        graph_wf(cur),
        distinct_seqs_names_eq(pre, cur),
{
    assert(swept(sp, cur, idx, dd, vs, ds));
    assert(cur[idx] == sp[idx]);
    assert forall|m: int| 0 <= m < sp.len() implies same_identity(sp[m], #[trigger] cur[m])
        && cur[m].wf() by {
        assert(swept(sp, cur, m, dd, vs, ds));
    }
    assert(node_names(cur) =~= node_names(sp));
    assert forall|i: int| 0 <= i < pre.len() implies (#[trigger] pre[i]).vars()
        <= cur[i].vars() by {
        assert(swept(sp, cur, i, dd, vs, ds));
        assert(pre[i].vars() <= sp[i].vars());
    }
    assert forall|i: int| 0 <= i < cur.len() implies (#[trigger] cur[i]).vars() <= all_vars(
        pre,
    ) by {
        assert(swept(sp, cur, i, dd, vs, ds));
        assert(sp[i].vars() <= all_vars(pre));
        assert(sp[idx].vars() <= all_vars(pre));
    }
    assert forall|i: int|
        0 <= i < pre.len() && (#[trigger] pre[i]).deps() == Set::<Seq<char>>::empty() implies cur[i]
        == pre[i] by {
        assert(swept(sp, cur, i, dd, vs, ds));
        assert(sp[i] == pre[i]);
    }
    assert forall|i: int| 0 <= i < cur.len() implies (#[trigger] cur[i]).vars() <= closure_vars(
        pre,
        i,
    ) by {
        assert(swept(sp, cur, i, dd, vs, ds));
        if sp[i].deps().contains(dd) {
            assert(sp[i].vars() <= closure_vars(pre, i));
            assert(sp[idx].vars() <= closure_vars(pre, idx));
            assert(reachable(pre, sp[i].name@, dd));
            assert(same_identity(pre[i], sp[i]));
            assert(same_identity(pre[idx], sp[idx]));
            assert(pre[i].name@ == sp[i].name@);
            assert(pre[idx].name@ == dd);
            assert(reachable(pre, pre[i].name@, pre[idx].name@));
            lemma_closure_step(pre, i, idx);
            assert(cur[i].vars() == sp[i].vars().union(vs));
        } else {
            assert(cur[i] == sp[i]);
        }
    }
    assert forall|i: int, d: Seq<char>|
        0 <= i < cur.len() && #[trigger] cur[i].deps().contains(d) implies reachable(
        pre,
        cur[i].name@,
        d,
    ) by {
        assert(swept(sp, cur, i, dd, vs, ds));
        if sp[i].deps().contains(dd) {
            assert(cur[i].deps() == sp[i].deps().remove(dd).union(ds));
            assert(same_identity(sp[i], cur[i]));
            if sp[i].deps().contains(d) {
                assert(reachable(pre, sp[i].name@, d));
            } else {
                assert(ds.contains(d));
                assert(sp[idx].deps().contains(d));
                assert(reachable(pre, dd, d));
                assert(reachable(pre, sp[i].name@, dd));
                let k1 = choose|k: nat| reaches(pre, sp[i].name@, dd, k);
                let k2 = choose|k: nat| reaches(pre, dd, d, k);
                lemma_reaches_trans(pre, sp[i].name@, dd, d, k1, k2);
                assert(reaches(pre, sp[i].name@, d, (k1 + k2 + 1) as nat));
            }
        } else {
            assert(cur[i] == sp[i]);
            assert(reachable(pre, sp[i].name@, d));
        }
    }
    assert forall|i: int, d: Seq<char>|
        0 <= i < pre.len() && #[trigger] pre[i].deps().contains(d) implies edge_state(
        cur,
        i,
        d,
    ) by {
        assert(swept(sp, cur, i, dd, vs, ds));
        assert(edge_state(sp, i, d));
        if sp[i].deps().contains(d) {
            if sp[i].deps().contains(dd) && d == dd {
                // the swept edge itself: its target `idx` was folded in
                assert(cur[idx] == sp[idx]);
                assert(cur[i].vars() == sp[i].vars().union(vs));
                assert(cur[i].deps() == sp[i].deps().remove(dd).union(ds));
                assert(cur[idx].vars() <= cur[i].vars());
                assert(cur[idx].deps() <= cur[i].deps());
            } else {
                // the edge is still pending
                assert(cur[i].deps().contains(d));
            }
        } else {
            // already absorbed through some witness, which the sweep
            // kept in step with its owner
            let j = choose|j: int|
                0 <= j < sp.len() && (#[trigger] sp[j]).name@ == d && sp[j].vars() <= sp[i].vars()
                    && sp[j].deps() <= sp[i].deps();
            assert(swept(sp, cur, j, dd, vs, ds));
            if sp[j].deps().contains(dd) {
                assert(sp[i].deps().contains(dd));
                assert(cur[j].vars() <= cur[i].vars());
                assert(cur[j].deps() <= cur[i].deps());
            } else {
                assert(cur[j] == sp[j]);
                if sp[i].deps().contains(dd) {
                    assert(cur[i].vars() == sp[i].vars().union(vs));
                    assert(cur[i].deps() == sp[i].deps().remove(dd).union(ds));
                    assert(cur[j].deps() <= cur[i].deps());
                } else {
                    assert(cur[i] == sp[i]);
                }
            }
            assert(edge_state(cur, i, d));
        }
    }
}

/// An entry with no pending references is untouched by resolution: its
/// resolved variable and dependency sets equal the directly scanned
/// ones.
pub proof fn lemma_resolution_noop(pre: Seq<Node>, post: Seq<Node>, i: int)
    requires
        resolved_ok(pre, post),
        0 <= i < pre.len(),
        pre[i].deps() == Set::<Seq<char>>::empty(),
    ensures
        post[i] == pre[i],
        post[i].vars() == pre[i].vars(),
        post[i].deps() == pre[i].deps(),
{
}

/// Along an acyclic reference chain a -> b -> c, a variable declared by
/// `c` ends up required by `b` and by `a` after resolution.
pub proof fn lemma_chain_propagates(
    pre: Seq<Node>,
    post: Seq<Node>,
    a: int,
    b: int,
    c: int,
    x: Seq<char>,
)
    requires
        graph_wf(pre),
        resolve_frame(pre, post),
        resolved_ok(pre, post),
        0 <= a < pre.len(),
        0 <= b < pre.len(),
        0 <= c < pre.len(),
        pre[a].deps().contains(pre[b].name@),
        pre[b].deps().contains(pre[c].name@),
        pre[c].vars().contains(x),
    ensures
        post[b].vars().contains(x),
        post[a].vars().contains(x),
{
    assert(propagated(post, b, pre[c].name@));
    let j = choose|j: int|
        0 <= j < post.len() && (#[trigger] post[j]).name@ == pre[c].name@ && post[j].vars()
            <= post[b].vars();
    assert(same_identity(pre[j], post[j]));
    assert(node_names(pre)[j] == pre[j].name@);
    assert(node_names(pre)[c] == pre[c].name@);
    if j != c {
        assert(node_names(pre)[j] != node_names(pre)[c]);
        assert(false);
    }
    assert(pre[c].vars() <= post[c].vars());
    assert(post[b].vars().contains(x));
    assert(propagated(post, a, pre[b].name@));
    let k = choose|k: int|
        0 <= k < post.len() && (#[trigger] post[k]).name@ == pre[b].name@ && post[k].vars()
            <= post[a].vars();
    assert(same_identity(pre[k], post[k]));
    assert(node_names(pre)[k] == pre[k].name@);
    assert(node_names(pre)[b] == pre[b].name@);
    if k != b {
        assert(node_names(pre)[k] != node_names(pre)[b]);
        assert(false);
    }
    assert(post[a].vars().contains(x));
}

/// Two resolutions of the same graph end with identical variable and
/// dependency sets for every node: which pending dependency is
/// processed first cannot affect the result.
pub proof fn lemma_resolution_deterministic(
    pre: Seq<Node>,
    post1: Seq<Node>,
    post2: Seq<Node>,
    i: int,
)
    requires
        resolved_ok(pre, post1),
        resolved_ok(pre, post2),
        0 <= i < pre.len(),
    ensures
        post1[i].vars() == post2[i].vars(),
        post1[i].deps() == post2[i].deps(),
{
}

} // verus!
