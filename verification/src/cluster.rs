//! Connected-component clustering for the graph view.
//!
//! Components are computed by label merging: every node starts in its own
//! class, and each edge merges the class of its second endpoint into the
//! class of its first. The result is renumbered so that cluster ids are
//! `0..k` in the order the classes are first met in node order — the same
//! observable labelling a union-find with first-encounter root numbering
//! produces.

use vstd::prelude::*;

verus! {

/// Labels after merging the class of `b` into the class of `a`.
pub open spec fn merge_step(labels: Seq<nat>, a: int, b: int) -> Seq<nat> {
    Seq::new(
        labels.len(),
        |x: int|
            if labels[x] == labels[b] {
                labels[a]
            } else {
                labels[x]
            },
    )
}

/// Every node in its own class.
pub open spec fn init_labels(n: nat) -> Seq<nat> {
    Seq::new(n, |i: int| i as nat)
}

/// Labels after processing the first `m` edges; an edge with an endpoint
/// out of range is ignored.
pub open spec fn labels_after(n: nat, edges: Seq<(usize, usize)>, m: int) -> Seq<nat>
    decreases m,
{
    if m <= 0 {
        init_labels(n)
    } else {
        let prev = labels_after(n, edges, m - 1);
        let e = edges[m - 1];
        if e.0 < n && e.1 < n {
            merge_step(prev, e.0 as int, e.1 as int)
        } else {
            prev
        }
    }
}

pub proof fn lemma_labels_after_len(n: nat, edges: Seq<(usize, usize)>, m: int)
    ensures
        labels_after(n, edges, m).len() == n,
    decreases m,
{
    if m > 0 {
        lemma_labels_after_len(n, edges, m - 1);
    }
}

/// Labels are always node indices.
pub proof fn lemma_labels_after_range(n: nat, edges: Seq<(usize, usize)>, m: int)
    ensures
        labels_after(n, edges, m).len() == n,
        forall|x: int| 0 <= x < n ==> #[trigger] labels_after(n, edges, m)[x] < n,
    decreases m,
{
    lemma_labels_after_len(n, edges, m);
    if m > 0 {
        lemma_labels_after_range(n, edges, m - 1);
    }
}

/// Merging never separates nodes that already share a label.
pub proof fn lemma_merge_preserves_eq(labels: Seq<nat>, a: int, b: int, x: int, y: int)
    requires
        0 <= a < labels.len(),
        0 <= b < labels.len(),
        0 <= x < labels.len(),
        0 <= y < labels.len(),
        labels[x] == labels[y],
    ensures
        merge_step(labels, a, b)[x] == merge_step(labels, a, b)[y],
{
}

/// Both endpoints of every processed in-range edge end up in one class.
pub proof fn lemma_edge_same_label(n: nat, edges: Seq<(usize, usize)>, m: int, k: int)
    requires
        0 <= k < m <= edges.len(),
        edges[k].0 < n,
        edges[k].1 < n,
    ensures
        labels_after(n, edges, m)[edges[k].0 as int] == labels_after(n, edges, m)[edges[k].1 as int],
    decreases m,
{
    lemma_labels_after_len(n, edges, m);
    lemma_labels_after_len(n, edges, m - 1);
    let prev = labels_after(n, edges, m - 1);
    let e = edges[m - 1];
    if k == m - 1 {
        assert(labels_after(n, edges, m) == merge_step(prev, e.0 as int, e.1 as int));
        assert(merge_step(prev, e.0 as int, e.1 as int)[e.1 as int] == prev[e.0 as int]);
        if prev[e.0 as int] == prev[e.1 as int] {
        } else {
            assert(merge_step(prev, e.0 as int, e.1 as int)[e.0 as int] == prev[e.0 as int]);
        }
    } else {
        lemma_edge_same_label(n, edges, m - 1, k);
        if e.0 < n && e.1 < n {
            lemma_merge_preserves_eq(
                prev,
                e.0 as int,
                e.1 as int,
                edges[k].0 as int,
                edges[k].1 as int,
            );
        }
    }
}

/// A node no edge touches keeps its own label, which no other node
/// carries: it stays a singleton class.
pub proof fn lemma_isolated_label(n: nat, edges: Seq<(usize, usize)>, m: int, i: int)
    requires
        0 <= i < n,
        0 <= m <= edges.len(),
        forall|k: int|
            0 <= k < m ==> (#[trigger] edges[k]).0 != i as usize && edges[k].1 != i as usize,
    ensures
        labels_after(n, edges, m)[i] == i as nat,
        forall|j: int|
            0 <= j < n && j != i ==> #[trigger] labels_after(n, edges, m)[j] != i as nat,
    decreases m,
{
    lemma_labels_after_len(n, edges, m);
    if m > 0 {
        lemma_labels_after_len(n, edges, m - 1);
        lemma_isolated_label(n, edges, m - 1, i);
        let prev = labels_after(n, edges, m - 1);
        let e = edges[m - 1];
        if e.0 < n && e.1 < n {
            assert(e.0 != i as usize && e.1 != i as usize);
            assert(prev[e.1 as int] != i as nat);
            assert(prev[e.0 as int] != i as nat);
            assert(labels_after(n, edges, m) == merge_step(prev, e.0 as int, e.1 as int));
            assert(labels_after(n, edges, m)[i] == i as nat);
        }
    }
}

/// Whether node `x` is the first of its class in node order.
pub open spec fn first_occurrence(labels: Seq<nat>, x: int) -> bool {
    forall|j: int| 0 <= j < x ==> labels[j] != labels[x]
}

/// One more than the largest value, zero for an empty sequence.
pub open spec fn max_plus_one(s: Seq<u32>) -> int
    decreases s.len(),
{
    if s.len() == 0 {
        0
    } else {
        let m = max_plus_one(s.drop_last());
        if s.last() + 1 > m {
            s.last() + 1
        } else {
            m
        }
    }
}

proof fn lemma_max_plus_one_push(s: Seq<u32>, c: u32)
    ensures
        max_plus_one(s.push(c)) == if c + 1 > max_plus_one(s) {
            c + 1
        } else {
            max_plus_one(s)
        },
{
    assert(s.push(c).drop_last() =~= s);
    assert(s.push(c).last() == c);
}

proof fn lemma_max_plus_one_bound(s: Seq<u32>, k: int)
    requires
        0 <= k < s.len(),
    ensures
        s[k] < max_plus_one(s),
    decreases s.len(),
{
    if k < s.len() - 1 {
        lemma_max_plus_one_bound(s.drop_last(), k);
    }
}

/// The state of the renumbering pass after `p` nodes: `out` assigns ids
/// consistent with the labels, `seen` maps each label met so far to its
/// id, and `next` is the smallest unused id.
pub open spec fn renum_inv(
    labels: Seq<usize>,
    out: Seq<u32>,
    seen: Seq<Option<u32>>,
    next: u32,
    n: int,
    p: int,
) -> bool {
    &&& 0 <= p <= n <= 0xffff_ffff
    &&& labels.len() == n
    &&& out.len() == p
    &&& seen.len() == n
    &&& forall|x: int| 0 <= x < n ==> #[trigger] labels[x] < n
    &&& next == max_plus_one(out)
    &&& next <= p
    &&& forall|x: int, y: int|
        0 <= x < p && 0 <= y < p ==> ((out[x] == out[y]) <==> (labels[x] == labels[y]))
    &&& forall|x: int| 0 <= x < p ==> #[trigger] seen[labels[x] as int] == Some(out[x])
    &&& forall|l: int|
        0 <= l < n && #[trigger] seen[l] is Some ==> exists|x: int|
            0 <= x < p && #[trigger] labels[x] == l as usize
    &&& forall|x: int|
        0 <= x < p && (forall|j: int| 0 <= j < x ==> #[trigger] labels[j] != labels[x]) ==> out[x]
            == max_plus_one(out.take(x))
}

/// One renumbering step for a node whose class already has an id.
#[verifier::spinoff_prover]
proof fn lemma_renum_hit(
    labels: Seq<usize>,
    out: Seq<u32>,
    seen: Seq<Option<u32>>,
    next: u32,
    n: int,
    p: int,
    c: u32,
)
    requires
        renum_inv(labels, out, seen, next, n, p),
        p < n,
        seen[labels[p] as int] == Some(c),
    ensures
        renum_inv(labels, out.push(c), seen, next, n, p + 1),
{
    let out2 = out.push(c);
    let w = choose|x: int| 0 <= x < p && #[trigger] labels[x] == labels[p] as usize;
    assert(seen[labels[p] as int] == Some(out[w]));
    assert(c == out[w]);
    lemma_max_plus_one_bound(out, w);
    lemma_max_plus_one_push(out, c);
    assert forall|x: int, y: int|
        0 <= x < p + 1 && 0 <= y < p + 1 implies ((out2[x] == out2[y]) <==> (labels[x]
        == labels[y])) by {
        if x < p && y < p {
        } else if x == p && y == p {
        } else if x == p {
            assert(out2[x] == out[w] && labels[w] == labels[p]);
        } else if y == p {
            assert(out2[y] == out[w] && labels[w] == labels[p]);
        }
    }
    assert forall|x: int|
        0 <= x < p + 1 && (forall|j: int| 0 <= j < x ==> #[trigger] labels[j] != labels[x]) implies
        out2[x] == max_plus_one(out2.take(x)) by {
        if x < p {
            assert(out2.take(x) =~= out.take(x));
        } else {
            assert(labels[w] == labels[x]);
            assert(false);
        }
    }
    assert forall|x: int| 0 <= x < p + 1 implies #[trigger] seen[labels[x] as int] == Some(
        out2[x],
    ) by {
        if x < p {
            assert(seen[labels[x] as int] == Some(out[x]));
        }
    }
}

/// One renumbering step for a node whose class is met for the first
/// time: it takes the smallest unused id.
#[verifier::spinoff_prover]
proof fn lemma_renum_new(
    labels: Seq<usize>,
    out: Seq<u32>,
    seen: Seq<Option<u32>>,
    next: u32,
    n: int,
    p: int,
)
    requires
        renum_inv(labels, out, seen, next, n, p),
        p < n,
        seen[labels[p] as int] is None,
    ensures
        next + 1 <= 0xffff_ffff,
        renum_inv(
            labels,
            out.push(next),
            seen.update(labels[p] as int, Some(next)),
            (next + 1) as u32,
            n,
            p + 1,
        ),
{
    let out2 = out.push(next);
    let seen2 = seen.update(labels[p] as int, Some(next));
    lemma_max_plus_one_push(out, next);
    assert forall|x: int, y: int|
        0 <= x < p + 1 && 0 <= y < p + 1 implies ((out2[x] == out2[y]) <==> (labels[x]
        == labels[y])) by {
        if x < p && y < p {
        } else if x == p && y == p {
        } else if x == p {
            if labels[y] == labels[x] {
                assert(seen[labels[y] as int] == Some(out[y]));
                assert(false);
            }
            if out2[x] == out2[y] {
                lemma_max_plus_one_bound(out, y);
                assert(false);
            }
        } else if y == p {
            if labels[x] == labels[y] {
                assert(seen[labels[x] as int] == Some(out[x]));
                assert(false);
            }
            if out2[x] == out2[y] {
                lemma_max_plus_one_bound(out, x);
                assert(false);
            }
        }
    }
    assert forall|x: int|
        0 <= x < p + 1 && (forall|j: int| 0 <= j < x ==> #[trigger] labels[j] != labels[x]) implies
        out2[x] == max_plus_one(out2.take(x)) by {
        if x < p {
            assert(out2.take(x) =~= out.take(x));
        } else {
            assert(out2.take(x) =~= out);
        }
    }
    assert forall|x: int| 0 <= x < p + 1 implies #[trigger] seen2[labels[x] as int] == Some(
        out2[x],
    ) by {
        if x < p {
            if labels[x] == labels[p] {
                assert(seen[labels[p] as int] == Some(out[x]));
                assert(false);
            } else {
                assert(seen2[labels[x] as int] == seen[labels[x] as int]);
            }
        }
    }
    assert forall|l2: int| 0 <= l2 < n && #[trigger] seen2[l2] is Some implies exists|x: int|
        0 <= x < p + 1 && #[trigger] labels[x] == l2 as usize by {
        if l2 == labels[p] as int {
            assert(labels[p] == l2 as usize);
        } else {
            assert(seen2[l2] == seen[l2]);
            let w = choose|x: int| 0 <= x < p && #[trigger] labels[x] == l2 as usize;
            assert(labels[w] == l2 as usize);
        }
    }
}

/// Assigns each node its connected-component cluster id: nodes share an
/// id exactly when label merging over the edges put them in one class,
/// and a class first met at node `i` receives the smallest unused id.
#[verifier::rlimit(100)]
pub fn union_find_clusters(n: usize, edges: &Vec<(usize, usize)>) -> (r: Vec<u32>)
    requires
        n <= 0xffff_ffff,
    ensures
        r@.len() == n,
        forall|x: int, y: int|
            0 <= x < n && 0 <= y < n ==> ((r@[x] == r@[y]) <==> (labels_after(
                n as nat,
                edges@,
                edges@.len() as int,
            )[x] == labels_after(n as nat, edges@, edges@.len() as int)[y])),
        forall|x: int|
            0 <= x < n && #[trigger] first_occurrence(
                labels_after(n as nat, edges@, edges@.len() as int),
                x,
            ) ==> r@[x] == max_plus_one(r@.take(x)),
{
    let ghost final_labels = labels_after(n as nat, edges@, edges@.len() as int);
    proof {
        lemma_labels_after_range(n as nat, edges@, edges@.len() as int);
    }
    // label merging
    let mut labels: Vec<usize> = Vec::new();
    let mut i: usize = 0;
    while i < n
        invariant
            i <= n,
            labels@.len() == i,
            forall|x: int| 0 <= x < i ==> #[trigger] labels@[x] == x,
        decreases n - i,
    {
        labels.push(i);
        i = i + 1;
    }
    proof {
        assert(labels@.map_values(|v: usize| v as nat) =~= init_labels(n as nat));
    }
    let mut m: usize = 0;
    while m < edges.len()
        invariant
            m <= edges@.len(),
            n <= 0xffff_ffff,
            labels@.len() == n,
            labels@.map_values(|v: usize| v as nat) == labels_after(n as nat, edges@, m as int),
            forall|x: int| 0 <= x < n ==> #[trigger] labels@[x] < n,
        decreases edges@.len() - m,
    {
        let (a, b) = edges[m];
        let ghost prev = labels@.map_values(|v: usize| v as nat);
        if a < n && b < n {
            let la: usize = labels[a];
            let lb: usize = labels[b];
            if la != lb {
                let mut x: usize = 0;
                while x < n
                    invariant
                        x <= n,
                        labels@.len() == n,
                        n <= 0xffff_ffff,
                        a < n,
                        b < n,
                        la < n,
                        lb < n,
                        la == prev[a as int],
                        lb == prev[b as int],
                        la != lb,
                        prev.len() == n,
                        forall|q: int| 0 <= q < n ==> #[trigger] prev[q] < n,
                        forall|q: int|
                            0 <= q < x ==> #[trigger] labels@[q] == (if prev[q] == lb as nat {
                                la as nat
                            } else {
                                prev[q]
                            }),
                        forall|q: int| x <= q < n ==> #[trigger] labels@[q] == prev[q],
                    decreases n - x,
                {
                    if labels[x] == lb {
                        let _ = labels.remove(x);
                        labels.insert(x, la);
                    }
                    x = x + 1;
                }
                proof {
                    assert(labels@.map_values(|v: usize| v as nat) =~= merge_step(
                        prev,
                        a as int,
                        b as int,
                    ));
                }
            } else {
                proof {
                    assert(labels@.map_values(|v: usize| v as nat) =~= merge_step(
                        prev,
                        a as int,
                        b as int,
                    ));
                }
            }
        }
        proof {
            assert(labels@.map_values(|v: usize| v as nat) == labels_after(
                n as nat,
                edges@,
                m + 1,
            ));
        }
        m = m + 1;
    }

    // renumber classes in first-encounter order
    let mut seen: Vec<Option<u32>> = Vec::new();
    let mut i2: usize = 0;
    while i2 < n
        invariant
            i2 <= n,
            seen@.len() == i2,
            forall|x: int| 0 <= x < i2 ==> #[trigger] seen@[x] is None,
        decreases n - i2,
    {
        seen.push(None);
        i2 = i2 + 1;
    }
    let mut out: Vec<u32> = Vec::new();
    let mut next: u32 = 0;
    let mut p: usize = 0;
    proof {
        assert(renum_inv(labels@, out@, seen@, next, n as int, p as int));
    }
    while p < n
        invariant
            p <= n,
            labels@.map_values(|v: usize| v as nat) == final_labels,
            renum_inv(labels@, out@, seen@, next, n as int, p as int),
        decreases n - p,
    {
        let l: usize = labels[p];
        let cur: Option<u32> = match &seen[l] {
            Some(c) => Some(*c),
            None => None,
        };
        match cur {
            Some(c) => {
                proof {
                    lemma_renum_hit(labels@, out@, seen@, next, n as int, p as int, c);
                }
                out.push(c);
            },
            None => {
                proof {
                    lemma_renum_new(labels@, out@, seen@, next, n as int, p as int);
                }
                let ghost seen_prev = seen@;
                out.push(next);
                let _ = seen.remove(l);
                seen.insert(l, Some(next));
                proof {
                    assert(seen@ =~= seen_prev.update(l as int, Some(next)));
                }
                next = next + 1;
            },
        }
        p = p + 1;
    }
    proof {
        assert forall|x: int, y: int|
            0 <= x < n && 0 <= y < n implies ((out@[x] == out@[y]) <==> (final_labels[x]
            == final_labels[y])) by {
            assert(final_labels[x] == labels@[x] as nat);
            assert(final_labels[y] == labels@[y] as nat);
        }
        assert forall|x: int|
            0 <= x < n && #[trigger] first_occurrence(final_labels, x) implies out@[x]
            == max_plus_one(out@.take(x)) by {
            assert forall|j: int| 0 <= j < x implies #[trigger] labels@[j] != labels@[x] by {
                assert(final_labels[j] == labels@[j] as nat);
                assert(final_labels[x] == labels@[x] as nat);
            }
        }
    }
    out
}


/// The clustering law, at the level of the assigned ids: any cluster
/// assignment that reflects the merged labels — as `union_find_clusters`
/// ensures — gives both endpoints of every selected edge one id, and an
/// untouched node an id all of its own.
pub proof fn lemma_cluster_assignment(n: nat, edges: Seq<(usize, usize)>, r: Seq<u32>)
    requires
        r.len() == n,
        forall|x: int, y: int|
            0 <= x < n && 0 <= y < n ==> ((r[x] == r[y]) <==> (labels_after(
                n,
                edges,
                edges.len() as int,
            )[x] == labels_after(n, edges, edges.len() as int)[y])),
    ensures
        forall|k: int|
            0 <= k < edges.len() && (#[trigger] edges[k]).0 < n && edges[k].1 < n ==> r[
                edges[k].0 as int
            ] == r[edges[k].1 as int],
        forall|i: int, j: int|
            0 <= i < n && 0 <= j < n && i != j && (forall|k: int|
                0 <= k < edges.len() ==> (#[trigger] edges[k]).0 != i as usize && edges[k].1
                    != i as usize) ==> r[i] != r[j],
{
    let m = edges.len() as int;
    assert forall|k: int|
        0 <= k < edges.len() && (#[trigger] edges[k]).0 < n && edges[k].1 < n implies r[
        edges[k].0 as int
    ] == r[edges[k].1 as int] by {
        lemma_labels_after_range(n, edges, m);
        lemma_edge_same_label(n, edges, m, k);
    }
    assert forall|i: int, j: int|
        0 <= i < n && 0 <= j < n && i != j && (forall|k: int|
            0 <= k < edges.len() ==> (#[trigger] edges[k]).0 != i as usize && edges[k].1
                != i as usize) implies r[i] != r[j] by {
        lemma_labels_after_range(n, edges, m);
        lemma_isolated_label(n, edges, m, i);
        assert(labels_after(n, edges, m)[j] != labels_after(n, edges, m)[i]);
    }
}

} // verus!
