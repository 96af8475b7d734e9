//! Insertion into a sorted vector, and reachability in a directed graph
//! given as an edge list.

use vstd::prelude::*;

verus! {

/// `s` is sorted in non-decreasing order.
pub open spec fn sorted(s: Seq<i32>) -> bool {
    forall|a: int, b: int| 0 <= a <= b < s.len() ==> s[a] <= s[b]
}

/// Inserts `n` into the sorted vector `v` so that `v` stays sorted.
pub fn insort(v: &mut Vec<i32>, n: i32)
    requires
        sorted(old(v)@),
    ensures
        sorted(final(v)@),
        exists|i: int| 0 <= i <= old(v)@.len() && final(v)@ == old(v)@.insert(i, n),
{
    let mut i: usize = 0;
    while i < v.len() && v[i] < n
        invariant
            i <= v.len(),
            v@ == old(v)@,
            forall|k: int| 0 <= k < i ==> v@[k] < n,
        decreases v.len() - i,
    {
        i += 1;
    }
    let ghost pre = v@;
    v.insert(i, n);
    proof {
        assert forall|a: int, b: int| 0 <= a <= b < v@.len() implies v@[a] <= v@[b] by {
            assert(v@ == pre.insert(i as int, n));
            assert(forall|k: int| 0 <= k < i ==> v@[k] == pre[k]);
            assert(v@[i as int] == n);
            assert(forall|k: int| i < k < v@.len() ==> v@[k] == pre[k - 1]);
        }
    }
}

/// A node of the directed graph, identified by an integer id.
pub type Node = i32;

/// The edge list has an edge from `a` to `b`.
pub open spec fn has_edge(edges: Seq<(Node, Node)>, a: Node, b: Node) -> bool {
    exists|k: int| 0 <= k < edges.len() && edges[k].0 == a && edges[k].1 == b
}

/// There is a path of at most `n` edges from `src` to `dst`.
pub open spec fn path_to(edges: Seq<(Node, Node)>, src: Node, dst: Node, n: nat) -> bool
    decreases n,
{
    src == dst || (n > 0 && exists|m: Node|
        #[trigger] has_edge(edges, src, m) && path_to(edges, m, dst, (n - 1) as nat))
}

/// There is a path (of any length) from `src` to `dst`.
pub open spec fn reachable(edges: Seq<(Node, Node)>, src: Node, dst: Node) -> bool {
    exists|n: nat| path_to(edges, src, dst, n)
}

/// Every edge that starts inside `vs` also ends inside `vs`.
pub open spec fn edge_closed(edges: Seq<(Node, Node)>, vs: Seq<Node>) -> bool {
    forall|k: int| 0 <= k < edges.len() && vs.contains(#[trigger] edges[k].0)
        ==> vs.contains(edges[k].1)
}

proof fn lemma_path_extend(edges: Seq<(Node, Node)>, src: Node, a: Node, b: Node, n: nat)
    requires
        path_to(edges, src, a, n),
        has_edge(edges, a, b),
    ensures
        path_to(edges, src, b, n + 1),
    decreases n,
{
    if src == a {
        assert(path_to(edges, b, b, n));
        assert(has_edge(edges, src, b) && path_to(edges, b, b, n));
    } else {
        let m = choose|m: Node|
            #[trigger] has_edge(edges, src, m) && path_to(edges, m, a, (n - 1) as nat);
        lemma_path_extend(edges, m, a, b, (n - 1) as nat);
        assert(has_edge(edges, src, m) && path_to(edges, m, b, n));
    }
}

proof fn lemma_closed_contains(edges: Seq<(Node, Node)>, vs: Seq<Node>, src: Node, dst: Node, n: nat)
    requires
        edge_closed(edges, vs),
        vs.contains(src),
        path_to(edges, src, dst, n),
    ensures
        vs.contains(dst),
    decreases n,
{
    if src != dst {
        let m = choose|m: Node|
            #[trigger] has_edge(edges, src, m) && path_to(edges, m, dst, (n - 1) as nat);
        let k = choose|k: int| 0 <= k < edges.len() && edges[k].0 == src && edges[k].1 == m;
        assert(vs.contains(edges[k].0));
        assert(vs.contains(m));
        lemma_closed_contains(edges, vs, m, dst, (n - 1) as nat);
    }
}

/// A sequence of distinct nodes, each of which is `src` or the target of some
/// edge, cannot be longer than the edge list plus one.
proof fn lemma_visited_bound(edges: Seq<(Node, Node)>, vs: Seq<Node>, src: Node)
    requires
        vs.no_duplicates(),
        forall|j: int| 0 <= j < vs.len() ==> #[trigger] vs[j] == src
            || exists|k: int| 0 <= k < edges.len() && #[trigger] edges[k].1 == vs[j],
    ensures
        vs.len() <= edges.len() + 1,
{
    broadcast use vstd::set::group_set_axioms, vstd::seq_lib::seq_to_set_is_finite;

    let b = edges.map_values(|e: (Node, Node)| e.1).push(src);
    assert forall|x: Node| vs.to_set().contains(x) implies b.to_set().contains(x) by {
        let j = choose|j: int| 0 <= j < vs.len() && vs[j] == x;
        if x == src {
            assert(b[b.len() - 1] == src);
            assert(b.contains(x));
        } else {
            let k = choose|k: int| 0 <= k < edges.len() && #[trigger] edges[k].1 == x;
            assert(b[k] == x);
            assert(b.contains(x));
        }
    }
    vs.unique_seq_to_set();
    b.lemma_cardinality_of_set();
    vstd::set_lib::lemma_len_subset(vs.to_set(), b.to_set());
}

/// Linear scan for `x` among the nodes collected so far.
fn seen(visited: &Vec<Node>, x: Node) -> (r: bool)
    ensures
        r == visited@.contains(x),
{
    let mut k: usize = 0;
    while k < visited.len()
        invariant
            k <= visited.len(),
            forall|j: int| 0 <= j < k ==> visited@[j] != x,
        decreases visited.len() - k,
    {
        if visited[k] == x {
            return true;
        }
        k += 1;
    }
    false
}

/// Decides whether `dst` can be reached from `src` along the directed edges
/// in `edges`, by saturating the set of nodes reachable from `src`.
pub fn connected(edges: &Vec<(Node, Node)>, src: Node, dst: Node) -> (r: bool)
    ensures
        r == reachable(edges@, src, dst),
{
    let mut visited: Vec<Node> = Vec::new();
    visited.push(src);
    proof {
        assert(visited@[0] == src);
        assert(path_to(edges@, src, src, 0));
    }
    let mut old_size: usize = 0;
    let mut found = seen(&visited, dst);
    while old_size != visited.len() && !found
        invariant
            visited@.contains(src),
            visited@.no_duplicates(),
            forall|j: int| 0 <= j < visited@.len()
                ==> reachable(edges@, src, #[trigger] visited@[j]),
            forall|j: int| 0 <= j < visited@.len() ==> #[trigger] visited@[j] == src
                || exists|k: int| 0 <= k < edges@.len() && #[trigger] edges@[k].1 == visited@[j],
            old_size <= visited@.len(),
            visited@.len() <= edges@.len() + 1,
            found == visited@.contains(dst),
            old_size == visited@.len() ==> edge_closed(edges@, visited@),
        decreases edges@.len() + 1 - old_size,
    {
        old_size = visited.len();
        let mut k: usize = 0;
        while k < edges.len()
            invariant
                visited@.contains(src),
                visited@.no_duplicates(),
                forall|j: int| 0 <= j < visited@.len()
                    ==> reachable(edges@, src, #[trigger] visited@[j]),
                forall|j: int| 0 <= j < visited@.len() ==> #[trigger] visited@[j] == src
                    || exists|k2: int| 0 <= k2 < edges@.len()
                        && #[trigger] edges@[k2].1 == visited@[j],
                k <= edges@.len(),
                old_size <= visited@.len(),
                visited@.len() == old_size ==> forall|k2: int|
                    0 <= k2 < k && visited@.contains(#[trigger] edges@[k2].0)
                        ==> visited@.contains(edges@[k2].1),
            decreases edges@.len() - k,
        {
            let a = edges[k].0;
            let b = edges[k].1;
            if seen(&visited, a) && !seen(&visited, b) {
                proof {
                    let j = choose|j: int| 0 <= j < visited@.len() && visited@[j] == a;
                    let n = choose|n: nat| path_to(edges@, src, a, n);
                    assert(has_edge(edges@, a, b)) by {
                        assert(edges@[k as int].0 == a && edges@[k as int].1 == b);
                    }
                    lemma_path_extend(edges@, src, a, b, n);
                    assert(path_to(edges@, src, b, n + 1));
                }
                let ghost pre = visited@;
                visited.push(b);
                proof {
                    assert(visited@ == pre.push(b));
                    assert(visited@[visited@.len() - 1] == b);
                    assert(forall|j: int| 0 <= j < pre.len() ==> visited@[j] == pre[j]);
                    assert(visited@.contains(src)) by {
                        let j0 = choose|j0: int| 0 <= j0 < pre.len() && pre[j0] == src;
                        assert(visited@[j0] == src);
                    }
                    assert(visited@.no_duplicates());
                    assert(edges@[k as int].1 == b);
                }
            }
            k += 1;
        }
        found = seen(&visited, dst);
        proof {
            lemma_visited_bound(edges@, visited@, src);
        }
    }
    proof {
        if found {
            let j = choose|j: int| 0 <= j < visited@.len() && visited@[j] == dst;
            assert(reachable(edges@, src, dst));
        } else {
            assert(edge_closed(edges@, visited@));
            assert forall|n: nat| !path_to(edges@, src, dst, n) by {
                if path_to(edges@, src, dst, n) {
                    lemma_closed_contains(edges@, visited@, src, dst, n);
                }
            }
        }
    }
    found
}

} // verus!
