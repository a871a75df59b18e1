//! Reachability in a directed graph given by adjacency lists.
//!
//! The flood fill of the game and the "which bags hold this bag" question of
//! the bag-rules puzzle are both reachability questions; they share this
//! search and its proof.

use vstd::prelude::*;

verus! {

/// Every successor named in `adj` is a node of the graph.
pub open spec fn well_formed(adj: Seq<Seq<usize>>) -> bool {
    forall|u: int, k: int|
        0 <= u < adj.len() && 0 <= k < adj[u].len() ==> #[trigger] adj[u][k] < adj.len()
}

/// `v` is listed as a successor of `u`.
pub open spec fn has_edge(adj: Seq<Seq<usize>>, u: usize, v: usize) -> bool {
    u < adj.len() && adj[u as int].contains(v)
}

/// `p` is a non-empty walk: each node is followed by one of its successors.
pub open spec fn is_walk(adj: Seq<Seq<usize>>, p: Seq<usize>) -> bool {
    &&& p.len() > 0
    &&& forall|i: int, j: int|
        #![trigger p[i], p[j]]
        0 <= i && j == i + 1 && j < p.len() ==> has_edge(adj, p[i], p[j])
}

/// There is a walk (possibly of length zero) from `s` to `t`.
pub open spec fn reaches(adj: Seq<Seq<usize>>, s: usize, t: usize) -> bool {
    exists|p: Seq<usize>| #[trigger] is_walk(adj, p) && p[0] == s && p.last() == t
}

/// `t` is reachable from one of the `seeds`.
pub open spec fn reached_from(adj: Seq<Seq<usize>>, seeds: Seq<usize>, t: usize) -> bool {
    exists|i: int| 0 <= i < seeds.len() && #[trigger] reaches(adj, seeds[i], t)
}

/// Number of entries still `false`.
pub open spec fn count_false(s: Seq<bool>) -> nat
    decreases s.len(),
{
    if s.len() == 0 {
        0
    } else {
        count_false(s.drop_last()) + if s.last() {
            0nat
        } else {
            1nat
        }
    }
}

proof fn lemma_count_false_set(s: Seq<bool>, i: int)
    requires
        0 <= i < s.len(),
        !s[i],
    ensures
        count_false(s.update(i, true)) + 1 == count_false(s),
    decreases s.len(),
{
    let t = s.update(i, true);
    if i == s.len() - 1 {
        assert(t.drop_last() =~= s.drop_last());
    } else {
        lemma_count_false_set(s.drop_last(), i);
        assert(t.drop_last() =~= s.drop_last().update(i, true));
    }
}

proof fn lemma_push_keeps(s: Seq<usize>, x: usize)
    ensures
        forall|y: usize| s.contains(y) ==> #[trigger] s.push(x).contains(y),
        s.push(x).contains(x),
{
    assert forall|y: usize| s.contains(y) implies #[trigger] s.push(x).contains(y) by {
        let k: int = choose|k: int| 0 <= k < s.len() && s[k] == y;
        assert(s.push(x)[k] == y);
    }
    assert(s.push(x)[s.len() as int] == x);
}

proof fn lemma_pop_keeps(s: Seq<usize>)
    requires
        s.len() > 0,
    ensures
        forall|y: usize| s.contains(y) ==> y == s.last() || #[trigger] s.drop_last().contains(y),
{
    assert forall|y: usize| s.contains(y) implies y == s.last() || #[trigger] s.drop_last().contains(
        y,
    ) by {
        let k: int = choose|k: int| 0 <= k < s.len() && s[k] == y;
        if k < s.len() - 1 {
            assert(s.drop_last()[k] == y);
        }
    }
}

/// A single node is a walk from itself to itself.
pub proof fn lemma_walk_single(adj: Seq<Seq<usize>>, s: usize)
    ensures
        is_walk(adj, seq![s]),
        seq![s][0] == s,
        seq![s].last() == s,
        reaches(adj, s, s),
{
}

/// A walk followed by an edge out of its last node is a walk.
pub proof fn lemma_walk_push(adj: Seq<Seq<usize>>, p: Seq<usize>, v: usize)
    requires
        is_walk(adj, p),
        has_edge(adj, p.last(), v),
    ensures
        is_walk(adj, p.push(v)),
        p.push(v)[0] == p[0],
        p.push(v).last() == v,
        reaches(adj, p[0], v),
{
    let q = p.push(v);
    assert forall|i: int, j: int|
        #![trigger q[i], q[j]]
        0 <= i && j == i + 1 && j < q.len() implies has_edge(adj, q[i], q[j]) by {
        if j < p.len() {
            assert(q[i] == p[i] && q[j] == p[j]);
        } else {
            assert(q[i] == p.last());
        }
    }
}

/// A set of nodes that holds the start of a walk and is closed under
/// successors holds the whole walk.
proof fn lemma_closed_holds_walk(adj: Seq<Seq<usize>>, mark: Seq<bool>, p: Seq<usize>)
    requires
        mark.len() == adj.len(),
        is_walk(adj, p),
        p[0] < adj.len(),
        mark[p[0] as int],
        forall|u: int, k: int|
            0 <= u < adj.len() && mark[u] && 0 <= k < adj[u].len() ==> #[trigger] mark[adj[u][k] as int]
                && adj[u][k] < adj.len(),
    ensures
        p.last() < adj.len(),
        mark[p.last() as int],
    decreases p.len(),
{
    if p.len() > 1 {
        let q = p.drop_last();
        assert forall|i: int, j: int|
            #![trigger q[i], q[j]]
            0 <= i && j == i + 1 && j < q.len() implies has_edge(adj, q[i], q[j]) by {
            assert(q[i] == p[i] && q[j] == p[j]);
        }
        lemma_closed_holds_walk(adj, mark, q);
        let u: usize = q.last();
        let v: usize = p.last();
        assert(p[p.len() - 2] == u);
        assert(has_edge(adj, p[p.len() - 2], p[p.len() - 1]));
        let k: int = choose|k: int| 0 <= k < adj[u as int].len() && adj[u as int][k] == v;
        assert(mark[adj[u as int][k] as int]);
    }
}

/// The nodes reachable from `seeds`: entry `t` of the result is `true`
/// exactly when some seed reaches `t`.
pub fn reachable_from(adj: &Vec<Vec<usize>>, seeds: &Vec<usize>) -> (visited: Vec<bool>)
    requires
        well_formed(adj.deep_view()),
        forall|i: int| 0 <= i < seeds.len() ==> #[trigger] seeds[i] < adj.len(),
    ensures
        visited.len() == adj.len(),
        forall|t: int|
            0 <= t < adj.len() ==> (#[trigger] visited[t] <==> reached_from(
                adj.deep_view(),
                seeds@,
                t as usize,
            )),
{
    let ghost g = adj.deep_view();
    let n: usize = adj.len();
    let mut visited: Vec<bool> = Vec::new();
    let mut z: usize = 0;
    while z < n
        invariant
            z <= n,
            visited.len() == z,
            forall|t: int| 0 <= t < z ==> !#[trigger] visited[t],
        decreases n - z,
    {
        visited.push(false);
        z = z + 1;
    }
    let mut stack: Vec<usize> = Vec::new();
    let mut i: usize = 0;
    while i < seeds.len()
        invariant
            n == adj.len(),
            g == adj.deep_view(),
            well_formed(g),
            forall|x: int| 0 <= x < seeds.len() ==> #[trigger] seeds[x] < adj.len(),
            visited.len() == n,
            i <= seeds.len(),
            forall|x: int| 0 <= x < i ==> #[trigger] visited[seeds[x] as int],
            forall|t: int|
                0 <= t < n ==> #[trigger] visited[t] ==> reached_from(g, seeds@, t as usize),
            forall|t: int| 0 <= t < n && #[trigger] visited[t] ==> stack@.contains(t as usize),
            forall|x: int| 0 <= x < stack.len() ==> #[trigger] stack[x] < n && visited[stack[x] as int],
        decreases seeds.len() - i,
    {
        let s: usize = seeds[i];
        if !visited[s] {
            proof {
                lemma_push_keeps(stack@, s);
            }
            visited.set(s, true);
            stack.push(s);
            proof {
                lemma_walk_single(g, s);
                assert(reaches(g, seeds[i as int], s));
            }
        }
        i = i + 1;
    }
    while stack.len() > 0
        invariant
            n == adj.len(),
            g == adj.deep_view(),
            well_formed(g),
            visited.len() == n,
            forall|x: int| 0 <= x < seeds.len() ==> #[trigger] visited[seeds[x] as int],
            forall|x: int| 0 <= x < seeds.len() ==> #[trigger] seeds[x] < adj.len(),
            forall|t: int|
                0 <= t < n ==> #[trigger] visited[t] ==> reached_from(g, seeds@, t as usize),
            forall|t: int|
                0 <= t < n && #[trigger] visited[t] ==> stack@.contains(t as usize) || (forall|
                    k: int,
                | 0 <= k < g[t].len() ==> visited[#[trigger] g[t][k] as int]),
            forall|x: int| 0 <= x < stack.len() ==> #[trigger] stack[x] < n && visited[stack[x] as int],
        decreases count_false(visited@), stack.len(),
    {
        proof {
            lemma_pop_keeps(stack@);
        }
        let ghost old_stack = stack@;
        let u: usize = stack.pop().unwrap();
        assert(stack@ == old_stack.drop_last());
        let succ = &adj[u];
        assert(succ@ == g[u as int]);
        let ghost before = visited@;
        let ghost popped_len: nat = stack.len() as nat;
        let mut k: usize = 0;
        while k < succ.len()
            invariant
                n == adj.len(),
                g == adj.deep_view(),
                well_formed(g),
                u < n,
                succ@ == g[u as int],
                visited.len() == n,
                visited[u as int],
                k <= succ.len(),
                count_false(visited@) <= count_false(before),
                count_false(visited@) < count_false(before) || (visited@ == before && stack.len()
                    == popped_len),
                forall|x: int| 0 <= x < k ==> visited[#[trigger] succ[x] as int],
                forall|x: int| 0 <= x < seeds.len() ==> #[trigger] visited[seeds[x] as int],
                forall|x: int| 0 <= x < seeds.len() ==> #[trigger] seeds[x] < adj.len(),
                forall|t: int|
                    0 <= t < n ==> #[trigger] visited[t] ==> reached_from(g, seeds@, t as usize),
                forall|t: int|
                    0 <= t < n && #[trigger] visited[t] ==> t == u || stack@.contains(t as usize)
                        || (forall|k2: int|
                        0 <= k2 < g[t].len() ==> visited[#[trigger] g[t][k2] as int]),
                forall|x: int|
                    0 <= x < stack.len() ==> #[trigger] stack[x] < n && visited[stack[x] as int],
            decreases succ.len() - k,
        {
            let v: usize = succ[k];
            assert(g[u as int][k as int] == v);
            if !visited[v] {
                proof {
                    let t: int = u as int;
                    assert(visited[t]);
                    let si: int = choose|si: int|
                        0 <= si < seeds.len() && #[trigger] reaches(g, seeds[si], u);
                    let p = choose|p: Seq<usize>|
                        #[trigger] is_walk(g, p) && p[0] == seeds[si] && p.last() == u;
                    assert(g[u as int].contains(v));
                    lemma_walk_push(g, p, v);
                    assert(reaches(g, seeds[si], v));
                    lemma_count_false_set(visited@, v as int);
                    lemma_push_keeps(stack@, v);
                }
                visited.set(v, true);
                stack.push(v);
                proof {
                    assert(stack@.last() == v);
                }
            }
            k = k + 1;
        }
    }
    proof {
        assert forall|t: int|
            0 <= t < adj.len() implies (visited[t] <==> reached_from(g, seeds@, t as usize)) by {
            if reached_from(g, seeds@, t as usize) {
                let si: int = choose|si: int|
                    0 <= si < seeds.len() && #[trigger] reaches(g, seeds[si], t as usize);
                let p = choose|p: Seq<usize>|
                    #[trigger] is_walk(g, p) && p[0] == seeds[si] && p.last() == t as usize;
                assert(visited[seeds[si] as int]);
                lemma_closed_holds_walk(g, visited@, p);
            }
        }
    }
    visited
}

} // verus!
