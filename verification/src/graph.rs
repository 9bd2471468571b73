//! Reachability over numbered nodes: breadth-first search, reverse reach,
//! and counting strongly connected components with more than one member.
use vstd::prelude::*;

verus! {

/// `p` is a walk of at least one node along `e`.
pub open spec fn is_path(e: spec_fn(int, int) -> bool, p: Seq<int>) -> bool {
    &&& p.len() >= 1
    &&& forall|k: int| #![trigger p[k]] 0 <= k < p.len() - 1 ==> e(p[k], p[k + 1])
}

/// `b` can be reached from `a` along `e` (every node reaches itself).
pub open spec fn reaches(e: spec_fn(int, int) -> bool, a: int, b: int) -> bool {
    exists|p: Seq<int>| #[trigger] is_path(e, p) && p[0] == a && p.last() == b
}

/// `a` and `b` reach each other: they lie in one strongly connected component.
pub open spec fn mutual(e: spec_fn(int, int) -> bool, a: int, b: int) -> bool {
    reaches(e, a, b) && reaches(e, b, a)
}

/// The relation with every edge turned around.
pub open spec fn reversed(e: spec_fn(int, int) -> bool) -> spec_fn(int, int) -> bool {
    |a: int, b: int| e(b, a)
}

/// `u` is the lowest-numbered member of a component of `0..n` with at least two members.
pub open spec fn is_scc_leader(e: spec_fn(int, int) -> bool, n: int, u: int) -> bool {
    &&& exists|v: int| 0 <= v < n && v != u && #[trigger] mutual(e, u, v)
    &&& forall|v: int| 0 <= v < u ==> !#[trigger] mutual(e, u, v)
}

/// Number of `true` entries.
pub open spec fn count_true(s: Seq<bool>) -> nat
    decreases s.len(),
{
    if s.len() == 0 {
        0
    } else {
        count_true(s.drop_last()) + if s.last() {
            1nat
        } else {
            0nat
        }
    }
}

/// Number of strongly connected components of `0..n` under `e` with more than one member.
pub open spec fn scc_count(e: spec_fn(int, int) -> bool, n: nat) -> nat {
    count_true(Seq::new(n, |u: int| is_scc_leader(e, n as int, u)))
}

/// Number of nodes of `0..n` from which `a` can be reached (`a` included).
pub open spec fn reverse_reach_count(e: spec_fn(int, int) -> bool, n: nat, a: int) -> nat {
    count_true(Seq::new(n, |v: int| reaches(e, v, a)))
}

/// `adj` lists, for each node of `0..n`, exactly its successors under `e`.
pub open spec fn adj_matches(adj: Seq<Vec<usize>>, n: int, e: spec_fn(int, int) -> bool) -> bool {
    &&& adj.len() == n
    &&& forall|a: int, j: int|
        0 <= a < n && 0 <= j < adj[a].len() ==> (#[trigger] adj[a]@[j]) < n && e(
            a,
            adj[a]@[j] as int,
        )
    &&& forall|a: int, b: int| #[trigger] e(a, b) ==> 0 <= a < n && 0 <= b < n && adj[a]@.contains(
        b as usize,
    )
}

pub proof fn lemma_count_true_bound(s: Seq<bool>)
    ensures
        count_true(s) <= s.len(),
    decreases s.len(),
{
    if s.len() > 0 {
        lemma_count_true_bound(s.drop_last());
    }
}

pub proof fn lemma_count_true_set(s: Seq<bool>, i: int)
    requires
        0 <= i < s.len(),
        !s[i],
    ensures
        count_true(s.update(i, true)) == count_true(s) + 1,
    decreases s.len(),
{
    let t = s.update(i, true);
    if i < s.len() - 1 {
        assert(t.drop_last() =~= s.drop_last().update(i, true));
        lemma_count_true_set(s.drop_last(), i);
    } else {
        assert(t.drop_last() =~= s.drop_last());
    }
}

pub proof fn lemma_count_true_mono(s: Seq<bool>, t: Seq<bool>)
    requires
        s.len() == t.len(),
        forall|i: int| 0 <= i < s.len() && #[trigger] s[i] ==> t[i],
    ensures
        count_true(s) <= count_true(t),
    decreases s.len(),
{
    if s.len() > 0 {
        lemma_count_true_mono(s.drop_last(), t.drop_last());
    }
}

pub proof fn lemma_count_true_push(s: Seq<bool>, b: bool)
    ensures
        count_true(s.push(b)) == count_true(s) + if b {
            1nat
        } else {
            0nat
        },
{
    assert(s.push(b).drop_last() =~= s);
}

pub proof fn lemma_count_true_none(n: nat)
    ensures
        count_true(Seq::new(n, |i: int| false)) == 0,
    decreases n,
{
    if n > 0 {
        assert(Seq::new(n, |i: int| false).drop_last() =~= Seq::new((n - 1) as nat, |i: int| false));
        lemma_count_true_none((n - 1) as nat);
    }
}

pub proof fn lemma_reaches_self(e: spec_fn(int, int) -> bool, a: int)
    ensures
        reaches(e, a, a),
{
    let p = seq![a];
    assert(is_path(e, p));
}

pub proof fn lemma_reaches_step(e: spec_fn(int, int) -> bool, a: int, b: int, c: int)
    requires
        reaches(e, a, b),
        e(b, c),
    ensures
        reaches(e, a, c),
{
    let p = choose|p: Seq<int>| #[trigger] is_path(e, p) && p[0] == a && p.last() == b;
    let q = p.push(c);
    assert forall|k: int| #![trigger q[k]] 0 <= k < q.len() - 1 implies e(q[k], q[k + 1]) by {
        if k < p.len() - 1 {
            assert(q[k] == p[k] && q[k + 1] == p[k + 1]);
        }
    }
    assert(is_path(e, q));
}

pub proof fn lemma_reaches_reversed(e: spec_fn(int, int) -> bool, a: int, b: int)
    ensures
        reaches(reversed(e), a, b) == reaches(e, b, a),
{
    if reaches(reversed(e), a, b) {
        let p = choose|p: Seq<int>| #[trigger] is_path(reversed(e), p) && p[0] == a && p.last() == b;
        let q = p.reverse();
        assert forall|k: int| #![trigger q[k]] 0 <= k < q.len() - 1 implies e(q[k], q[k + 1]) by {
            let j = p.len() - 2 - k;
            assert(reversed(e)(p[j], p[j + 1]));
        }
        assert(is_path(e, q));
    }
    if reaches(e, b, a) {
        let p = choose|p: Seq<int>| #[trigger] is_path(e, p) && p[0] == b && p.last() == a;
        let q = p.reverse();
        assert forall|k: int| #![trigger q[k]] 0 <= k < q.len() - 1 implies reversed(e)(
            q[k],
            q[k + 1],
        ) by {
            let j = p.len() - 2 - k;
            assert(e(p[j], p[j + 1]));
        }
        assert(is_path(reversed(e), q));
    }
}

/// A set that holds `a` and is closed under `e` holds every node reachable from `a`.
pub proof fn lemma_closed_holds_reachable(
    e: spec_fn(int, int) -> bool,
    vis: Seq<bool>,
    a: int,
    b: int,
)
    requires
        0 <= a < vis.len(),
        vis[a],
        forall|x: int, y: int| 0 <= x < vis.len() && vis[x] && #[trigger] e(x, y) ==> 0 <= y
            < vis.len() && vis[y],
        reaches(e, a, b),
    ensures
        0 <= b < vis.len() && vis[b],
{
    let p = choose|p: Seq<int>| #[trigger] is_path(e, p) && p[0] == a && p.last() == b;
    lemma_closed_path_prefix(e, vis, p, p.len() - 1);
}

proof fn lemma_closed_path_prefix(e: spec_fn(int, int) -> bool, vis: Seq<bool>, p: Seq<int>, k: int)
    requires
        is_path(e, p),
        0 <= k < p.len(),
        0 <= p[0] < vis.len(),
        vis[p[0]],
        forall|x: int, y: int| 0 <= x < vis.len() && vis[x] && #[trigger] e(x, y) ==> 0 <= y
            < vis.len() && vis[y],
    ensures
        0 <= p[k] < vis.len() && vis[p[k]],
    decreases k,
{
    if k > 0 {
        lemma_closed_path_prefix(e, vis, p, k - 1);
        assert(e(p[k - 1], p[k]));
    }
}

/// Breadth-first search from `start` along `adj`, stopping early once more than
/// `cap` nodes have been visited when the next node is taken from the queue.
/// Returns the visited flags and their number.
pub(crate) fn bfs(adj: &Vec<Vec<usize>>, start: usize, cap: usize, Ghost(e): Ghost<
    spec_fn(int, int) -> bool,
>) -> (r: (Vec<bool>, usize))
    requires
        start < adj.len(),
        adj_matches(adj@, adj.len() as int, e),
    ensures
        r.0.len() == adj.len(),
        r.1 == count_true(r.0@),
        r.0@[start as int],
        forall|v: int| 0 <= v < adj.len() && #[trigger] r.0@[v] ==> reaches(e, start as int, v),
        r.1 > cap || forall|v: int| 0 <= v < adj.len() ==> (#[trigger] r.0@[v] <==> reaches(
            e,
            start as int,
            v,
        )),
{
    let n = adj.len();
    let mut vis: Vec<bool> = Vec::new();
    let mut i: usize = 0;
    while i < n
        invariant
            0 <= i <= n,
            vis@ =~= Seq::new(i as nat, |j: int| false),
        decreases n - i,
    {
        vis.push(false);
        i += 1;
    }
    proof {
        lemma_count_true_none(n as nat);
        lemma_count_true_set(vis@, start as int);
        lemma_reaches_self(e, start as int);
    }
    vis.set(start, true);
    let mut count: usize = 1;
    let mut queue: Vec<usize> = Vec::new();
    queue.push(start);
    let mut head: usize = 0;
    let mut broke = false;
    assert forall|v: int| 0 <= v < n && #[trigger] vis@[v] implies exists|q: int|
        0 <= q < queue.len() && queue@[q] == v by {
        assert(v == start as int);
        assert(queue@[0] == start);
    }
    while head < queue.len()
        invariant_except_break
            !broke,
        invariant
            n == adj.len(),
            adj_matches(adj@, n as int, e),
            start < n,
            vis.len() == n,
            vis@[start as int],
            count == count_true(vis@),
            count == queue.len(),
            head <= queue.len(),
            forall|q: int| 0 <= q < queue.len() ==> (#[trigger] queue@[q]) < n && vis@[queue@[q] as int],
            forall|v: int| 0 <= v < n && #[trigger] vis@[v] ==> exists|q: int|
                0 <= q < queue.len() && queue@[q] == v,
            forall|v: int| 0 <= v < n && #[trigger] vis@[v] ==> reaches(e, start as int, v),
            forall|q: int, w: int|
                0 <= q < head && #[trigger] e(queue@[q] as int, w) ==> vis@[w],
        ensures
            broke ==> count > cap,
            !broke ==> head == queue.len(),
        decreases n - head,
    {
        proof {
            lemma_count_true_bound(vis@);
        }
        if count > cap {
            broke = true;
            break;
        }
        let u = queue[head];
        let nb = &adj[u];
        let mut j: usize = 0;
        while j < nb.len()
            invariant
                n == adj.len(),
                adj_matches(adj@, n as int, e),
                start < n,
                u < n,
                head < queue.len(),
                queue@[head as int] == u,
                *nb == adj@[u as int],
                vis@[u as int],
                0 <= j <= nb.len(),
                vis.len() == n,
                vis@[start as int],
                count == count_true(vis@),
                count == queue.len(),
                forall|q: int| 0 <= q < queue.len() ==> (#[trigger] queue@[q]) < n && vis@[queue@[q] as int],
                forall|v: int| 0 <= v < n && #[trigger] vis@[v] ==> exists|q: int|
                    0 <= q < queue.len() && queue@[q] == v,
                forall|v: int| 0 <= v < n && #[trigger] vis@[v] ==> reaches(e, start as int, v),
                forall|q: int, w: int|
                    0 <= q < head && #[trigger] e(queue@[q] as int, w) ==> vis@[w],
                forall|jj: int| 0 <= jj < j ==> vis@[#[trigger] nb@[jj] as int],
            decreases nb.len() - j,
        {
            let w = nb[j];
            assert(w < n && e(u as int, w as int));
            if !vis[w] {
                proof {
                    lemma_count_true_set(vis@, w as int);
                    lemma_count_true_bound(vis@.update(w as int, true));
                    lemma_reaches_step(e, start as int, u as int, w as int);
                }
                let ghost oq = queue@;
                let ghost ov = vis@;
                vis.set(w, true);
                queue.push(w);
                count += 1;
                assert(queue@[queue.len() - 1] == w);

                assert forall|v: int| 0 <= v < n && #[trigger] vis@[v] implies exists|q: int|
                    0 <= q < queue.len() && queue@[q] == v by {
                    if v == w as int {
                        assert(queue@[queue.len() - 1] == w);
                    } else {
                        assert(ov[v]);
                        let q = choose|q: int| 0 <= q < oq.len() && oq[q] == v;
                        assert(queue@[q] == v);
                    }
                }
            }
            j += 1;
        }
        assert forall|q: int, w: int| 0 <= q < head + 1 && #[trigger] e(queue@[q] as int, w) implies vis@[w] by {
            if q == head {
                assert(adj@[u as int]@.contains(w as usize));
                let jj = choose|jj: int| 0 <= jj < nb.len() && nb@[jj] == w as usize;
                assert(vis@[nb@[jj] as int]);
            }
        }
        head += 1;
    }
    if !broke {
        assert forall|v: int| 0 <= v < n implies (#[trigger] vis@[v] <==> reaches(e, start as int, v)) by {
            if reaches(e, start as int, v) {
                assert forall|x: int, y: int| 0 <= x < vis.len() && vis@[x] && #[trigger] e(x, y) implies 0 <= y < vis.len() && vis@[y] by {
                    let q = choose|q: int| 0 <= q < queue.len() && queue@[q] == x;
                    assert(e(queue@[q] as int, y));
                }
                lemma_closed_holds_reachable(e, vis@, start as int, v);
            }
        }
    }
    (vis, count)
}

/// `u` shares a component of `0..n` with some other node.
pub open spec fn nontrivial(e: spec_fn(int, int) -> bool, n: int, u: int) -> bool {
    exists|v: int| 0 <= v < n && v != u && #[trigger] mutual(e, u, v)
}

/// Every edge of `e` joins nodes of `0..n`.
pub open spec fn edges_within(e: spec_fn(int, int) -> bool, n: int) -> bool {
    forall|a: int, b: int| #[trigger] e(a, b) ==> 0 <= a < n && 0 <= b < n
}

pub proof fn lemma_path_prefix(e: spec_fn(int, int) -> bool, p: Seq<int>, i: int)
    requires
        is_path(e, p),
        1 <= i <= p.len(),
    ensures
        is_path(e, p.take(i)),
{
    let q = p.take(i);
    assert forall|k: int| #![trigger q[k]] 0 <= k < q.len() - 1 implies e(q[k], q[k + 1]) by {
        assert(q[k] == p[k] && q[k + 1] == p[k + 1]);
    }
}

pub proof fn lemma_path_suffix(e: spec_fn(int, int) -> bool, p: Seq<int>, i: int)
    requires
        is_path(e, p),
        0 <= i < p.len(),
    ensures
        is_path(e, p.skip(i)),
{
    let q = p.skip(i);
    assert forall|k: int| #![trigger q[k]] 0 <= k < q.len() - 1 implies e(q[k], q[k + 1]) by {
        assert(q[k] == p[i + k] && q[k + 1] == p[i + k + 1]);
    }
}

pub proof fn lemma_reaches_trans(e: spec_fn(int, int) -> bool, a: int, b: int, c: int)
    requires
        reaches(e, a, b),
        reaches(e, b, c),
    ensures
        reaches(e, a, c),
{
    let p = choose|p: Seq<int>| #[trigger] is_path(e, p) && p[0] == a && p.last() == b;
    let q = choose|q: Seq<int>| #[trigger] is_path(e, q) && q[0] == b && q.last() == c;
    let r = p + q.skip(1);
    assert forall|k: int| #![trigger r[k]] 0 <= k < r.len() - 1 implies e(r[k], r[k + 1]) by {
        if k < p.len() - 1 {
            assert(r[k] == p[k] && r[k + 1] == p[k + 1]);
        } else if k == p.len() - 1 {
            assert(r[k] == q[0] && r[k + 1] == q[1]);
        } else {
            let j = k - p.len() + 1;
            assert(r[k] == q[j] && r[k + 1] == q[j + 1]);
        }
    }
    assert(is_path(e, r));
    if q.len() == 1 {
        assert(r.last() == p.last());
    } else {
        assert(r.last() == q.last());
    }
}

proof fn lemma_first_occurrence(p: Seq<int>, x: int)
    requires
        p.contains(x),
    ensures
        exists|i: int| 0 <= i < p.len() && p[i] == x && forall|j: int| 0 <= j < i ==> p[j] != x,
    decreases p.len(),
{
    if p.drop_last().contains(x) {
        lemma_first_occurrence(p.drop_last(), x);
        let i = choose|i: int|
            0 <= i < p.drop_last().len() && p.drop_last()[i] == x && forall|j: int|
                0 <= j < i ==> p.drop_last()[j] != x;
        assert forall|j: int| 0 <= j < i implies p[j] != x by {
            assert(p[j] == p.drop_last()[j]);
        }
    } else {
        let i = p.len() - 1;
        assert forall|j: int| 0 <= j < i implies p[j] != x by {
            assert(p[j] == p.drop_last()[j]);
        }
    }
}

proof fn lemma_last_occurrence(p: Seq<int>, x: int)
    requires
        p.contains(x),
    ensures
        exists|i: int| 0 <= i < p.len() && p[i] == x && forall|j: int| i < j < p.len() ==> p[j] != x,
    decreases p.len(),
{
    if p.drop_first().contains(x) {
        lemma_last_occurrence(p.drop_first(), x);
        let i = choose|i: int|
            0 <= i < p.drop_first().len() && p.drop_first()[i] == x && forall|j: int|
                i < j < p.drop_first().len() ==> p.drop_first()[j] != x;
        assert forall|j: int| i + 1 < j < p.len() implies p[j] != x by {
            assert(p[j] == p.drop_first()[j - 1]);
        }
        assert(p[i + 1] == x);
    } else {
        assert forall|j: int| 0 < j < p.len() implies p[j] != x by {
            assert(p[j] == p.drop_first()[j - 1]);
        }
    }
}

/// A node in a component with another member has a predecessor in that component.
pub proof fn lemma_pred_in_component(e: spec_fn(int, int) -> bool, n: int, u: int)
    requires
        edges_within(e, n),
        nontrivial(e, n, u),
    ensures
        exists|a: int| 0 <= a < n && a != u && #[trigger] e(a, u) && nontrivial(e, n, a),
{
    let v = choose|v: int| 0 <= v < n && v != u && #[trigger] mutual(e, u, v);
    let p = choose|p: Seq<int>| #[trigger] is_path(e, p) && p[0] == v && p.last() == u;
    assert(p[p.len() - 1] == u);
    lemma_first_occurrence(p, u);
    let i = choose|i: int| 0 <= i < p.len() && p[i] == u && forall|j: int| 0 <= j < i ==> p[j] != u;
    assert(i >= 1);
    let a = p[i - 1];
    assert(e(p[i - 1], p[i]));
    assert(a != u);
    lemma_path_prefix(e, p, i);
    assert(p.take(i).last() == a);
    assert(reaches(e, v, a));
    lemma_reaches_trans(e, u, v, a);
    lemma_reaches_self(e, a);
    lemma_reaches_step(e, a, a, u);
    assert(mutual(e, a, u));
}

/// A node in a component with another member has a successor in that component.
pub proof fn lemma_succ_in_component(e: spec_fn(int, int) -> bool, n: int, u: int)
    requires
        edges_within(e, n),
        nontrivial(e, n, u),
    ensures
        exists|b: int|
            0 <= b < n && b != u && #[trigger] e(u, b) && mutual(e, u, b) && nontrivial(e, n, b),
{
    let v = choose|v: int| 0 <= v < n && v != u && #[trigger] mutual(e, u, v);
    let p = choose|p: Seq<int>| #[trigger] is_path(e, p) && p[0] == u && p.last() == v;
    assert(p[0] == u);
    lemma_last_occurrence(p, u);
    let i = choose|i: int|
        0 <= i < p.len() && p[i] == u && forall|j: int| i < j < p.len() ==> p[j] != u;
    assert(i < p.len() - 1);
    let b = p[i + 1];
    assert(e(p[i], p[i + 1]));
    assert(b != u);
    lemma_path_suffix(e, p, i + 1);
    assert(p.skip(i + 1)[0] == b);
    assert(p.skip(i + 1).last() == v);
    assert(reaches(e, b, v));
    lemma_reaches_trans(e, b, v, u);
    lemma_reaches_self(e, u);
    lemma_reaches_step(e, u, u, b);
    assert(mutual(e, b, u));
}

/// Whether some node listed in `list` is flagged in `alive`.
fn any_alive(list: &Vec<usize>, alive: &Vec<bool>) -> (b: bool)
    requires
        forall|j: int| 0 <= j < list.len() ==> (#[trigger] list@[j]) < alive.len(),
    ensures
        b == exists|j: int| 0 <= j < list.len() && #[trigger] alive@[list@[j] as int],
{
    let mut j: usize = 0;
    while j < list.len()
        invariant
            forall|j: int| 0 <= j < list.len() ==> (#[trigger] list@[j]) < alive.len(),
            0 <= j <= list.len(),
            forall|k: int| 0 <= k < j ==> !#[trigger] alive@[list@[k] as int],
        decreases list.len() - j,
    {
        if alive[list[j]] {
            return true;
        }
        j += 1;
    }
    false
}

/// Flags the nodes that may lie in a component with another member: nodes
/// without a flagged predecessor or without a flagged successor are cleared,
/// until no more can be.
fn trim_acyclic(fwd: &Vec<Vec<usize>>, bwd: &Vec<Vec<usize>>, Ghost(e): Ghost<
    spec_fn(int, int) -> bool,
>) -> (alive: Vec<bool>)
    requires
        fwd.len() == bwd.len(),
        adj_matches(fwd@, fwd.len() as int, e),
        adj_matches(bwd@, fwd.len() as int, reversed(e)),
    ensures
        alive.len() == fwd.len(),
        forall|u: int| 0 <= u < fwd.len() && !#[trigger] alive@[u] ==> !nontrivial(e, fwd.len() as int, u),
{
    let n = fwd.len();
    assert(edges_within(e, n as int));
    let mut alive: Vec<bool> = Vec::new();
    let mut i: usize = 0;
    while i < n
        invariant
            0 <= i <= n,
            alive.len() == i,
            forall|k: int| 0 <= k < i ==> #[trigger] alive@[k],
        decreases n - i,
    {
        alive.push(true);
        i += 1;
    }
    let mut changed = true;
    while changed
        invariant
            n == fwd.len(),
            fwd.len() == bwd.len(),
            adj_matches(fwd@, n as int, e),
            adj_matches(bwd@, n as int, reversed(e)),
            edges_within(e, n as int),
            alive.len() == n,
            forall|u: int| 0 <= u < n && !#[trigger] alive@[u] ==> !nontrivial(e, n as int, u),
        decreases count_true(alive@) + if changed {
            1int
        } else {
            0int
        },
    {
        let ghost start_count = count_true(alive@);
        changed = false;
        let mut u: usize = 0;
        while u < n
            invariant
                n == fwd.len(),
                fwd.len() == bwd.len(),
                adj_matches(fwd@, n as int, e),
                adj_matches(bwd@, n as int, reversed(e)),
                edges_within(e, n as int),
                alive.len() == n,
                0 <= u <= n,
                forall|u: int| 0 <= u < n && !#[trigger] alive@[u] ==> !nontrivial(e, n as int, u),
                !changed ==> count_true(alive@) == start_count,
                changed ==> count_true(alive@) < start_count,
            decreases n - u,
        {
            if alive[u] {
                let has_pred = any_alive(&bwd[u], &alive);
                let has_succ = any_alive(&fwd[u], &alive);
                if !has_pred || !has_succ {
                    proof {
                        if nontrivial(e, n as int, u as int) {
                            if !has_pred {
                                lemma_pred_in_component(e, n as int, u as int);
                                let a = choose|a: int|
                                    0 <= a < n && a != u && #[trigger] e(a, u as int) && nontrivial(
                                        e,
                                        n as int,
                                        a,
                                    );
                                assert(reversed(e)(u as int, a));
                                assert(bwd@[u as int]@.contains(a as usize));
                                let j = choose|j: int|
                                    0 <= j < bwd@[u as int]@.len() && bwd@[u as int]@[j] == a as usize;
                                assert(!alive@[bwd@[u as int]@[j] as int]);
                            } else {
                                lemma_succ_in_component(e, n as int, u as int);
                                let b = choose|b: int|
                                    0 <= b < n && b != u && #[trigger] e(u as int, b) && nontrivial(
                                        e,
                                        n as int,
                                        b,
                                    );
                                assert(fwd@[u as int]@.contains(b as usize));
                                let j = choose|j: int|
                                    0 <= j < fwd@[u as int]@.len() && fwd@[u as int]@[j] == b as usize;
                                assert(!alive@[fwd@[u as int]@[j] as int]);
                            }
                        }
                        lemma_count_true_set(alive@.update(u as int, false), u as int);
                        assert(alive@.update(u as int, false).update(u as int, true) =~= alive@);
                    }
                    alive.set(u, false);
                    changed = true;
                }
            }
            u += 1;
        }
    }
    alive
}

/// Number of strongly connected components with more than one member, given the
/// successor lists `fwd` and the predecessor lists `bwd` of the same graph.
pub(crate) fn count_scc_leaders(fwd: &Vec<Vec<usize>>, bwd: &Vec<Vec<usize>>, Ghost(e): Ghost<
    spec_fn(int, int) -> bool,
>) -> (c: usize)
    requires
        fwd.len() == bwd.len(),
        adj_matches(fwd@, fwd.len() as int, e),
        adj_matches(bwd@, fwd.len() as int, reversed(e)),
    ensures
        c == scc_count(e, fwd.len() as nat),
{
    let n = fwd.len();
    let alive = trim_acyclic(fwd, bwd, Ghost(e));
    let ghost leaders = Seq::new(n as nat, |x: int| is_scc_leader(e, n as int, x));
    let mut assigned: Vec<bool> = Vec::new();
    let mut i: usize = 0;
    while i < n
        invariant
            0 <= i <= n,
            assigned.len() == i,
            forall|k: int| 0 <= k < i ==> !#[trigger] assigned@[k],
        decreases n - i,
    {
        assigned.push(false);
        i += 1;
    }
    let mut c: usize = 0;
    let mut u: usize = 0;
    while u < n
        invariant
            n == fwd.len(),
            fwd.len() == bwd.len(),
            adj_matches(fwd@, n as int, e),
            adj_matches(bwd@, n as int, reversed(e)),
            leaders == Seq::new(n as nat, |x: int| is_scc_leader(e, n as int, x)),
            alive.len() == n,
            forall|x: int| 0 <= x < n && !#[trigger] alive@[x] ==> !nontrivial(e, n as int, x),
            assigned.len() == n,
            forall|v: int|
                0 <= v < n ==> (#[trigger] assigned@[v] <==> exists|w: int|
                    0 <= w < u && alive@[w] && #[trigger] mutual(e, w, v)),
            0 <= u <= n,
            c <= u,
            c == count_true(leaders.take(u as int)),
        decreases n - u,
    {
        if alive[u] && !assigned[u] {
            let (f, fc) = bfs(fwd, u, n, Ghost(e));
            let (b, bc) = bfs(bwd, u, n, Ghost(reversed(e)));
            proof {
                lemma_count_true_bound(f@);
                lemma_count_true_bound(b@);
            }
            let ghost before = assigned@;
            let mut has_other = false;
            let mut v: usize = 0;
            while v < n
                invariant
                    n == fwd.len(),
                    u < n,
                    0 <= v <= n,
                    f.len() == n,
                    b.len() == n,
                    assigned.len() == n,
                    forall|x: int| 0 <= x < n ==> (#[trigger] f@[x] <==> reaches(e, u as int, x)),
                    forall|x: int|
                        0 <= x < n ==> (#[trigger] b@[x] <==> reaches(reversed(e), u as int, x)),
                    forall|x: int|
                        0 <= x < n ==> (#[trigger] assigned@[x] <==> before[x] || (x < v && mutual(
                            e,
                            u as int,
                            x,
                        ))),
                    has_other <==> exists|x: int| 0 <= x < v && x != u && #[trigger] mutual(e, u as int, x),
                decreases n - v,
            {
                proof {
                    lemma_reaches_reversed(e, u as int, v as int);
                }
                if f[v] && b[v] {
                    assert(mutual(e, u as int, v as int));
                    assigned.set(v, true);
                    if v != u {
                        has_other = true;
                    }
                } else {
                    assert(!mutual(e, u as int, v as int));
                }
                v += 1;
            }
            assert forall|x: int| 0 <= x < u implies !#[trigger] mutual(e, u as int, x) by {
                if mutual(e, u as int, x) {
                    if alive@[x] {
                        assert(mutual(e, x, u as int));
                        assert(before[u as int]);
                    } else {
                        assert(nontrivial(e, n as int, x)) by {
                            assert(mutual(e, x, u as int));
                        }
                    }
                }
            }
            assert(leaders[u as int] == has_other);
            if has_other {
                c += 1;
            }
        } else {
            proof {
                if alive@[u as int] {
                    let w = choose|w: int| 0 <= w < u && alive@[w] && #[trigger] mutual(e, w, u as int);
                    assert(mutual(e, u as int, w));
                }
            }
            assert(!leaders[u as int]);
        }
        assert forall|v: int|
            0 <= v < n implies (#[trigger] assigned@[v] <==> exists|w: int|
                0 <= w < u + 1 && alive@[w] && #[trigger] mutual(e, w, v)) by {
            if alive@[u as int] && mutual(e, u as int, v) && !assigned@[v] {
                assert(false) by {
                    let w = choose|w: int| 0 <= w < u && alive@[w] && #[trigger] mutual(e, w, u as int);
                    lemma_reaches_trans(e, w, u as int, v);
                    lemma_reaches_trans(e, v, u as int, w);
                    assert(mutual(e, w, v));
                }
            }
        }
        assert(leaders.take(u + 1) =~= leaders.take(u as int).push(leaders[u as int]));
        proof {
            lemma_count_true_push(leaders.take(u as int), leaders[u as int]);
        }
        u += 1;
    }
    assert(leaders.take(n as int) =~= leaders);
    c
}

/// The component of `u` among `0..n`: the nodes that `u` reaches and that reach `u`.
pub open spec fn component(e: spec_fn(int, int) -> bool, n: int, u: int) -> Set<int> {
    Set::new(|v: int| 0 <= v < n && mutual(e, u, v))
}

/// The strongly connected components of `0..n` with more than one member.
pub open spec fn cycle_components(e: spec_fn(int, int) -> bool, n: int) -> Set<Set<int>> {
    Set::new(
        |c: Set<int>| exists|u: int| 0 <= u < n && c == component(e, n, u) && c.len() > 1,
    )
}

pub proof fn lemma_count_true_filter(n: nat, p: spec_fn(int) -> bool)
    ensures
        Set::new(|u: int| 0 <= u < n && p(u)).finite(),
        count_true(Seq::new(n, |u: int| p(u))) == Set::new(|u: int| 0 <= u < n && p(u)).len(),
    decreases n,
{
    let s = Set::new(|u: int| 0 <= u < n && p(u));
    if n == 0 {
        assert(s =~= Set::empty());
    } else {
        let m = (n - 1) as nat;
        lemma_count_true_filter(m, p);
        let t = Set::new(|u: int| 0 <= u < m && p(u));
        assert(Seq::new(n, |u: int| p(u)).drop_last() =~= Seq::new(m, |u: int| p(u)));
        if p(m as int) {
            assert(s =~= t.insert(m as int));
        } else {
            assert(s =~= t);
        }
    }
}

proof fn lemma_first_member(n: int, p: spec_fn(int) -> bool)
    requires
        exists|u: int| 0 <= u < n && #[trigger] p(u),
    ensures
        exists|u: int| 0 <= u < n && #[trigger] p(u) && forall|w: int| 0 <= w < u ==> !#[trigger] p(w),
    decreases n,
{
    if exists|u: int| 0 <= u < n - 1 && #[trigger] p(u) {
        lemma_first_member(n - 1, p);
    } else {
        assert(p(n - 1));
    }
}

pub proof fn lemma_component_finite(e: spec_fn(int, int) -> bool, n: int, u: int)
    requires
        n >= 0,
    ensures
        component(e, n, u).finite(),
        component(e, n, u).len() <= n,
{
    vstd::set_lib::lemma_int_range(0, n);
    assert(component(e, n, u).subset_of(vstd::set_lib::set_int_range(0, n)));
    vstd::set_lib::lemma_len_subset(component(e, n, u), vstd::set_lib::set_int_range(0, n));
}

pub proof fn lemma_two_members(s: Set<int>, a: int, b: int)
    requires
        s.finite(),
        s.contains(a),
        s.contains(b),
        a != b,
    ensures
        s.len() > 1,
{
    assert(s.remove(a).contains(b));
    assert(s.remove(a).len() == s.len() - 1);
    if s.remove(a).len() == 0 {
        assert(s.remove(a) =~= Set::empty());
    }
}

proof fn lemma_other_member(s: Set<int>, a: int)
    requires
        s.finite(),
        s.len() > 1,
    ensures
        exists|b: int| s.contains(b) && b != a,
{
    let r = s.remove(a);
    assert(r.len() >= 1);
    if r =~= Set::empty() {
        assert(r.len() == 0);
    }
    let b = r.choose();
    assert(r.contains(b));
}

/// The count of components with more than one member counts each such
/// component once: it is the number of distinct dependency cycles.
pub proof fn law_scc_count_counts_components(e: spec_fn(int, int) -> bool, n: nat)
    ensures
        cycle_components(e, n as int).finite(),
        scc_count(e, n) == cycle_components(e, n as int).len(),
{
    let ni = n as int;
    let leader = |u: int| is_scc_leader(e, ni, u);
    lemma_count_true_filter(n, leader);
    let l = Set::new(|u: int| 0 <= u < n && leader(u));
    assert(Seq::new(n, |u: int| leader(u)) =~= Seq::new(n, |u: int| is_scc_leader(e, ni, u)));
    let f = |u: int| component(e, ni, u);
    assert forall|u: int, w: int|
        l.contains(u) && l.contains(w) && #[trigger] f(u) == #[trigger] f(w) implies u == w by {
        lemma_reaches_self(e, w);
        assert(component(e, ni, w).contains(w));
        assert(component(e, ni, u).contains(w));
        assert(mutual(e, u, w));
        if u < w {
            assert(!mutual(e, w, u));
        }
        if w < u {
            assert(!mutual(e, u, w));
        }
    }
    assert forall|c: Set<int>| #[trigger] l.map(f).contains(c) == cycle_components(e, ni).contains(c) by {
        if l.map(f).contains(c) {
            let u = choose|u: int| l.contains(u) && f(u) == c;
            let v = choose|v: int| 0 <= v < ni && v != u && #[trigger] mutual(e, u, v);
            lemma_reaches_self(e, u);
            lemma_component_finite(e, ni, u);
            assert(component(e, ni, u).contains(u));
            assert(component(e, ni, u).contains(v));
            lemma_two_members(component(e, ni, u), u, v);
        }
        if cycle_components(e, ni).contains(c) {
            let x = choose|x: int| 0 <= x < ni && c == component(e, ni, x) && c.len() > 1;
            lemma_reaches_self(e, x);
            let p = |w: int| mutual(e, x, w);
            assert(p(x));
            lemma_first_member(ni, p);
            let m = choose|m: int| 0 <= m < ni && #[trigger] p(m) && forall|w: int| 0 <= w < m ==> !#[trigger] p(w);
            assert(component(e, ni, m) =~= c) by {
                assert forall|w: int| #[trigger] component(e, ni, m).contains(w) == c.contains(w) by {
                    if mutual(e, m, w) {
                        lemma_reaches_trans(e, x, m, w);
                        lemma_reaches_trans(e, w, m, x);
                    }
                    if mutual(e, x, w) {
                        lemma_reaches_trans(e, m, x, w);
                        lemma_reaches_trans(e, w, x, m);
                    }
                }
            }
            lemma_component_finite(e, ni, x);
            lemma_other_member(c, m);
            let b = choose|b: int| c.contains(b) && b != m;
            assert(component(e, ni, m).contains(b));
            assert(mutual(e, m, b));
            assert forall|w: int| 0 <= w < m implies !#[trigger] mutual(e, m, w) by {
                if mutual(e, m, w) {
                    lemma_reaches_trans(e, x, m, w);
                    lemma_reaches_trans(e, w, m, x);
                    assert(p(w));
                }
            }
            assert(is_scc_leader(e, ni, m));
            assert(l.contains(m));
            assert(f(m) == c);
        }
    }
    assert(l.map(f) =~= cycle_components(e, ni));
    vstd::set_lib::lemma_map_size(l, cycle_components(e, ni), f);
}

} // verus!
