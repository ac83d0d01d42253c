use vstd::prelude::*;
use crate::codec::utf8_lossy;
use crate::commit::{all_fields, commit_header, parent_tag, parse_commit};
use crate::object::{kind_of, payload_of, ObjectKind};
use crate::object_store::ObjectStore;

verus! {

/// The commit graph: node hashes and, per node, the indices of its parents.
pub struct CommitGraph {
    pub hashes: Vec<String>,
    pub parents: Vec<Vec<usize>>,
}

/// The parent lists as values.
pub open spec fn parent_view(ps: Seq<Vec<usize>>) -> Seq<Seq<usize>> {
    ps.map_values(|v: Vec<usize>| v@)
}

/// `b` is a parent of `a`.
pub open spec fn edge(g: Seq<Seq<usize>>, a: int, b: int) -> bool {
    0 <= a < g.len() && exists|k: int| 0 <= k < g[a].len() && g[a][k] == b
}

/// `b` is reached from `a` in at most `n` parent steps.
pub open spec fn reach_in(g: Seq<Seq<usize>>, a: int, b: int, n: nat) -> bool
    decreases n,
{
    a == b || (n > 0 && exists|c: int| #[trigger] edge(g, a, c) && reach_in(g, c, b, (n - 1) as nat))
}

/// `b` is an ancestor of `a` (or `a` itself).
pub open spec fn reaches(g: Seq<Seq<usize>>, a: int, b: int) -> bool {
    exists|n: nat| reach_in(g, a, b, n)
}

/// Every parent index names a node.
pub open spec fn edges_in_range(g: Seq<Seq<usize>>) -> bool {
    forall|a: int, k: int| 0 <= a < g.len() && 0 <= k < g[a].len() ==> (#[trigger] g[a][k]) < g.len()
}

/// Number of set flags.
pub open spec fn count_true(v: Seq<bool>) -> nat
    decreases v.len(),
{
    if v.len() == 0 {
        0
    } else {
        count_true(v.drop_last()) + if v.last() {
            1nat
        } else {
            0nat
        }
    }
}

pub(crate) proof fn lemma_count_true_le(v: Seq<bool>)
    ensures
        count_true(v) <= v.len(),
    decreases v.len(),
{
    if v.len() > 0 {
        lemma_count_true_le(v.drop_last());
    }
}

pub(crate) proof fn lemma_count_true_set(v: Seq<bool>, i: int)
    requires
        0 <= i < v.len(),
        !v[i],
    ensures
        count_true(v.update(i, true)) == count_true(v) + 1,
    decreases v.len(),
{
    let w = v.update(i, true);
    if i == v.len() - 1 {
        assert(w.drop_last() =~= v.drop_last());
    } else {
        assert(w.drop_last() =~= v.drop_last().update(i, true));
        lemma_count_true_set(v.drop_last(), i);
    }
}

pub(crate) proof fn lemma_reach_step(g: Seq<Seq<usize>>, s: int, x: int, p: int, n: nat)
    requires
        reach_in(g, s, x, n),
        edge(g, x, p),
    ensures
        reach_in(g, s, p, n + 1),
    decreases n,
{
    if s == x {
        assert(reach_in(g, p, p, 0));
        assert(edge(g, s, p) && reach_in(g, p, p, n));
    } else {
        let c = choose|c: int| #[trigger] edge(g, s, c) && reach_in(g, c, x, (n - 1) as nat);
        lemma_reach_step(g, c, x, p, (n - 1) as nat);
        assert(edge(g, s, c) && reach_in(g, c, p, n));
    }
}

proof fn lemma_closed_reach(g: Seq<Seq<usize>>, vis: Seq<bool>, a: int, b: int, n: nat)
    requires
        vis.len() == g.len(),
        0 <= a < g.len(),
        vis[a],
        forall|x: int, k: int| 0 <= x < g.len() && vis[x] && 0 <= k < g[x].len() ==> #[trigger] vis[g[x][k] as int],
        edges_in_range(g),
        reach_in(g, a, b, n),
    ensures
        0 <= b < g.len() && vis[b],
    decreases n,
{
    if a != b {
        let c = choose|c: int| #[trigger] edge(g, a, c) && reach_in(g, c, b, (n - 1) as nat);
        let k = choose|k: int| 0 <= k < g[a].len() && g[a][k] == c;
        assert(vis[g[a][k] as int]);
        lemma_closed_reach(g, vis, c, b, (n - 1) as nat);
    }
}

proof fn lemma_back_split(g: Seq<Seq<usize>>, s: int, y: int, m: nat)
    requires
        reach_in(g, s, y, m),
        s != y,
    ensures
        m >= 1,
        exists|x: int| #[trigger] reach_in(g, s, x, (m - 1) as nat) && edge(g, x, y),
    decreases m,
{
    let c = choose|c: int| #[trigger] edge(g, s, c) && reach_in(g, c, y, (m - 1) as nat);
    if c == y {
        assert(reach_in(g, s, s, (m - 1) as nat));
    } else {
        lemma_back_split(g, c, y, (m - 1) as nat);
        let x = choose|x: int| #[trigger] reach_in(g, c, x, (m - 2) as nat) && edge(g, x, y);
        assert(edge(g, s, c) && reach_in(g, c, x, (m - 2) as nat));
        assert(reach_in(g, s, x, (m - 1) as nat));
    }
}

proof fn lemma_bfs_min(g: Seq<Seq<usize>>, vis: Seq<bool>, dist: Seq<usize>, s: int, y: int, m: nat)
    requires
        vis.len() == g.len(),
        dist.len() == g.len(),
        0 <= s < g.len(),
        dist[s] == 0,
        edges_in_range(g),
        forall|j: int| 0 <= j < g.len() && reaches(g, s, j) ==> #[trigger] vis[j],
        forall|x: int, kk: int| 0 <= x < g.len() && vis[x] && 0 <= kk < g[x].len() ==> dist[#[trigger] g[x][kk] as int] <= dist[x] + 1,
        reach_in(g, s, y, m),
        0 <= y < g.len(),
    ensures
        dist[y] <= m,
    decreases m,
{
    if y != s {
        lemma_back_split(g, s, y, m);
        let x = choose|x: int| #[trigger] reach_in(g, s, x, (m - 1) as nat) && edge(g, x, y);
        let kk = choose|kk: int| 0 <= kk < g[x].len() && g[x][kk] == y;
        assert(0 <= x < g.len());
        lemma_bfs_min(g, vis, dist, s, x, (m - 1) as nat);
        assert(reaches(g, s, x));
        assert(vis[x]);
        assert(dist[g[x][kk] as int] <= dist[x] + 1);
    }
}

/// `i` is reached from `j` in `d` parent steps, and no node reached from both
/// has a smaller summed number of steps than that.
pub open spec fn ours_closest(g: Seq<Seq<usize>>, i: int, j: int, d: nat) -> bool {
    reach_in(g, j, i, d) && forall|x: int, n1: nat, n2: nat|
        #[trigger] reach_in(g, i, x, n1) && #[trigger] reach_in(g, j, x, n2) ==> d <= n1 + n2
}

/// `b` is reached from `i` and from `j` with the least summed number of
/// parent steps among all nodes reached from both.
pub open spec fn least_summed(g: Seq<Seq<usize>>, i: int, j: int, b: int) -> bool {
    exists|da: nat, db: nat| reach_in(g, i, b, da) && reach_in(g, j, b, db) && forall|x: int, n1: nat, n2: nat|
        #[trigger] reach_in(g, i, x, n1) && #[trigger] reach_in(g, j, x, n2) ==> da + db <= n1 + n2
}

proof fn lemma_reach_in_range(g: Seq<Seq<usize>>, a: int, b: int, n: nat)
    requires
        0 <= a < g.len(),
        edges_in_range(g),
        reach_in(g, a, b, n),
    ensures
        0 <= b < g.len(),
    decreases n,
{
    if a != b {
        let c = choose|c: int| #[trigger] edge(g, a, c) && reach_in(g, c, b, (n - 1) as nat);
        let k = choose|k: int| 0 <= k < g[a].len() && g[a][k] == c;
        assert(g[a][k] < g.len());
        lemma_reach_in_range(g, c, b, (n - 1) as nat);
    }
}

/// Breadth-first walk over parents from `start`: the flags mark exactly the
/// ancestors of `start` (itself included); `dist` holds each marked node's
/// number of parent steps in the walk, and `order` lists marked nodes in
/// the order the walk reached them.
pub fn ancestors(parents: &Vec<Vec<usize>>, start: usize) -> (r: (Vec<bool>, Vec<usize>, Vec<usize>))
    requires
        start < parents@.len(),
        edges_in_range(parent_view(parents@)),
    ensures
        r.0@.len() == parents@.len(),
        r.1@.len() == parents@.len(),
        forall|j: int| 0 <= j < parents@.len() ==> (#[trigger] r.0@[j] <==> reaches(parent_view(parents@), start as int, j)),
        forall|j: int| 0 <= j < parents@.len() ==> #[trigger] r.1@[j] <= parents@.len(),
        forall|q: int| 0 <= q < r.2@.len() ==> (#[trigger] r.2@[q]) < parents@.len() && r.0@[r.2@[q] as int],
        forall|j: int| 0 <= j < parents@.len() && #[trigger] r.0@[j] ==> exists|q: int| 0 <= q < r.2@.len() && r.2@[q] == j,
        r.1@[start as int] == 0,
        r.2@.len() > 0 && r.2@[0] == start,
        forall|j: int| 0 <= j < parents@.len() && #[trigger] r.0@[j] ==> reach_in(parent_view(parents@), start as int, j, r.1@[j] as nat),
        forall|j: int, m: nat| 0 <= j < parents@.len() && #[trigger] reach_in(parent_view(parents@), start as int, j, m) ==> r.1@[j] <= m,
{
    let ghost g = parent_view(parents@);
    let n = parents.len();
    let mut visited: Vec<bool> = Vec::new();
    let mut dist: Vec<usize> = Vec::new();
    let mut i: usize = 0;
    while i < n
        invariant
            n == parents@.len(),
            i <= n,
            visited@.len() == i,
            dist@.len() == i,
            forall|j: int| 0 <= j < i ==> !(#[trigger] visited@[j]),
            forall|j: int| 0 <= j < i ==> #[trigger] dist@[j] == 0,
        decreases n - i,
    {
        visited.push(false);
        dist.push(0);
        i = i + 1;
    }
    proof {
        assert(count_true(visited@) == 0) by {
            lemma_count_zero(visited@);
        }
        lemma_count_true_set(visited@, start as int);
        assert(reach_in(g, start as int, start as int, 0));
    }
    visited.set(start, true);
    let mut queue: Vec<usize> = Vec::new();
    queue.push(start);
    let mut head: usize = 0;
    proof {
        assert forall|j: int| 0 <= j < n && #[trigger] visited@[j] implies exists|q: int| 0 <= q < queue@.len() && queue@[q] == j by {
            assert(j == start as int);
            assert(queue@[0] == start);
        }
    }
    while head < queue.len()
        invariant
            n == parents@.len(),
            g == parent_view(parents@),
            edges_in_range(g),
            start < n,
            visited@.len() == n,
            dist@.len() == n,
            head <= queue@.len(),
            queue@.len() > 0 && queue@[0] == start,
            queue@.len() == count_true(visited@),
            visited@[start as int],
            dist@[start as int] == 0,
            forall|q: int| 0 <= q < queue@.len() ==> (#[trigger] queue@[q]) < n && visited@[queue@[q] as int],
            forall|j: int| 0 <= j < n && #[trigger] visited@[j] ==> exists|q: int| 0 <= q < queue@.len() && queue@[q] == j,
            forall|j: int| 0 <= j < n && #[trigger] visited@[j] ==> reaches(g, start as int, j),
            forall|j: int| 0 <= j < n ==> #[trigger] dist@[j] <= n,
            forall|q: int, k: int| 0 <= q < head && 0 <= k < g[queue@[q] as int].len() ==> #[trigger] visited@[g[queue@[q] as int][k] as int],
            forall|q: int| 0 <= q < queue@.len() ==> reach_in(g, start as int, #[trigger] queue@[q] as int, dist@[queue@[q] as int] as nat),
            forall|q1: int, q2: int| 0 <= q1 <= q2 < queue@.len() ==> dist@[#[trigger] queue@[q1] as int] <= dist@[#[trigger] queue@[q2] as int],
            head < queue@.len() ==> forall|q: int| 0 <= q < queue@.len() ==> dist@[#[trigger] queue@[q] as int] <= dist@[queue@[head as int] as int] + 1,
            forall|q: int| 0 <= q < queue@.len() ==> dist@[#[trigger] queue@[q] as int] <= q,
            forall|q: int, k: int| 0 <= q < head && 0 <= k < g[queue@[q] as int].len() ==> dist@[#[trigger] g[queue@[q] as int][k] as int] <= dist@[queue@[q] as int] + 1,
        decreases n - head,
    {
        proof {
            lemma_count_true_le(visited@);
        }
        let x = queue[head];
        let dx = dist[x];
        proof {
            lemma_count_true_le(visited@);
            assert(dist@[queue@[head as int] as int] <= head);
            assert forall|q: int| head <= q < queue@.len() implies dx <= dist@[#[trigger] queue@[q] as int] by {
                assert(dist@[queue@[head as int] as int] <= dist@[queue@[q] as int]);
            }
        }
        let ps = &parents[x];
        let ghost vis0 = visited@;
        let ghost q0 = queue@;
        let mut k: usize = 0;
        while k < ps.len()
            invariant
                n == parents@.len(),
                g == parent_view(parents@),
                edges_in_range(g),
                start < n,
                x < n,
                ps@ == g[x as int],
                reaches(g, start as int, x as int),
                head < queue@.len(),
                queue@.len() > 0 && queue@[0] == start,
                queue@[head as int] == x,
                visited@.len() == n,
                dist@.len() == n,
                k <= ps@.len(),
                queue@.len() == count_true(visited@),
                visited@[start as int],
                dist@[start as int] == 0,
                forall|q: int| 0 <= q < queue@.len() ==> (#[trigger] queue@[q]) < n && visited@[queue@[q] as int],
                forall|j: int| 0 <= j < n && #[trigger] visited@[j] ==> exists|q: int| 0 <= q < queue@.len() && queue@[q] == j,
                forall|j: int| 0 <= j < n && #[trigger] visited@[j] ==> reaches(g, start as int, j),
                forall|j: int| 0 <= j < n ==> #[trigger] dist@[j] <= n,
                forall|q: int, kk: int| 0 <= q < head && 0 <= kk < g[queue@[q] as int].len() ==> #[trigger] visited@[g[queue@[q] as int][kk] as int],
                forall|kk: int| 0 <= kk < k ==> #[trigger] visited@[ps@[kk] as int],
                forall|q: int| 0 <= q < q0.len() ==> queue@[q] == q0[q],
                q0.len() <= queue@.len(),
                forall|j: int| 0 <= j < n && vis0[j] ==> #[trigger] visited@[j],
                vis0.len() == n,
                dx == dist@[x as int],
                dx <= head,
                head < n,
                forall|q: int| 0 <= q < queue@.len() ==> reach_in(g, start as int, #[trigger] queue@[q] as int, dist@[queue@[q] as int] as nat),
                forall|q1: int, q2: int| 0 <= q1 <= q2 < queue@.len() ==> dist@[#[trigger] queue@[q1] as int] <= dist@[#[trigger] queue@[q2] as int],
                forall|q: int| 0 <= q < queue@.len() ==> dist@[#[trigger] queue@[q] as int] <= dx + 1,
                forall|q: int| head <= q < queue@.len() ==> dx <= dist@[#[trigger] queue@[q] as int],
                forall|q: int| 0 <= q < queue@.len() ==> dist@[#[trigger] queue@[q] as int] <= q,
                forall|q: int, kk: int| 0 <= q < head && 0 <= kk < g[queue@[q] as int].len() ==> dist@[#[trigger] g[queue@[q] as int][kk] as int] <= dist@[queue@[q] as int] + 1,
                forall|kk: int| 0 <= kk < k ==> dist@[#[trigger] ps@[kk] as int] <= dx + 1,
            decreases ps@.len() - k,
        {
            let p = ps[k];
            assert(g[x as int][k as int] == p);
            if !visited[p] {
                proof {
                    lemma_count_true_set(visited@, p as int);
                    lemma_count_true_le(visited@.update(p as int, true));
                    let m = choose|m: nat| reach_in(g, start as int, x as int, m);
                    assert(edge(g, x as int, p as int));
                    lemma_reach_step(g, start as int, x as int, p as int, m);
                }
                let ghost vpre = visited@;
                let ghost qpre = queue@;
                let ghost dpre = dist@;
                proof {
                    let m = choose|m: nat| reach_in(g, start as int, x as int, m) && m == dx as nat;
                    assert(reach_in(g, start as int, queue@[head as int] as int, dist@[queue@[head as int] as int] as nat));
                    lemma_reach_step(g, start as int, x as int, p as int, dx as nat);
                    assert forall|q: int| 0 <= q < qpre.len() implies qpre[q] != p by {
                        assert(vpre[qpre[q] as int]);
                    }
                }
                visited.set(p, true);
                let d = if dx < n { dx + 1 } else { n };
                dist.set(p, d);
                queue.push(p);
                proof {
                    assert(d == dx + 1);
                    assert forall|q: int| 0 <= q < qpre.len() implies dist@[#[trigger] queue@[q] as int] == dpre[qpre[q] as int] by {
                        assert(queue@[q] == qpre[q]);
                    }
                    assert(queue@[qpre.len() as int] == p);
                    assert forall|q: int| 0 <= q < queue@.len() implies reach_in(g, start as int, #[trigger] queue@[q] as int, dist@[queue@[q] as int] as nat) by {
                        if q < qpre.len() {
                            assert(queue@[q] == qpre[q]);
                        }
                    }
                    assert forall|q1: int, q2: int| 0 <= q1 <= q2 < queue@.len() implies dist@[#[trigger] queue@[q1] as int] <= dist@[#[trigger] queue@[q2] as int] by {
                        if q2 < qpre.len() {
                            assert(queue@[q1] == qpre[q1] && queue@[q2] == qpre[q2]);
                        } else if q1 < qpre.len() {
                            assert(queue@[q1] == qpre[q1]);
                        }
                    }
                    assert forall|q: int| 0 <= q < queue@.len() implies dist@[#[trigger] queue@[q] as int] <= dx + 1 by {
                        if q < qpre.len() {
                            assert(queue@[q] == qpre[q]);
                        }
                    }
                    assert forall|q: int| head <= q < queue@.len() implies dx <= dist@[#[trigger] queue@[q] as int] by {
                        if q < qpre.len() {
                            assert(queue@[q] == qpre[q]);
                        }
                    }
                    assert forall|q: int| 0 <= q < queue@.len() implies dist@[#[trigger] queue@[q] as int] <= q by {
                        if q < qpre.len() {
                            assert(queue@[q] == qpre[q]);
                        }
                    }
                    assert forall|q: int, kk: int| 0 <= q < head && 0 <= kk < g[queue@[q] as int].len() implies dist@[#[trigger] g[queue@[q] as int][kk] as int] <= dist@[queue@[q] as int] + 1 by {
                        assert(queue@[q] == qpre[q]);
                        assert(vpre[g[qpre[q] as int][kk] as int]);
                        assert(g[qpre[q] as int][kk] != p);
                    }
                    assert forall|kk: int| 0 <= kk < k + 1 implies dist@[#[trigger] ps@[kk] as int] <= dx + 1 by {
                        if kk < k {
                            assert(vpre[ps@[kk] as int]);
                            assert(ps@[kk] != p);
                        }
                    }
                    assert forall|j: int| 0 <= j < n && #[trigger] visited@[j] implies exists|q: int| 0 <= q < queue@.len() && queue@[q] == j by {
                        if j == p as int {
                            assert(queue@[queue@.len() - 1] == j);
                        } else {
                            assert(vpre[j]);
                            let q = choose|q: int| 0 <= q < qpre.len() && qpre[q] == j;
                            assert(queue@[q] == j);
                        }
                    }
                }
            }
            k = k + 1;
        }
        head = head + 1;
        proof {
            assert forall|q: int, kk: int| 0 <= q < head && 0 <= kk < g[queue@[q] as int].len() implies #[trigger] visited@[g[queue@[q] as int][kk] as int] by {
                if q == head - 1 {
                    assert(queue@[q] == x);
                    assert(g[x as int][kk] == ps@[kk]);
                } else {
                    assert(q < q0.len());
                    assert(queue@[q] == q0[q]);
                }
            }
        }
    }
    proof {
        assert forall|j: int| 0 <= j < n implies (#[trigger] visited@[j] <==> reaches(g, start as int, j)) by {
            if reaches(g, start as int, j) {
                let m = choose|m: nat| reach_in(g, start as int, j, m);
                assert forall|x: int, kk: int| 0 <= x < g.len() && visited@[x] && 0 <= kk < g[x].len() implies #[trigger] visited@[g[x][kk] as int] by {
                    let q = choose|q: int| 0 <= q < queue@.len() && queue@[q] == x;
                    assert(g[queue@[q] as int][kk] == g[x][kk]);
                }
                lemma_closed_reach(g, visited@, start as int, j, m);
            }
        }
    }
    proof {
        assert forall|x: int, kk: int| 0 <= x < g.len() && visited@[x] && 0 <= kk < g[x].len() implies dist@[#[trigger] g[x][kk] as int] <= dist@[x] + 1 by {
            let q = choose|q: int| 0 <= q < queue@.len() && queue@[q] == x;
            assert(g[queue@[q] as int][kk] == g[x][kk]);
        }
        assert forall|j: int, m: nat| 0 <= j < n && #[trigger] reach_in(g, start as int, j, m) implies dist@[j] <= m by {
            assert forall|jj: int| 0 <= jj < g.len() && reaches(g, start as int, jj) implies #[trigger] visited@[jj] by {}
            lemma_bfs_min(g, visited@, dist@, start as int, j, m);
        }
        assert forall|j: int| 0 <= j < n && #[trigger] visited@[j] implies reach_in(g, start as int, j, dist@[j] as nat) by {
            let q = choose|q: int| 0 <= q < queue@.len() && queue@[q] == j;
        }
    }
    let ghost vv = visited@;
    let ghost qv = queue@;
    let result = (visited, dist, queue);
    assert(result.0@ == vv && result.2@ == qv);
    assert forall|j: int| 0 <= j < parents@.len() && #[trigger] result.0@[j] implies exists|q: int| 0 <= q < result.2@.len() && result.2@[q] == j by {
        assert(vv[j]);
    }
    result
}

proof fn lemma_count_zero(v: Seq<bool>)
    requires
        forall|j: int| 0 <= j < v.len() ==> !(#[trigger] v[j]),
    ensures
        count_true(v) == 0,
    decreases v.len(),
{
    if v.len() > 0 {
        lemma_count_zero(v.drop_last());
    }
}

/// The parent hashes that the store records for commit `h`: none for an
/// absent object, one that is not a commit, or a commit that does not read.
pub open spec fn store_parents(m: Map<Seq<char>, Seq<u8>>, h: Seq<char>) -> Seq<Seq<char>> {
    if m.contains_key(h) && kind_of(m[h]) == Some(ObjectKind::Commit) && crate::commit::persons_ok(
        commit_header(payload_of(m[h]).unwrap()),
    ) {
        all_fields(commit_header(payload_of(m[h]).unwrap()), parent_tag()).map_values(|r: Seq<u8>| utf8_lossy(r))
    } else {
        seq![]
    }
}

impl CommitGraph {
    /// Parent lists fit the nodes, every parent index names a node, and
    /// no hash names two nodes.
    pub open spec fn wf(&self) -> bool {
        &&& self.hashes@.len() == self.parents@.len()
        &&& edges_in_range(parent_view(self.parents@))
        &&& forall|i: int, j: int| 0 <= i < j < self.hashes@.len() ==> (#[trigger] self.hashes@[i])@ != (#[trigger] self.hashes@[j])@
    }

    /// Node `i` carries hash `h`.
    pub open spec fn node(&self, h: Seq<char>, i: int) -> bool {
        0 <= i < self.hashes@.len() && self.hashes@[i]@ == h
    }

    /// `anc` is `desc` or an ancestor of it through parent links.
    pub open spec fn is_ancestor(&self, anc: Seq<char>, desc: Seq<char>) -> bool {
        anc == desc || exists|i: int, j: int|
            self.node(desc, i) && self.node(anc, j) && #[trigger] reaches(parent_view(self.parents@), i, j)
    }

    /// The parent hashes of node `i`.
    pub open spec fn parent_hashes(&self, i: int) -> Seq<Seq<char>> {
        self.parents@[i]@.map_values(|p: usize| self.hashes@[p as int]@)
    }

    /// The graph holds every object of the store, with the parents the store
    /// records for it; other nodes are parents missing from the store.
    pub open spec fn describes(&self, m: Map<Seq<char>, Seq<u8>>) -> bool {
        &&& forall|h: Seq<char>| #[trigger] m.contains_key(h) ==> exists|i: int| self.node(h, i)
        &&& forall|i: int| 0 <= i < self.hashes@.len() ==> #[trigger] self.parent_hashes(i) == store_parents(m, self.hashes@[i]@)
    }

    /// The node carrying `h`, if any.
    pub fn index_of(&self, h: &str) -> (r: Option<usize>)
        requires
            self.wf(),
        ensures
            r.is_some() ==> self.node(h@, r.unwrap() as int),
            r.is_none() ==> forall|i: int| !self.node(h@, i),
    {
        let s = h.to_owned();
        let mut i: usize = 0;
        while i < self.hashes.len()
            invariant
                s@ == h@,
                i <= self.hashes@.len(),
                forall|j: int| 0 <= j < i ==> !self.node(h@, j),
            decreases self.hashes@.len() - i,
        {
            if self.hashes[i] == s {
                return Some(i);
            }
            i = i + 1;
        }
        None
    }

    /// The commit graph of every object in the store.
    pub fn from_store(store: &ObjectStore) -> (g: CommitGraph)
        requires
            store.wf(),
        ensures
            g.wf(),
            g.describes(store@),
    {
        let hs = store.hashes();
        let s = hs.len();
        let mut g = CommitGraph { hashes: Vec::new(), parents: Vec::new() };
        let mut i: usize = 0;
        while i < s
            invariant
                s == hs@.len(),
                i <= s,
                g.hashes@.len() == i,
                g.parents@.len() == i,
                forall|j: int| 0 <= j < i ==> (#[trigger] g.hashes@[j])@ == hs@[j]@,
                forall|j: int| 0 <= j < i ==> (#[trigger] g.parents@[j])@.len() == 0,
            decreases s - i,
        {
            g.hashes.push(hs[i].clone());
            g.parents.push(Vec::new());
            i = i + 1;
        }
        assert(g.wf()) by {
            assert forall|a: int, b: int| 0 <= a < b < g.hashes@.len() implies (#[trigger] g.hashes@[a])@ != (#[trigger] g.hashes@[b])@ by {
                assert(hs@[a]@ != hs@[b]@);
            }
        }
        let mut k: usize = 0;
        while k < s
            invariant
                store.wf(),
                s == hs@.len(),
                k <= s,
                g.wf(),
                s <= g.hashes@.len(),
                forall|j: int| 0 <= j < s ==> (#[trigger] g.hashes@[j])@ == hs@[j]@,
                forall|i: int| 0 <= i < hs@.len() ==> store@.contains_key(#[trigger] hs@[i]@),
                forall|h: Seq<char>| #[trigger] store@.contains_key(h) ==> exists|i: int| 0 <= i < hs@.len() && hs@[i]@ == h,
                forall|j: int| 0 <= j < k ==> #[trigger] g.parent_hashes(j) == store_parents(store@, g.hashes@[j]@),
                forall|j: int| s <= j < g.hashes@.len() ==> (#[trigger] g.parents@[j])@.len() == 0,
                forall|j: int| s <= j < g.hashes@.len() ==> !store@.contains_key((#[trigger] g.hashes@[j])@),
            decreases s - k,
        {
            let plist = g.commit_parents_of(store, hs[k].as_str());
            let ghost before = g;
            let mut idx: Vec<usize> = Vec::new();
            let mut q: usize = 0;
            while q < plist.len()
                invariant
                    store.wf(),
                    s == hs@.len(),
                    k < s,
                    g.wf(),
                    s <= g.hashes@.len(),
                    before.hashes@.len() <= g.hashes@.len(),
                    forall|j: int| 0 <= j < before.hashes@.len() ==> (#[trigger] g.hashes@[j]) == before.hashes@[j],
                    forall|j: int| 0 <= j < before.hashes@.len() ==> (#[trigger] g.parents@[j]) == before.parents@[j],
                    forall|j: int| 0 <= j < s ==> (#[trigger] g.hashes@[j])@ == hs@[j]@,
                    forall|i: int| 0 <= i < hs@.len() ==> store@.contains_key(#[trigger] hs@[i]@),
                    forall|h: Seq<char>| #[trigger] store@.contains_key(h) ==> exists|i: int| 0 <= i < hs@.len() && hs@[i]@ == h,
                    forall|j: int| s <= j < g.hashes@.len() ==> (#[trigger] g.parents@[j])@.len() == 0,
                forall|j: int| s <= j < g.hashes@.len() ==> !store@.contains_key((#[trigger] g.hashes@[j])@),
                    q <= plist@.len(),
                    idx@.len() == q,
                    forall|t: int| 0 <= t < q ==> (#[trigger] idx@[t]) < g.hashes@.len() && g.hashes@[idx@[t] as int]@ == plist@[t]@,
                decreases plist@.len() - q,
            {
                let p = &plist[q];
                match g.index_of(p.as_str()) {
                    Some(j) => {
                        idx.push(j);
                    },
                    None => {
                        proof {
                            if store@.contains_key(p@) {
                                let i = choose|i: int| 0 <= i < hs@.len() && hs@[i]@ == p@;
                                assert(g.node(p@, i));
                            }
                        }
                        let ghost gh = g.hashes@;
                        let ghost gold = g;
                        let ghost gp_old = g.parents@;
                        g.hashes.push(p.clone());
                        g.parents.push(Vec::new());
                        idx.push(g.hashes.len() - 1);
                        proof {
                            assert forall|a: int, b: int| 0 <= a < b < g.hashes@.len() implies (#[trigger] g.hashes@[a])@ != (#[trigger] g.hashes@[b])@ by {
                                if b == g.hashes@.len() - 1 {
                                    assert(!gold.node(p@, a));
                                    assert(g.hashes@[a] == gh[a]);
                                } else {
                                    assert(g.hashes@[a] == gh[a] && g.hashes@[b] == gh[b]);
                                }
                            }
                            assert(edges_in_range(parent_view(g.parents@))) by {
                                assert forall|a: int, kk: int| 0 <= a < parent_view(g.parents@).len() && 0 <= kk < parent_view(g.parents@)[a].len() implies (#[trigger] parent_view(g.parents@)[a][kk]) < parent_view(g.parents@).len() by {
                                    if a < g.parents@.len() - 1 {
                                        assert(g.parents@[a] == gp_old[a]);
                                        assert(parent_view(g.parents@)[a] == parent_view(gp_old)[a]);
                                        assert(parent_view(gp_old)[a][kk] < gp_old.len());
                                    }
                                }
                            }
                        }
                    },
                }
                q = q + 1;
            }
            let ghost gp = g.parents@;
            g.parents.set(k, idx);
            proof {
                assert forall|j: int| s <= j < g.hashes@.len() implies (#[trigger] g.parents@[j])@.len() == 0 by {
                    assert(g.parents@[j] == gp[j]);
                }
                assert forall|a: int, kk: int| 0 <= a < parent_view(g.parents@).len() && 0 <= kk < parent_view(g.parents@)[a].len() implies (#[trigger] parent_view(g.parents@)[a][kk]) < parent_view(g.parents@).len() by {
                    if a != k {
                        assert(g.parents@[a] == gp[a]);
                        assert(parent_view(gp)[a][kk] < gp.len());
                    }
                }
                assert(g.parent_hashes(k as int) =~= plist@.map_values(|x: String| x@));
                assert forall|j: int| 0 <= j < k + 1 implies #[trigger] g.parent_hashes(j) == store_parents(store@, g.hashes@[j]@) by {
                    if j < k {
                        assert(g.parents@[j] == gp[j]);
                        assert(gp[j] == before.parents@[j]);
                        assert forall|t: int| 0 <= t < g.parents@[j]@.len() implies g.parent_hashes(j)[t] == before.parent_hashes(j)[t] by {
                            let pi = before.parents@[j]@[t];
                            assert(parent_view(before.parents@)[j][t] == pi);
                            assert(pi < before.hashes@.len());
                            assert(g.hashes@[pi as int] == before.hashes@[pi as int]);
                        }
                        assert(g.parent_hashes(j) =~= before.parent_hashes(j));
                    }
                }
            }
            k = k + 1;
        }
        proof {
            assert forall|h: Seq<char>| #[trigger] store@.contains_key(h) implies exists|i: int| g.node(h, i) by {
                let i = choose|i: int| 0 <= i < hs@.len() && hs@[i]@ == h;
                assert(g.node(h, i));
            }
            assert forall|i: int| 0 <= i < g.hashes@.len() implies #[trigger] g.parent_hashes(i) == store_parents(store@, g.hashes@[i]@) by {
                if i >= s {
                    assert(g.parent_hashes(i) =~= seq![]);
                }
            }
        }
        g
    }

    fn commit_parents_of(&self, store: &ObjectStore, h: &str) -> (r: Vec<String>)
        requires
            store.wf(),
            store@.contains_key(h@),
        ensures
            r@.map_values(|x: String| x@) == store_parents(store@, h@),
    {
        match store.get(h) {
            Ok(frame) => match parse_commit(frame.as_slice()) {
                Ok(c) => c.parents,
                Err(_) => {
                    assert(store_parents(store@, h@) =~= seq![]);
                    Vec::new()
                },
            },
            Err(_) => Vec::new(),
        }
    }
}

/// Whether `our_commit` is `their_commit` or one of its ancestors, so that a
/// merge can simply move forward to theirs.
pub fn can_fast_forward(graph: &CommitGraph, our_commit: &str, their_commit: &str) -> (r: bool)
    requires
        graph.wf(),
    ensures
        r == graph.is_ancestor(our_commit@, their_commit@),
{
    let a = our_commit.to_owned();
    let b = their_commit.to_owned();
    if a == b {
        return true;
    }
    match (graph.index_of(their_commit), graph.index_of(our_commit)) {
        (Some(i), Some(j)) => {
            let (vis, _, _) = ancestors(&graph.parents, i);
            proof {
                if graph.is_ancestor(our_commit@, their_commit@) {
                    let (i2, j2) = choose|i2: int, j2: int| graph.node(their_commit@, i2) && graph.node(our_commit@, j2) && #[trigger] reaches(parent_view(graph.parents@), i2, j2);
                    assert(i2 == i as int);
                    assert(j2 == j as int);
                }
            }
            vis[j]
        },
        _ => false,
    }
}

/// The common ancestor of two commits with the least sum of walk distances
/// from both (the first one reached from `commit1` on a tie); the commit
/// itself when both are the same; `None` when they share no ancestor.
pub fn find_merge_base(graph: &CommitGraph, commit1: &str, commit2: &str) -> (r: Option<String>)
    requires
        graph.wf(),
    ensures
        commit1@ == commit2@ ==> r.is_some() && r.unwrap()@ == commit1@,
        r.is_some() ==> graph.is_ancestor(r.unwrap()@, commit1@) && graph.is_ancestor(r.unwrap()@, commit2@),
        r.is_none() ==> forall|c: Seq<char>| !(#[trigger] graph.is_ancestor(c, commit1@) && graph.is_ancestor(c, commit2@)),
        commit1@ != commit2@ && r.is_some() ==> exists|i: int, j: int, b: int|
            graph.node(commit1@, i) && graph.node(commit2@, j) && graph.node(r.unwrap()@, b)
            && #[trigger] least_summed(parent_view(graph.parents@), i, j, b),
        (exists|i: int, j: int, d: nat| graph.node(commit1@, i) && graph.node(commit2@, j)
            && #[trigger] ours_closest(parent_view(graph.parents@), i, j, d)) ==> r.is_some() && r.unwrap()@ == commit1@,
{
    let a = commit1.to_owned();
    let b = commit2.to_owned();
    if a == b {
        return Some(a);
    }
    let ghost g = parent_view(graph.parents@);
    match (graph.index_of(commit1), graph.index_of(commit2)) {
        (Some(i), Some(j)) => {
            let (va, da, order) = ancestors(&graph.parents, i);
            let (vb, db, _) = ancestors(&graph.parents, j);
            let mut best: Option<usize> = None;
            let mut best_sum: u128 = 0;
            let mut q: usize = 0;
            let ghost ff = exists|d: nat| #[trigger] ours_closest(g, i as int, j as int, d);
            let ghost dd: nat = if ff { choose|d: nat| #[trigger] ours_closest(g, i as int, j as int, d) } else { 0 };
            while q < order.len()
                invariant
                    graph.wf(),
                    g == parent_view(graph.parents@),
                    i < graph.hashes@.len(),
                    j < graph.hashes@.len(),
                    va@.len() == graph.hashes@.len(),
                    vb@.len() == graph.hashes@.len(),
                    da@.len() == graph.hashes@.len(),
                    db@.len() == graph.hashes@.len(),
                    forall|x: int| 0 <= x < graph.hashes@.len() ==> (#[trigger] va@[x] <==> reaches(g, i as int, x)),
                    forall|x: int| 0 <= x < graph.hashes@.len() ==> (#[trigger] vb@[x] <==> reaches(g, j as int, x)),
                    forall|t: int| 0 <= t < order@.len() ==> (#[trigger] order@[t]) < graph.hashes@.len() && va@[order@[t] as int],
                    q <= order@.len(),
                    best.is_some() ==> best.unwrap() < graph.hashes@.len() && va@[best.unwrap() as int] && vb@[best.unwrap() as int],
                    best.is_none() ==> forall|t: int| 0 <= t < q ==> !vb@[#[trigger] order@[t] as int],
                    best.is_some() ==> best_sum == da@[best.unwrap() as int] + db@[best.unwrap() as int],
                    order@.len() > 0 && order@[0] == i,
                    da@[i as int] == 0,
                    ff ==> ours_closest(g, i as int, j as int, dd),
                    forall|y: int| 0 <= y < graph.hashes@.len() && #[trigger] va@[y] ==> reach_in(g, i as int, y, da@[y] as nat),
                    forall|y: int| 0 <= y < graph.hashes@.len() && #[trigger] vb@[y] ==> reach_in(g, j as int, y, db@[y] as nat),
                    forall|y: int, m: nat| 0 <= y < graph.hashes@.len() && #[trigger] reach_in(g, j as int, y, m) ==> db@[y] <= m,
                    ff && q >= 1 ==> best == Some(i) && best_sum <= dd,
                    q == 0 ==> best.is_none(),
                    best.is_some() ==> forall|t: int| 0 <= t < q && vb@[#[trigger] order@[t] as int]
                        ==> best_sum <= da@[order@[t] as int] + db@[order@[t] as int],
                decreases order@.len() - q,
            {
                let x = order[q];
                proof {
                    if ff {
                        if q == 0 {
                            assert(x == i);
                            assert(reaches(g, j as int, i as int));
                            assert(vb@[i as int]);
                            assert(db@[i as int] <= dd);
                        } else if vb@[x as int] {
                            assert(va@[x as int]);
                            assert(reach_in(g, i as int, x as int, da@[x as int] as nat));
                            assert(reach_in(g, j as int, x as int, db@[x as int] as nat));
                            assert(dd <= da@[x as int] as nat + db@[x as int] as nat);
                        }
                    }
                }
                if vb[x] {
                    let sum: u128 = (da[x] as u128) + (db[x] as u128);
                    match best {
                        None => {
                            best = Some(x);
                            best_sum = sum;
                        },
                        Some(_) => {
                            if sum < best_sum {
                                best = Some(x);
                                best_sum = sum;
                            }
                        },
                    }
                }
                q = q + 1;
            }
            match best {
                Some(x) => {
                    proof {
                        assert(graph.node(graph.hashes@[x as int]@, x as int));
                        let gg = parent_view(graph.parents@);
                        assert(reach_in(gg, i as int, x as int, da@[x as int] as nat));
                        assert(reach_in(gg, j as int, x as int, db@[x as int] as nat));
                        assert forall|y: int, n1: nat, n2: nat| #[trigger] reach_in(gg, i as int, y, n1) && #[trigger] reach_in(gg, j as int, y, n2)
                            implies da@[x as int] + db@[x as int] <= n1 + n2 by {
                            lemma_reach_in_range(gg, i as int, y, n1);
                            assert(reaches(gg, i as int, y));
                            assert(reaches(gg, j as int, y));
                            assert(va@[y] && vb@[y]);
                            let t = choose|t: int| 0 <= t < order@.len() && order@[t] == y;
                            assert(vb@[order@[t] as int]);
                        }
                        assert(least_summed(gg, i as int, j as int, x as int));
                        assert(graph.node(commit1@, i as int));
                        assert(graph.node(commit2@, j as int));
                        assert(reaches(g, i as int, x as int));
                        assert(reaches(g, j as int, x as int));
                    }
                    Some(graph.hashes[x].clone())
                },
                None => {
                    proof {
                        assert forall|c: Seq<char>| !(#[trigger] graph.is_ancestor(c, commit1@) && graph.is_ancestor(c, commit2@)) by {
                            if graph.is_ancestor(c, commit1@) && graph.is_ancestor(c, commit2@) {
                                let x = common_node(graph, c, commit1@, commit2@, i as int, j as int);
                                assert(va@[x] && vb@[x]);
                                let t = choose|t: int| 0 <= t < order@.len() && order@[t] == x;
                                assert(!vb@[order@[t] as int]);
                            }
                        }
                    }
                    None
                },
            }
        },
        (oi, oj) => {
            proof {
                assert forall|c: Seq<char>| !(#[trigger] graph.is_ancestor(c, commit1@) && graph.is_ancestor(c, commit2@)) by {
                    if graph.is_ancestor(c, commit1@) && graph.is_ancestor(c, commit2@) {
                        if oi.is_none() {
                            assert(c == commit1@);
                            assert(c == commit2@);
                        } else {
                            assert(c == commit2@);
                            assert(c == commit1@);
                        }
                    }
                }
            }
            None
        },
    }
}

proof fn common_node(graph: &CommitGraph, c: Seq<char>, c1: Seq<char>, c2: Seq<char>, i: int, j: int) -> (x: int)
    requires
        graph.wf(),
        graph.node(c1, i),
        graph.node(c2, j),
        c1 != c2,
        graph.is_ancestor(c, c1),
        graph.is_ancestor(c, c2),
    ensures
        0 <= x < graph.hashes@.len(),
        reaches(parent_view(graph.parents@), i, x),
        reaches(parent_view(graph.parents@), j, x),
{
    let g = parent_view(graph.parents@);
    if c == c1 {
        assert(reach_in(g, i, i, 0));
        let (i2, j2) = choose|i2: int, j2: int| graph.node(c2, i2) && graph.node(c, j2) && #[trigger] reaches(g, i2, j2);
        assert(i2 == j);
        assert(j2 == i);
        i
    } else if c == c2 {
        assert(reach_in(g, j, j, 0));
        let (i2, j2) = choose|i2: int, j2: int| graph.node(c1, i2) && graph.node(c, j2) && #[trigger] reaches(g, i2, j2);
        assert(i2 == i);
        assert(j2 == j);
        j
    } else {
        let (i1, x1) = choose|i1: int, x1: int| graph.node(c1, i1) && graph.node(c, x1) && #[trigger] reaches(g, i1, x1);
        let (i2, x2) = choose|i2: int, x2: int| graph.node(c2, i2) && graph.node(c, x2) && #[trigger] reaches(g, i2, x2);
        assert(i1 == i);
        assert(i2 == j);
        assert(x1 == x2);
        x1
    }
}

/// The commits of the history of `start`, depth first with the first parent
/// first, each once, at most `max_count` of them; a start that names no
/// commit of the graph lists only itself. Without a limit every ancestor is
/// listed.
pub fn history(graph: &CommitGraph, start: &str, max_count: Option<usize>) -> (r: Vec<String>)
    requires
        graph.wf(),
    ensures
        forall|k: int| 0 <= k < r@.len() ==> graph.is_ancestor(#[trigger] r@[k]@, start@),
        forall|a: int, b: int| 0 <= a < b < r@.len() ==> (#[trigger] r@[a])@ != (#[trigger] r@[b])@,
        max_count.is_some() ==> r@.len() <= max_count.unwrap(),
        max_count.is_none() && graph.hashes@.len() < usize::MAX ==> forall|c: Seq<char>|
            #[trigger] graph.is_ancestor(c, start@) ==> exists|k: int| 0 <= k < r@.len() && r@[k]@ == c,
{
    let mut out: Vec<String> = Vec::new();
    let limit: usize = match max_count {
        Some(m) => m,
        None => usize::MAX,
    };
    let s = match graph.index_of(start) {
        None => {
            if limit > 0 {
                out.push(start.to_owned());
            }
            proof {
                assert forall|c: Seq<char>| #[trigger] graph.is_ancestor(c, start@) implies c == start@ by {}
                if limit > 0 {
                    assert(out@[0]@ == start@);
                }
            }
            return out;
        },
        Some(i) => i,
    };
    let ghost g = parent_view(graph.parents@);
    let n = graph.hashes.len();
    let mut visited: Vec<bool> = Vec::new();
    let mut i: usize = 0;
    while i < n
        invariant
            n == graph.hashes@.len(),
            i <= n,
            visited@.len() == i,
            forall|j: int| 0 <= j < i ==> !(#[trigger] visited@[j]),
        decreases n - i,
    {
        visited.push(false);
        i = i + 1;
    }
    let ghost mut place: Seq<int> = Seq::new(n as nat, |j: int| 0int);
    let mut stack: Vec<usize> = vec![s];
    proof {
        assert(reach_in(g, s as int, s as int, 0));
        lemma_count_zero_pub(visited@);
    }
    while stack.len() > 0 && out.len() < limit
        invariant
            graph.wf(),
            g == parent_view(graph.parents@),
            n == graph.hashes@.len(),
            n == graph.parents@.len(),
            s < n,
            graph.node(start@, s as int),
            visited@.len() == n,
            place.len() == n,
            out@.len() == count_true(visited@),
            out@.len() <= limit,
            max_count.is_some() ==> limit == max_count.unwrap(),
            max_count.is_none() ==> limit == usize::MAX,
            visited@[s as int] || (stack@.len() == 1 && stack@[0] == s),
            forall|q: int| 0 <= q < stack@.len() ==> (#[trigger] stack@[q]) < n && reaches(g, s as int, stack@[q] as int),
            forall|k: int| 0 <= k < out@.len() ==> graph.is_ancestor(#[trigger] out@[k]@, start@),
            forall|a: int, b: int| 0 <= a < b < out@.len() ==> (#[trigger] out@[a])@ != (#[trigger] out@[b])@,
            forall|k: int, j: int| 0 <= k < out@.len() && 0 <= j < n && !visited@[j] ==> (#[trigger] out@[k])@ != (#[trigger] graph.hashes@[j])@,
            forall|j: int| 0 <= j < n && #[trigger] visited@[j] ==> 0 <= place[j] < out@.len() && out@[place[j]]@ == graph.hashes@[j]@,
            forall|j: int, kk: int| 0 <= j < n && visited@[j] && 0 <= kk < g[j].len() ==>
                visited@[#[trigger] g[j][kk] as int] || exists|q: int| 0 <= q < stack@.len() && stack@[q] == g[j][kk],
        decreases n - count_true(visited@), stack@.len(),
    {
        proof {
            lemma_count_true_le(visited@);
        }
        let ghost st_before = stack@;
        let x = stack.pop().unwrap();
        proof {
            assert(stack@ =~= st_before.drop_last());
            assert(x == st_before.last());
        }
        if !visited[x] {
            proof {
                lemma_count_true_set(visited@, x as int);
            }
            let ghost v0 = visited@;
            visited.set(x, true);
            let h = graph.hashes[x].clone();
            proof {
                lemma_count_true_le(visited@);
                assert(graph.node(h@, x as int));
                assert(graph.is_ancestor(h@, start@));
            }
            let ghost o0 = out@;
            out.push(h);
            proof {
                place = place.update(x as int, o0.len() as int);
                assert forall|k: int, j: int| 0 <= k < out@.len() && 0 <= j < n && !visited@[j] implies (#[trigger] out@[k])@ != (#[trigger] graph.hashes@[j])@ by {
                    if k < o0.len() {
                        assert(out@[k] == o0[k]);
                        assert(!v0[j]);
                    } else {
                        assert(j != x as int);
                    }
                }
                assert forall|a: int, b: int| 0 <= a < b < out@.len() implies (#[trigger] out@[a])@ != (#[trigger] out@[b])@ by {
                    if b == o0.len() {
                        assert(out@[a] == o0[a]);
                        assert(!v0[x as int]);
                    } else {
                        assert(out@[a] == o0[a] && out@[b] == o0[b]);
                    }
                }
                assert forall|k: int| 0 <= k < out@.len() implies graph.is_ancestor(#[trigger] out@[k]@, start@) by {
                    if k < o0.len() {
                        assert(out@[k] == o0[k]);
                    }
                }
                assert forall|j: int| 0 <= j < n && #[trigger] visited@[j] implies 0 <= place[j] < out@.len() && out@[place[j]]@ == graph.hashes@[j]@ by {
                    if j != x as int {
                        assert(v0[j]);
                        assert(out@[place[j]] == o0[place[j]]);
                    }
                }
            }
            let ps = &graph.parents[x];
            let mut k: usize = ps.len();
            let ghost m = choose|m: nat| reach_in(g, s as int, x as int, m);
            let ghost st0 = stack@;
            while k > 0
                invariant
                    graph.wf(),
                    g == parent_view(graph.parents@),
                    n == graph.hashes@.len(),
                    n == graph.parents@.len(),
                    x < n,
                    *ps == graph.parents@[x as int],
                    ps@ == g[x as int],
                    k <= ps@.len(),
                    reach_in(g, s as int, x as int, m),
                    st0.len() <= stack@.len(),
                    forall|q: int| 0 <= q < st0.len() ==> #[trigger] stack@[q] == st0[q],
                    forall|kk: int| k <= kk < ps@.len() ==> exists|q: int| 0 <= q < stack@.len() && stack@[q] == #[trigger] ps@[kk],
                    forall|q: int| 0 <= q < stack@.len() ==> (#[trigger] stack@[q]) < n && reaches(g, s as int, stack@[q] as int),
                decreases k,
            {
                k = k - 1;
                let p = ps[k];
                assert(g[x as int][k as int] == p);
                assert(edges_in_range(g));
                assert(edge(g, x as int, p as int));
                proof {
                    lemma_reach_step(g, s as int, x as int, p as int, m);
                }
                let ghost sb = stack@;
                stack.push(p);
                proof {
                    assert(stack@[stack@.len() - 1] == p);
                    assert forall|kk: int| k <= kk < ps@.len() implies exists|q: int| 0 <= q < stack@.len() && stack@[q] == #[trigger] ps@[kk] by {
                        if kk == k as int {
                            assert(stack@[sb.len() as int] == ps@[kk]);
                        } else {
                            let q = choose|q: int| 0 <= q < sb.len() && sb[q] == ps@[kk];
                            assert(stack@[q] == sb[q]);
                        }
                    }
                }
            }
            proof {
                assert forall|j: int, kk: int| 0 <= j < n && visited@[j] && 0 <= kk < g[j].len() implies
                    visited@[#[trigger] g[j][kk] as int] || exists|q: int| 0 <= q < stack@.len() && stack@[q] == g[j][kk] by {
                    if j == x as int {
                        assert(g[j][kk] == ps@[kk]);
                    } else {
                        assert(v0[j]);
                        if !v0[g[j][kk] as int] {
                            let q = choose|q: int| 0 <= q < st_before.len() && st_before[q] == g[j][kk];
                            if q < st_before.len() - 1 {
                                assert(stack@[q] == st0[q]);
                            }
                        }
                    }
                }
            }
        } else {
            proof {
                assert forall|j: int, kk: int| 0 <= j < n && visited@[j] && 0 <= kk < g[j].len() implies
                    visited@[#[trigger] g[j][kk] as int] || exists|q: int| 0 <= q < stack@.len() && stack@[q] == g[j][kk] by {
                    if !visited@[g[j][kk] as int] {
                        let q = choose|q: int| 0 <= q < st_before.len() && st_before[q] == g[j][kk];
                        if q < st_before.len() - 1 {
                            assert(stack@[q] == st_before[q]);
                        }
                    }
                }
            }
        }
    }
    proof {
        if max_count.is_none() && graph.hashes@.len() < usize::MAX {
            lemma_count_true_le(visited@);
            assert(stack@.len() == 0);
            assert(visited@[s as int]);
            assert forall|c: Seq<char>| #[trigger] graph.is_ancestor(c, start@) implies exists|k: int| 0 <= k < out@.len() && out@[k]@ == c by {
                let j = if c == start@ {
                    s as int
                } else {
                    let (i2, j2) = choose|i2: int, j2: int| graph.node(start@, i2) && graph.node(c, j2) && #[trigger] reaches(g, i2, j2);
                    assert(i2 == s as int);
                    let mm = choose|mm: nat| reach_in(g, s as int, j2, mm);
                    assert forall|y: int, kk: int| 0 <= y < g.len() && visited@[y] && 0 <= kk < g[y].len() implies #[trigger] visited@[g[y][kk] as int] by {}
                    lemma_closed_reach(g, visited@, s as int, j2, mm);
                    j2
                };
                assert(visited@[j]);
                assert(out@[place[j]]@ == graph.hashes@[j]@);
            }
        }
    }
    out
}

pub(crate) proof fn lemma_count_zero_pub(v: Seq<bool>)
    requires
        forall|j: int| 0 <= j < v.len() ==> !(#[trigger] v[j]),
    ensures
        count_true(v) == 0,
{
    lemma_count_zero(v);
}

} // verus!
