//! Dependency graphs over nodes `0..n` held as boolean adjacency matrices: reachability
//! closures, Kahn levels, and strongly connected components.

use vstd::prelude::*;

use crate::text::{chars_eq, chars_lt, lex_lt, lemma_lex_asym, lemma_lex_irreflexive, lemma_lex_total, lemma_lex_trans, seqs_lt, lemma_seqs_asym, lemma_seqs_total, lemma_seqs_trans};

verus! {

broadcast use vstd::seq_lib::group_to_multiset_ensures;

/// `g` is an `n` by `n` matrix.
pub open spec fn square(g: Seq<Seq<bool>>, n: int) -> bool {
    &&& g.len() == n
    &&& forall|a: int| 0 <= a < n ==> #[trigger] g[a].len() == n
}

/// Edge `a -> b` ("b loads before a").
pub open spec fn edge(g: Seq<Seq<bool>>, a: int, b: int) -> bool {
    0 <= a < g.len() && 0 <= b < g[a].len() && g[a][b]
}

/// Every step of `p` follows an edge.
pub open spec fn is_path(g: Seq<Seq<bool>>, p: Seq<int>) -> bool {
    &&& p.len() >= 1
    &&& forall|i: int| 0 <= i < p.len() - 1 ==> edge(g, #[trigger] p[i], p[i + 1])
}

/// `v` is reachable from `u` along zero or more edges.
pub open spec fn reaches(g: Seq<Seq<bool>>, u: int, v: int) -> bool {
    exists|p: Seq<int>| #[trigger] is_path(g, p) && p[0] == u && p.last() == v
}

/// `v` is reachable from `u` along one or more edges.
pub open spec fn reaches_plus(g: Seq<Seq<bool>>, u: int, v: int) -> bool {
    exists|p: Seq<int>| #[trigger] is_path(g, p) && p.len() >= 2 && p[0] == u && p.last() == v
}

/// The matrix as nested sequences.
pub open spec fn mat(m: Seq<Vec<bool>>) -> Seq<Seq<bool>> {
    m.map_values(|r: Vec<bool>| r@)
}

/// The graph with every edge reversed.
pub open spec fn transpose(g: Seq<Seq<bool>>, n: int) -> Seq<Seq<bool>> {
    Seq::new(n as nat, |a: int| Seq::new(n as nat, |b: int| g[b][a]))
}

/// The subgraph induced by the nodes in `s`.
pub open spec fn induced(g: Seq<Seq<bool>>, s: Seq<bool>, n: int) -> Seq<Seq<bool>> {
    Seq::new(n as nat, |a: int| Seq::new(n as nat, |b: int| g[a][b] && s[a] && s[b]))
}

pub proof fn lemma_path_extend(g: Seq<Seq<bool>>, p: Seq<int>, z: int)
    requires
        is_path(g, p),
        edge(g, p.last(), z),
    ensures
        is_path(g, p.push(z)),
        p.push(z)[0] == p[0],
        p.push(z).last() == z,
{
    let q = p.push(z);
    assert forall|i: int| 0 <= i < q.len() - 1 implies edge(g, #[trigger] q[i], q[i + 1]) by {
        if i < p.len() - 1 {
            assert(q[i] == p[i] && q[i + 1] == p[i + 1]);
        }
    }
}

/// A node set closed under edges that holds the start of a path holds its end.
pub proof fn lemma_closed_path(g: Seq<Seq<bool>>, vis: Seq<bool>, p: Seq<int>)
    requires
        is_path(g, p),
        0 <= p[0] < vis.len(),
        vis[p[0]],
        forall|a: int, b: int| 0 <= a < vis.len() && vis[a] && edge(g, a, b) ==> 0 <= b < vis.len() && vis[b],
    ensures
        0 <= p.last() < vis.len(),
        vis[p.last()],
    decreases p.len(),
{
    if p.len() > 1 {
        let q = p.drop_last();
        assert forall|i: int| 0 <= i < q.len() - 1 implies edge(g, #[trigger] q[i], q[i + 1]) by {
            assert(q[i] == p[i] && q[i + 1] == p[i + 1]);
        }
        lemma_closed_path(g, vis, q);
        assert(edge(g, p[p.len() - 2], p[p.len() - 1]));
    }
}

/// Nodes reachable (along zero or more edges) from some node of `starts`.
pub fn closure(g: &Vec<Vec<bool>>, n: usize, starts: &Vec<bool>) -> (r: Vec<bool>)
    requires
        square(mat(g@), n as int),
        starts@.len() == n,
    ensures
        r@.len() == n,
        forall|y: int|
            0 <= y < n ==> (#[trigger] r@[y] <==> exists|x: int|
                0 <= x < n && starts@[x] && reaches(mat(g@), x, y)),
{
    let ghost m = mat(g@);
    let mut vis: Vec<bool> = Vec::new();
    let mut stack: Vec<usize> = Vec::new();
    let mut i: usize = 0;
    while i < n
        invariant
            0 <= i <= n,
            starts@.len() == n,
            vis@.len() == i,
            m == mat(g@),
            forall|y: int| 0 <= y < i ==> #[trigger] vis@[y] == starts@[y],
            forall|k: int| 0 <= k < stack@.len() ==> #[trigger] stack@[k] < i && starts@[stack@[k] as int],
            forall|y: int| 0 <= y < i && starts@[y] ==> #[trigger] stack@.contains(y as usize),
        decreases n - i,
    {
        let ghost st0 = stack@;
        vis.push(starts[i]);
        if starts[i] {
            stack.push(i);
        }
        proof {
            assert forall|y: int| 0 <= y < i + 1 && starts@[y] implies #[trigger] stack@.contains(
                y as usize,
            ) by {
                if y < i {
                    assert(st0.contains(y as usize));
                    let k = choose|k: int| 0 <= k < st0.len() && st0[k] == y as usize;
                    assert(stack@[k] == y as usize);
                } else {
                    assert(stack@.last() == y as usize);
                }
            }
        }
        i += 1;
    }
    proof {
        lemma_count_true_bound(vis@);
        assert forall|y: int| 0 <= y < n && vis@[y] implies exists|x: int|
            0 <= x < n && starts@[x] && reaches(m, x, y) by {
            let p = seq![y];
            assert(is_path(m, p));
        }
    }
    while stack.len() > 0
        invariant
            count_true(vis@) <= n,
            square(m, n as int),
            m == mat(g@),
            starts@.len() == n,
            vis@.len() == n,
            forall|k: int| 0 <= k < stack@.len() ==> #[trigger] stack@[k] < n && vis@[stack@[k] as int],
            forall|y: int| 0 <= y < n && starts@[y] ==> #[trigger] vis@[y],
            forall|y: int|
                0 <= y < n && #[trigger] vis@[y] ==> exists|x: int|
                    0 <= x < n && starts@[x] && reaches(m, x, y),
            forall|y: int, z: int|
                0 <= y < n && vis@[y] && !stack@.contains(y as usize) && #[trigger] edge(m, y, z) ==> vis@[z],
        decreases 2 * (n - count_true(vis@)) + stack@.len(),
    {
        let ghost stk = stack@;
        let y = stack.pop().unwrap();
        let ghost vis0 = vis@;
        let ghost len0 = stack@.len();
        proof {
            assert(stk == stack@.push(y));
            assert forall|w: int, v: int|
                0 <= w < n && w != y && vis@[w] && !stack@.contains(w as usize) && #[trigger] edge(m, w, v)
                    implies vis@[v] by {
                if stk.contains(w as usize) {
                    let k = choose|k: int| 0 <= k < stk.len() && stk[k] == w as usize;
                    if k < stk.len() - 1 {
                        assert(stack@[k] == w as usize);
                    }
                }
            }
        }
        let mut z: usize = 0;
        while z < n
            invariant
                square(m, n as int),
                m == mat(g@),
                starts@.len() == n,
                vis@.len() == n,
                0 <= z <= n,
                y < n,
                vis@[y as int],
                vis0.len() == n,
                forall|k: int| 0 <= k < vis0.len() && vis0[k] ==> #[trigger] vis@[k],
                count_true(vis@) + len0 == count_true(vis0) + stack@.len(),
                count_true(vis@) >= count_true(vis0),
                len0 + 1 == stk.len(),
                count_true(vis@) <= n,
                forall|k: int| 0 <= k < stack@.len() ==> #[trigger] stack@[k] < n && vis@[stack@[k] as int],
                forall|w: int| 0 <= w < n && starts@[w] ==> #[trigger] vis@[w],
                forall|w: int|
                    0 <= w < n && #[trigger] vis@[w] ==> exists|x: int|
                        0 <= x < n && starts@[x] && reaches(m, x, w),
                forall|w: int, v: int|
                    0 <= w < n && w != y && vis@[w] && !stack@.contains(w as usize) && #[trigger] edge(m, w, v)
                        ==> vis@[v],
                forall|v: int| 0 <= v < z && #[trigger] edge(m, y as int, v) ==> vis@[v],
            decreases n - z,
        {
            assert(m[y as int] == g@[y as int]@);
            if g[y][z] && !vis[z] {
                proof {
                    let x = choose|x: int| 0 <= x < n && starts@[x] && reaches(m, x, y as int);
                    let p = choose|p: Seq<int>| #[trigger] is_path(m, p) && p[0] == x && p.last() == y;
                    assert(edge(m, y as int, z as int));
                    lemma_path_extend(m, p, z as int);
                    assert(reaches(m, x, z as int));
                    lemma_count_true_set(vis@, z as int);
                }
                let ghost vb = vis@;
                let ghost sb = stack@;
                assert(forall|k: int| 0 <= k < vis0.len() && vis0[k] ==> vb[k]);
                vis.set(z, true);
                stack.push(z);
                proof {
                    assert(vis@ == vb.update(z as int, true));
                    lemma_count_true_bound(vis@);
                    assert forall|k: int| 0 <= k < vis0.len() && vis0[k] implies #[trigger] vis@[k] by {
                        assert(vb[k]);
                    }
                    assert forall|k: int| 0 <= k < stack@.len() implies #[trigger] stack@[k] < n
                        && vis@[stack@[k] as int] by {
                        if k < sb.len() {
                            assert(stack@[k] == sb[k]);
                        }
                    }
                    assert forall|w: int, v: int|
                        0 <= w < n && w != y && vis@[w] && !stack@.contains(w as usize) && #[trigger] edge(m, w, v)
                            implies vis@[v] by {
                        if w != z {
                            if sb.contains(w as usize) {
                                let k = choose|k: int| 0 <= k < sb.len() && sb[k] == w as usize;
                                assert(stack@[k] == w as usize);
                            }
                            assert(vb[w]);
                        } else {
                            assert(stack@.last() == z);
                        }
                    }
                }
            }
            z += 1;
        }
    }
    proof {
        assert forall|y: int|
            0 <= y < n implies (#[trigger] vis@[y] <==> exists|x: int|
                0 <= x < n && starts@[x] && reaches(m, x, y)) by {
            if exists|x: int| 0 <= x < n && starts@[x] && reaches(m, x, y) {
                let x = choose|x: int| 0 <= x < n && starts@[x] && reaches(m, x, y);
                let p = choose|p: Seq<int>| #[trigger] is_path(m, p) && p[0] == x && p.last() == y;
                assert forall|a: int, b: int| 0 <= a < vis@.len() && vis@[a] && edge(m, a, b) implies 0 <= b
                    < vis@.len() && vis@[b] by {
                    assert(!stack@.contains(a as usize));
                }
                lemma_closed_path(m, vis@, p);
            }
        }
    }
    vis
}


/// Node numbers as integers.
pub open spec fn ints(s: Seq<usize>) -> Seq<int> {
    s.map_values(|x: usize| x as int)
}

/// Lists of node numbers as integers.
pub open spec fn nested_ints(s: Seq<Vec<usize>>) -> Seq<Seq<int>> {
    s.map_values(|l: Vec<usize>| ints(l@))
}

/// `x` is a member of `t` not yet placed whose dependencies in `t` (other than itself) are all
/// placed.
pub open spec fn ready_at(g: Seq<Seq<bool>>, t: Seq<bool>, d: Seq<bool>, x: int) -> bool {
    &&& 0 <= x < t.len()
    &&& t[x]
    &&& !d[x]
    &&& forall|y: int| 0 <= y < t.len() && t[y] && y != x && #[trigger] edge(g, x, y) ==> d[y]
}

/// One Kahn round: place every ready node.
pub open spec fn kahn_step(g: Seq<Seq<bool>>, t: Seq<bool>, d: Seq<bool>) -> Seq<bool> {
    Seq::new(t.len(), |x: int| d[x] || ready_at(g, t, d, x))
}

/// Nodes placed after `k` rounds.
pub open spec fn kahn_done(g: Seq<Seq<bool>>, t: Seq<bool>, k: nat) -> Seq<bool>
    decreases k,
{
    if k == 0 {
        Seq::new(t.len(), |x: int| false)
    } else {
        kahn_step(g, t, kahn_done(g, t, (k - 1) as nat))
    }
}

/// Some node is ready.
pub open spec fn has_ready(g: Seq<Seq<bool>>, t: Seq<bool>, d: Seq<bool>) -> bool {
    exists|x: int| ready_at(g, t, d, x)
}

/// `s` lists, without repetition, exactly the nodes ready at `d`.
pub open spec fn lists_ready(s: Seq<int>, g: Seq<Seq<bool>>, t: Seq<bool>, d: Seq<bool>) -> bool {
    &&& s.no_duplicates()
    &&& forall|i: int| 0 <= i < s.len() ==> ready_at(g, t, d, #[trigger] s[i])
    &&& forall|x: int| ready_at(g, t, d, x) ==> #[trigger] s.contains(x)
}

/// `lv` are the Kahn levels of the members `t`: level `k` holds the nodes that become ready
/// after `k` rounds, every level is non-empty, and after the last one every member is placed.
pub open spec fn kahn_levels(g: Seq<Seq<bool>>, t: Seq<bool>, lv: Seq<Seq<int>>) -> bool {
    &&& forall|k: int|
        0 <= k < lv.len() ==> lists_ready(#[trigger] lv[k], g, t, kahn_done(g, t, k as nat))
            && lv[k].len() > 0
    &&& forall|x: int| 0 <= x < t.len() ==> #[trigger] kahn_done(g, t, lv.len())[x] == t[x]
}

/// The rounds stall after `k` rounds with members still unplaced; `rem` is those members.
pub open spec fn kahn_stalls_at(g: Seq<Seq<bool>>, t: Seq<bool>, k: nat, rem: Seq<bool>) -> bool {
    &&& forall|j: nat| j < k ==> has_ready(g, t, #[trigger] kahn_done(g, t, j))
    &&& !has_ready(g, t, kahn_done(g, t, k))
    &&& rem.len() == t.len()
    &&& forall|x: int| 0 <= x < t.len() ==> #[trigger] rem[x] == (t[x] && !kahn_done(g, t, k)[x])
    &&& exists|x: int| 0 <= x < t.len() && rem[x]
}

/// The rounds stall with members still unplaced; `rem` is those members.
pub open spec fn kahn_stalls(g: Seq<Seq<bool>>, t: Seq<bool>, rem: Seq<bool>) -> bool {
    exists|k: nat| kahn_stalls_at(g, t, k, rem)
}

/// Kahn levels of the members `t` of `g`; `Err` holds the members left when no node is ready.
pub fn kahn(g: &Vec<Vec<bool>>, n: usize, t: &Vec<bool>) -> (r: Result<Vec<Vec<usize>>, Vec<bool>>)
    requires
        square(mat(g@), n as int),
        t@.len() == n,
    ensures
        r matches Ok(lv) ==> kahn_levels(mat(g@), t@, nested_ints(lv@)),
        r matches Err(rem) ==> kahn_stalls(mat(g@), t@, rem@),
{
    let ghost m = mat(g@);
    let mut done: Vec<bool> = Vec::new();
    let mut i: usize = 0;
    while i < n
        invariant
            0 <= i <= n,
            done@.len() == i,
            forall|x: int| 0 <= x < i ==> !#[trigger] done@[x],
        decreases n - i,
    {
        done.push(false);
        i += 1;
    }
    proof {
        assert(done@ == kahn_done(m, t@, 0));
        lemma_count_true_bound(done@);
    }
    let mut levels: Vec<Vec<usize>> = Vec::new();
    loop
        invariant
            square(m, n as int),
            m == mat(g@),
            t@.len() == n,
            done@ == kahn_done(m, t@, levels@.len() as nat),
            count_true(done@) <= n,
            forall|k: int|
                0 <= k < levels@.len() ==> lists_ready(
                    #[trigger] ints(levels@[k]@),
                    m,
                    t@,
                    kahn_done(m, t@, k as nat),
                ) && levels@[k]@.len() > 0,
            forall|j: nat| j < levels@.len() ==> has_ready(m, t@, #[trigger] kahn_done(m, t@, j)),
        decreases n - count_true(done@),
    {
        let ghost d = done@;
        let mut ready: Vec<usize> = Vec::new();
        let mut x: usize = 0;
        while x < n
            invariant
                square(m, n as int),
                m == mat(g@),
                t@.len() == n,
                done@ == d,
                d.len() == n,
                0 <= x <= n,
                forall|i: int| 0 <= i < ready@.len() ==> #[trigger] ready@[i] < x && ready_at(m, t@, d, ready@[i] as int),
                forall|i: int, j: int| 0 <= i < j < ready@.len() ==> #[trigger] ready@[i] < #[trigger] ready@[j],
                forall|y: int| 0 <= y < x && ready_at(m, t@, d, y) ==> #[trigger] ready@.contains(y as usize),
            decreases n - x,
        {
            if t[x] && !done[x] {
                let mut ok = true;
                let mut y: usize = 0;
                assert(m[x as int] == g@[x as int]@);
                while y < n
                    invariant
                        square(m, n as int),
                        m == mat(g@),
                        t@.len() == n,
                        done@ == d,
                        d.len() == n,
                        x < n,
                        0 <= y <= n,
                        m[x as int] == g@[x as int]@,
                        ok == forall|z: int| 0 <= z < y && t@[z] && z != x && #[trigger] edge(m, x as int, z) ==> d[z],
                    decreases n - y,
                {
                    let ghost ok0 = ok;
                    assert(edge(m, x as int, y as int) == g@[x as int]@[y as int]);
                    if t[y] && y != x && g[x][y] && !done[y] {
                        ok = false;
                    }
                    proof {
                        if ok {
                            assert forall|z: int| 0 <= z < y + 1 && t@[z] && z != x && #[trigger] edge(m, x as int, z) implies d[z] by {
                                if z < y {
                                }
                            }
                        }
                    }
                    y += 1;
                }
                if ok {
                    let ghost r0 = ready@;
                    ready.push(x);
                    proof {
                        assert forall|yy: int| 0 <= yy < x + 1 && ready_at(m, t@, d, yy) implies #[trigger] ready@.contains(yy as usize) by {
                            if yy < x {
                                assert(r0.contains(yy as usize));
                                let k = choose|k: int| 0 <= k < r0.len() && r0[k] == yy as usize;
                                assert(ready@[k] == yy as usize);
                            } else {
                                assert(ready@.last() == x);
                            }
                        }
                    }
                } else {
                    assert(!ready_at(m, t@, d, x as int));
                }
            }
            x += 1;
        }
        let ghost rs = ints(ready@);
        proof {
            assert(rs.no_duplicates()) by {
                assert forall|i: int, j: int| 0 <= i < rs.len() && 0 <= j < rs.len() && i != j implies rs[i] != rs[j] by {
                    if i < j {
                        assert(ready@[i] < ready@[j]);
                    } else {
                        assert(ready@[j] < ready@[i]);
                    }
                }
            }
            assert forall|y: int| ready_at(m, t@, d, y) implies #[trigger] rs.contains(y) by {
                assert(ready@.contains(y as usize));
                let k = choose|k: int| 0 <= k < ready@.len() && ready@[k] == y as usize;
                assert(rs[k] == y);
            }
            assert forall|i: int| 0 <= i < rs.len() implies ready_at(m, t@, d, #[trigger] rs[i]) by {
                assert(ready_at(m, t@, d, ready@[i] as int));
            }
        }
        if ready.len() == 0 {
            let mut rem: Vec<bool> = Vec::new();
            let mut any = false;
            let mut x: usize = 0;
            while x < n
                invariant
                    t@.len() == n,
                    d.len() == n,
                    done@ == d,
                    0 <= x <= n,
                    rem@.len() == x,
                    forall|y: int| 0 <= y < x ==> #[trigger] rem@[y] == (t@[y] && !d[y]),
                    any == exists|y: int| 0 <= y < x && rem@[y],
                decreases n - x,
            {
                let b = t[x] && !done[x];
                let ghost r0 = rem@;
                rem.push(b);
                if b {
                    any = true;
                }
                proof {
                    if b {
                        assert(rem@[x as int]);
                    }
                    if exists|y: int| 0 <= y < x && r0[y] {
                        let y = choose|y: int| 0 <= y < x && r0[y];
                        assert(rem@[y]);
                    }
                    if exists|y: int| 0 <= y < x + 1 && rem@[y] {
                        let y = choose|y: int| 0 <= y < x + 1 && rem@[y];
                        if y < x {
                            assert(r0[y]);
                        }
                    }
                }
                x += 1;
            }
            proof {
                if has_ready(m, t@, d) {
                    let y = choose|y: int| ready_at(m, t@, d, y);
                    assert(rs.contains(y));
                }
            }
            if any {
                proof {
                    assert(forall|j: nat| j < levels@.len() ==> has_ready(m, t@, #[trigger] kahn_done(m, t@, j)));
                    assert(!has_ready(m, t@, kahn_done(m, t@, levels@.len() as nat)));
                    assert(rem@.len() == t@.len());
                    assert(forall|x: int| 0 <= x < t@.len() ==> #[trigger] rem@[x] == (t@[x] && !kahn_done(m, t@, levels@.len() as nat)[x]));
                    assert(exists|x: int| 0 <= x < t@.len() && rem@[x]);
                    assert(kahn_stalls_at(m, t@, levels@.len() as nat, rem@));
                    assert(kahn_stalls(mat(g@), t@, rem@));
                }
                return Err(rem);
            } else {
                proof {
                    let lv = nested_ints(levels@);
                    assert forall|k: int| 0 <= k < lv.len() implies lists_ready(#[trigger] lv[k], m, t@, kahn_done(m, t@, k as nat)) && lv[k].len() > 0 by {
                        assert(lv[k] == ints(levels@[k]@));
                    }
                    assert forall|y: int| 0 <= y < t@.len() implies #[trigger] kahn_done(m, t@, lv.len())[y] == t@[y] by {
                        assert(!rem@[y]);
                        if d[y] {
                            lemma_done_in_members(m, t@, levels@.len() as nat, y);
                        }
                    }
                }
                return Ok(levels);
            }
        }
        let mut k: usize = 0;
        while k < ready.len()
            invariant
                d.len() == n,
                t@.len() == n,
                done@.len() == n,
                0 <= k <= ready@.len(),
                forall|i: int| 0 <= i < ready@.len() ==> #[trigger] ready@[i] < n && ready_at(m, t@, d, ready@[i] as int),
                forall|i: int, j: int| 0 <= i < j < ready@.len() ==> #[trigger] ready@[i] < #[trigger] ready@[j],
                forall|y: int| 0 <= y < n ==> #[trigger] done@[y] == (d[y] || exists|i: int| 0 <= i < k && ready@[i] == y),
                count_true(done@) == count_true(d) + k,
            decreases ready@.len() - k,
        {
            let ghost db = done@;
            let z = ready[k];
            proof {
                assert(!db[z as int]) by {
                    assert(!d[z as int]);
                    if exists|i: int| 0 <= i < k && ready@[i] == z {
                        let i = choose|i: int| 0 <= i < k && ready@[i] == z;
                        assert(ready@[i] < ready@[k as int]);
                    }
                }
                lemma_count_true_set(db, z as int);
            }
            done.set(z, true);
            proof {
                assert forall|y: int| 0 <= y < n implies #[trigger] done@[y] == (d[y] || exists|i: int| 0 <= i < k + 1 && ready@[i] == y) by {
                    if y == z {
                        assert(ready@[k as int] == y);
                    } else {
                        assert(done@[y] == db[y]);
                        if exists|i: int| 0 <= i < k + 1 && ready@[i] == y {
                            let i = choose|i: int| 0 <= i < k + 1 && ready@[i] == y;
                            assert(i != k);
                        }
                    }
                }
            }
            k += 1;
        }
        proof {
            let nd = kahn_done(m, t@, (levels@.len() + 1) as nat);
            assert(nd == kahn_step(m, t@, d));
            assert forall|y: int| 0 <= y < n implies done@[y] == nd[y] by {
                if ready_at(m, t@, d, y) {
                    assert(ready@.contains(y as usize));
                    let i = choose|i: int| 0 <= i < ready@.len() && ready@[i] == y as usize;
                    assert(ready@[i] == y);
                }
            }
            assert(done@ =~= nd);
            lemma_count_true_bound(done@);
            assert(has_ready(m, t@, d)) by {
                assert(ready_at(m, t@, d, ready@[0] as int));
            }
        }
        let ghost lvl = levels@;
        levels.push(ready);
        proof {
            assert forall|k: int| 0 <= k < levels@.len() implies lists_ready(
                #[trigger] ints(levels@[k]@),
                m,
                t@,
                kahn_done(m, t@, k as nat),
            ) && levels@[k]@.len() > 0 by {
                if k < lvl.len() {
                    assert(levels@[k] == lvl[k]);
                } else {
                    assert(ints(levels@[k]@) == rs);
                }
            }
            assert forall|j: nat| j < levels@.len() implies has_ready(m, t@, #[trigger] kahn_done(m, t@, j)) by {
                if j < lvl.len() {
                }
            }
        }
    }
}

/// A placed node is a member.
proof fn lemma_done_in_members(g: Seq<Seq<bool>>, t: Seq<bool>, k: nat, y: int)
    requires
        0 <= y < t.len(),
        kahn_done(g, t, k)[y],
    ensures
        t[y],
    decreases k,
{
    if k > 0 {
        if kahn_done(g, t, (k - 1) as nat)[y] {
            lemma_done_in_members(g, t, (k - 1) as nat, y);
        }
    }
}


/// Node order: by `names`, then by `pids`.
pub open spec fn node_lt(names: Seq<Seq<char>>, pids: Seq<Seq<char>>, a: int, b: int) -> bool {
    ||| lex_lt(names[a], names[b])
    ||| (names[a] == names[b] && lex_lt(pids[a], pids[b]))
}

pub(crate) proof fn lemma_node_lt_asym(names: Seq<Seq<char>>, pids: Seq<Seq<char>>, a: int, b: int)
    requires
        node_lt(names, pids, a, b),
    ensures
        !node_lt(names, pids, b, a),
{
    if lex_lt(names[a], names[b]) {
        lemma_lex_asym(names[a], names[b]);
    } else {
        lemma_lex_irreflexive(names[a]);
        lemma_lex_asym(pids[a], pids[b]);
    }
}

proof fn lemma_node_lt_trans(names: Seq<Seq<char>>, pids: Seq<Seq<char>>, a: int, b: int, c: int)
    requires
        node_lt(names, pids, a, b),
        node_lt(names, pids, b, c),
    ensures
        node_lt(names, pids, a, c),
{
    if lex_lt(names[a], names[b]) && lex_lt(names[b], names[c]) {
        lemma_lex_trans(names[a], names[b], names[c]);
    } else if lex_lt(names[a], names[b]) || lex_lt(names[b], names[c]) {
    } else {
        lemma_lex_trans(pids[a], pids[b], pids[c]);
    }
}

proof fn lemma_node_lt_total(names: Seq<Seq<char>>, pids: Seq<Seq<char>>, a: int, b: int)
    ensures
        node_lt(names, pids, a, b) || node_lt(names, pids, b, a) || (names[a] == names[b]
            && pids[a] == pids[b]),
{
    lemma_lex_total(names[a], names[b]);
    lemma_lex_total(pids[a], pids[b]);
}

proof fn lemma_node_not_lt_trans(names: Seq<Seq<char>>, pids: Seq<Seq<char>>, a: int, b: int, c: int)
    requires
        !node_lt(names, pids, c, b),
        !node_lt(names, pids, b, a),
    ensures
        !node_lt(names, pids, c, a),
{
    lemma_node_lt_total(names, pids, a, b);
    if node_lt(names, pids, c, a) {
        if node_lt(names, pids, a, b) {
            lemma_node_lt_trans(names, pids, c, a, b);
        } else {
            lemma_lex_irreflexive(names[b]);
        }
    }
}

/// Strictly increasing in node order.
pub open spec fn sorted_nodes(s: Seq<int>, names: Seq<Seq<char>>, pids: Seq<Seq<char>>) -> bool {
    forall|i: int, j: int| 0 <= i < j < s.len() ==> node_lt(names, pids, #[trigger] s[i], #[trigger] s[j])
}

/// The nodes of `v`, ordered by `names` then `pids`.
pub fn sort_nodes(v: Vec<usize>, names: &Vec<Vec<char>>, pids: &Vec<Vec<char>>) -> (r: Vec<usize>)
    requires
        v@.no_duplicates(),
        forall|i: int| 0 <= i < v@.len() ==> #[trigger] v@[i] < names@.len() && v@[i] < pids@.len(),
        forall|i: int, j: int|
            0 <= i < pids@.len() && 0 <= j < pids@.len() && i != j ==> #[trigger] pids@[i]@ != #[trigger] pids@[j]@,
    ensures
        r@.to_multiset() == v@.to_multiset(),
        sorted_nodes(ints(r@), names@.map_values(|s: Vec<char>| s@), pids@.map_values(|s: Vec<char>| s@)),
{
    let ghost nm = names@.map_values(|s: Vec<char>| s@);
    let ghost pd = pids@.map_values(|s: Vec<char>| s@);
    let mut out: Vec<usize> = Vec::new();
    let mut i: usize = 0;
    while i < v.len()
        invariant
            0 <= i <= v@.len(),
            nm == names@.map_values(|s: Vec<char>| s@),
            pd == pids@.map_values(|s: Vec<char>| s@),
            v@.no_duplicates(),
            forall|k: int| 0 <= k < v@.len() ==> #[trigger] v@[k] < names@.len() && v@[k] < pids@.len(),
            forall|a: int, b: int|
                0 <= a < pids@.len() && 0 <= b < pids@.len() && a != b ==> #[trigger] pids@[a]@ != #[trigger] pids@[b]@,
            out@.to_multiset() == v@.take(i as int).to_multiset(),
            forall|k: int| 0 <= k < out@.len() ==> #[trigger] out@[k] < names@.len() && out@[k] < pids@.len(),
            forall|a: int, b: int| 0 <= a < b < out@.len() ==> !node_lt(nm, pd, #[trigger] out@[b] as int, #[trigger] out@[a] as int),
        decreases v@.len() - i,
    {
        let x = v[i];
        let mut p: usize = 0;
        let mut go = true;
        while go && p < out.len()
            invariant
                0 <= p <= out@.len(),
                nm == names@.map_values(|s: Vec<char>| s@),
                pd == pids@.map_values(|s: Vec<char>| s@),
                x < names@.len() && x < pids@.len(),
                forall|k: int| 0 <= k < out@.len() ==> #[trigger] out@[k] < names@.len() && out@[k] < pids@.len(),
                forall|k: int| 0 <= k < p ==> node_lt(nm, pd, #[trigger] out@[k] as int, x as int),
                !go ==> p < out@.len() && !node_lt(nm, pd, out@[p as int] as int, x as int),
            decreases out@.len() - p + (if go { 1int } else { 0int }),
        {
            let y = out[p];
            assert(nm[y as int] == names@[y as int]@ && pd[y as int] == pids@[y as int]@);
            assert(nm[x as int] == names@[x as int]@ && pd[x as int] == pids@[x as int]@);
            let lt = chars_lt(names[y].as_slice(), names[x].as_slice()) || (chars_eq(
                names[y].as_slice(),
                names[x].as_slice(),
            ) && chars_lt(pids[y].as_slice(), pids[x].as_slice()));
            if lt {
                p += 1;
            } else {
                go = false;
            }
        }
        proof {
            let s = out@;
            assert forall|a: int, b: int| 0 <= a < b < s.len() + 1 implies !node_lt(
                nm,
                pd,
                #[trigger] s.insert(p as int, x)[b] as int,
                #[trigger] s.insert(p as int, x)[a] as int,
            ) by {
                let s2 = s.insert(p as int, x);
                if b < p {
                    assert(s2[a] == s[a] && s2[b] == s[b]);
                } else if b == p {
                    assert(s2[a] == s[a]);
                    lemma_node_lt_asym(nm, pd, s[a] as int, x as int);
                } else if a == p {
                    assert(s2[b] == s[b - 1]);
                    if b - 1 > p {
                        assert(!node_lt(nm, pd, s[b - 1] as int, s[p as int] as int));
                        lemma_node_not_lt_trans(nm, pd, x as int, s[p as int] as int, s[b - 1] as int);
                    }
                } else if a < p {
                    assert(s2[a] == s[a] && s2[b] == s[b - 1]);
                } else {
                    assert(s2[a] == s[a - 1] && s2[b] == s[b - 1]);
                }
            }
            assert(v@.take(i + 1) == v@.take(i as int).push(x));
        }
        out.insert(p, x);
        i += 1;
    }
    proof {
        assert(v@.take(v@.len() as int) == v@);
        let r = ints(out@);
        v@.lemma_multiset_has_no_duplicates();
        out@.lemma_multiset_has_no_duplicates_conv();
        assert forall|a: int, b: int| 0 <= a < b < r.len() implies node_lt(nm, pd, #[trigger] r[a], #[trigger] r[b]) by {
            let (x, y) = (out@[a] as int, out@[b] as int);
            assert(!node_lt(nm, pd, y, x));
            assert(out@.to_multiset().count(out@[a]) == v@.to_multiset().count(out@[a]));
            assert(out@[a] != out@[b]);
            assert(pids@[x]@ != pids@[y]@);
            lemma_node_lt_total(nm, pd, x, y);
        }
    }
    out
}


/// The graph on `0..n` whose edges are the pairs listed in `edges`.
pub open spec fn listed_graph(edges: Seq<(usize, usize)>, n: int) -> Seq<Seq<bool>> {
    Seq::new(n as nat, |a: int| Seq::new(n as nat, |b: int| edges.contains((a as usize, b as usize))))
}

/// `u` and `v` reach each other.
pub open spec fn strongly(g: Seq<Seq<bool>>, u: int, v: int) -> bool {
    reaches(g, u, v) && reaches(g, v, u)
}

/// `x` lies in one of `comps`.
pub open spec fn in_comps(comps: Seq<Seq<int>>, x: int) -> bool {
    exists|i: int, k: int| 0 <= i < comps.len() && 0 <= k < comps[i].len() && #[trigger] comps[i][k] == x
}

/// `comps` are the strongly connected components of `g`: every node `0..n` lies in exactly one,
/// and two nodes share one exactly when they reach each other.
pub open spec fn scc_partition(g: Seq<Seq<bool>>, n: int, comps: Seq<Seq<int>>) -> bool {
    &&& forall|i: int, k: int|
        0 <= i < comps.len() && 0 <= k < comps[i].len() ==> 0 <= #[trigger] comps[i][k] < n
    &&& forall|i: int| 0 <= i < comps.len() ==> #[trigger] comps[i].len() > 0
    &&& forall|x: int| 0 <= x < n ==> #[trigger] in_comps(comps, x)
    &&& forall|i: int, k: int, j: int, l: int|
        0 <= i < comps.len() && 0 <= k < comps[i].len() && 0 <= j < comps.len() && 0 <= l < comps[j].len() && (i != j || k != l)
            ==> #[trigger] comps[i][k] != #[trigger] comps[j][l]
    &&& forall|i: int, k: int, l: int|
        0 <= i < comps.len() && 0 <= k < comps[i].len() && 0 <= l < comps[i].len() ==> strongly(g, #[trigger] comps[i][k], #[trigger] comps[i][l])
    &&& forall|i: int, k: int, j: int, l: int|
        0 <= i < comps.len() && 0 <= k < comps[i].len() && 0 <= j < comps.len() && 0 <= l < comps[j].len() && i != j
            ==> !strongly(g, #[trigger] comps[i][k], #[trigger] comps[j][l])
}

/// Calls `petgraph::algo::tarjan_scc` on a `DiGraphMap` with nodes `0..n` and the listed edges.
/// Claimed, as petgraph documents it: the result is the list of strongly connected components,
/// each node in exactly one (the order of components and of nodes within one is not claimed).
#[verifier::external_body]
fn tarjan(n: usize, edges: &Vec<(usize, usize)>) -> (r: Vec<Vec<usize>>)
    requires
        forall|i: int| 0 <= i < edges@.len() ==> (#[trigger] edges@[i]).0 < n && edges@[i].1 < n,
    ensures
        scc_partition(listed_graph(edges@, n as int), n as int, nested_ints(r@)),
{
    let mut g = petgraph::graphmap::DiGraphMap::<usize, ()>::new();
    for i in 0..n {
        g.add_node(i);
    }
    for &(a, b) in edges {
        g.add_edge(a, b, ());
    }
    petgraph::algo::tarjan_scc(&g)
}

/// The dependency graph among the nodes of `rem`, without self edges.
pub open spec fn rem_graph(g: Seq<Seq<bool>>, rem: Seq<bool>, n: int) -> Seq<Seq<bool>> {
    Seq::new(n as nat, |a: int| Seq::new(n as nat, |b: int| g[a][b] && rem[a] && rem[b] && a != b))
}

/// The package ids of the nodes of `c`.
pub open spec fn pid_list(c: Seq<int>, pids: Seq<Seq<char>>) -> Seq<Seq<char>> {
    c.map_values(|x: int| pids[x])
}

/// `cs` lists the strongly connected components of `h` with two or more nodes: each ordered by
/// package id, the list ordered by the package ids of its components.
pub open spec fn cycle_listing(h: Seq<Seq<bool>>, n: int, pids: Seq<Seq<char>>, cs: Seq<Seq<int>>) -> bool {
    &&& forall|i: int| 0 <= i < cs.len() ==> (#[trigger] cs[i]).len() >= 2
    &&& forall|i: int, k: int| 0 <= i < cs.len() && 0 <= k < cs[i].len() ==> 0 <= #[trigger] cs[i][k] < n
    &&& forall|i: int| 0 <= i < cs.len() ==> sorted_nodes(#[trigger] cs[i], pids, pids)
    &&& forall|i: int, k: int, l: int|
        0 <= i < cs.len() && 0 <= k < cs[i].len() && 0 <= l < cs[i].len() ==> strongly(h, #[trigger] cs[i][k], #[trigger] cs[i][l])
    &&& forall|i: int, k: int, y: int|
        0 <= i < cs.len() && 0 <= k < cs[i].len() && 0 <= y < n && strongly(h, #[trigger] cs[i][k], y) ==> #[trigger] cs[i].contains(y)
    &&& forall|x: int, y: int|
        0 <= x < n && 0 <= y < n && x != y && #[trigger] strongly(h, x, y) ==> exists|i: int| 0 <= i < cs.len() && #[trigger] cs[i].contains(x)
    &&& forall|i: int, j: int| 0 <= i < j < cs.len() ==> seqs_lt(pid_list(#[trigger] cs[i], pids), pid_list(#[trigger] cs[j], pids))
}

/// `seqs_lt` on the package ids of two node lists.
fn nodes_seq_lt(a: &Vec<usize>, b: &Vec<usize>, pids: &Vec<Vec<char>>) -> (r: bool)
    requires
        forall|i: int| 0 <= i < a@.len() ==> #[trigger] a@[i] < pids@.len(),
        forall|i: int| 0 <= i < b@.len() ==> #[trigger] b@[i] < pids@.len(),
    ensures
        r == seqs_lt(pid_list(ints(a@), pids@.map_values(|s: Vec<char>| s@)), pid_list(ints(b@), pids@.map_values(|s: Vec<char>| s@))),
{
    let ghost pd = pids@.map_values(|s: Vec<char>| s@);
    let ghost sa = pid_list(ints(a@), pd);
    let ghost sb = pid_list(ints(b@), pd);
    let mut i: usize = 0;
    proof {
        assert(sa.skip(0) =~= sa);
        assert(sb.skip(0) =~= sb);
    }
    while i < a.len() && i < b.len() && chars_eq(pids[a[i]].as_slice(), pids[b[i]].as_slice())
        invariant
            0 <= i <= a@.len(),
            i <= b@.len(),
            pd == pids@.map_values(|s: Vec<char>| s@),
            sa == pid_list(ints(a@), pd),
            sb == pid_list(ints(b@), pd),
            forall|k: int| 0 <= k < a@.len() ==> #[trigger] a@[k] < pids@.len(),
            forall|k: int| 0 <= k < b@.len() ==> #[trigger] b@[k] < pids@.len(),
            seqs_lt(sa, sb) == seqs_lt(sa.skip(i as int), sb.skip(i as int)),
        decreases a@.len() - i,
    {
        proof {
            assert(sa.skip(i as int).drop_first() =~= sa.skip(i + 1));
            assert(sb.skip(i as int).drop_first() =~= sb.skip(i + 1));
            assert(sa.skip(i as int)[0] == sa[i as int]);
            assert(sb.skip(i as int)[0] == sb[i as int]);
        }
        i += 1;
    }
    if i == a.len() {
        i < b.len()
    } else if i == b.len() {
        false
    } else {
        proof {
            assert(sa.skip(i as int)[0] == sa[i as int]);
            assert(sb.skip(i as int)[0] == sb[i as int]);
        }
        chars_lt(pids[a[i]].as_slice(), pids[b[i]].as_slice())
    }
}

/// The cycles among the nodes of `rem`: strongly connected components with two or more nodes of
/// the remaining graph, ordered as `cycle_listing` says.
pub fn cycles_of(g: &Vec<Vec<bool>>, n: usize, rem: &Vec<bool>, pids: &Vec<Vec<char>>) -> (r: Vec<Vec<usize>>)
    requires
        square(mat(g@), n as int),
        rem@.len() == n,
        pids@.len() == n,
        forall|i: int, j: int|
            0 <= i < pids@.len() && 0 <= j < pids@.len() && i != j ==> #[trigger] pids@[i]@ != #[trigger] pids@[j]@,
    ensures
        cycle_listing(rem_graph(mat(g@), rem@, n as int), n as int, pids@.map_values(|s: Vec<char>| s@), nested_ints(r@)),
{
    let ghost m = mat(g@);
    let ghost pd = pids@.map_values(|s: Vec<char>| s@);
    let ghost h = rem_graph(m, rem@, n as int);
    let mut edges: Vec<(usize, usize)> = Vec::new();
    let mut a: usize = 0;
    while a < n
        invariant
            square(m, n as int),
            m == mat(g@),
            rem@.len() == n,
            h == rem_graph(m, rem@, n as int),
            0 <= a <= n,
            forall|i: int| 0 <= i < edges@.len() ==> (#[trigger] edges@[i]).0 < a && edges@[i].1 < n && h[edges@[i].0 as int][edges@[i].1 as int],
            forall|x: int, y: int| 0 <= x < a && 0 <= y < n && h[x][y] ==> #[trigger] edges@.contains((x as usize, y as usize)),
        decreases n - a,
    {
        let mut b: usize = 0;
        assert(m[a as int] == g@[a as int]@);
        while b < n
            invariant
                square(m, n as int),
                m == mat(g@),
                m[a as int] == g@[a as int]@,
                rem@.len() == n,
                h == rem_graph(m, rem@, n as int),
                0 <= a < n,
                0 <= b <= n,
                forall|i: int| 0 <= i < edges@.len() ==> (#[trigger] edges@[i]).0 <= a && edges@[i].1 < n && h[edges@[i].0 as int][edges@[i].1 as int],
                forall|x: int, y: int| 0 <= x < a && 0 <= y < n && h[x][y] ==> #[trigger] edges@.contains((x as usize, y as usize)),
                forall|y: int| 0 <= y < b && h[a as int][y] ==> #[trigger] edges@.contains((a, y as usize)),
            decreases n - b,
        {
            let ghost e0 = edges@;
            if g[a][b] && rem[a] && rem[b] && a != b {
                edges.push((a, b));
                proof {
                    assert(edges@.last() == (a, b));
                }
            }
            proof {
                assert forall|x: int, y: int| 0 <= x < a && 0 <= y < n && h[x][y] implies #[trigger] edges@.contains((x as usize, y as usize)) by {
                    assert(e0.contains((x as usize, y as usize)));
                    let k = choose|k: int| 0 <= k < e0.len() && e0[k] == (x as usize, y as usize);
                    assert(edges@[k] == e0[k]);
                }
                assert forall|y: int| 0 <= y < b + 1 && h[a as int][y] implies #[trigger] edges@.contains((a, y as usize)) by {
                    if y < b {
                        assert(e0.contains((a, y as usize)));
                        let k = choose|k: int| 0 <= k < e0.len() && e0[k] == (a, y as usize);
                        assert(edges@[k] == e0[k]);
                    }
                }
                assert forall|i: int| 0 <= i < edges@.len() implies (#[trigger] edges@[i]).0 <= a && edges@[i].1 < n && h[edges@[i].0 as int][edges@[i].1 as int] by {
                    if i < e0.len() {
                        assert(edges@[i] == e0[i]);
                    }
                }
            }
            b += 1;
        }
        a += 1;
    }
    proof {
        assert(listed_graph(edges@, n as int) =~= h) by {
            assert forall|x: int| 0 <= x < n implies #[trigger] listed_graph(edges@, n as int)[x] =~= h[x] by {
                assert forall|y: int| 0 <= y < n implies listed_graph(edges@, n as int)[x][y] == h[x][y] by {
                    if edges@.contains((x as usize, y as usize)) {
                        let k = choose|k: int| 0 <= k < edges@.len() && edges@[k] == (x as usize, y as usize);
                        assert(h[edges@[k].0 as int][edges@[k].1 as int]);
                    }
                }
            }
        }
    }
    let comps = tarjan(n, &edges);
    let ghost cv = nested_ints(comps@);
    // keep the components with two or more nodes, each ordered by package id
    let mut big: Vec<Vec<usize>> = Vec::new();
    let ghost mut src: Seq<int> = Seq::empty();
    let mut i: usize = 0;
    while i < comps.len()
        invariant
            0 <= i <= comps@.len(),
            cv == nested_ints(comps@),
            pd == pids@.map_values(|s: Vec<char>| s@),
            pids@.len() == n,
            forall|a: int, b: int|
                0 <= a < pids@.len() && 0 <= b < pids@.len() && a != b ==> #[trigger] pids@[a]@ != #[trigger] pids@[b]@,
            scc_partition(h, n as int, cv),
            src.len() == big@.len(),
            forall|k: int| 0 <= k < src.len() ==> 0 <= #[trigger] src[k] < i && cv[src[k]].len() >= 2,
            forall|k: int, l: int| 0 <= k < l < src.len() ==> #[trigger] src[k] < #[trigger] src[l],
            forall|j: int| 0 <= j < i && cv[j].len() >= 2 ==> #[trigger] src.contains(j),
            forall|k: int| 0 <= k < big@.len() ==> (#[trigger] big@[k])@.to_multiset() == comps@[src[k]]@.to_multiset(),
            forall|k: int| 0 <= k < big@.len() ==> sorted_nodes(ints(#[trigger] big@[k]@), pd, pd),
        decreases comps@.len() - i,
    {
        if comps[i].len() >= 2 {
            let c = comps[i].clone();
            proof {
                assert(c@ == comps@[i as int]@);
                assert(cv[i as int] == ints(c@));
                assert forall|k: int| 0 <= k < c@.len() implies #[trigger] c@[k] < pids@.len() && c@[k] < pids@.len() by {
                    assert(cv[i as int][k] == c@[k] as int);
                }
                assert(c@.no_duplicates()) by {
                    assert forall|k: int, l: int| 0 <= k < c@.len() && 0 <= l < c@.len() && k != l implies c@[k] != c@[l] by {
                        assert(cv[i as int][k] != cv[i as int][l]);
                    }
                }
            }
            let sc = sort_nodes(c, pids, pids);
            let ghost s0 = src;
            let ghost b0 = big@;
            big.push(sc);
            proof {
                src = src.push(i as int);
                assert forall|j: int| 0 <= j < i + 1 && cv[j].len() >= 2 implies #[trigger] src.contains(j) by {
                    if j < i {
                        assert(s0.contains(j));
                        let k = choose|k: int| 0 <= k < s0.len() && s0[k] == j;
                        assert(src[k] == j);
                    } else {
                        assert(src.last() == j);
                    }
                }
                assert forall|k: int| 0 <= k < big@.len() implies (#[trigger] big@[k])@.to_multiset() == comps@[src[k]]@.to_multiset() by {
                    if k < b0.len() {
                        assert(big@[k] == b0[k]);
                    }
                }
                assert forall|k: int| 0 <= k < big@.len() implies sorted_nodes(ints(#[trigger] big@[k]@), pd, pd) by {
                    if k < b0.len() {
                        assert(big@[k] == b0[k]);
                    }
                }
            }
        } else {
            proof {
                assert(cv[i as int].len() == comps@[i as int]@.len());
            }
        }
        i += 1;
    }
    let ghost bv = nested_ints(big@);
    proof {
        // every kept list holds exactly the nodes of its component
        assert forall|k: int, y: int| 0 <= k < bv.len() implies (#[trigger] bv[k].contains(y) <==> cv[src[k]].contains(y)) by {
            lemma_same_multiset_contains(big@[k]@, comps@[src[k]]@, y);
            assert(bv[k] == ints(big@[k]@));
            assert(cv[src[k]] == ints(comps@[src[k]]@));
        }
    }
    proof {
        assert forall|k: int, x: int| 0 <= k < bv.len() && 0 <= x < bv[k].len() implies 0 <= #[trigger] bv[k][x] < n by {
            assert(bv[k].contains(bv[k][x]));
            assert(cv[src[k]].contains(bv[k][x]));
            let l = choose|l: int| 0 <= l < cv[src[k]].len() && cv[src[k]][l] == bv[k][x];
            assert(0 <= cv[src[k]][l] < n);
        }
        assert forall|k: int| 0 <= k < bv.len() implies #[trigger] bv[k].len() >= 2 by {
            assert(big@[k]@.to_multiset().len() == comps@[src[k]]@.to_multiset().len());
            assert(cv[src[k]].len() == comps@[src[k]]@.len());
        }
        assert forall|k: int, l: int, x: int, y: int| 0 <= k < bv.len() && 0 <= l < bv.len() && k != l && 0 <= x < bv[k].len() && 0 <= y < bv[l].len() implies #[trigger] bv[k][x] != #[trigger] bv[l][y] by {
            assert(bv[k].contains(bv[k][x]));
            assert(bv[l].contains(bv[l][y]));
            let a = choose|a: int| 0 <= a < cv[src[k]].len() && cv[src[k]][a] == bv[k][x];
            let b = choose|b: int| 0 <= b < cv[src[l]].len() && cv[src[l]][b] == bv[l][y];
            if k < l {
                assert(src[k] < src[l]);
            } else {
                assert(src[l] < src[k]);
            }
            assert(cv[src[k]][a] != cv[src[l]][b]);
        }
    }
    // order the components by the package ids of their members
    let mut out: Vec<Vec<usize>> = Vec::new();
    let ghost mut perm: Seq<int> = Seq::empty();
    let mut j: usize = 0;
    while j < big.len()
        invariant
            0 <= j <= big@.len(),
            bv == nested_ints(big@),
            pd == pids@.map_values(|s: Vec<char>| s@),
            pids@.len() == n,
            forall|k: int| 0 <= k < bv.len() ==> sorted_nodes(#[trigger] bv[k], pd, pd),
            forall|k: int, x: int| 0 <= k < bv.len() && 0 <= x < bv[k].len() ==> 0 <= #[trigger] bv[k][x] < n,
            forall|k: int| 0 <= k < bv.len() ==> #[trigger] bv[k].len() >= 2,
            forall|k: int, l: int, x: int, y: int| 0 <= k < bv.len() && 0 <= l < bv.len() && k != l && 0 <= x < bv[k].len() && 0 <= y < bv[l].len() ==> #[trigger] bv[k][x] != #[trigger] bv[l][y],
            forall|a: int, b: int|
                0 <= a < pids@.len() && 0 <= b < pids@.len() && a != b ==> #[trigger] pids@[a]@ != #[trigger] pids@[b]@,
            perm.len() == out@.len(),
            forall|k: int| 0 <= k < perm.len() ==> 0 <= #[trigger] perm[k] < j && out@[k]@ == big@[perm[k]]@,
            forall|k: int, l: int| 0 <= k < l < perm.len() ==> #[trigger] perm[k] != #[trigger] perm[l],
            forall|x: int| 0 <= x < j ==> #[trigger] perm.contains(x),
            forall|k: int, l: int| 0 <= k < l < out@.len() ==> seqs_lt(pid_list(ints(#[trigger] out@[k]@), pd), pid_list(ints(#[trigger] out@[l]@), pd)),
        decreases big@.len() - j,
    {
        let x = big[j].clone();
        proof {
            assert(x@ == big@[j as int]@);
            assert(bv[j as int] == ints(x@));
            assert forall|i: int| 0 <= i < x@.len() implies #[trigger] x@[i] < pids@.len() by {
                assert(bv[j as int][i] == x@[i] as int);
            }
        }
        let mut p: usize = 0;
        let mut go = true;
        while go && p < out.len()
            invariant
                0 <= p <= out@.len(),
                pd == pids@.map_values(|s: Vec<char>| s@),
                forall|i: int| 0 <= i < x@.len() ==> #[trigger] x@[i] < pids@.len(),
                bv == nested_ints(big@),
                forall|k: int, x: int| 0 <= k < bv.len() && 0 <= x < bv[k].len() ==> 0 <= #[trigger] bv[k][x] < n,
                pids@.len() == n,
                perm.len() == out@.len(),
                forall|k: int| 0 <= k < perm.len() ==> 0 <= #[trigger] perm[k] < j && out@[k]@ == big@[perm[k]]@,
                j < big@.len(),
                forall|k: int| 0 <= k < p ==> seqs_lt(pid_list(ints(#[trigger] out@[k]@), pd), pid_list(ints(x@), pd)),
                !go ==> p < out@.len() && !seqs_lt(pid_list(ints(out@[p as int]@), pd), pid_list(ints(x@), pd)),
            decreases out@.len() - p + (if go { 1int } else { 0int }),
        {
            proof {
                let q = perm[p as int];
                assert(out@[p as int]@ == big@[q]@);
                assert forall|i: int| 0 <= i < out@[p as int]@.len() implies #[trigger] out@[p as int]@[i] < pids@.len() by {
                    assert(bv[q][i] == big@[q]@[i] as int);
                }
            }
            if nodes_seq_lt(&out[p], &x, pids) {
                p += 1;
            } else {
                go = false;
            }
        }
        proof {
            let s = out@;
            let kx = pid_list(ints(x@), pd);
            // distinct components have distinct package id lists
            assert forall|k: int| 0 <= k < s.len() implies pid_list(ints(#[trigger] s[k]@), pd) != kx by {
                let q = perm[k];
                assert(s[k]@ == big@[q]@);
                assert(q != j);
                let c0 = bv[q][0];
                let x0 = bv[j as int][0];
                assert(c0 != x0);
                assert(pid_list(ints(s[k]@), pd)[0] == pd[c0]);
                assert(kx[0] == pd[x0]);
                assert(pd[c0] == pids@[c0]@);
                assert(pd[x0] == pids@[x0]@);
            }
            let s2 = s.insert(p as int, x);
            assert forall|a: int, b: int| 0 <= a < b < s2.len() implies seqs_lt(pid_list(ints(#[trigger] s2[a]@), pd), pid_list(ints(#[trigger] s2[b]@), pd)) by {
                if b < p {
                    assert(s2[a] == s[a] && s2[b] == s[b]);
                } else if b == p {
                    assert(s2[a] == s[a]);
                } else if a == p {
                    assert(s2[b] == s[b - 1]);
                    let kp = pid_list(ints(s[p as int]@), pd);
                    let kb = pid_list(ints(s[b - 1]@), pd);
                    lemma_seqs_total(kp, kx);
                    if b - 1 > p {
                        lemma_seqs_trans(kx, kp, kb);
                    }
                } else if a < p {
                    assert(s2[a] == s[a] && s2[b] == s[b - 1]);
                } else {
                    assert(s2[a] == s[a - 1] && s2[b] == s[b - 1]);
                }
            }
        }
        let ghost p0 = perm;
        out.insert(p, x);
        proof {
            perm = perm.insert(p as int, j as int);
            assert forall|k: int| 0 <= k < perm.len() implies 0 <= #[trigger] perm[k] < j + 1 && out@[k]@ == big@[perm[k]]@ by {
                if k < p {
                    assert(perm[k] == p0[k]);
                } else if k > p {
                    assert(perm[k] == p0[k - 1]);
                }
            }
            assert forall|k: int, l: int| 0 <= k < l < perm.len() implies #[trigger] perm[k] != #[trigger] perm[l] by {
                if k < p && l < p {
                    assert(perm[k] == p0[k] && perm[l] == p0[l]);
                } else if k < p && l == p {
                    assert(perm[k] == p0[k]);
                } else if k < p {
                    assert(perm[k] == p0[k] && perm[l] == p0[l - 1]);
                } else if k == p {
                    assert(perm[l] == p0[l - 1]);
                } else {
                    assert(perm[k] == p0[k - 1] && perm[l] == p0[l - 1]);
                }
            }
            assert forall|y: int| 0 <= y < j + 1 implies #[trigger] perm.contains(y) by {
                if y < j {
                    assert(p0.contains(y));
                    let k = choose|k: int| 0 <= k < p0.len() && p0[k] == y;
                    if k < p {
                        assert(perm[k] == y);
                    } else {
                        assert(perm[k + 1] == y);
                    }
                } else {
                    assert(perm[p as int] == y);
                }
            }
        }
        j += 1;
    }
    proof {
        let ov = nested_ints(out@);
        // `out` is a permutation of `big`
        assert forall|k: int| 0 <= k < ov.len() implies #[trigger] ov[k] == bv[perm[k]] by {
            assert(out@[k]@ == big@[perm[k]]@);
        }
        lemma_cycle_listing(h, n as int, pd, cv, src, bv, perm, ov);
    }
    out
}

/// A level put in node order still lists exactly the ready nodes.
pub proof fn lemma_sorted_level(
    v: Seq<usize>,
    r: Seq<usize>,
    g: Seq<Seq<bool>>,
    t: Seq<bool>,
    d: Seq<bool>,
    names: Seq<Seq<char>>,
    pids: Seq<Seq<char>>,
)
    requires
        lists_ready(ints(v), g, t, d),
        v.to_multiset() == r.to_multiset(),
        sorted_nodes(ints(r), names, pids),
    ensures
        lists_ready(ints(r), g, t, d),
        r.len() == v.len(),
{
    let (a, b) = (ints(v), ints(r));
    assert forall|i: int, j: int| 0 <= i < b.len() && 0 <= j < b.len() && i != j implies b[i] != b[j] by {
        lemma_lex_irreflexive(names[b[i]]);
        lemma_lex_irreflexive(pids[b[i]]);
        if i < j {
            assert(node_lt(names, pids, b[i], b[j]));
        } else {
            assert(node_lt(names, pids, b[j], b[i]));
        }
    }
    assert forall|i: int| 0 <= i < b.len() implies ready_at(g, t, d, #[trigger] b[i]) by {
        assert(b.contains(b[i]));
        lemma_same_multiset_contains(v, r, b[i]);
        let k = choose|k: int| 0 <= k < a.len() && a[k] == b[i];
        assert(ready_at(g, t, d, a[k]));
    }
    assert forall|x: int| ready_at(g, t, d, x) implies #[trigger] b.contains(x) by {
        assert(a.contains(x));
        lemma_same_multiset_contains(v, r, x);
    }
    assert(v.to_multiset().len() == v.len());
    assert(r.to_multiset().len() == r.len());
}

proof fn lemma_same_multiset_contains(a: Seq<usize>, b: Seq<usize>, y: int)
    requires
        a.to_multiset() == b.to_multiset(),
    ensures
        ints(a).contains(y) <==> ints(b).contains(y),
{
    if ints(a).contains(y) {
        let k = choose|k: int| 0 <= k < ints(a).len() && ints(a)[k] == y;
        assert(a.contains(a[k]));
        assert(a.to_multiset().contains(a[k]));
        assert(b.contains(a[k]));
        let l = choose|l: int| 0 <= l < b.len() && b[l] == a[k];
        assert(ints(b)[l] == y);
    }
    if ints(b).contains(y) {
        let k = choose|k: int| 0 <= k < ints(b).len() && ints(b)[k] == y;
        assert(b.contains(b[k]));
        assert(b.to_multiset().contains(b[k]));
        assert(a.contains(b[k]));
        let l = choose|l: int| 0 <= l < a.len() && a[l] == b[k];
        assert(ints(a)[l] == y);
    }
}

proof fn lemma_cycle_listing(
    h: Seq<Seq<bool>>,
    n: int,
    pd: Seq<Seq<char>>,
    cv: Seq<Seq<int>>,
    src: Seq<int>,
    bv: Seq<Seq<int>>,
    perm: Seq<int>,
    ov: Seq<Seq<int>>,
)
    requires
        scc_partition(h, n, cv),
        src.len() == bv.len(),
        forall|k: int| 0 <= k < src.len() ==> 0 <= #[trigger] src[k] < cv.len() && cv[src[k]].len() >= 2,
        forall|k: int, l: int| 0 <= k < l < src.len() ==> #[trigger] src[k] < #[trigger] src[l],
        forall|j: int| 0 <= j < cv.len() && cv[j].len() >= 2 ==> #[trigger] src.contains(j),
        forall|k: int, y: int| 0 <= k < bv.len() ==> (#[trigger] bv[k].contains(y) <==> cv[src[k]].contains(y)),
        forall|k: int| 0 <= k < bv.len() ==> sorted_nodes(#[trigger] bv[k], pd, pd),
        forall|k: int| 0 <= k < bv.len() ==> #[trigger] bv[k].len() >= 2,
        perm.len() == ov.len(),
        forall|k: int| 0 <= k < ov.len() ==> 0 <= #[trigger] perm[k] < bv.len() && ov[k] == bv[perm[k]],
        forall|q: int| 0 <= q < bv.len() ==> #[trigger] perm.contains(q),
        forall|k: int, l: int| 0 <= k < l < ov.len() ==> seqs_lt(pid_list(#[trigger] ov[k], pd), pid_list(#[trigger] ov[l], pd)),
    ensures
        cycle_listing(h, n, pd, ov),
{
    assert forall|i: int| 0 <= i < ov.len() implies (#[trigger] ov[i]).len() >= 2 by {
        assert(ov[i] == bv[perm[i]]);
    }
    assert forall|i: int| 0 <= i < ov.len() implies sorted_nodes(#[trigger] ov[i], pd, pd) by {
        assert(ov[i] == bv[perm[i]]);
    }
    assert forall|i: int, k: int| 0 <= i < ov.len() && 0 <= k < ov[i].len() implies 0 <= #[trigger] ov[i][k] < n by {
        let q = perm[i];
        assert(bv[q].contains(ov[i][k]));
        assert(cv[src[q]].contains(ov[i][k]));
        let l = choose|l: int| 0 <= l < cv[src[q]].len() && cv[src[q]][l] == ov[i][k];
        assert(0 <= cv[src[q]][l] < n);
    }
    assert forall|i: int, k: int, l: int|
        0 <= i < ov.len() && 0 <= k < ov[i].len() && 0 <= l < ov[i].len() implies strongly(h, #[trigger] ov[i][k], #[trigger] ov[i][l]) by {
        let q = perm[i];
        let c = src[q];
        assert(bv[q].contains(ov[i][k]));
        assert(bv[q].contains(ov[i][l]));
        let a = choose|a: int| 0 <= a < cv[c].len() && cv[c][a] == ov[i][k];
        let b = choose|b: int| 0 <= b < cv[c].len() && cv[c][b] == ov[i][l];
        assert(strongly(h, cv[c][a], cv[c][b]));
    }
    assert forall|i: int, k: int, y: int|
        0 <= i < ov.len() && 0 <= k < ov[i].len() && 0 <= y < n && strongly(h, #[trigger] ov[i][k], y) implies #[trigger] ov[i].contains(y) by {
        let q = perm[i];
        let c = src[q];
        assert(bv[q].contains(ov[i][k]));
        let a = choose|a: int| 0 <= a < cv[c].len() && cv[c][a] == ov[i][k];
        assert(in_comps(cv, y));
        let (j, l) = choose|j: int, l: int| 0 <= j < cv.len() && 0 <= l < cv[j].len() && #[trigger] cv[j][l] == y;
        if j != c {
            assert(!strongly(h, cv[c][a], cv[j][l]));
        }
        assert(cv[c].contains(y));
        assert(bv[q].contains(y));
    }
    assert forall|x: int, y: int|
        0 <= x < n && 0 <= y < n && x != y && #[trigger] strongly(h, x, y) implies exists|i: int| 0 <= i < ov.len() && #[trigger] ov[i].contains(x) by {
        assert(in_comps(cv, x));
        assert(in_comps(cv, y));
        let (j, l) = choose|j: int, l: int| 0 <= j < cv.len() && 0 <= l < cv[j].len() && #[trigger] cv[j][l] == x;
        let (j2, l2) = choose|j2: int, l2: int| 0 <= j2 < cv.len() && 0 <= l2 < cv[j2].len() && #[trigger] cv[j2][l2] == y;
        if j2 != j {
            assert(!strongly(h, cv[j][l], cv[j2][l2]));
        }
        assert(l != l2);
        assert(cv[j].len() >= 2);
        assert(src.contains(j));
        let q = choose|q: int| 0 <= q < src.len() && src[q] == j;
        assert(cv[src[q]].contains(x));
        assert(bv[q].contains(x));
        assert(perm.contains(q));
        let i = choose|i: int| 0 <= i < perm.len() && perm[i] == q;
        assert(ov[i] == bv[q]);
    }
}

/// Number of `true` entries.
pub open spec fn count_true(s: Seq<bool>) -> nat
    decreases s.len(),
{
    if s.len() == 0 {
        0
    } else {
        count_true(s.drop_last()) + if s.last() {
            1nat
        } else {
            0nat
        }
    }
}

pub proof fn lemma_count_true_bound(s: Seq<bool>)
    ensures
        count_true(s) <= s.len(),
    decreases s.len(),
{
    if s.len() > 0 {
        lemma_count_true_bound(s.drop_last());
    }
}

/// Setting an entry that was `false` adds one.
pub proof fn lemma_count_true_set(s: Seq<bool>, i: int)
    requires
        0 <= i < s.len(),
        !s[i],
    ensures
        count_true(s.update(i, true)) == count_true(s) + 1,
    decreases s.len(),
{
    lemma_count_true_bound(s);
    let u = s.update(i, true);
    if i == s.len() - 1 {
        assert(u.drop_last() == s.drop_last());
    } else {
        assert(u.drop_last() == s.drop_last().update(i, true));
        lemma_count_true_set(s.drop_last(), i);
    }
}

} // verus!
