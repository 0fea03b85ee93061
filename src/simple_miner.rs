//! The cycle solver: builds the graph edge by edge over a parent-pointer
//! table and recovers a proof when a cycle of the required length closes.
use vstd::prelude::*;

use crate::cuckoo::{
    edge_of, is_valid_proof, node, sipedge, sipnode, verify, Edge, NEDGES, NNODES, PROOFSIZE,
};

verus! {

/// Longest walk from a node to its root before the insertion is given up.
pub const MAXPATHLEN: usize = 4096;

/// The state of one solving pass: the keys, the number of nonces scanned and
/// the parent table, indexed by node id, `0` standing for "no parent".
#[derive(Clone)]
pub struct CuckooSolve {
    pub graph_v: [u64; 4],
    pub easiness: i32,
    pub cuckoo: Vec<i32>,
}

/// A parent table of `NNODES + 1` entries, each a node id.
pub open spec fn table_ok(t: Seq<i32>) -> bool {
    &&& t.len() == NNODES + 1
    &&& forall|i: int| 0 <= i < t.len() ==> 0 <= #[trigger] t[i] < NNODES
}

/// Every entry of a walk buffer is a node id.
pub open spec fn nodes_ok(s: Seq<i32>) -> bool {
    forall|i: int| 0 <= i < s.len() ==> 0 <= #[trigger] s[i] < NNODES
}

/// The node reached from `u` by following the parent table `k` times.
pub open spec fn follow(t: Seq<i32>, u: int, k: nat) -> int
    decreases k,
{
    if k == 0 {
        u
    } else {
        let p = follow(t, u, (k - 1) as nat);
        if 0 <= p < t.len() {
            t[p] as int
        } else {
            0
        }
    }
}

/// The number of parent steps from `u` to the sentinel, looking from step
/// `k` on; `None` where the sentinel is not met within `MAXPATHLEN` steps.
pub open spec fn root_steps(t: Seq<i32>, u: int, k: nat) -> Option<nat>
    decreases MAXPATHLEN - k,
{
    if k >= MAXPATHLEN {
        None
    } else if follow(t, u, k) == 0 {
        Some(k)
    } else {
        root_steps(t, u, k + 1)
    }
}

proof fn lemma_root_steps_found(t: Seq<i32>, u: int, n: nat, j: nat)
    requires
        j <= n < MAXPATHLEN,
        follow(t, u, n) == 0,
        forall|k: nat| k < n ==> follow(t, u, k) != 0,
    ensures
        root_steps(t, u, j) == Some(n),
    decreases n - j,
{
    if j < n {
        lemma_root_steps_found(t, u, n, j + 1);
    }
}

proof fn lemma_root_steps_none(t: Seq<i32>, u: int, j: nat)
    requires
        forall|k: nat| k < MAXPATHLEN ==> follow(t, u, k) != 0,
    ensures
        root_steps(t, u, j) is None,
    decreases MAXPATHLEN - j,
{
    if j < MAXPATHLEN {
        lemma_root_steps_none(t, u, j + 1);
    }
}

/// An edge endpoint `start` followed by the `n` nodes of the walk from its
/// parent `u` to the root.
pub open spec fn chain(t: Seq<i32>, start: i32, u: int, n: nat) -> Seq<i32> {
    Seq::new(
        n + 1,
        |k: int|
            if k == 0 {
                start
            } else {
                follow(t, u, (k - 1) as nat) as i32
            },
    )
}

/// Where two chains that end in the same root first meet, moving both
/// positions on together from `(a, b)`.
pub open spec fn meet(us: Seq<i32>, vs: Seq<i32>, a: int, b: int) -> (int, int)
    decreases us.len() - a,
{
    if a + 1 >= us.len() || b + 1 >= vs.len() || us[a] == vs[b] {
        (a, b)
    } else {
        meet(us, vs, a + 1, b + 1)
    }
}

/// The table with the first `n` links of the chain `ch` reversed, from the
/// far end down: each node points back to its predecessor in the chain.
pub open spec fn relink(t: Seq<i32>, ch: Seq<i32>, n: nat) -> Seq<i32>
    decreases n,
{
    if n == 0 || n >= ch.len() {
        t
    } else {
        relink(t.update(ch[n as int] as int, ch[n - 1]), ch, (n - 1) as nat)
    }
}

/// The edge that closed the cycle.
pub open spec fn first_edge(us: Seq<i32>, vs: Seq<i32>) -> Edge {
    Edge { u: us[0], v: (vs[0] - NEDGES) as i32 }
}

/// The `k`-th cycle edge along the left chain.
pub open spec fn u_side_edge(us: Seq<i32>, k: int) -> Edge {
    Edge { u: us[k + 1 - (k + 1) % 2], v: (us[k - k % 2 + 1] - NEDGES) as i32 }
}

/// The `k`-th cycle edge along the right chain.
pub open spec fn v_side_edge(vs: Seq<i32>, k: int) -> Edge {
    Edge { u: vs[k - k % 2 + 1], v: (vs[k + 1 - (k + 1) % 2] - NEDGES) as i32 }
}

/// The closing edge with the chain edges from positions `ka` and `kb` on.
#[verifier::opaque]
pub open spec fn edges_from(us: Seq<i32>, vs: Seq<i32>, ka: int, kb: int) -> Set<Edge> {
    Set::new(
        |e: Edge|
            e == first_edge(us, vs) || (exists|k: int|
                ka <= k < us.len() - 1 && e == #[trigger] u_side_edge(us, k)) || (exists|k: int|
                kb <= k < vs.len() - 1 && e == #[trigger] v_side_edge(vs, k)),
    )
}

/// The edges of the cycle closed along the chains `us` and `vs`.
pub open spec fn cycle_edges(us: Seq<i32>, vs: Seq<i32>) -> Set<Edge> {
    edges_from(us, vs, 0, 0)
}

proof fn lemma_edges_step_u(us: Seq<i32>, vs: Seq<i32>, ka: int, kb: int)
    requires
        0 <= ka < us.len() - 1,
    ensures
        edges_from(us, vs, ka, kb) == edges_from(us, vs, ka + 1, kb).insert(u_side_edge(us, ka)),
{
    reveal(edges_from);
    let l = edges_from(us, vs, ka, kb);
    let r = edges_from(us, vs, ka + 1, kb).insert(u_side_edge(us, ka));
    assert forall|e: Edge| l.contains(e) implies r.contains(e) by {
        if e != first_edge(us, vs) && e != u_side_edge(us, ka) && !(exists|k: int|
            kb <= k < vs.len() - 1 && e == #[trigger] v_side_edge(vs, k)) {
            let k = choose|k: int| ka <= k < us.len() - 1 && e == #[trigger] u_side_edge(us, k);
            assert(k != ka);
        }
    }
    assert(l =~= r);
}

proof fn lemma_edges_step_v(us: Seq<i32>, vs: Seq<i32>, ka: int, kb: int)
    requires
        0 <= kb < vs.len() - 1,
    ensures
        edges_from(us, vs, ka, kb) == edges_from(us, vs, ka, kb + 1).insert(v_side_edge(vs, kb)),
{
    reveal(edges_from);
    let l = edges_from(us, vs, ka, kb);
    let r = edges_from(us, vs, ka, kb + 1).insert(v_side_edge(vs, kb));
    assert forall|e: Edge| l.contains(e) implies r.contains(e) by {
        if e != first_edge(us, vs) && e != v_side_edge(vs, kb) && !(exists|k: int|
            ka <= k < us.len() - 1 && e == #[trigger] u_side_edge(us, k)) {
            let k = choose|k: int| kb <= k < vs.len() - 1 && e == #[trigger] v_side_edge(vs, k);
            assert(k != kb);
        }
    }
    assert(l =~= r);
}

/// The nonces below `n`, ascending, whose edge lies in `s`.
pub open spec fn matching(v: Seq<u64>, s: Set<Edge>, n: nat) -> Seq<i32>
    decreases n,
{
    if n == 0 {
        Seq::empty()
    } else {
        let m = matching(v, s, (n - 1) as nat);
        if s.contains(edge_of(v, n - 1)) {
            m.push((n - 1) as i32)
        } else {
            m
        }
    }
}

proof fn lemma_matching_grows(v: Seq<u64>, s: Set<Edge>, n1: nat, n2: nat)
    requires
        n1 <= n2,
    ensures
        matching(v, s, n1).len() <= matching(v, s, n2).len(),
    decreases n2 - n1,
{
    if n1 < n2 {
        lemma_matching_grows(v, s, n1, (n2 - 1) as nat);
    }
}

/// The proof recovered from a cycle closed along `us` and `vs`: the nonces in
/// `[0, easiness)` whose edge is a cycle edge, where there are exactly
/// `PROOFSIZE` of them and they pass verification.
#[verifier::opaque]
pub open spec fn recovered(v: Seq<u64>, easiness: int, us: Seq<i32>, vs: Seq<i32>) -> Option<
    Seq<i32>,
> {
    let m = matching(v, cycle_edges(us, vs), if easiness > 0 { easiness as nat } else { 0 });
    if m.len() == PROOFSIZE && is_valid_proof(v, m, easiness) {
        Some(m)
    } else {
        None
    }
}

/// Adding the edge of `nonce` to the table `t`: the proof found, if a cycle
/// of `PROOFSIZE` edges closes and its proof is recovered, and the table
/// after. An edge already present, a walk longer than `MAXPATHLEN` or a
/// cycle of another length leaves the table as it is; otherwise the shorter
/// chain is reversed to join the two trees.
#[verifier::opaque]
pub open spec fn insertion(v: Seq<u64>, easiness: int, t: Seq<i32>, nonce: int) -> (
    Option<Seq<i32>>,
    Seq<i32>,
) {
    let u0 = node(v, nonce, 0);
    let v0 = (NEDGES + node(v, nonce, 1)) as i32;
    let u = t[u0 as int];
    let w = t[v0 as int];
    if u == v0 || w == u0 {
        (None, t)
    } else {
        match (root_steps(t, u as int, 0), root_steps(t, w as int, 0)) {
            (Some(nu), Some(nv)) => {
                let us = chain(t, u0, u as int, nu);
                let vs = chain(t, v0, w as int, nv);
                if us[nu as int] == vs[nv as int] {
                    let m = if nu < nv {
                        nu
                    } else {
                        nv
                    };
                    let (a, b) = meet(us, vs, nu - m, nv - m);
                    if a + b + 1 == PROOFSIZE {
                        (recovered(v, easiness, us.take(a + 1), vs.take(b + 1)), t)
                    } else {
                        (None, t)
                    }
                } else if nu < nv {
                    (None, relink(t, us, nu).update(u0 as int, v0))
                } else {
                    (None, relink(t, vs, nv).update(v0 as int, u0))
                }
            },
            _ => (None, t),
        }
    }
}

/// The scan of the nonces from `nonce` up to `easiness` over the table `t`:
/// the first proof found, or `None`.
pub open spec fn scan(v: Seq<u64>, easiness: int, t: Seq<i32>, nonce: int) -> Option<Seq<i32>>
    decreases easiness - nonce,
{
    if nonce >= easiness {
        None
    } else {
        let (found, next) = insertion(v, easiness, t, nonce);
        match found {
            Some(p) => Some(p),
            None => scan(v, easiness, next, nonce + 1),
        }
    }
}

/// Every proof that the scan finds passes verification under the same keys
/// and easiness.
pub proof fn lemma_scan_yields_valid_proofs(v: Seq<u64>, easiness: int, t: Seq<i32>, nonce: int)
    ensures
        scan(v, easiness, t, nonce) matches Some(p) ==> is_valid_proof(v, p, easiness),
    decreases easiness - nonce,
{
    if nonce < easiness {
        reveal(insertion);
        reveal(recovered);
        let (found, next) = insertion(v, easiness, t, nonce);
        if found is None {
            lemma_scan_yields_valid_proofs(v, easiness, next, nonce + 1);
        }
    }
}

/// Walks from `u` to its root, writing the nodes passed into `us[1..]`.
/// Returns the number of nodes written, the root standing last, or `None`
/// where no root is met within `MAXPATHLEN` steps.
fn path(cuckoo: &Vec<i32>, start: i32, us: &mut Vec<i32>) -> (r: Option<usize>)
    requires
        table_ok(cuckoo@),
        0 <= start < NNODES,
        old(us)@.len() == MAXPATHLEN,
        nodes_ok(old(us)@),
    ensures
        final(us)@.len() == MAXPATHLEN,
        final(us)@[0] == old(us)@[0],
        nodes_ok(final(us)@),
        match r {
            Some(n) => {
                &&& n < MAXPATHLEN
                &&& follow(cuckoo@, start as int, n as nat) == 0
                &&& forall|k: nat| k < n ==> follow(cuckoo@, start as int, k) != 0
                &&& forall|k: int| 1 <= k <= n ==> final(us)@[k] == follow(cuckoo@, start as int, (k - 1) as nat)
            },
            None => forall|k: nat| k < MAXPATHLEN ==> follow(cuckoo@, start as int, k) != 0,
        },
        match r {
            Some(n) => root_steps(cuckoo@, start as int, 0) == Some(n as nat),
            None => root_steps(cuckoo@, start as int, 0) is None,
        },
        r matches Some(n) ==> forall|k: int| n < k < MAXPATHLEN ==> final(us)@[k] == old(us)@[k],
{
    let mut nu: usize = 0;
    let mut u = start;
    let ghost u_start = start as int;
    while u != 0
        invariant
            table_ok(cuckoo@),
            0 <= u < NNODES,
            nu < MAXPATHLEN,
            us@.len() == MAXPATHLEN,
            us@[0] == old(us)@[0],
            nodes_ok(us@),
            u_start == start,
            u == follow(cuckoo@, u_start, nu as nat),
            forall|k: nat| k < nu ==> follow(cuckoo@, u_start, k) != 0,
            forall|k: int| 1 <= k <= nu ==> us@[k] == follow(cuckoo@, u_start, (k - 1) as nat),
            forall|k: int| nu < k < MAXPATHLEN ==> us@[k] == old(us)@[k],
        decreases MAXPATHLEN - nu,
    {
        nu = nu + 1;
        if nu >= MAXPATHLEN {
            assert forall|k: nat| k < MAXPATHLEN implies follow(cuckoo@, u_start, k) != 0 by {
                if k < nu - 1 {
                } else {
                    assert(k == nu - 1);
                }
            }
            proof {
                lemma_root_steps_none(cuckoo@, u_start, 0);
            }
            return None;
        }
        us.set(nu, u);
        u = cuckoo[u as usize];
        assert(u == follow(cuckoo@, u_start, nu as nat));
    }
    proof {
        lemma_root_steps_found(cuckoo@, u_start, nu as nat, 0);
    }
    Some(nu)
}

/// Whether `e` is among `edges`.
fn contains_edge(edges: &Vec<Edge>, e: &Edge) -> (r: bool)
    ensures
        r == edges@.contains(*e),
{
    let mut i: usize = 0;
    while i < edges.len()
        invariant
            i <= edges@.len(),
            forall|k: int| 0 <= k < i ==> edges@[k] != *e,
        decreases edges@.len() - i,
    {
        if edges[i] == *e {
            assert(edges@[i as int] == *e);
            return true;
        }
        i = i + 1;
    }
    false
}

/// Adds `e` to `edges` unless it is there already.
fn insert_edge(edges: &mut Vec<Edge>, e: Edge)
    ensures
        final(edges)@.to_set() == old(edges)@.to_set().insert(e),
        final(edges)@.len() <= old(edges)@.len() + 1,
{
    if !contains_edge(edges, &e) {
        edges.push(e);
        assert(edges@.to_set() =~= old(edges)@.to_set().insert(e)) by {
            assert forall|x: Edge| edges@.to_set().contains(x) implies old(edges)@.to_set().insert(
                e,
            ).contains(x) by {
                let k = choose|k: int| 0 <= k < edges@.len() && edges@[k] == x;
                if k < old(edges)@.len() {
                    assert(old(edges)@[k] == x);
                }
            }
            assert forall|x: Edge| old(edges)@.to_set().insert(e).contains(x) implies edges@.to_set().contains(
                x,
            ) by {
                if x == e {
                    assert(edges@[edges@.len() - 1] == e);
                } else {
                    let k = choose|k: int| 0 <= k < old(edges)@.len() && old(edges)@[k] == x;
                    assert(edges@[k] == x);
                }
            }
        }
    } else {
        assert(edges@.to_set() =~= old(edges)@.to_set().insert(e));
    }
}

/// Recovers the proof of a cycle that closed with the chains `us[0..=nu]` and
/// `vs[0..=nv]`: collects the cycle's edges, then rescans the nonces for
/// those whose edge is among them. Gives `None` unless exactly `PROOFSIZE`
/// nonces are found and they pass the verifier.
fn solution(
    graph_v: [u64; 4],
    easiness: i32,
    us: &Vec<i32>,
    nu: usize,
    vs: &Vec<i32>,
    nv: usize,
) -> (r: Option<[i32; PROOFSIZE]>)
    requires
        us@.len() == MAXPATHLEN,
        vs@.len() == MAXPATHLEN,
        nodes_ok(us@),
        nodes_ok(vs@),
        nu < MAXPATHLEN,
        nv < MAXPATHLEN,
    ensures
        match r {
            Some(p) => recovered(
                graph_v@,
                easiness as int,
                us@.take(nu + 1),
                vs@.take(nv + 1),
            ) == Some(p@),
            None => recovered(graph_v@, easiness as int, us@.take(nu + 1), vs@.take(nv + 1)) is None,
        },
{
    let ghost ut = us@.take(nu + 1);
    let ghost vt = vs@.take(nv + 1);
    let mut cycle: Vec<Edge> = Vec::new();
    insert_edge(&mut cycle, Edge { u: us[0], v: vs[0] - NEDGES as i32 });
    proof {
        reveal(edges_from);
        assert(Set::<Edge>::empty().insert(first_edge(ut, vt)) =~= edges_from(
            ut,
            vt,
            nu as int,
            nv as int,
        ));
        assert(Seq::<Edge>::empty().to_set() =~= Set::<Edge>::empty());
    }
    let mut k: usize = nu;
    while k != 0
        invariant
            k <= nu < MAXPATHLEN,
            us@.len() == MAXPATHLEN,
            nodes_ok(us@),
            ut == us@.take(nu + 1),
            cycle@.to_set() == edges_from(ut, vt, k as int, nv as int),
        decreases k,
    {
        k = k - 1;
        let e = Edge { u: us[k + 1 - (k + 1) % 2], v: us[k - k % 2 + 1] - NEDGES as i32 };
        assert(e == u_side_edge(ut, k as int));
        proof {
            lemma_edges_step_u(ut, vt, k as int, nv as int);
        }
        insert_edge(&mut cycle, e);
    }
    k = nv;
    while k != 0
        invariant
            k <= nv < MAXPATHLEN,
            vs@.len() == MAXPATHLEN,
            nodes_ok(vs@),
            vt == vs@.take(nv + 1),
            cycle@.to_set() == edges_from(ut, vt, 0, k as int),
        decreases k,
    {
        k = k - 1;
        let e = Edge { u: vs[k - k % 2 + 1], v: vs[k + 1 - (k + 1) % 2] - NEDGES as i32 };
        assert(e == v_side_edge(vt, k as int));
        proof {
            lemma_edges_step_v(ut, vt, 0, k as int);
        }
        insert_edge(&mut cycle, e);
    }
    let ghost set = cycle_edges(ut, vt);
    let found = matching_nonces(graph_v, easiness, &cycle);
    proof {
        reveal(recovered);
    }
    match found {
        Some(p) => {
            if verify(graph_v, p, easiness) {
                Some(p)
            } else {
                None
            }
        },
        None => None,
    }
}

/// The nonces in `[0, easiness)`, ascending, whose edge is among `cycle`,
/// where there are exactly `PROOFSIZE` of them.
fn matching_nonces(graph_v: [u64; 4], easiness: i32, cycle: &Vec<Edge>) -> (r: Option<
    [i32; PROOFSIZE],
>)
    ensures
        ({
            let m = matching(
                graph_v@,
                cycle@.to_set(),
                if easiness > 0 {
                    easiness as nat
                } else {
                    0
                },
            );
            match r {
                Some(p) => m.len() == PROOFSIZE && m == p@,
                None => m.len() != PROOFSIZE,
            }
        }),
{
    let ghost set = cycle@.to_set();
    let ghost keys = graph_v@;
    let mut proof: [i32; PROOFSIZE] = [0; PROOFSIZE];
    let mut n: usize = 0;
    let mut nonce: i32 = 0;
    while nonce < easiness
        invariant
            0 <= nonce,
            nonce == 0 || nonce <= easiness,
            keys == graph_v@,
            set == cycle@.to_set(),
            n <= PROOFSIZE,
            n == matching(keys, set, nonce as nat).len(),
            forall|i: int| 0 <= i < n ==> proof@[i] == matching(keys, set, nonce as nat)[i],
        decreases easiness - nonce,
    {
        let e = sipedge(graph_v, nonce);
        let ghost before = matching(keys, set, nonce as nat);
        let hit = contains_edge(cycle, &e);
        assert(hit == set.contains(e));
        if hit {
            assert(matching(keys, set, (nonce + 1) as nat) == before.push(nonce));
            if n == PROOFSIZE {
                proof {
                    lemma_matching_grows(keys, set, (nonce + 1) as nat, easiness as nat);
                }
                return None;
            }
            proof[n] = nonce;
            n = n + 1;
        } else {
            assert(matching(keys, set, (nonce + 1) as nat) == before);
        }
        nonce = nonce + 1;
    }
    let ghost m = matching(keys, set, if easiness > 0 { easiness as nat } else { 0 });
    assert(m == matching(keys, set, nonce as nat));
    if n == PROOFSIZE {
        assert(proof@ =~= m);
        Some(proof)
    } else {
        None
    }
}

/// Reverses the first `n` links of the chain `ch` in the table.
fn relink_chain(cuckoo: &mut Vec<i32>, ch: &Vec<i32>, n: usize)
    requires
        table_ok(old(cuckoo)@),
        ch@.len() == MAXPATHLEN,
        nodes_ok(ch@),
        n < MAXPATHLEN,
    ensures
        table_ok(final(cuckoo)@),
        final(cuckoo)@ == relink(old(cuckoo)@, ch@.take(n + 1), n as nat),
{
    let ghost c = ch@.take(n + 1);
    let mut k: usize = n;
    while k != 0
        invariant
            k <= n < MAXPATHLEN,
            table_ok(cuckoo@),
            ch@.len() == MAXPATHLEN,
            nodes_ok(ch@),
            c == ch@.take(n + 1),
            relink(cuckoo@, c, k as nat) == relink(old(cuckoo)@, c, n as nat),
        decreases k,
    {
        k = k - 1;
        assert(c[k + 1] == ch@[k + 1] && c[k as int] == ch@[k as int]);
        cuckoo.set(ch[k + 1] as usize, ch[k]);
    }
}

/// Handles a cycle closed along the chains `us[0..=nu]` and `vs[0..=nv]`,
/// which end in the same root: finds where they meet and recovers the proof
/// where the cycle has `PROOFSIZE` edges.
fn close_cycle(
    graph_v: [u64; 4],
    easiness: i32,
    us: &Vec<i32>,
    nu: usize,
    vs: &Vec<i32>,
    nv: usize,
) -> (r: Option<[i32; PROOFSIZE]>)
    requires
        us@.len() == MAXPATHLEN,
        vs@.len() == MAXPATHLEN,
        nodes_ok(us@),
        nodes_ok(vs@),
        nu < MAXPATHLEN,
        nv < MAXPATHLEN,
        us@[nu as int] == vs@[nv as int],
    ensures
        ({
            let usc = us@.take(nu + 1);
            let vsc = vs@.take(nv + 1);
            let m = if nu < nv {
                nu
            } else {
                nv
            };
            let (a, b) = meet(usc, vsc, nu - m, nv - m);
            let expected = if a + b + 1 == PROOFSIZE {
                recovered(graph_v@, easiness as int, usc.take(a + 1), vsc.take(b + 1))
            } else {
                None
            };
            match r {
                Some(p) => expected == Some(p@),
                None => expected is None,
            }
        }),
{
    let ghost usc = us@.take(nu + 1);
    let ghost vsc = vs@.take(nv + 1);
    let m = if nu < nv {
        nu
    } else {
        nv
    };
    let mut a: usize = nu - m;
    let mut b: usize = nv - m;
    while us[a] != vs[b]
        invariant
            a <= nu < MAXPATHLEN,
            b <= nv < MAXPATHLEN,
            nu - a == nv - b,
            us@.len() == MAXPATHLEN,
            vs@.len() == MAXPATHLEN,
            us@[nu as int] == vs@[nv as int],
            usc == us@.take(nu + 1),
            vsc == vs@.take(nv + 1),
            meet(usc, vsc, a as int, b as int) == meet(usc, vsc, (nu - m) as int, (nv - m) as int),
        decreases nu - a,
    {
        a = a + 1;
        b = b + 1;
    }
    assert(meet(usc, vsc, a as int, b as int) == (a as int, b as int));
    if a + b + 1 == PROOFSIZE {
        assert(us@.take(a + 1) =~= usc.take(a + 1));
        assert(vs@.take(b + 1) =~= vsc.take(b + 1));
        solution(graph_v, easiness, us, a, vs, b)
    } else {
        None
    }
}

/// Adds the edge of `nonce` to the table, as `insertion` says.
fn insert_nonce(
    graph_v: [u64; 4],
    easiness: i32,
    cuckoo: &mut Vec<i32>,
    us: &mut Vec<i32>,
    vs: &mut Vec<i32>,
    nonce: i32,
) -> (r: Option<[i32; PROOFSIZE]>)
    requires
        0 <= nonce,
        table_ok(old(cuckoo)@),
        old(us)@.len() == MAXPATHLEN,
        old(vs)@.len() == MAXPATHLEN,
        nodes_ok(old(us)@),
        nodes_ok(old(vs)@),
    ensures
        table_ok(final(cuckoo)@),
        final(us)@.len() == MAXPATHLEN,
        final(vs)@.len() == MAXPATHLEN,
        nodes_ok(final(us)@),
        nodes_ok(final(vs)@),
        match r {
            Some(p) => insertion(graph_v@, easiness as int, old(cuckoo)@, nonce as int).0 == Some(
                p@,
            ),
            None => insertion(graph_v@, easiness as int, old(cuckoo)@, nonce as int).0 is None
                && final(cuckoo)@ == insertion(
                graph_v@,
                easiness as int,
                old(cuckoo)@,
                nonce as int,
            ).1,
        },
{
    let ghost t = cuckoo@;
    proof {
        reveal(insertion);
    }
    let u0 = sipnode(graph_v, nonce, 0);
    let v0 = NEDGES as i32 + sipnode(graph_v, nonce, 1);
    us.set(0, u0);
    vs.set(0, v0);
    let u = cuckoo[u0 as usize];
    let v = cuckoo[v0 as usize];
    if u == v0 || v == u0 {
        return None;
    }
    let nu = match path(cuckoo, u, us) {
        Some(n) => n,
        None => {
            return None;
        },
    };
    let nv = match path(cuckoo, v, vs) {
        Some(n) => n,
        None => {
            return None;
        },
    };
    let ghost usc = chain(t, u0, u as int, nu as nat);
    let ghost vsc = chain(t, v0, v as int, nv as nat);
    assert(us@.take(nu + 1) =~= usc);
    assert(vs@.take(nv + 1) =~= vsc);
    if us[nu] == vs[nv] {
        assert(usc[nu as int] == vsc[nv as int]);
        return close_cycle(graph_v, easiness, us, nu, vs, nv);
    }
    assert(usc[nu as int] != vsc[nv as int]);
    if nu < nv {
        relink_chain(cuckoo, us, nu);
        cuckoo.set(us[0] as usize, vs[0]);
    } else {
        relink_chain(cuckoo, vs, nv);
        cuckoo.set(vs[0] as usize, us[0]);
    }
    None
}

/// Scans the nonces `0..cs.easiness`, adding each edge to the parent table,
/// until a cycle of exactly `PROOFSIZE` edges closes and its proof is
/// recovered; returns that proof, or `None` where the scan finds none.
pub fn solve(cs: CuckooSolve) -> (r: Option<[i32; PROOFSIZE]>)
    requires
        table_ok(cs.cuckoo@),
    ensures
        match r {
            Some(p) => scan(cs.graph_v@, cs.easiness as int, cs.cuckoo@, 0) == Some(p@),
            None => scan(cs.graph_v@, cs.easiness as int, cs.cuckoo@, 0) is None,
        },
        r matches Some(p) ==> is_valid_proof(cs.graph_v@, p@, cs.easiness as int),
{
    proof {
        lemma_scan_yields_valid_proofs(cs.graph_v@, cs.easiness as int, cs.cuckoo@, 0);
    }
    let ghost goal = scan(cs.graph_v@, cs.easiness as int, cs.cuckoo@, 0);
    let CuckooSolve { graph_v, easiness, cuckoo } = cs;
    let mut cuckoo = cuckoo;
    let ghost keys = graph_v@;
    let ghost e = easiness as int;
    let mut us: Vec<i32> = vec![0; MAXPATHLEN];
    let mut vs: Vec<i32> = vec![0; MAXPATHLEN];
    let mut nonce: i32 = 0;
    while nonce < easiness
        invariant
            0 <= nonce,
            keys == graph_v@,
            keys == cs.graph_v@,
            e == easiness as int,
            e == cs.easiness as int,
            goal == scan(cs.graph_v@, cs.easiness as int, cs.cuckoo@, 0),
            goal matches Some(p) ==> is_valid_proof(keys, p, e),
            scan(keys, e, cuckoo@, nonce as int) == goal,
            table_ok(cuckoo@),
            us@.len() == MAXPATHLEN,
            vs@.len() == MAXPATHLEN,
            nodes_ok(us@),
            nodes_ok(vs@),
        decreases easiness - nonce,
    {
        let ghost t = cuckoo@;
        let ghost ins = insertion(keys, e, t, nonce as int);
        assert(scan(keys, e, t, nonce as int) == match ins.0 {
            Some(p) => Some(p),
            None => scan(keys, e, ins.1, nonce + 1),
        });
        match insert_nonce(graph_v, easiness, &mut cuckoo, &mut us, &mut vs, nonce) {
            Some(p) => {
                return Some(p);
            },
            None => {},
        }
        nonce = nonce + 1;
    }
    None
}


} // verus!
