//! The Cuckoo Cycle graph: key derivation, the keyed node function and the
//! proof verifier.
use vstd::prelude::*;

use blake2::Digest;

verus! {

/// log2 of the number of edges.
pub const EDGEBITS: i32 = 19;

/// Number of edges, and the size of each side of the bipartite graph.
pub const NEDGES: usize = 524288;

/// log2 of the number of nodes over both sides.
pub const NODEBITS: i32 = 20;

/// Number of nodes over both sides.
pub const NNODES: usize = 1048576;

/// Folds a hash output into one side of the graph.
pub const EDGEMASK: i32 = 524287;

/// Length of the cycle that a proof must exhibit.
pub const PROOFSIZE: usize = 42;

/// An edge of the graph: `u` on the left side, `v` on the right side, both
/// as indices within their side.
#[derive(Debug, Clone, Copy, PartialEq, Eq, Structural, Hash)]
pub struct Edge {
    pub u: i32,
    pub v: i32,
}

// ---------------------------------------------------------------------------
// Key derivation

/// The 64-byte BLAKE2b digest of a byte string.
pub uninterp spec fn blake2b_of(data: Seq<u8>) -> Seq<u8>;

/// Relies on blake2::Blake2b (through digest's `new`, `input` and `result`):
/// the digest is a function of the input alone and is 64 bytes long.
#[verifier::external_body]
fn blake2b_digest(data: &[u8]) -> (r: Vec<u8>)
    ensures
        r@ == blake2b_of(data@),
        r@.len() == 64,
{
    let mut hasher = blake2::Blake2b::new();
    hasher.input(data);
    hasher.result().to_vec()
}

/// The little-endian 64-bit word held by `p[i..i + 8]`.
pub open spec fn le_word(p: Seq<u8>, i: int) -> int {
    p[i] as int + 256 * (p[i + 1] as int + 256 * (p[i + 2] as int + 256 * (p[i + 3] as int
        + 256 * (p[i + 4] as int + 256 * (p[i + 5] as int + 256 * (p[i + 6] as int + 256 * (
    p[i + 7] as int)))))))
}

/// The four keying words taken from the first 32 bytes of a digest.
pub open spec fn keys_of_digest(d: Seq<u8>) -> Seq<u64> {
    seq![
        le_word(d, 0) as u64,
        le_word(d, 8) as u64,
        le_word(d, 16) as u64,
        le_word(d, 24) as u64,
    ]
}

/// The keying material of a challenge.
pub open spec fn header_keys(header: Seq<u8>) -> Seq<u64> {
    keys_of_digest(blake2b_of(header))
}

fn u8(a: u8) -> (r: u64)
    ensures
        r == a as u64,
{
    a as u64
}

fn u8to64(p: &Vec<u8>, i: usize) -> (r: u64)
    requires
        i + 8 <= p@.len(),
        i <= 56,
    ensures
        r as int == le_word(p@, i as int),
{
    let b0 = u8(p[i]);
    let b1 = u8(p[i + 1]);
    let b2 = u8(p[i + 2]);
    let b3 = u8(p[i + 3]);
    let b4 = u8(p[i + 4]);
    let b5 = u8(p[i + 5]);
    let b6 = u8(p[i + 6]);
    let b7 = u8(p[i + 7]);
    let r = b0 | b1 << 8u64 | b2 << 16u64 | b3 << 24u64 | b4 << 32u64 | b5 << 40u64 | b6 << 48u64
        | b7 << 56u64;
    assert(r == b0 + 256 * (b1 + 256 * (b2 + 256 * (b3 + 256 * (b4 + 256 * (b5 + 256 * (b6 + 256
        * b7))))))) by (bit_vector)
        requires
            b0 < 256,
            b1 < 256,
            b2 < 256,
            b3 < 256,
            b4 < 256,
            b5 < 256,
            b6 < 256,
            b7 < 256,
            r == b0 | b1 << 8u64 | b2 << 16u64 | b3 << 24u64 | b4 << 32u64 | b5 << 40u64 | b6
                << 48u64 | b7 << 56u64,
    ;
    r
}

/// Derives the four keying words of a challenge from its bytes.
pub fn hash_header(header: &[u8]) -> (r: [u64; 4])
    ensures
        r@ == header_keys(header@),
{
    let result = blake2b_digest(header);
    let r = [u8to64(&result, 0), u8to64(&result, 8), u8to64(&result, 16), u8to64(&result, 24)];
    assert(r@ =~= header_keys(header@));
    r
}

// ---------------------------------------------------------------------------
// The keyed node function

/// Rotation of a 64-bit word left by `b` bits, `0 < b < 64`.
pub open spec fn rotl_spec(x: u64, b: u64) -> u64 {
    (x << b) | (x >> (64 - b) as u64)
}

/// One SipHash round on the state `(v0, v1, v2, v3)`.
pub open spec fn sip_round(s: (u64, u64, u64, u64)) -> (u64, u64, u64, u64) {
    let v0 = s.0.wrapping_add(s.1);
    let v2 = s.2.wrapping_add(s.3);
    let v1 = rotl_spec(s.1, 13) ^ v0;
    let v3 = rotl_spec(s.3, 16) ^ v2;
    let v0 = rotl_spec(v0, 32);
    let v2 = v2.wrapping_add(v1);
    let v0 = v0.wrapping_add(v3);
    let v1 = rotl_spec(v1, 17) ^ v2;
    let v3 = rotl_spec(v3, 21) ^ v0;
    let v2 = rotl_spec(v2, 32);
    (v0, v1, v2, v3)
}

/// SipHash-2-4 of one 64-bit word under the keys `v`: two rounds, the
/// finalisation constant, four rounds, and the xor of the state.
pub open spec fn sip_hash(v: Seq<u64>, nonce: u64) -> u64 {
    let s = sip_round(sip_round((v[0], v[1], v[2], v[3] ^ nonce)));
    let s = (s.0 ^ nonce, s.1, s.2 ^ 0xff, s.3);
    let s = sip_round(sip_round(sip_round(sip_round(s))));
    (s.0 ^ s.1) ^ (s.2 ^ s.3)
}

/// The node of `nonce` on side `side` (0 left, 1 right), within that side.
pub open spec fn node(v: Seq<u64>, nonce: int, side: int) -> i32 {
    (sip_hash(v, (2 * nonce + side) as u64) % (NEDGES as u64)) as i32
}

/// The edge of `nonce`.
pub open spec fn edge_of(v: Seq<u64>, nonce: int) -> Edge {
    Edge { u: node(v, nonce, 0), v: node(v, nonce, 1) }
}

fn rotl(x: u64, b: u64) -> (r: u64)
    requires
        0 < b < 64,
    ensures
        r == rotl_spec(x, b),
{
    (x << b) | (x >> (64 - b))
}

fn sipround(v0: &mut u64, v1: &mut u64, v2: &mut u64, v3: &mut u64)
    ensures
        (*final(v0), *final(v1), *final(v2), *final(v3)) == sip_round(
            (*old(v0), *old(v1), *old(v2), *old(v3)),
        ),
{
    *v0 = v0.wrapping_add(*v1);
    *v2 = v2.wrapping_add(*v3);
    *v1 = rotl(*v1, 13);

    *v3 = rotl(*v3, 16);
    *v1 = *v1 ^ *v0;
    *v3 = *v3 ^ *v2;

    *v0 = rotl(*v0, 32);
    *v2 = v2.wrapping_add(*v1);
    *v0 = v0.wrapping_add(*v3);

    *v1 = rotl(*v1, 17);
    *v3 = rotl(*v3, 21);

    *v1 = *v1 ^ *v2;
    *v3 = *v3 ^ *v0;
    *v2 = rotl(*v2, 32);
}

/// SipHash-2-4 of `nonce` under the keys `v`.
pub fn siphash24(v: [u64; 4], nonce: u64) -> (r: u64)
    ensures
        r == sip_hash(v@, nonce),
{
    let mut v0: u64 = v[0];
    let mut v1: u64 = v[1];
    let mut v2: u64 = v[2];
    let mut v3: u64 = v[3] ^ nonce;

    sipround(&mut v0, &mut v1, &mut v2, &mut v3);
    sipround(&mut v0, &mut v1, &mut v2, &mut v3);

    v0 = v0 ^ nonce;
    v2 = v2 ^ 0xff;

    sipround(&mut v0, &mut v1, &mut v2, &mut v3);
    sipround(&mut v0, &mut v1, &mut v2, &mut v3);
    sipround(&mut v0, &mut v1, &mut v2, &mut v3);
    sipround(&mut v0, &mut v1, &mut v2, &mut v3);
    (v0 ^ v1) ^ (v2 ^ v3)
}

/// The node of `nonce` on side `uorv` (0 left, 1 right), within that side.
pub fn sipnode(v: [u64; 4], nonce: i32, uorv: i32) -> (r: i32)
    requires
        0 <= nonce,
        0 <= uorv <= 1,
    ensures
        r == node(v@, nonce as int, uorv as int),
        0 <= r < NEDGES,
{
    let h = siphash24(v, 2 * (nonce as u64) + (uorv as u64));
    let m = h & (EDGEMASK as u64);
    assert(m == h % 524288 && m < 524288) by (bit_vector)
        requires
            m == h & 524287u64,
    ;
    m as i32
}

/// The edge of `nonce`.
pub fn sipedge(v: [u64; 4], nonce: i32) -> (r: Edge)
    requires
        0 <= nonce,
    ensures
        r == edge_of(v@, nonce as int),
        0 <= r.u < NEDGES,
        0 <= r.v < NEDGES,
{
    Edge { u: sipnode(v, nonce, 0), v: sipnode(v, nonce, 1) }
}

// ---------------------------------------------------------------------------
// Proof verification

/// The left nodes of the edges of a nonce list.
pub open spec fn us_of(v: Seq<u64>, nonces: Seq<i32>) -> Seq<i32> {
    Seq::new(nonces.len(), |i: int| node(v, nonces[i] as int, 0))
}

/// The right nodes of the edges of a nonce list.
pub open spec fn vs_of(v: Seq<u64>, nonces: Seq<i32>) -> Seq<i32> {
    Seq::new(nonces.len(), |i: int| node(v, nonces[i] as int, 1))
}

/// `j` is another index than `i` with the same endpoint.
pub open spec fn is_partner(xs: Seq<i32>, i: int, j: int) -> bool {
    0 <= j < xs.len() && j != i && xs[j] == xs[i]
}

/// `j` is the only other index with the same endpoint as `i`.
pub open spec fn is_unique_partner(xs: Seq<i32>, i: int, j: int) -> bool {
    is_partner(xs, i, j) && forall|k: int| #[trigger] is_partner(xs, i, k) ==> k == j
}

pub open spec fn has_unique_partner(xs: Seq<i32>, i: int) -> bool {
    exists|j: int| is_unique_partner(xs, i, j)
}

pub open spec fn unique_partner(xs: Seq<i32>, i: int) -> int {
    choose|j: int| is_unique_partner(xs, i, j)
}

/// From index `i`, stepping to the unique partner by the right endpoint and
/// then to the unique partner by the left endpoint, comes back to index 0 in
/// exactly `rounds` such double steps, each partner being unique on the way.
pub open spec fn walk_closes(us: Seq<i32>, vs: Seq<i32>, i: int, rounds: nat) -> bool
    decreases rounds,
{
    if rounds == 0 {
        false
    } else {
        let j = unique_partner(vs, i);
        let k = unique_partner(us, j);
        has_unique_partner(vs, i) && has_unique_partner(us, j) && if k == 0 {
            rounds == 1
        } else {
            walk_closes(us, vs, k, (rounds - 1) as nat)
        }
    }
}

/// Every nonce lies in `[0, easiness)` and the nonces strictly increase.
pub open spec fn nonces_well_formed(nonces: Seq<i32>, easiness: int) -> bool {
    &&& forall|i: int| 0 <= i < nonces.len() ==> 0 <= #[trigger] nonces[i] < easiness
    &&& forall|i: int| 0 < i < nonces.len() ==> nonces[i - 1] < #[trigger] nonces[i]
}

/// `nonces` is a proof for the keys `v` at `easiness`: `PROOFSIZE` well-formed
/// nonces whose edges form a single cycle through all of them.
pub open spec fn is_valid_proof(v: Seq<u64>, nonces: Seq<i32>, easiness: int) -> bool {
    &&& nonces.len() == PROOFSIZE
    &&& nonces_well_formed(nonces, easiness)
    &&& walk_closes(us_of(v, nonces), vs_of(v, nonces), 0, (PROOFSIZE / 2) as nat)
}

/// The unique other index of `xs` that shares the value at `i`, if there is one.
fn find_unique_partner(xs: &Vec<i32>, i: usize) -> (r: Option<usize>)
    requires
        i < xs@.len(),
    ensures
        match r {
            Some(j) => is_unique_partner(xs@, i as int, j as int),
            None => !has_unique_partner(xs@, i as int),
        },
{
    let mut j: usize = i;
    let mut k: usize = 0;
    while k < xs.len()
        invariant
            i < xs@.len(),
            k <= xs@.len(),
            j == i ==> forall|m: int| 0 <= m < k ==> !is_partner(xs@, i as int, m),
            j != i ==> is_partner(xs@, i as int, j as int) && j < k && forall|m: int|
                0 <= m < k && is_partner(xs@, i as int, m) ==> m == j,
        decreases xs@.len() - k,
    {
        if k != i && xs[k] == xs[i] {
            if j != i {
                assert(is_partner(xs@, i as int, k as int));
                assert forall|m: int| #[trigger] is_unique_partner(xs@, i as int, m) implies false by {
                    assert(is_partner(xs@, i as int, k as int));
                    assert(is_partner(xs@, i as int, j as int));
                }
                return None;
            }
            j = k;
        }
        k = k + 1;
    }
    if j == i {
        assert forall|m: int| #[trigger] is_unique_partner(xs@, i as int, m) implies false by {
            assert(is_partner(xs@, i as int, m));
        }
        None
    } else {
        Some(j)
    }
}

/// Whether `nonces` is a proof for the keys `v` at `easiness`.
pub fn verify(v: [u64; 4], nonces: [i32; PROOFSIZE], easiness: i32) -> (r: bool)
    ensures
        r == is_valid_proof(v@, nonces@, easiness as int),
{
    let mut us: Vec<i32> = Vec::new();
    let mut vs: Vec<i32> = Vec::new();
    let mut n: usize = 0;
    while n < PROOFSIZE
        invariant
            n <= PROOFSIZE,
            nonces@.len() == PROOFSIZE,
            nonces_well_formed(nonces@.take(n as int), easiness as int),
            us@ == us_of(v@, nonces@.take(n as int)),
            vs@ == vs_of(v@, nonces@.take(n as int)),
        decreases PROOFSIZE - n,
    {
        if nonces[n] < 0 || nonces[n] >= easiness || (n != 0 && nonces[n] <= nonces[n - 1]) {
            assert(!nonces_well_formed(nonces@, easiness as int)) by {
                if n != 0 && nonces[n as int] <= nonces[n - 1] {
                    assert(!(nonces@[n - 1] < nonces@[n as int]));
                }
            }
            return false;
        }
        us.push(sipnode(v, nonces[n], 0));
        vs.push(sipnode(v, nonces[n], 1));
        n = n + 1;
        assert(nonces@.take(n as int) =~= nonces@.take(n - 1).push(nonces@[n - 1]));
        assert(us@ =~= us_of(v@, nonces@.take(n as int)));
        assert(vs@ =~= vs_of(v@, nonces@.take(n as int)));
    }
    assert(nonces@.take(PROOFSIZE as int) =~= nonces@);
    let ghost gus = us@;
    let ghost gvs = vs@;
    assert(gus == us_of(v@, nonces@));
    assert(gvs == vs_of(v@, nonces@));
    assert(nonces_well_formed(nonces@, easiness as int));
    let mut i: usize = 0;
    let mut rounds: usize = 0;
    loop
        invariant
            us@ == gus,
            vs@ == gvs,
            gus == us_of(v@, nonces@),
            gvs == vs_of(v@, nonces@),
            nonces@.len() == PROOFSIZE,
            nonces_well_formed(nonces@, easiness as int),
            us@.len() == PROOFSIZE,
            vs@.len() == PROOFSIZE,
            i < PROOFSIZE,
            rounds < PROOFSIZE / 2,
            walk_closes(gus, gvs, 0, (PROOFSIZE / 2) as nat) == walk_closes(
                gus,
                gvs,
                i as int,
                (PROOFSIZE / 2 - rounds) as nat,
            ),
        decreases PROOFSIZE / 2 - rounds,
    {
        let ghost left: nat = (PROOFSIZE / 2 - rounds) as nat;
        assert(left > 0);
        let j = match find_unique_partner(&vs, i) {
            Some(j) => j,
            None => {
                assert(!walk_closes(gus, gvs, i as int, left));
                return false;
            },
        };
        proof {
            assert(unique_partner(gvs, i as int) == j);
        }
        let k = match find_unique_partner(&us, j) {
            Some(k) => k,
            None => {
                assert(!walk_closes(gus, gvs, i as int, left));
                return false;
            },
        };
        proof {
            assert(unique_partner(gus, j as int) == k);
        }
        rounds = rounds + 1;
        if k == 0 {
            return rounds == PROOFSIZE / 2;
        }
        if rounds == PROOFSIZE / 2 {
            proof {
                reveal_with_fuel(walk_closes, 2);
            }
            return false;
        }
        i = k;
    }
}

// ---------------------------------------------------------------------------
// The text form of a proof: space-separated lowercase hexadecimal nonces

pub open spec fn is_hex_digit(c: u8) -> bool {
    (48 <= c <= 57) || (97 <= c <= 102)
}

pub open spec fn hex_digit_value(c: u8) -> nat {
    if c <= 57 {
        (c - 48) as nat
    } else {
        (c - 87) as nat
    }
}

/// The number that the hexadecimal digits of `d` spell.
pub open spec fn hex_value(d: Seq<u8>) -> nat
    decreases d.len(),
{
    if d.len() == 0 {
        0
    } else {
        hex_value(d.drop_last()) * 16 + hex_digit_value(d.last())
    }
}

/// The fields of `s` between single spaces (empty fields included).
pub open spec fn split_spaces(s: Seq<u8>) -> Seq<Seq<u8>>
    decreases s.len(),
{
    if s.len() == 0 {
        seq![Seq::empty()]
    } else {
        let r = split_spaces(s.drop_last());
        if s.last() == 32 {
            r.push(Seq::empty())
        } else {
            r.update(r.len() - 1, r.last().push(s.last()))
        }
    }
}

proof fn lemma_split_nonempty(s: Seq<u8>)
    ensures
        split_spaces(s).len() >= 1,
    decreases s.len(),
{
    if s.len() > 0 {
        lemma_split_nonempty(s.drop_last());
    }
}

/// A field that is a nonce: one or more hexadecimal digits, at most `i32::MAX`.
pub open spec fn is_nonce_text(f: Seq<u8>) -> bool {
    &&& f.len() > 0
    &&& forall|i: int| 0 <= i < f.len() ==> is_hex_digit(#[trigger] f[i])
    &&& hex_value(f) <= i32::MAX
}

/// The nonces that a proof's text gives: exactly `PROOFSIZE` fields, each a
/// nonce.
pub open spec fn proof_from_text(s: Seq<u8>) -> Option<Seq<i32>> {
    let fs = split_spaces(s);
    if fs.len() == PROOFSIZE && forall|i: int| 0 <= i < fs.len() ==> is_nonce_text(#[trigger] fs[i]) {
        Some(Seq::new(PROOFSIZE as nat, |i: int| hex_value(fs[i]) as i32))
    } else {
        None
    }
}

/// Values up to `2^31`, larger ones capped there.
pub open spec fn cap31(v: int) -> int {
    if v > 0x8000_0000 {
        0x8000_0000
    } else {
        v
    }
}

/// The contents of each vector.
pub open spec fn views(vs: Seq<Vec<u8>>) -> Seq<Seq<u8>> {
    vs.map_values(|v: Vec<u8>| v@)
}

/// The fields of `s` between single spaces.
fn split_spaces_exec(s: &[u8]) -> (r: Vec<Vec<u8>>)
    ensures
        views(r@) == split_spaces(s@),
{
    let mut fields: Vec<Vec<u8>> = Vec::new();
    let mut cur: Vec<u8> = Vec::new();
    let mut i: usize = 0;
    assert(s@.take(0) =~= Seq::<u8>::empty());
    assert(views(fields@).push(cur@) =~= split_spaces(s@.take(0)));
    while i < s.len()
        invariant
            i <= s@.len(),
            views(fields@).push(cur@) == split_spaces(s@.take(i as int)),
        decreases s@.len() - i,
    {
        let c = s[i];
        let ghost before = views(fields@);
        assert(s@.take(i + 1).drop_last() =~= s@.take(i as int));
        if c == 32 {
            let mut next: Vec<u8> = Vec::new();
            std::mem::swap(&mut cur, &mut next);
            fields.push(next);
            assert(views(fields@) =~= before.push(next@));
            assert(views(fields@).push(cur@) =~= split_spaces(s@.take(i + 1)));
        } else {
            cur.push(c);
            assert(views(fields@).push(cur@) =~= split_spaces(s@.take(i + 1)));
        }
        i = i + 1;
    }
    let ghost before = views(fields@);
    fields.push(cur);
    assert(views(fields@) =~= before.push(cur@));
    assert(s@.take(s@.len() as int) =~= s@);
    fields
}

/// The nonce that a field spells, if it is one.
fn hex_field(f: &Vec<u8>) -> (r: Option<i32>)
    ensures
        match r {
            Some(n) => is_nonce_text(f@) && n == hex_value(f@),
            None => !is_nonce_text(f@),
        },
{
    if f.len() == 0 {
        return None;
    }
    let mut val: u64 = 0;
    let mut i: usize = 0;
    while i < f.len()
        invariant
            i <= f@.len(),
            val == cap31(hex_value(f@.take(i as int)) as int),
            forall|k: int| 0 <= k < i ==> is_hex_digit(#[trigger] f@[k]),
        decreases f@.len() - i,
    {
        let c = f[i];
        let ghost v = hex_value(f@.take(i as int));
        assert(f@.take(i + 1).drop_last() =~= f@.take(i as int));
        let d: u64 = if c >= 48 && c <= 57 {
            (c - 48) as u64
        } else if c >= 97 && c <= 102 {
            (c - 87) as u64
        } else {
            assert(!is_nonce_text(f@)) by {
                assert(!is_hex_digit(f@[i as int]));
            }
            return None;
        };
        assert(cap31(v * 16 + d) == cap31(cap31(v as int) * 16 + d)) by (nonlinear_arith)
            requires
                d < 16,
        ;
        val = val * 16 + d;
        if val > 0x8000_0000 {
            val = 0x8000_0000;
        }
        i = i + 1;
    }
    assert(f@.take(f@.len() as int) =~= f@);
    if val > 0x7fff_ffff {
        None
    } else {
        Some(val as i32)
    }
}

/// Reads a proof from its text form.
pub fn parse_proof(text: &[u8]) -> (r: Option<[i32; PROOFSIZE]>)
    ensures
        match r {
            Some(p) => proof_from_text(text@) == Some(p@),
            None => proof_from_text(text@) is None,
        },
{
    let fields = split_spaces_exec(text);
    let ghost fs = split_spaces(text@);
    assert(views(fields@).len() == fields@.len());
    if fields.len() != PROOFSIZE {
        return None;
    }
    let mut proof: [i32; PROOFSIZE] = [0; PROOFSIZE];
    let mut i: usize = 0;
    while i < PROOFSIZE
        invariant
            views(fields@) == fs,
            fs == split_spaces(text@),
            fs.len() == PROOFSIZE,
            i <= PROOFSIZE,
            forall|k: int| 0 <= k < i ==> is_nonce_text(#[trigger] fs[k]),
            forall|k: int| 0 <= k < i ==> proof@[k] == hex_value(fs[k]) as i32,
        decreases PROOFSIZE - i,
    {
        assert(fields@[i as int]@ == fs[i as int]);
        match hex_field(&fields[i]) {
            Some(n) => {
                proof[i] = n;
            },
            None => {
                assert(!is_nonce_text(fs[i as int]));
                return None;
            },
        }
        i = i + 1;
    }
    assert(proof@ =~= Seq::new(PROOFSIZE as nat, |k: int| hex_value(fs[k]) as i32));
    Some(proof)
}

/// The lowercase hexadecimal digit for `d < 16`.
pub open spec fn hex_digit(d: nat) -> u8 {
    if d < 10 {
        (48 + d) as u8
    } else {
        (87 + d) as u8
    }
}

/// The lowercase hexadecimal digits of `n`, most significant first.
pub open spec fn hex_text(n: nat) -> Seq<u8>
    decreases n,
{
    if n < 16 {
        seq![hex_digit(n)]
    } else {
        hex_text(n / 16).push(hex_digit(n % 16))
    }
}

/// The text form of a nonce list: the nonces in hexadecimal, one space
/// between each two.
pub open spec fn proof_text(p: Seq<i32>) -> Seq<u8>
    decreases p.len(),
{
    if p.len() <= 1 {
        if p.len() == 0 {
            Seq::empty()
        } else {
            hex_text(p[0] as nat)
        }
    } else {
        proof_text(p.drop_last()).push(32) + hex_text(p.last() as nat)
    }
}

proof fn lemma_hex_text(n: nat)
    ensures
        hex_text(n).len() > 0,
        forall|i: int| 0 <= i < hex_text(n).len() ==> is_hex_digit(#[trigger] hex_text(n)[i]),
        hex_value(hex_text(n)) == n,
    decreases n,
{
    if n >= 16 {
        lemma_hex_text(n / 16);
        let s = hex_text(n);
        assert(s.drop_last() =~= hex_text(n / 16));
        assert(hex_digit_value(hex_digit(n % 16)) == n % 16);
        assert(n == (n / 16) * 16 + n % 16);
        assert(s.last() == hex_digit(n % 16));
        assert(hex_value(s) == hex_value(s.drop_last()) * 16 + hex_digit_value(s.last()));
        assert forall|i: int| 0 <= i < s.len() implies is_hex_digit(#[trigger] s[i]) by {
            if i < s.len() - 1 {
                assert(s[i] == hex_text(n / 16)[i]);
            }
        }
    } else {
        assert(hex_text(n).drop_last() =~= Seq::<u8>::empty());
        assert(hex_digit_value(hex_digit(n)) == n);
        let s = hex_text(n);
        assert(hex_value(s.drop_last()) == 0);
        assert(hex_value(s) == hex_value(s.drop_last()) * 16 + hex_digit_value(s.last()));
    }
}

/// Appending text without spaces extends the last field.
proof fn lemma_split_no_space(s: Seq<u8>, t: Seq<u8>)
    requires
        forall|i: int| 0 <= i < t.len() ==> #[trigger] t[i] != 32,
    ensures
        split_spaces(s + t) == split_spaces(s).update(
            split_spaces(s).len() - 1,
            split_spaces(s).last() + t,
        ),
    decreases t.len(),
{
    lemma_split_nonempty(s);
    if t.len() == 0 {
        assert(s + t =~= s);
        assert(split_spaces(s).last() + t =~= split_spaces(s).last());
        assert(split_spaces(s).update(split_spaces(s).len() - 1, split_spaces(s).last())
            =~= split_spaces(s));
    } else {
        let t0 = t.drop_last();
        lemma_split_no_space(s, t0);
        assert((s + t).drop_last() =~= s + t0);
        assert((s + t).last() == t.last());
        let r = split_spaces(s);
        let r0 = split_spaces(s + t0);
        assert(r0.last() =~= r.last() + t0);
        assert(r0.last().push(t.last()) =~= r.last() + t);
        assert(split_spaces(s + t) =~= r.update(r.len() - 1, r.last() + t));
    }
}

/// The fields of a proof's text are the nonces' hexadecimal forms.
proof fn lemma_split_proof_text(p: Seq<i32>)
    requires
        p.len() > 0,
        forall|i: int| 0 <= i < p.len() ==> 0 <= #[trigger] p[i],
    ensures
        split_spaces(proof_text(p)) == Seq::new(p.len(), |i: int| hex_text(p[i] as nat)),
    decreases p.len(),
{
    let h = hex_text(p.last() as nat);
    lemma_hex_text(p.last() as nat);
    assert forall|i: int| 0 <= i < h.len() implies #[trigger] h[i] != 32 by {
        assert(is_hex_digit(h[i]));
    }
    if p.len() == 1 {
        lemma_split_no_space(Seq::empty(), h);
        assert(Seq::<u8>::empty() + h =~= h);
        assert(split_spaces(Seq::<u8>::empty()) =~= seq![Seq::<u8>::empty()]);
        assert(Seq::<u8>::empty() + h =~= h);
        assert(split_spaces(proof_text(p)) =~= Seq::new(p.len(), |i: int| hex_text(p[i] as nat)));
    } else {
        let q = p.drop_last();
        lemma_split_proof_text(q);
        let a = proof_text(q).push(32);
        lemma_split_no_space(a, h);
        assert(a.drop_last() =~= proof_text(q));
        let r = split_spaces(a);
        assert(r == split_spaces(proof_text(q)).push(Seq::empty()));
        assert(Seq::<u8>::empty() + h =~= h);
        assert(split_spaces(proof_text(p)) =~= Seq::new(p.len(), |i: int| hex_text(p[i] as nat)));
    }
}

/// Reading back the text form of a proof gives the proof: for every list of
/// `PROOFSIZE` nonces that are not negative.
pub proof fn lemma_proof_text_round_trip(p: Seq<i32>)
    requires
        p.len() == PROOFSIZE,
        forall|i: int| 0 <= i < p.len() ==> 0 <= #[trigger] p[i],
    ensures
        proof_from_text(proof_text(p)) == Some(p),
{
    lemma_split_proof_text(p);
    let fs = split_spaces(proof_text(p));
    assert forall|i: int| 0 <= i < fs.len() implies is_nonce_text(#[trigger] fs[i]) by {
        lemma_hex_text(p[i] as nat);
    }
    assert forall|i: int| 0 <= i < PROOFSIZE implies hex_value(fs[i]) as i32 == p[i] by {
        lemma_hex_text(p[i] as nat);
    }
    assert(Seq::new(PROOFSIZE as nat, |i: int| hex_value(fs[i]) as i32) =~= p);
}

/// Appends the hexadecimal digits of `n` to `out`.
fn push_hex(out: &mut Vec<u8>, n: u32)
    ensures
        final(out)@ == old(out)@ + hex_text(n as nat),
    decreases n,
{
    if n >= 16 {
        push_hex(out, n / 16);
    }
    let d = (n % 16) as u8;
    if d < 10 {
        out.push(48 + d);
    } else {
        out.push(87 + d);
    }
    assert(final(out)@ =~= old(out)@ + hex_text(n as nat));
}

/// The text form of a proof.
pub fn format_proof(p: [i32; PROOFSIZE]) -> (r: Vec<u8>)
    requires
        forall|i: int| 0 <= i < PROOFSIZE ==> 0 <= #[trigger] p@[i],
    ensures
        r@ == proof_text(p@),
{
    let mut out: Vec<u8> = Vec::new();
    let mut i: usize = 0;
    assert(p@.take(0) =~= Seq::<i32>::empty());
    while i < PROOFSIZE
        invariant
            i <= PROOFSIZE,
            p@.len() == PROOFSIZE,
            forall|k: int| 0 <= k < PROOFSIZE ==> 0 <= #[trigger] p@[k],
            out@ == proof_text(p@.take(i as int)),
        decreases PROOFSIZE - i,
    {
        assert(p@.take(i + 1).drop_last() =~= p@.take(i as int));
        if i > 0 {
            out.push(32);
        }
        push_hex(&mut out, p[i] as u32);
        i = i + 1;
        assert(out@ =~= proof_text(p@.take(i as int)));
    }
    assert(p@.take(PROOFSIZE as int) =~= p@);
    out
}

// ---------------------------------------------------------------------------
// Laws of verification

/// A nonce list is rejected where it is not `PROOFSIZE` long, where one of
/// its nonces is at or past `easiness`, or where two neighbours are not in
/// strictly increasing order.
pub proof fn lemma_verify_rejects_malformed(v: Seq<u64>, nonces: Seq<i32>, easiness: int, i: int)
    requires
        nonces.len() != PROOFSIZE || (0 <= i < nonces.len() && (nonces[i] >= easiness || (i > 0
            && nonces[i] <= nonces[i - 1]))),
    ensures
        !is_valid_proof(v, nonces, easiness),
{
    if nonces.len() == PROOFSIZE && i > 0 && nonces[i] <= nonces[i - 1] {
        assert(!(nonces[i - 1] < nonces[i]));
    }
}

} // verus!
