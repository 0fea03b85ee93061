use cuckoo_http::cuckoo::{
    format_proof, hash_header, parse_proof, sipedge, siphash24, sipnode, verify, Edge, NEDGES, NNODES, PROOFSIZE,
};
use cuckoo_http::simple_miner::{solve, CuckooSolve};

const KEYS: [u64; 4] = [
    1449310910991872227,
    2646268962349054874,
    5517924826087534119,
    6176777564751238564,
];

#[test]
fn header_hash_of_empty_input() {
    // BLAKE2b-512 of the empty string starts 786a02f742015903 c6c6fd852552d272
    // 912f4740e1584761 8a86e217f71f5419.
    let k = hash_header(b"");
    assert_eq!(
        k,
        [
            0x03590142f7026a78,
            0x72d2522585fdc6c6,
            0x614758e140472f91,
            0x19541ff717e2868a
        ]
    );
}

#[test]
fn header_hash_is_deterministic_and_keyed() {
    assert_eq!(hash_header(b"abc"), hash_header(b"abc"));
    assert_ne!(hash_header(b"abc"), hash_header(b"abd"));
}

#[test]
fn node_is_deterministic_and_sides_differ() {
    for nonce in 0..100 {
        assert_eq!(sipnode(KEYS, nonce, 0), sipnode(KEYS, nonce, 0));
        assert_eq!(sipnode(KEYS, nonce, 1), sipnode(KEYS, nonce, 1));
    }
    let differing = (0..100)
        .filter(|n| sipnode(KEYS, *n, 0) != sipnode(KEYS, *n, 1))
        .count();
    assert!(differing >= 99);
}

#[test]
fn node_is_masked_hash() {
    for nonce in 0..50i32 {
        for side in 0..2i32 {
            let h = siphash24(KEYS, (2 * nonce + side) as u64);
            let n = sipnode(KEYS, nonce, side);
            assert_eq!(n as u64, h & (NEDGES as u64 - 1));
            assert!((n as usize) < NEDGES);
        }
    }
}

#[test]
fn siphash_depends_on_keys_and_nonce() {
    assert_ne!(siphash24(KEYS, 0), siphash24(KEYS, 1));
    assert_ne!(siphash24(KEYS, 0), siphash24([0, 0, 0, 0], 0));
    assert_eq!(siphash24(KEYS, 7), siphash24(KEYS, 7));
}

#[test]
fn edge_holds_both_sides() {
    let e = sipedge(KEYS, 5);
    assert_eq!(
        e,
        Edge {
            u: sipnode(KEYS, 5, 0),
            v: sipnode(KEYS, 5, 1)
        }
    );
}

#[test]
fn verify_rejects_unordered() {
    let nonces = [0i32; PROOFSIZE];
    assert!(!verify(KEYS, nonces, 1000));
    let mut down = [0i32; PROOFSIZE];
    for i in 0..PROOFSIZE {
        down[i] = (PROOFSIZE - i) as i32;
    }
    assert!(!verify(KEYS, down, 1000));
}

#[test]
fn verify_rejects_nonce_past_easiness() {
    let mut nonces = [0i32; PROOFSIZE];
    for i in 0..PROOFSIZE {
        nonces[i] = i as i32;
    }
    assert!(!verify(KEYS, nonces, 41));
    assert!(!verify(KEYS, nonces, 0));
}

#[test]
fn verify_rejects_non_cycle_and_is_repeatable() {
    let mut nonces = [0i32; PROOFSIZE];
    for i in 0..PROOFSIZE {
        nonces[i] = (i * 3) as i32;
    }
    let a = verify(KEYS, nonces, 1000);
    let b = verify(KEYS, nonces, 1000);
    assert!(!a);
    assert_eq!(a, b);
}

#[test]
fn proof_text_parses() {
    let mut text = String::new();
    let mut expected = [0i32; PROOFSIZE];
    for i in 0..PROOFSIZE {
        if i > 0 {
            text.push(' ');
        }
        let n = (i * 4099) as i32;
        expected[i] = n;
        text.push_str(&format!("{:x}", n));
    }
    assert_eq!(parse_proof(text.as_bytes()), Some(expected));
}

#[test]
fn proof_text_rejects_bad_forms() {
    assert_eq!(parse_proof(b"1 2 3"), None);
    let mut text = String::from("1");
    for _ in 1..PROOFSIZE {
        text.push_str(" 1");
    }
    assert!(parse_proof(text.as_bytes()).is_some());
    assert_eq!(parse_proof(format!("{} ", text).as_bytes()), None);
    assert_eq!(parse_proof(text.replacen("1", "G", 1).as_bytes()), None);
    assert_eq!(parse_proof(text.replacen("1", "80000000", 1).as_bytes()), None);
    assert!(parse_proof(text.replacen("1", "7fffffff", 1).as_bytes()).is_some());
}

#[test]
fn solve_result_verifies() {
    let keys = hash_header(b"");
    let easiness = 200000;
    let cs = CuckooSolve {
        graph_v: keys,
        easiness,
        cuckoo: vec![0; NNODES + 1],
    };
    if let Some(p) = solve(cs) {
        assert!(verify(keys, p, easiness));
        for i in 1..PROOFSIZE {
            assert!(p[i - 1] < p[i]);
        }
    }
}

#[test]
fn solve_on_empty_range_finds_nothing() {
    let cs = CuckooSolve {
        graph_v: KEYS,
        easiness: 0,
        cuckoo: vec![0; NNODES + 1],
    };
    assert_eq!(solve(cs), None);
}

#[test]
fn proof_text_round_trip() {
    let mut p = [0i32; PROOFSIZE];
    for i in 0..PROOFSIZE {
        p[i] = (i * 1001) as i32;
    }
    let text = format_proof(p);
    let s = String::from_utf8(text.clone()).unwrap();
    assert!(s.starts_with("0 3e9 7d2 "));
    assert_eq!(s.split(' ').count(), PROOFSIZE);
    assert_eq!(parse_proof(&text), Some(p));
}
