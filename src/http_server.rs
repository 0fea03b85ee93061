//! Request handling around the puzzle: header extraction, template
//! substitution, responses, the challenge registry and the accept/reject
//! decision.
use vstd::prelude::*;
use vstd::string::StringSliceAdditionalSpecFns;

use crate::cuckoo::{hash_header, header_keys, is_valid_proof, parse_proof, proof_from_text, verify, NNODES};

verus! {

// ---------------------------------------------------------------------------
// Matching

/// `f` occurs in `t` starting at `i`.
pub open spec fn occurs_at(t: Seq<u8>, f: Seq<u8>, i: int) -> bool {
    &&& 0 <= i
    &&& i + f.len() <= t.len()
    &&& t.subrange(i, i + f.len()) == f
}

/// `i` is where the first occurrence of `f` in `t` starts.
pub open spec fn first_occurrence(t: Seq<u8>, f: Seq<u8>, i: int) -> bool {
    &&& occurs_at(t, f, i)
    &&& forall|j: int| 0 <= j < i ==> !occurs_at(t, f, j)
}

/// Whether `f` occurs in `t` starting at `i`.
fn matches_at(t: &[u8], f: &[u8], i: usize) -> (r: bool)
    requires
        i <= t@.len(),
    ensures
        r == occurs_at(t@, f@, i as int),
{
    if t.len() - i < f.len() {
        return false;
    }
    let mut k: usize = 0;
    while k < f.len()
        invariant
            i + f@.len() <= t@.len(),
            t@.len() == t.len(),
            k <= f@.len(),
            forall|j: int| 0 <= j < k ==> t@[i + j] == f@[j],
        decreases f@.len() - k,
    {
        if t[i + k] != f[k] {
            assert(t@.subrange(i as int, i + f@.len())[k as int] != f@[k as int]);
            return false;
        }
        k = k + 1;
    }
    assert(t@.subrange(i as int, i + f@.len()) =~= f@);
    true
}

// ---------------------------------------------------------------------------
// Header extraction

/// `t[q]` is the first carriage return at or after `p`.
pub open spec fn first_cr_from(t: Seq<u8>, p: int, q: int) -> bool {
    &&& p <= q < t.len()
    &&& t[q] == 13
    &&& forall|k: int| p <= k < q ==> t[k] != 13
}

/// `f` first occurs at `i` and `t[q]` is the first carriage return after it.
pub open spec fn value_span(t: Seq<u8>, f: Seq<u8>, i: int, q: int) -> bool {
    first_occurrence(t, f, i) && first_cr_from(t, i + f.len(), q)
}

/// The value of the header named by the prefix `f` in `t`: the bytes after
/// the first occurrence of `f` up to the next carriage return; `None` where
/// `f` does not occur or no carriage return follows it.
pub open spec fn header_value(t: Seq<u8>, f: Seq<u8>) -> Option<Seq<u8>> {
    if exists|i: int, q: int| value_span(t, f, i, q) {
        let (i, q) = choose|i: int, q: int| value_span(t, f, i, q);
        Some(t.subrange(i + f.len(), q))
    } else {
        None
    }
}

/// The value of the header named by the prefix `text_to_find`.
pub fn efficient_parse_header(orig_text: &[u8], text_to_find: &[u8]) -> (r: Option<Vec<u8>>)
    requires
        text_to_find@.len() > 0,
    ensures
        match r {
            Some(value) => header_value(orig_text@, text_to_find@) == Some(value@),
            None => header_value(orig_text@, text_to_find@) is None,
        },
{
    let len = orig_text.len();
    let ghost t = orig_text@;
    let ghost f = text_to_find@;
    let mut i: usize = 0;
    let mut found: bool = false;
    while !found && i < len
        invariant
            len == t.len(),
            t == orig_text@,
            f == text_to_find@,
            i <= len,
            f.len() > 0,
            forall|j: int| 0 <= j < i ==> !occurs_at(t, f, j),
            found ==> occurs_at(t, f, i as int),
        decreases len - i + (if found { 0int } else { 1int }),
    {
        if matches_at(orig_text, text_to_find, i) {
            found = true;
        } else {
            i = i + 1;
        }
    }
    if !found {
        assert forall|j: int, q: int| !value_span(t, f, j, q) by {
            if 0 <= j < len {
            }
        }
        return None;
    }
    let start = i + text_to_find.len();
    let mut q: usize = start;
    while q < len && orig_text[q] != 13
        invariant
            len == t.len(),
            t == orig_text@,
            start <= q <= len,
            forall|k: int| start <= k < q ==> t[k] != 13,
        decreases len - q,
    {
        q = q + 1;
    }
    if q == len {
        assert forall|j: int, q2: int| !value_span(t, f, j, q2) by {
            if first_occurrence(t, f, j) {
                assert(j == i);
            }
        }
        return None;
    }
    let mut value: Vec<u8> = Vec::new();
    let mut k: usize = start;
    while k < q
        invariant
            t == orig_text@,
            start <= k <= q < len,
            len == t.len(),
            value@ == t.subrange(start as int, k as int),
        decreases q - k,
    {
        value.push(orig_text[k]);
        k = k + 1;
        assert(value@ =~= t.subrange(start as int, k as int));
    }
    proof {
        assert(value_span(t, f, i as int, q as int));
        let (i2, q2) = choose|i2: int, q2: int| value_span(t, f, i2, q2);
        assert(i2 == i);
        assert(q2 == q);
    }
    Some(value)
}

// ---------------------------------------------------------------------------
// Template substitution

/// `t[i..]` with each occurrence of `f` replaced by `w`, leftmost first and
/// without overlap.
pub open spec fn replace_from(t: Seq<u8>, f: Seq<u8>, w: Seq<u8>, i: nat) -> Seq<u8>
    decreases t.len() - i,
{
    if i >= t.len() {
        Seq::empty()
    } else if f.len() > 0 && occurs_at(t, f, i as int) {
        w + replace_from(t, f, w, i + f.len())
    } else {
        seq![t[i as int]] + replace_from(t, f, w, i + 1)
    }
}

/// `t` with each occurrence of `f` replaced by `w`, leftmost first and
/// without overlap.
pub open spec fn replace_all(t: Seq<u8>, f: Seq<u8>, w: Seq<u8>) -> Seq<u8> {
    replace_from(t, f, w, 0)
}

/// Appends the bytes of `s` to `v`.
fn push_all(v: &mut Vec<u8>, s: &[u8])
    ensures
        final(v)@ == old(v)@ + s@,
{
    let mut i: usize = 0;
    while i < s.len()
        invariant
            i <= s@.len(),
            v@ == old(v)@ + s@.subrange(0, i as int),
        decreases s@.len() - i,
    {
        v.push(s[i]);
        i = i + 1;
        assert(v@ =~= old(v)@ + s@.subrange(0, i as int));
    }
    assert(s@.subrange(0, s@.len() as int) =~= s@);
}

/// `orig_text` with each occurrence of `text_to_find`, left to right, replaced
/// by `replace_with`.
pub fn efficient_replace(orig_text: &[u8], text_to_find: &[u8], replace_with: &[u8]) -> (r: Vec<u8>)
    requires
        text_to_find@.len() > 0,
    ensures
        r@ == replace_all(orig_text@, text_to_find@, replace_with@),
{
    let len = orig_text.len();
    let ghost t = orig_text@;
    let ghost f = text_to_find@;
    let ghost w = replace_with@;
    let mut new_text: Vec<u8> = Vec::new();
    let mut i: usize = 0;
    while i < len
        invariant
            len == t.len(),
            t == orig_text@,
            f == text_to_find@,
            w == replace_with@,
            f.len() > 0,
            i <= len,
            new_text@ + replace_from(t, f, w, i as nat) == replace_all(t, f, w),
        decreases len - i,
    {
        let ghost before = new_text@;
        if matches_at(orig_text, text_to_find, i) {
            push_all(&mut new_text, replace_with);
            assert(before + replace_from(t, f, w, i as nat) =~= new_text@ + replace_from(
                t,
                f,
                w,
                (i + f.len()) as nat,
            ));
            i = i + text_to_find.len();
        } else {
            new_text.push(orig_text[i]);
            assert(before + replace_from(t, f, w, i as nat) =~= new_text@ + replace_from(
                t,
                f,
                w,
                (i + 1) as nat,
            ));
            i = i + 1;
        }
    }
    assert(new_text@ + replace_from(t, f, w, i as nat) =~= new_text@);
    new_text
}

// ---------------------------------------------------------------------------
// Responses

/// The decimal digits of `n`, most significant first, in ASCII.
pub open spec fn decimal(n: nat) -> Seq<u8>
    decreases n,
{
    if n < 10 {
        seq![(48 + n) as u8]
    } else {
        decimal(n / 10).push((48 + n % 10) as u8)
    }
}

/// Appends the decimal digits of `n` to `out`.
fn push_decimal(out: &mut Vec<u8>, n: usize)
    ensures
        final(out)@ == old(out)@ + decimal(n as nat),
    decreases n,
{
    if n >= 10 {
        push_decimal(out, n / 10);
    }
    out.push((48 + n % 10) as u8);
    assert(final(out)@ =~= old(out)@ + decimal(n as nat));
}

/// A `200 OK` response carrying `body` as `content_type`, with its length and
/// no caching, the connection to be closed after it.
pub open spec fn response(body: Seq<u8>, content_type: Seq<u8>) -> Seq<u8> {
    "HTTP/1.1 200 OK\r\nCache-Control: no-cache, private\r\nContent-Length: ".spec_bytes()
        + decimal(body.len()) + "\r\nContent-Type: ".spec_bytes() + content_type
        + "\r\nConnection: close\r\n\r\n".spec_bytes() + body
}

/// The response for a binary body.
pub fn format_response_binary(body: Vec<u8>, content_type: &str) -> (r: Vec<u8>)
    ensures
        r@ == response(body@, content_type.spec_bytes()),
{
    let mut header: Vec<u8> = Vec::new();
    push_all(
        &mut header,
        "HTTP/1.1 200 OK\r\nCache-Control: no-cache, private\r\nContent-Length: ".as_bytes(),
    );
    push_decimal(&mut header, body.len());
    push_all(&mut header, "\r\nContent-Type: ".as_bytes());
    push_all(&mut header, content_type.as_bytes());
    push_all(&mut header, "\r\nConnection: close\r\n\r\n".as_bytes());
    push_all(&mut header, body.as_slice());
    header
}

/// The response for a text body, as bytes.
pub fn format_response_text(body: &String, content_type: &str) -> (r: Vec<u8>)
    ensures
        r@ == response(vstd::utf8::encode_utf8(body@), content_type.spec_bytes()),
{
    let bytes = body.as_str().as_bytes();
    let mut copy: Vec<u8> = Vec::new();
    push_all(&mut copy, bytes);
    assert(copy@ =~= bytes@);
    format_response_binary(copy, content_type)
}

// ---------------------------------------------------------------------------
// Challenges

/// Easiness percentage of the challenges issued.
pub const EASIPCT: i32 = 70;

/// Difficulty of the challenges issued, in tenths of a percent.
pub const DIFFICULTY_TENTHS: u32 = 999;

/// Length of a challenge token.
pub const HEADER_LENGTH: usize = 32;

/// Tokens drawn at a time.
pub const RNG_BUF_SIZE: usize = 8;

/// The parameters of an issued challenge: the easiness as a percentage of the
/// node space, and the difficulty in tenths of a percent.
#[derive(Clone, Copy, PartialEq, Eq, Structural, Debug)]
pub struct CuckooProblem {
    pub easipct: i32,
    pub difficulty_tenths: u32,
}

impl CuckooProblem {
    /// The easiness is a percentage.
    pub open spec fn wf(&self) -> bool {
        0 <= self.easipct <= 100
    }
}

/// The parameters of the challenges this server issues.
pub fn default_problem() -> (r: CuckooProblem)
    ensures
        r.wf(),
        r.easipct == EASIPCT,
        r.difficulty_tenths == DIFFICULTY_TENTHS,
{
    CuckooProblem { easipct: EASIPCT, difficulty_tenths: DIFFICULTY_TENTHS }
}

/// The number of nonces scanned at an easiness percentage.
pub open spec fn easiness_of(easipct: int) -> int {
    easipct * NNODES / 100
}

/// The number of nonces scanned at an easiness percentage.
pub fn easiness_for(easipct: i32) -> (r: i32)
    requires
        0 <= easipct <= 100,
    ensures
        r == easiness_of(easipct as int),
        0 <= r <= NNODES,
{
    let e = (easipct as i64) * (NNODES as i64) / 100;
    assert(e <= NNODES) by (nonlinear_arith)
        requires
            0 <= easipct <= 100,
            e == (easipct as i64) * 1048576 / 100,
    ;
    e as i32
}

/// Whether two byte strings are equal.
fn bytes_eq(a: &[u8], b: &[u8]) -> (r: bool)
    ensures
        r == (a@ == b@),
{
    if a.len() != b.len() {
        return false;
    }
    let mut i: usize = 0;
    while i < a.len()
        invariant
            a@.len() == b@.len(),
            i <= a@.len(),
            forall|k: int| 0 <= k < i ==> a@[k] == b@[k],
        decreases a@.len() - i,
    {
        if a[i] != b[i] {
            return false;
        }
        i = i + 1;
    }
    assert(a@ =~= b@);
    true
}

/// The challenges issued and not yet redeemed, by token.
pub struct ChallengeRegistry {
    tokens: Vec<Vec<u8>>,
    problems: Vec<CuckooProblem>,
}

impl View for ChallengeRegistry {
    type V = Map<Seq<u8>, CuckooProblem>;

    closed spec fn view(&self) -> Map<Seq<u8>, CuckooProblem> {
        Map::new(
            |k: Seq<u8>| exists|i: int| 0 <= i < self.tokens@.len() && self.tokens@[i]@ == k,
            |k: Seq<u8>|
                self.problems@[choose|i: int| 0 <= i < self.tokens@.len() && self.tokens@[i]@ == k],
        )
    }
}

impl ChallengeRegistry {
    /// Tokens are unique and every problem held is well formed.
    pub closed spec fn wf(&self) -> bool {
        &&& self.tokens@.len() == self.problems@.len()
        &&& forall|i: int, j: int|
            0 <= i < j < self.tokens@.len() ==> self.tokens@[i]@ != self.tokens@[j]@
        &&& forall|i: int| 0 <= i < self.problems@.len() ==> (#[trigger] self.problems@[i]).wf()
    }

    /// A registry with no challenge.
    pub fn new() -> (r: ChallengeRegistry)
        ensures
            r.wf(),
            r@ == Map::<Seq<u8>, CuckooProblem>::empty(),
    {
        let r = ChallengeRegistry { tokens: Vec::new(), problems: Vec::new() };
        assert(r@ =~= Map::<Seq<u8>, CuckooProblem>::empty());
        r
    }

    /// The index of `token`, if it is held.
    fn position(&self, token: &[u8]) -> (r: Option<usize>)
        requires
            self.wf(),
        ensures
            match r {
                Some(i) => i < self.tokens@.len() && self.tokens@[i as int]@ == token@,
                None => forall|i: int| 0 <= i < self.tokens@.len() ==> self.tokens@[i]@ != token@,
            },
    {
        let mut i: usize = 0;
        while i < self.tokens.len()
            invariant
                i <= self.tokens@.len(),
                forall|k: int| 0 <= k < i ==> self.tokens@[k]@ != token@,
            decreases self.tokens@.len() - i,
        {
            if bytes_eq(self.tokens[i].as_slice(), token) {
                return Some(i);
            }
            i = i + 1;
        }
        None
    }

    /// The problem issued under `token`, if any.
    pub fn lookup(&self, token: &[u8]) -> (r: Option<CuckooProblem>)
        requires
            self.wf(),
        ensures
            match r {
                Some(p) => self@.contains_key(token@) && self@[token@] == p && p.wf(),
                None => !self@.contains_key(token@),
            },
    {
        match self.position(token) {
            Some(i) => {
                let p = self.problems[i];
                proof {
                    assert(self@.contains_key(token@));
                    let j = choose|j: int| 0 <= j < self.tokens@.len() && self.tokens@[j]@ == token@;
                    assert(j == i);
                    assert(self.problems@[i as int].wf());
                }
                Some(p)
            },
            None => None,
        }
    }

    /// Records the problem issued under `token`, replacing any held before.
    pub fn insert(&mut self, token: Vec<u8>, problem: CuckooProblem)
        requires
            old(self).wf(),
            problem.wf(),
        ensures
            final(self).wf(),
            final(self)@ == old(self)@.insert(token@, problem),
    {
        match self.position(token.as_slice()) {
            Some(i) => {
                self.problems.set(i, problem);
                proof {
                    assert forall|k: Seq<u8>| #[trigger] self@.contains_key(k) == old(self)@.insert(
                        token@,
                        problem,
                    ).contains_key(k) by {}
                    assert forall|k: Seq<u8>| self@.contains_key(k) implies #[trigger] self@[k]
                        == old(self)@.insert(token@, problem)[k] by {
                        let j = choose|j: int| 0 <= j < self.tokens@.len() && self.tokens@[j]@ == k;
                        let j0 = choose|j: int| 0 <= j < old(self).tokens@.len() && old(self).tokens@[j]@ == k;
                        assert(j == j0);
                        if k == token@ {
                            assert(j == i);
                        }
                    }
                    assert(self@ =~= old(self)@.insert(token@, problem));
                }
            },
            None => {
                let ghost t = token@;
                self.tokens.push(token);
                self.problems.push(problem);
                proof {
                    let n = old(self).tokens@.len() as int;
                    assert(self.tokens@[n]@ == t);
                    assert forall|k: Seq<u8>| #[trigger] self@.contains_key(k) == old(self)@.insert(
                        t,
                        problem,
                    ).contains_key(k) by {
                        if old(self)@.contains_key(k) {
                            let j0 = choose|j: int| 0 <= j < old(self).tokens@.len() && old(self).tokens@[j]@ == k;
                            assert(self.tokens@[j0]@ == k);
                        }
                    }
                    assert forall|k: Seq<u8>| self@.contains_key(k) implies #[trigger] self@[k]
                        == old(self)@.insert(t, problem)[k] by {
                        let j = choose|j: int| 0 <= j < self.tokens@.len() && self.tokens@[j]@ == k;
                        if k == t {
                            assert(j == n);
                        } else {
                            let j0 = choose|j: int| 0 <= j < old(self).tokens@.len() && old(self).tokens@[j]@ == k;
                            assert(self.tokens@[j0]@ == k);
                            assert(j == j0);
                        }
                    }
                    assert(self@ =~= old(self)@.insert(t, problem));
                }
            },
        }
    }
}

/// A lookup finds what was inserted under the same token, and nothing under
/// a token that was never inserted.
pub proof fn lemma_registry_lookup_after_insert(
    m: Map<Seq<u8>, CuckooProblem>,
    token: Seq<u8>,
    problem: CuckooProblem,
    other: Seq<u8>,
)
    ensures
        m.insert(token, problem).contains_key(token),
        m.insert(token, problem)[token] == problem,
        other != token && !m.contains_key(other) ==> !m.insert(token, problem).contains_key(other),
{
}

/// What a request amounts to.
#[derive(Clone, Copy, PartialEq, Eq, Structural, Debug)]
pub enum VerifyStatus {
    /// It names no challenge.
    Unverified,
    /// It names a challenge that is unknown, or its solution fails.
    Invalid,
    /// It carries a valid solution to the challenge it names.
    Valid,
}

pub open spec fn challenge_header_name() -> Seq<u8> {
    "X-Cuckoo-Header: ".spec_bytes()
}

pub open spec fn solution_header_name() -> Seq<u8> {
    "X-Cuckoo-Solution: ".spec_bytes()
}

/// The status of a request, given the problem that its challenge token was
/// issued with (`None` where the token was never issued).
pub open spec fn status_of(request: Seq<u8>, problem: Option<CuckooProblem>) -> VerifyStatus {
    match header_value(request, challenge_header_name()) {
        None => VerifyStatus::Unverified,
        Some(token) => match problem {
            None => VerifyStatus::Invalid,
            Some(p) => match header_value(request, solution_header_name()) {
                None => VerifyStatus::Invalid,
                Some(text) => match proof_from_text(text) {
                    None => VerifyStatus::Invalid,
                    Some(nonces) => if is_valid_proof(
                        header_keys(token),
                        nonces,
                        easiness_of(p.easipct as int),
                    ) {
                        VerifyStatus::Valid
                    } else {
                        VerifyStatus::Invalid
                    },
                },
            },
        },
    }
}

proof fn lemma_header_names()
    ensures
        challenge_header_name().len() > 0,
        solution_header_name().len() > 0,
{
    reveal_strlit("X-Cuckoo-Header: ");
    reveal_strlit("X-Cuckoo-Solution: ");
    vstd::string::is_ascii_spec_bytes("X-Cuckoo-Header: ");
    vstd::string::is_ascii_spec_bytes("X-Cuckoo-Solution: ");
}

/// The challenge token that a request names, if any.
pub fn challenge_token(request: &[u8]) -> (r: Option<Vec<u8>>)
    ensures
        match r {
            Some(t) => header_value(request@, challenge_header_name()) == Some(t@),
            None => header_value(request@, challenge_header_name()) is None,
        },
{
    proof {
        lemma_header_names();
    }
    efficient_parse_header(request, "X-Cuckoo-Header: ".as_bytes())
}

/// Classifies a request, given the problem that the registry holds for the
/// token it names (`None` where it holds none).
pub fn verified(request: &[u8], problem: Option<CuckooProblem>) -> (r: VerifyStatus)
    requires
        problem matches Some(p) ==> p.wf(),
    ensures
        r == status_of(request@, problem),
{
    proof {
        lemma_header_names();
    }
    let token = match challenge_token(request) {
        None => {
            return VerifyStatus::Unverified;
        },
        Some(t) => t,
    };
    let p = match problem {
        None => {
            return VerifyStatus::Invalid;
        },
        Some(p) => p,
    };
    let text = match efficient_parse_header(request, "X-Cuckoo-Solution: ".as_bytes()) {
        None => {
            return VerifyStatus::Invalid;
        },
        Some(text) => text,
    };
    let nonces = match parse_proof(text.as_slice()) {
        None => {
            return VerifyStatus::Invalid;
        },
        Some(n) => n,
    };
    let keys = hash_header(token.as_slice());
    if verify(keys, nonces, easiness_for(p.easipct)) {
        VerifyStatus::Valid
    } else {
        VerifyStatus::Invalid
    }
}

/// Whether a request for `url` must solve a challenge: every one must.
pub fn requires_cuckoo(url: &[u8]) -> (r: bool)
    ensures
        r,
{
    true
}

/// What to do with a request.
#[derive(Clone, Copy, PartialEq, Eq, Structural, Debug)]
pub enum Action {
    /// Send the cached WebAssembly miner and close.
    ServeWasm,
    /// Send the cached JavaScript loader and close.
    ServeJs,
    /// Issue a fresh challenge, send its page and close.
    IssueChallenge,
    /// Drop the connection.
    Close,
    /// Hand the request on to the backend.
    Forward,
}

/// The action for a request to `url` whose status is `status`: the miner's
/// files are served as they are; otherwise a request without a challenge
/// gets one, a failing one is dropped and a valid one goes on.
pub open spec fn action_of(url: Seq<u8>, status: VerifyStatus) -> Action {
    if url == "/web_miner.wasm".spec_bytes() {
        Action::ServeWasm
    } else if url == "/web_miner.js".spec_bytes() {
        Action::ServeJs
    } else {
        match status {
            VerifyStatus::Unverified => Action::IssueChallenge,
            VerifyStatus::Invalid => Action::Close,
            VerifyStatus::Valid => Action::Forward,
        }
    }
}

/// Decides what to do with a request to `url` whose status is `status`.
pub fn next_action(url: &[u8], status: VerifyStatus) -> (r: Action)
    ensures
        r == action_of(url@, status),
{
    if bytes_eq(url, "/web_miner.wasm".as_bytes()) {
        Action::ServeWasm
    } else if bytes_eq(url, "/web_miner.js".as_bytes()) {
        Action::ServeJs
    } else {
        match status {
            VerifyStatus::Unverified => {
                if requires_cuckoo(url) {
                    Action::IssueChallenge
                } else {
                    Action::Forward
                }
            },
            VerifyStatus::Invalid => Action::Close,
            VerifyStatus::Valid => Action::Forward,
        }
    }
}

/// A difficulty in tenths as decimal text: `99.9` for 999.
pub open spec fn tenths_text(n: nat) -> Seq<u8> {
    decimal(n / 10).push(46u8) + decimal(n % 10)
}

/// The challenge page: the template with its `HEADER`, `EASINESS` and
/// `DIFFICULTY` markers filled in, as an HTML response.
pub open spec fn challenge_page(template: Seq<u8>, token: Seq<u8>, p: CuckooProblem) -> Seq<u8> {
    let t1 = replace_all(template, "HEADER".spec_bytes(), token);
    let t2 = replace_all(t1, "EASINESS".spec_bytes(), decimal(p.easipct as nat));
    let t3 = replace_all(t2, "DIFFICULTY".spec_bytes(), tenths_text(p.difficulty_tenths as nat));
    response(t3, "text/html".spec_bytes())
}

/// Renders the challenge page for `token` and the problem issued with it.
pub fn render_challenge(template: &[u8], token: &[u8], problem: CuckooProblem) -> (r: Vec<u8>)
    requires
        problem.wf(),
    ensures
        r@ == challenge_page(template@, token@, problem),
{
    proof {
        reveal_strlit("HEADER");
        reveal_strlit("EASINESS");
        reveal_strlit("DIFFICULTY");
        vstd::string::is_ascii_spec_bytes("HEADER");
        vstd::string::is_ascii_spec_bytes("EASINESS");
        vstd::string::is_ascii_spec_bytes("DIFFICULTY");
    }
    let mut easiness_text: Vec<u8> = Vec::new();
    push_decimal(&mut easiness_text, problem.easipct as usize);
    let mut difficulty_text: Vec<u8> = Vec::new();
    push_decimal(&mut difficulty_text, (problem.difficulty_tenths / 10) as usize);
    difficulty_text.push(46);
    push_decimal(&mut difficulty_text, (problem.difficulty_tenths % 10) as usize);
    assert(difficulty_text@ =~= tenths_text(problem.difficulty_tenths as nat));
    let header_replaced = efficient_replace(template, "HEADER".as_bytes(), token);
    let easiness_replaced = efficient_replace(
        header_replaced.as_slice(),
        "EASINESS".as_bytes(),
        easiness_text.as_slice(),
    );
    let difficulty_replaced = efficient_replace(
        easiness_replaced.as_slice(),
        "DIFFICULTY".as_bytes(),
        difficulty_text.as_slice(),
    );
    format_response_binary(difficulty_replaced, "text/html")
}

// ---------------------------------------------------------------------------
// Challenge tokens

/// An ASCII letter or digit.
pub open spec fn is_alnum(c: u32) -> bool {
    (65 <= c <= 90) || (97 <= c <= 122) || (48 <= c <= 57)
}

/// A challenge token: `HEADER_LENGTH` ASCII letters and digits, so no
/// carriage return can break the header it travels in.
pub open spec fn is_token(t: Seq<u8>) -> bool {
    &&& t.len() == HEADER_LENGTH
    &&& forall|i: int| 0 <= i < t.len() ==> is_alnum(#[trigger] t[i] as u32)
}

/// Relies on rand's `thread_rng` and `Rng::gen_ascii_chars`: each draw of
/// the generator gives a character picked from the ASCII letters and digits.
#[verifier::external_body]
fn random_token_char() -> (r: Option<char>)
    ensures
        r is Some,
        is_alnum(r->Some_0 as u32),
{
    rand::Rng::gen_ascii_chars(&mut rand::thread_rng()).next()
}

/// The byte that a drawn character stands for in a token; a carriage return
/// would become `R`.
fn token_byte(c: char) -> (r: u8)
    requires
        is_alnum(c as u32),
    ensures
        r as u32 == c as u32,
        is_alnum(r as u32),
{
    if c == '\r' {
        82
    } else {
        (c as u32) as u8
    }
}

/// A fresh random token.
fn random_token() -> (r: Vec<u8>)
    ensures
        is_token(r@),
{
    let mut t: Vec<u8> = Vec::new();
    let mut i: usize = 0;
    while i < HEADER_LENGTH
        invariant
            i <= HEADER_LENGTH,
            t@.len() == i,
            forall|k: int| 0 <= k < i ==> is_alnum(#[trigger] t@[k] as u32),
        decreases HEADER_LENGTH - i,
    {
        let c = match random_token_char() {
            Some(c) => c,
            None => {
                proof {
                    assert(false);
                }
                'A'
            },
        };
        t.push(token_byte(c));
        i = i + 1;
    }
    t
}

/// Hands out fresh challenge tokens, drawing `RNG_BUF_SIZE` at a time.
pub struct HeaderGenerator {
    tmp: Vec<Vec<u8>>,
}

impl HeaderGenerator {
    /// Every token held is well formed.
    pub closed spec fn wf(&self) -> bool {
        forall|i: int| 0 <= i < self.tmp@.len() ==> is_token(#[trigger] self.tmp@[i]@)
    }

    /// The tokens held, the next one to be handed out last.
    pub closed spec fn tokens(&self) -> Seq<Seq<u8>> {
        self.tmp@.map_values(|t: Vec<u8>| t@)
    }

    /// How many tokens are held.
    pub open spec fn held(&self) -> nat {
        self.tokens().len()
    }

    pub fn new() -> (r: HeaderGenerator)
        ensures
            r.wf(),
            r.held() == 0,
    {
        HeaderGenerator { tmp: Vec::new() }
    }

    /// Draws a new batch of tokens where none is left.
    pub fn regenerate(&mut self)
        requires
            old(self).wf(),
        ensures
            final(self).wf(),
            old(self).held() == 0 ==> final(self).held() == RNG_BUF_SIZE,
            old(self).held() > 0 ==> final(self).tokens() == old(self).tokens(),
    {
        if self.tmp.len() == 0 {
            let mut i: usize = 0;
            while i < RNG_BUF_SIZE
                invariant
                    i <= RNG_BUF_SIZE,
                    self.tmp@.len() == i,
                    self.wf(),
                decreases RNG_BUF_SIZE - i,
            {
                let t = random_token();
                self.tmp.push(t);
                i = i + 1;
            }
            assert(self.tokens().len() == self.tmp@.len());
        }
    }

    /// The next token.
    pub fn next(&mut self) -> (r: Vec<u8>)
        requires
            old(self).wf(),
        ensures
            final(self).wf(),
            is_token(r@),
            old(self).held() > 0 ==> r@ == old(self).tokens().last() && final(self).tokens()
                == old(self).tokens().drop_last(),
            old(self).held() == 0 ==> final(self).held() == RNG_BUF_SIZE - 1,
    {
        if self.tmp.len() == 0 {
            self.regenerate();
        }
        let ghost before = self.tmp@;
        assert(self.tokens().len() == self.tmp@.len());
        match self.tmp.pop() {
            Some(t) => {
                assert(self.tokens() =~= before.map_values(|t: Vec<u8>| t@).drop_last());
                t
            },
            None => {
                proof {
                    assert(false);
                }
                random_token()
            },
        }
    }
}

} // verus!
