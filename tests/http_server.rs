use cuckoo_http::http_server::{
    challenge_token, default_problem, easiness_for, efficient_parse_header, efficient_replace,
    format_response_binary, format_response_text, next_action, render_challenge, requires_cuckoo, verified, Action,
    ChallengeRegistry, CuckooProblem, HeaderGenerator, VerifyStatus,
};

#[test]
fn efficient_replace_works() {
    let a: [u8; 8] = [0, 1, 2, 5, 5, 5, 1, 2];
    let v1: [u8; 3] = [5, 5, 5];
    let v2: [u8; 1] = [0];
    assert_eq!(efficient_replace(&a, &v1, &v2), vec![0, 1, 2, 0, 1, 2]);

    let v3: [u8; 8] = [0, 1, 2, 5, 5, 5, 1, 2];
    let v4: [u8; 0] = [];
    assert_eq!(efficient_replace(&a, &v3, &v4), vec![]);

    let v5: [u8; 3] = [0, 1, 2];
    let v6: [u8; 5] = [0, 1, 2, 3, 4];
    assert_eq!(
        efficient_replace(&a, &v5, &v6),
        vec![0, 1, 2, 3, 4, 5, 5, 5, 1, 2]
    );
}

#[test]
fn efficient_parse_header_works() {
    let a = b"Example Header Here: Test Value\r\n";
    let b = b"Example Header Here: ";
    assert_eq!(&efficient_parse_header(a, b).unwrap(), b"Test Value");

    let c = b"Cuckoo Header: abcde f1234\r\n";
    let d = b"Cuckoo Header: ";
    assert_eq!(&efficient_parse_header(c, d).unwrap(), b"abcde f1234");
}

#[test]
fn replace_every_occurrence() {
    let out = efficient_replace(b"a HEADER b HEADER c", b"HEADER", b"xy");
    assert_eq!(out, b"a xy b xy c".to_vec());
}

#[test]
fn replace_without_match_keeps_text() {
    let out = efficient_replace(b"no marker here", b"HEADER", b"xy");
    assert_eq!(out, b"no marker here".to_vec());
    let empty: [u8; 0] = [];
    assert_eq!(efficient_replace(&empty, b"HEADER", b"xy"), Vec::<u8>::new());
}

#[test]
fn parse_header_missing_or_unterminated() {
    assert_eq!(efficient_parse_header(b"Other: 1\r\n", b"Name: "), None);
    assert_eq!(efficient_parse_header(b"Name: 1", b"Name: "), None);
    assert_eq!(efficient_parse_header(b"Name: \r\n", b"Name: "), Some(vec![]));
}

#[test]
fn response_binary_exact_bytes() {
    let r = format_response_binary(b"hello".to_vec(), "text/plain");
    let expected = b"HTTP/1.1 200 OK\r\nCache-Control: no-cache, private\r\nContent-Length: 5\r\nContent-Type: text/plain\r\nConnection: close\r\n\r\nhello".to_vec();
    assert_eq!(r, expected);
}

#[test]
fn response_length_has_several_digits() {
    let body = vec![b'x'; 1234];
    let r = format_response_binary(body, "application/wasm");
    let text = String::from_utf8(r).unwrap();
    assert!(text.contains("Content-Length: 1234\r\n"));
    assert!(text.contains("Content-Type: application/wasm\r\n"));
}

#[test]
fn response_text_matches_binary() {
    let body = String::from("console.log(1);");
    let a = format_response_text(&body, "application/javascript");
    let b = format_response_binary(body.as_bytes().to_vec(), "application/javascript");
    assert_eq!(a, b);
}

#[test]
fn registry_finds_inserted_token() {
    let mut reg = ChallengeRegistry::new();
    let p = default_problem();
    reg.insert(b"token-one".to_vec(), p);
    assert_eq!(reg.lookup(b"token-one"), Some(p));
    assert_eq!(reg.lookup(b"token-two"), None);
}

#[test]
fn registry_insert_replaces() {
    let mut reg = ChallengeRegistry::new();
    reg.insert(b"t".to_vec(), CuckooProblem { easipct: 50, difficulty_tenths: 10 });
    reg.insert(b"t".to_vec(), CuckooProblem { easipct: 60, difficulty_tenths: 20 });
    assert_eq!(
        reg.lookup(b"t"),
        Some(CuckooProblem { easipct: 60, difficulty_tenths: 20 })
    );
}

#[test]
fn easiness_from_percent() {
    assert_eq!(easiness_for(70), 734003);
    assert_eq!(easiness_for(100), 1048576);
    assert_eq!(easiness_for(0), 0);
}

#[test]
fn request_without_challenge_is_unverified() {
    let req = b"GET / HTTP/1.1\r\nHost: x\r\n\r\n";
    assert_eq!(challenge_token(req), None);
    assert_eq!(verified(req, None), VerifyStatus::Unverified);
}

#[test]
fn unknown_token_is_invalid() {
    let req = b"GET / HTTP/1.1\r\nX-Cuckoo-Header: abc\r\n\r\n";
    assert_eq!(challenge_token(req), Some(b"abc".to_vec()));
    let reg = ChallengeRegistry::new();
    let problem = reg.lookup(b"abc");
    assert_eq!(verified(req, problem), VerifyStatus::Invalid);
}

#[test]
fn missing_or_bad_solution_is_invalid() {
    let p = Some(default_problem());
    let no_solution = b"GET / HTTP/1.1\r\nX-Cuckoo-Header: abc\r\n\r\n";
    assert_eq!(verified(no_solution, p), VerifyStatus::Invalid);
    let short = b"GET / HTTP/1.1\r\nX-Cuckoo-Header: abc\r\nX-Cuckoo-Solution: 1 2 3\r\n\r\n";
    assert_eq!(verified(short, p), VerifyStatus::Invalid);
    let mut text = String::new();
    for i in 0..42 {
        if i > 0 {
            text.push(' ');
        }
        text.push_str(&format!("{:x}", i));
    }
    let req = format!(
        "GET / HTTP/1.1\r\nX-Cuckoo-Header: abc\r\nX-Cuckoo-Solution: {}\r\n\r\n",
        text
    );
    assert_eq!(verified(req.as_bytes(), p), VerifyStatus::Invalid);
}

#[test]
fn challenge_page_is_filled_in() {
    let template = b"<p>HEADER</p><p>EASINESS</p><p>DIFFICULTY</p>";
    let page = render_challenge(template, b"abcd", default_problem());
    let text = String::from_utf8(page).unwrap();
    assert!(text.starts_with("HTTP/1.1 200 OK\r\n"));
    assert!(text.contains("Content-Type: text/html\r\n"));
    assert!(text.ends_with("\r\n\r\n<p>abcd</p><p>70</p><p>99.9</p>"));
    assert!(text.contains("Content-Length: 31\r\n"));
}

#[test]
fn tokens_are_alphanumeric_and_fresh() {
    let mut gen = HeaderGenerator::new();
    gen.regenerate();
    let a = gen.next();
    let b = gen.next();
    assert_eq!(a.len(), 32);
    assert!(a.iter().all(|c| c.is_ascii_alphanumeric()));
    assert!(b.iter().all(|c| c.is_ascii_alphanumeric()));
    assert!(!a.contains(&b'\r'));
    assert_ne!(a, b);
    for _ in 0..20 {
        let t = gen.next();
        assert_eq!(t.len(), 32);
    }
}

#[test]
fn every_url_needs_a_solution() {
    assert!(requires_cuckoo(b"/"));
    assert!(requires_cuckoo(b"/index.html"));
}

#[test]
fn replace_finds_match_inside_failed_partial_match() {
    assert_eq!(efficient_replace(b"aaab", b"aab", b"c"), b"ac".to_vec());
    let page = efficient_replace(b"<HEHEADER>", b"HEADER", b"tok");
    assert_eq!(page, b"<HEtok>".to_vec());
}

#[test]
fn replace_is_leftmost_and_non_overlapping() {
    assert_eq!(efficient_replace(b"aaaa", b"aa", b"b"), b"bb".to_vec());
    assert_eq!(efficient_replace(b"aaa", b"aa", b"b"), b"ba".to_vec());
}

#[test]
fn parse_header_after_failed_partial_match() {
    assert_eq!(
        efficient_parse_header(b"XX-H: v\r\n", b"X-H: "),
        Some(b"v".to_vec())
    );
    assert_eq!(
        efficient_parse_header(b"A: 1\r\nA: 2\r\n", b"A: "),
        Some(b"1".to_vec())
    );
}

#[test]
fn actions_for_requests() {
    assert_eq!(next_action(b"/web_miner.wasm", VerifyStatus::Invalid), Action::ServeWasm);
    assert_eq!(next_action(b"/web_miner.js", VerifyStatus::Unverified), Action::ServeJs);
    assert_eq!(next_action(b"/", VerifyStatus::Unverified), Action::IssueChallenge);
    assert_eq!(next_action(b"/", VerifyStatus::Invalid), Action::Close);
    assert_eq!(next_action(b"/x", VerifyStatus::Valid), Action::Forward);
}
