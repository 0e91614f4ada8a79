use rsure::delta::add_delta;
use rsure::store::{DeltaInfo, decode_weave, encode_weave, select_delta};
use rsure::weave::{WeaveLine, first_delta_body, parse_body};
use rsure::Version;

fn lines(texts: &[&str]) -> Vec<Vec<u8>> {
    texts.iter().map(|t| t.as_bytes().to_vec()).collect()
}

#[test]
fn first_delta_reads_back() {
    let content = lines(&["1", "2", "3"]);
    let body = first_delta_body(&content);
    let got = parse_body(&body, 1).expect("a fresh weave is well formed");
    assert_eq!(got, content);
}

#[test]
fn weave_two_deltas() {
    let body1 = first_delta_body(&lines(&["1", "2", "3"]));
    let newc = lines(&["1", "2a", "3", "4"]);
    let body2 = add_delta(&body1, 1, 2, &newc).expect("rewrite of a fresh weave");
    assert_eq!(parse_body(&body2, 1).unwrap(), lines(&["1", "2", "3"]));
    assert_eq!(parse_body(&body2, 2).unwrap(), newc);
}

#[test]
fn weave_delete_and_insert_middle() {
    let body1 = first_delta_body(&lines(&["a", "b", "c", "d"]));
    let newc = lines(&["a", "x", "y", "d"]);
    let body2 = add_delta(&body1, 1, 2, &newc).unwrap();
    assert_eq!(parse_body(&body2, 1).unwrap(), lines(&["a", "b", "c", "d"]));
    assert_eq!(parse_body(&body2, 2).unwrap(), newc);
    let newc3 = lines(&["x", "y", "d", "e"]);
    let body3 = add_delta(&body2, 2, 3, &newc3).unwrap();
    assert_eq!(parse_body(&body3, 1).unwrap(), lines(&["a", "b", "c", "d"]));
    assert_eq!(parse_body(&body3, 2).unwrap(), newc);
    assert_eq!(parse_body(&body3, 3).unwrap(), newc3);
}

fn permutation(seed: &mut u64) -> Vec<Vec<u8>> {
    let mut nums: Vec<u64> = (1..=100).collect();
    let mut i = nums.len();
    while i > 1 {
        *seed = seed.wrapping_mul(6364136223846793005).wrapping_add(1442695040888963407);
        let j = (*seed >> 33) as usize % i;
        i -= 1;
        nums.swap(i, j);
    }
    nums.iter().map(|n| n.to_string().into_bytes()).collect()
}

#[test]
fn weave_ten_permutations() {
    let mut seed: u64 = 12345;
    let mut contents: Vec<Vec<Vec<u8>>> = Vec::new();
    for _ in 0..10 {
        contents.push(permutation(&mut seed));
    }
    let mut body = first_delta_body(&contents[0]);
    for k in 1..10 {
        body = add_delta(&body, k as u64, (k + 1) as u64, &contents[k]).unwrap();
    }
    for k in 0..10 {
        assert_eq!(parse_body(&body, (k + 1) as u64).unwrap(), contents[k]);
    }
}

#[test]
fn parse_body_rejects_unbalanced() {
    let body = vec![WeaveLine::Insert(1), WeaveLine::Plain(b"x".to_vec())];
    match parse_body(&body, 1) {
        Err(rsure::SureError::FormatError { .. }) => {}
        _ => panic!("an unclosed block must be refused"),
    }
    let body2 = vec![WeaveLine::Insert(1), WeaveLine::End(2)];
    assert!(parse_body(&body2, 1).is_err());
}

#[test]
fn weave_file_round_trip() {
    let body = first_delta_body(&lines(&["alpha", "beta"]));
    let deltas = vec![DeltaInfo {
        number: 1,
        count: 2,
        id: 77,
        tags: vec![(b"name".to_vec(), b"first scan".to_vec())],
    }];
    let wire = encode_weave(&deltas, &body);
    assert_eq!(wire[0], b"\x01s 1 2 77".to_vec());
    assert_eq!(wire[1], b"\x01t name first=20scan".to_vec());
    assert_eq!(wire[2], b"\x01T".to_vec());
    let (ds, b2) = decode_weave(&wire).expect("written weave must decode");
    assert_eq!(ds.len(), 1);
    assert_eq!(ds[0].number, 1);
    assert_eq!(ds[0].count, 2);
    assert_eq!(ds[0].id, 77);
    assert_eq!(ds[0].tags, vec![(b"name".to_vec(), b"first scan".to_vec())]);
    assert_eq!(parse_body(&b2, 1).unwrap(), lines(&["alpha", "beta"]));
}

#[test]
fn select_delta_versions() {
    let mk = |n: u64, name: &str| DeltaInfo {
        number: n,
        count: 0,
        id: n,
        tags: vec![(b"name".to_vec(), name.as_bytes().to_vec())],
    };
    let deltas = vec![mk(3, "third"), mk(2, "second"), mk(1, "first")];
    assert_eq!(select_delta(&deltas, &Version::Latest).unwrap(), 3);
    assert_eq!(select_delta(&deltas, &Version::Prior).unwrap(), 2);
    assert_eq!(
        select_delta(&deltas, &Version::Tagged("first".to_string())).unwrap(),
        1
    );
    match select_delta(&deltas, &Version::Tagged("missing".to_string())) {
        Err(rsure::SureError::VersionNotFound) => {}
        _ => panic!("an absent tag must be a missing version"),
    }
    let empty: Vec<DeltaInfo> = Vec::new();
    assert!(select_delta(&empty, &Version::Latest).is_err());
}
