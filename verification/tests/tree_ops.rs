use rsure::compare::{compare_trees, Event};
use rsure::hash::{hash_estimate, node_needs_hash, node_set_hash, sha1_hex};
use rsure::serial::{parse_tree, serialize_tree};
use rsure::tree::{tree_is_wf, Atts, Kind, SureNode, SureTree};

fn atts(pairs: &[(&str, &str)]) -> Atts {
    let mut a = Atts::new();
    for (k, v) in pairs {
        a.set(&k.as_bytes().to_vec(), v.as_bytes().to_vec());
    }
    a
}

fn file(name: &[u8], pairs: &[(&str, &str)]) -> SureNode {
    SureNode { name: name.to_vec(), kind: Kind::File, atts: atts(pairs) }
}

fn sample_tree() -> SureTree {
    let mut root = SureTree::new(
        b"__root__".to_vec(),
        atts(&[("gid", "0"), ("perm", "755"), ("uid", "0")]),
    );
    let mut sub = SureTree::new(
        b"b".to_vec(),
        atts(&[("gid", "0"), ("perm", "755"), ("uid", "0")]),
    );
    sub.push_file(file(b"c", &[("size", "6"), ("uid", "0")]));
    root.push_dir(sub);
    root.push_file(file(b"a", &[("size", "6"), ("uid", "0")]));
    root
}

#[test]
fn validator_accepts_ordered_rejects_unordered() {
    let t = sample_tree();
    assert!(tree_is_wf(&t));
    let mut bad = SureTree::new(b"r".to_vec(), atts(&[("uid", "0")]));
    bad.push_file(file(b"b", &[("size", "1")]));
    bad.push_file(file(b"a", &[("size", "1")]));
    assert!(!tree_is_wf(&bad));
}

#[test]
fn surefile_framing_round_trip() {
    let t = sample_tree();
    let lines = rsure::serial::write_surefile_lines(&t);
    assert_eq!(lines[0], b"asure-2.0".to_vec());
    assert_eq!(lines[1], b"".to_vec());
    let back = rsure::serial::read_surefile_lines(&lines).expect("stored form must load");
    assert_eq!(lines, rsure::serial::write_surefile_lines(&back));
    let mut broken = lines.clone();
    broken[0] = b"asure-1.0".to_vec();
    assert!(rsure::serial::read_surefile_lines(&broken).is_err());
    let mut trailing = lines.clone();
    trailing.push(b"junk".to_vec());
    assert!(rsure::serial::read_surefile_lines(&trailing).is_err());
}

#[test]
fn serialize_parse_round_trip() {
    let t = sample_tree();
    let ser = serialize_tree(&t);
    let back = parse_tree(&ser).expect("a serialized tree must parse");
    let ser2 = serialize_tree(&back);
    assert_eq!(ser, ser2);
    let events = compare_trees(&t, &back);
    for e in events {
        match e {
            Event::Enter(_) | Event::Leave(_) => {}
            _ => panic!("a reparsed tree must not differ"),
        }
    }
}

#[test]
fn serialized_lines_exact() {
    let mut root = SureTree::new(b"d".to_vec(), atts(&[("uid", "0")]));
    root.push_file(file(b"a", &[("size", "1")]));
    let ser = serialize_tree(&root);
    let want: Vec<Vec<u8>> = vec![
        b"dd [uid 0]".to_vec(),
        b"-".to_vec(),
        b"fa [size 1]".to_vec(),
        b"u".to_vec(),
    ];
    assert_eq!(ser, want);
}

#[test]
fn weird_name_round_trips() {
    let mut root = SureTree::new(b"r".to_vec(), atts(&[("uid", "0")]));
    root.push_file(file(b"weird=name with\ttab", &[("size", "0")]));
    let ser = serialize_tree(&root);
    let back = parse_tree(&ser).expect("escaped names must parse");
    assert_eq!(ser, serialize_tree(&back));
    assert_eq!(back.files[0].name, b"weird=name with\ttab".to_vec());
}

#[test]
fn parse_rejects_garbage() {
    let bad: Vec<Vec<u8>> = vec![b"not a tree".to_vec()];
    assert!(parse_tree(&bad).is_err());
    let unterminated: Vec<Vec<u8>> = vec![b"dr [uid 0]".to_vec(), b"-".to_vec()];
    assert!(parse_tree(&unterminated).is_err());
}

#[test]
fn compare_self_is_quiet() {
    let t = sample_tree();
    let events = compare_trees(&t, &t);
    assert!(events.len() > 0);
    for e in events {
        match e {
            Event::Enter(_) | Event::Leave(_) => {}
            _ => panic!("a tree compared with itself must report nothing"),
        }
    }
}

#[test]
fn add_then_detect() {
    let mut old_root = SureTree::new(b"r".to_vec(), atts(&[("uid", "0")]));
    old_root.push_file(file(b"a", &[("size", "1")]));
    let mut new_root = SureTree::new(b"r".to_vec(), atts(&[("uid", "0")]));
    new_root.push_file(file(b"a", &[("size", "1")]));
    new_root.push_file(file(b"b", &[("size", "1")]));
    let events = compare_trees(&old_root, &new_root);
    let mut added: Vec<(Vec<Vec<u8>>, u8)> = Vec::new();
    for e in events {
        match e {
            Event::Enter(_) | Event::Leave(_) => {}
            Event::Added(p, k) => added.push((p, k)),
            _ => panic!("only one addition expected"),
        }
    }
    assert_eq!(added.len(), 1);
    assert_eq!(added[0].0, vec![b"b".to_vec()]);
    assert_eq!(added[0].1, 0x66);
}

#[test]
fn inode_churn_is_quiet_but_mtime_is_not() {
    let old_f = file(b"a", &[("ctime", "1"), ("ino", "5"), ("mtime", "9"), ("size", "1")]);
    let new_f = file(b"a", &[("ctime", "2"), ("ino", "6"), ("mtime", "9"), ("size", "1")]);
    let mut o = SureTree::new(b"r".to_vec(), Atts::new());
    o.push_file(old_f);
    let mut n = SureTree::new(b"r".to_vec(), Atts::new());
    n.push_file(new_f);
    for e in compare_trees(&o, &n) {
        match e {
            Event::Enter(_) | Event::Leave(_) => {}
            _ => panic!("inode and ctime churn alone must stay quiet"),
        }
    }
    let mut n2 = SureTree::new(b"r".to_vec(), Atts::new());
    n2.push_file(file(b"a", &[("ctime", "2"), ("ino", "6"), ("mtime", "10"), ("size", "1")]));
    let mut changed = 0;
    for e in compare_trees(&o, &n2) {
        if let Event::Changed(p, _, _) = e {
            assert_eq!(p, vec![b"a".to_vec()]);
            changed += 1;
        }
    }
    assert_eq!(changed, 1);
}

#[test]
fn lost_hash_is_flagged() {
    let old_f = file(b"a", &[("sha1", "aa"), ("size", "1")]);
    let new_f = file(b"a", &[("size", "1")]);
    let mut o = SureTree::new(b"r".to_vec(), Atts::new());
    o.push_file(old_f);
    let mut n = SureTree::new(b"r".to_vec(), Atts::new());
    n.push_file(new_f);
    let mut saw = false;
    for e in compare_trees(&o, &n) {
        if let Event::Changed(_, _, d) = e {
            assert!(d.contains(&b"hash-missing".to_vec()));
            saw = true;
        }
    }
    assert!(saw);
}

#[test]
fn sha1_known_value() {
    let h = sha1_hex(&b"hello\n".to_vec());
    assert_eq!(h, b"f572d396fae9206628714fb2ce00f72e94f2258f".to_vec());
}

#[test]
fn hash_update_marks_node() {
    let mut n = file(b"a", &[("size", "6")]);
    assert!(node_needs_hash(&n));
    node_set_hash(&mut n, &b"hello\n".to_vec());
    assert!(!node_needs_hash(&n));
    let hv = n.atts.get(&b"sha1".to_vec()).expect("hash stored").clone();
    assert_eq!(hv, b"f572d396fae9206628714fb2ce00f72e94f2258f".to_vec());
}

#[test]
fn zero_size_needs_no_hash() {
    let n = file(b"a", &[("size", "0")]);
    assert!(!node_needs_hash(&n));
}

#[test]
fn estimate_counts_unhashed_files() {
    let t = sample_tree();
    let (files, bytes) = hash_estimate(&t);
    assert_eq!(files, 2);
    assert_eq!(bytes, 12);
}
