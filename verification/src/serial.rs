use vstd::prelude::*;

use crate::SureError;
use crate::escape::{escape, escape_bytes, lemma_escape_printable, lemma_unescape_escape, unescape,
    unescape_bytes};
use crate::lines::{first_sep, join, join_bytes, lemma_split_join, split, split_bytes};
use crate::tree::{Atts, NodeV, SureNode, SureTree, TreeV, byte_kind, kind_byte, kind_of_byte,
    kind_to_byte, lemma_trees_view_from, node_view, pairs_view, tree_view, trees_view_from};
use crate::weave::lines_view;

verus! {

broadcast use {vstd::std_specs::vec::group_vec_axioms, vstd::seq::axiom_seq_index_decreases};

/// The wire tokens of an attribute list: escaped key and escaped value, in
/// stored order.
pub open spec fn atts_tokens(a: Seq<(Seq<u8>, Seq<u8>)>) -> Seq<Seq<u8>>
    decreases a.len(),
{
    if a.len() == 0 {
        Seq::empty()
    } else {
        seq![escape_bytes(a[0].0), escape_bytes(a[0].1)] + atts_tokens(a.skip(1))
    }
}

/// The bracketed attribute block of a line.
pub open spec fn atts_block(a: Seq<(Seq<u8>, Seq<u8>)>) -> Seq<u8> {
    seq![0x5bu8] + join_bytes(atts_tokens(a), 0x20) + seq![0x5du8]
}

/// One entry line: a kind byte, the escaped name, a space, the block.
pub open spec fn entry_line(c: u8, name: Seq<u8>, a: Seq<(Seq<u8>, Seq<u8>)>) -> Seq<u8> {
    seq![c] + escape_bytes(name) + seq![0x20u8] + atts_block(a)
}

/// The serialized lines of a tree: its own `d` line, the child directories,
/// a `-` separator, the file entries, and a closing `u` line.
pub open spec fn ser_tree(tv: TreeV) -> Seq<Seq<u8>>
    decreases tv, 0int,
{
    seq![entry_line(0x64, tv.name, tv.atts)] + ser_dirs(tv.dirs, 0) + seq![seq![0x2du8]]
        + tv.files.map_values(|n: NodeV| entry_line(kind_byte(n.kind), n.name, n.atts)) + seq![
        seq![0x75u8],
    ]
}

pub open spec fn ser_dirs(ds: Seq<TreeV>, i: int) -> Seq<Seq<u8>>
    decreases ds, ds.len() - i,
{
    if i < 0 || i >= ds.len() {
        Seq::empty()
    } else {
        ser_tree(ds[i]) + ser_dirs(ds, i + 1)
    }
}

/// The parts of one parsed entry line: kind byte, name, attribute pairs.
pub open spec fn detok(toks: Seq<Seq<u8>>) -> Option<Seq<(Seq<u8>, Seq<u8>)>>
    decreases toks.len(),
{
    if toks.len() == 0 {
        Some(Seq::empty())
    } else if toks.len() == 1 {
        None
    } else {
        match (unescape_bytes(toks[0]), unescape_bytes(toks[1])) {
            (Some(k), Some(v)) => match detok(toks.skip(2)) {
                Some(rest) => Some(seq![(k, v)] + rest),
                None => None,
            },
            _ => None,
        }
    }
}

/// Decode one entry line; rejects a line that no tree writes.
pub open spec fn parse_entry(line: Seq<u8>) -> Option<(u8, Seq<u8>, Seq<(Seq<u8>, Seq<u8>)>)> {
    if line.len() < 1 {
        None
    } else {
        let sp = first_sep(line, 0x20, 1);
        if sp >= line.len() {
            None
        } else {
            let name_esc = line.subrange(1, sp);
            let block = line.subrange(sp + 1, line.len() as int);
            if block.len() < 2 || block[0] != 0x5b || block.last() != 0x5d {
                None
            } else {
                let inner = block.subrange(1, block.len() - 1);
                match unescape_bytes(name_esc) {
                    None => None,
                    Some(name) => if inner.len() == 0 {
                        Some((line[0], name, Seq::empty()))
                    } else {
                        match detok(split_bytes(inner, 0x20)) {
                            None => None,
                            Some(pairs) => Some((line[0], name, pairs)),
                        }
                    },
                }
            }
        }
    }
}

/// Decode a directory entry starting at line `i`, returning the tree and the
/// line after its closing `u`.
pub open spec fn parse_dir(lines: Seq<Seq<u8>>, i: int) -> Option<(TreeV, int)>
    decreases lines.len() - i, 0int,
{
    if i < 0 || i >= lines.len() {
        None
    } else {
        match parse_entry(lines[i]) {
            None => None,
            Some((c, name, atts)) => {
                if c != 0x64 {
                    None
                } else {
                    match parse_subdirs(lines, i + 1) {
                        None => None,
                        Some((ds, j)) => match parse_files(lines, j) {
                            None => None,
                            Some((fs, k)) => Some((TreeV { name, atts, dirs: ds, files: fs }, k)),
                        },
                    }
                }
            },
        }
    }
}

/// Decode child directories until the `-` separator, consuming it.
pub open spec fn parse_subdirs(lines: Seq<Seq<u8>>, i: int) -> Option<(Seq<TreeV>, int)>
    decreases lines.len() - i, 1int,
{
    if i < 0 || i >= lines.len() {
        None
    } else if lines[i] == seq![0x2du8] {
        Some((Seq::empty(), i + 1))
    } else {
        match parse_dir(lines, i) {
            None => None,
            Some((tv, j)) => {
                let j2 = if i < j <= lines.len() {
                    j
                } else {
                    i + 1
                };
                match parse_subdirs(lines, j2) {
                    None => None,
                    Some((ds, k)) => Some((seq![tv] + ds, k)),
                }
            },
        }
    }
}

/// Decode file entries until the closing `u`, consuming it.
pub open spec fn parse_files(lines: Seq<Seq<u8>>, i: int) -> Option<(Seq<NodeV>, int)>
    decreases lines.len() - i,
{
    if i < 0 || i >= lines.len() {
        None
    } else if lines[i] == seq![0x75u8] {
        Some((Seq::empty(), i + 1))
    } else {
        match parse_entry(lines[i]) {
            None => None,
            Some((c, name, atts)) => match byte_kind(c) {
                None => None,
                Some(k) => match parse_files(lines, i + 1) {
                    None => None,
                    Some((fs, j)) => Some((seq![NodeV { name, kind: k, atts }] + fs, j)),
                },
            },
        }
    }
}

/// A successful parse always moves forward and never past the end.
pub proof fn lemma_parse_progress(lines: Seq<Seq<u8>>, i: int)
    ensures
        parse_dir(lines, i) matches Some(r) ==> i < r.1 <= lines.len(),
    decreases lines.len() - i, 2int,
{
    if i < 0 || i >= lines.len() {
    } else {
        if let Some((c, name, atts)) = parse_entry(lines[i]) {
            if c == 0x64 {
                lemma_parse_progress_subdirs(lines, i + 1);
                if let Some((ds, j)) = parse_subdirs(lines, i + 1) {
                    lemma_parse_progress_files(lines, j);
                }
            }
        }
    }
}

pub proof fn lemma_parse_progress_subdirs(lines: Seq<Seq<u8>>, i: int)
    ensures
        parse_subdirs(lines, i) matches Some(r) ==> i < r.1 <= lines.len(),
    decreases lines.len() - i, 3int,
{
    if i < 0 || i >= lines.len() {
    } else if lines[i] == seq![0x2du8] {
    } else {
        lemma_parse_progress(lines, i);
        if let Some((tv, j)) = parse_dir(lines, i) {
            let j2 = if i < j <= lines.len() {
                j
            } else {
                i + 1
            };
            lemma_parse_progress_subdirs(lines, j2);
        }
    }
}

pub proof fn lemma_parse_progress_files(lines: Seq<Seq<u8>>, i: int)
    ensures
        parse_files(lines, i) matches Some(r) ==> i < r.1 <= lines.len(),
    decreases lines.len() - i,
{
    if i < 0 || i >= lines.len() {
    } else if lines[i] == seq![0x75u8] {
    } else {
        lemma_parse_progress_files(lines, i + 1);
    }
}


proof fn lemma_atts_tokens_no_space(a: Seq<(Seq<u8>, Seq<u8>)>)
    ensures
        forall|i: int, j: int|
            0 <= i < atts_tokens(a).len() && 0 <= j < atts_tokens(a)[i].len()
                ==> #[trigger] atts_tokens(a)[i][j] != 0x20,
    decreases a.len(),
{
    let t = atts_tokens(a);
    if a.len() == 0 {
    } else {
        lemma_atts_tokens_no_space(a.skip(1));
        lemma_escape_printable(a[0].0);
        lemma_escape_printable(a[0].1);
        let rest = atts_tokens(a.skip(1));
        assert forall|i: int, j: int|
            0 <= i < t.len() && 0 <= j < t[i].len() implies #[trigger] t[i][j] != 0x20 by {
            if i == 0 {
                assert(t[i] == escape_bytes(a[0].0));
            } else if i == 1 {
                assert(t[i] == escape_bytes(a[0].1));
            } else {
                assert(t[i] == rest[i - 2]);
            }
        }
    }
}

proof fn lemma_detok_tokens(a: Seq<(Seq<u8>, Seq<u8>)>)
    ensures
        detok(atts_tokens(a)) == Some(a),
    decreases a.len(),
{
    let t = atts_tokens(a);
    if a.len() == 0 {
        assert(a =~= Seq::<(Seq<u8>, Seq<u8>)>::empty());
    } else {
        lemma_detok_tokens(a.skip(1));
        lemma_unescape_escape(a[0].0);
        lemma_unescape_escape(a[0].1);
        assert(t[0] == escape_bytes(a[0].0));
        assert(t[1] == escape_bytes(a[0].1));
        assert(t.skip(2) =~= atts_tokens(a.skip(1)));
        assert(seq![(a[0].0, a[0].1)] + a.skip(1) =~= a);
        assert((a[0].0, a[0].1) == a[0]);
    }
}

/// Decoding an entry line written by the serializer recovers its parts.
pub proof fn lemma_parse_entry_line(c: u8, name: Seq<u8>, a: Seq<(Seq<u8>, Seq<u8>)>)
    ensures
        parse_entry(entry_line(c, name, a)) == Some((c, name, a)),
{
    let el = entry_line(c, name, a);
    let en = escape_bytes(name);
    let jn = join_bytes(atts_tokens(a), 0x20);
    lemma_escape_printable(name);
    assert(el.len() == 1 + en.len() + 1 + 1 + jn.len() + 1);
    assert(el[0] == c);
    assert(forall|j: int| 0 <= j < en.len() ==> el[1 + j] == en[j]);
    assert(el[1 + en.len() as int] == 0x20);
    crate::lines::lemma_first_sep_bounds(el, 0x20, 1);
    let sp = first_sep(el, 0x20, 1);
    assert(sp <= 1 + en.len()) by {
        if sp > 1 + en.len() {
            assert(el[1 + en.len() as int] != 0x20);
        }
    }
    assert(sp >= 1 + en.len()) by {
        if sp < 1 + en.len() {
            assert(el[sp] == 0x20);
            assert(el[sp] == en[sp - 1]);
            assert(0x21 <= en[sp - 1] <= 0x7e);
        }
    }
    assert(sp < el.len());
    assert(el.subrange(1, sp) =~= en);
    lemma_unescape_escape(name);
    let block = el.subrange(sp + 1, el.len() as int);
    assert(block =~= seq![0x5bu8] + jn + seq![0x5du8]);
    assert(block[0] == 0x5b);
    assert(block.last() == 0x5d);
    assert(block.len() >= 2);
    let inner = block.subrange(1, block.len() - 1);
    assert(inner =~= jn);
    if a.len() == 0 {
        assert(atts_tokens(a) =~= Seq::<Seq<u8>>::empty());
        assert(jn.len() == 0);
        assert(a =~= Seq::<(Seq<u8>, Seq<u8>)>::empty());
    } else {
        assert(atts_tokens(a).len() >= 2);
        assert(jn.len() >= 1) by {
            assert(jn == atts_tokens(a)[0] + seq![0x20u8] + join_bytes(
                atts_tokens(a).skip(1),
                0x20,
            ));
        }
        lemma_atts_tokens_no_space(a);
        lemma_split_join(atts_tokens(a), 0x20);
        lemma_detok_tokens(a);
    }
}

/// Parsing what the serializer wrote for a tree, in context, yields the tree
/// and stops right after its closing line.
pub proof fn lemma_parse_ser_tree(lines: Seq<Seq<u8>>, i: int, tv: TreeV)
    requires
        0 <= i,
        i + ser_tree(tv).len() <= lines.len(),
        lines.subrange(i, i + ser_tree(tv).len()) == ser_tree(tv),
    ensures
        parse_dir(lines, i) == Some((tv, i + ser_tree(tv).len())),
    decreases tv, 0int,
{
    let st = ser_tree(tv);
    let ld = ser_dirs(tv.dirs, 0);
    let fl = tv.files.map_values(|n: NodeV| entry_line(kind_byte(n.kind), n.name, n.atts));
    assert forall|j: int| 0 <= j < st.len() implies lines[i + j] == st[j] by {
        assert(lines.subrange(i, i + st.len() as int)[j] == lines[i + j]);
    }
    assert(st[0] == entry_line(0x64, tv.name, tv.atts));
    lemma_parse_entry_line(0x64, tv.name, tv.atts);
    assert(lines[i + 0] == st[0]);
    assert(lines[i] == entry_line(0x64, tv.name, tv.atts));
    // the child-directory region, followed by the separator line
    assert(forall|j: int| 0 <= j < ld.len() ==> st[1 + j] == ld[j]);
    assert(st[1 + ld.len() as int] == seq![0x2du8]);
    assert(lines.subrange(i + 1, i + 1 + ld.len()) =~= ld) by {
        assert forall|k: int| 0 <= k < ld.len() implies lines.subrange(i + 1, i + 1 + ld.len())[k]
            == ld[k] by {
            assert(lines.subrange(i + 1, i + 1 + ld.len())[k] == lines[i + 1 + k]);
            assert(lines[i + (1 + k)] == st[1 + k]);
        }
    }
    assert(lines[i + (1 + ld.len() as int)] == st[1 + ld.len() as int]);
    assert(lines[i + 1 + ld.len()] == seq![0x2du8]);
    lemma_parse_ser_dirs(lines, i + 1, tv.dirs, 0);
    assert(tv.dirs.skip(0) =~= tv.dirs);
    let j = i + 1 + ld.len() + 1;
    // the file region, followed by the closing line
    assert(forall|k: int| 0 <= k < fl.len() ==> st[1 + ld.len() + 1 + k] == fl[k]);
    assert(st[1 + ld.len() + 1 + fl.len() as int] == seq![0x75u8]);
    assert forall|k: int|
        0 <= k < fl.len() implies lines[j + k] == entry_line(
        kind_byte(tv.files[k].kind),
        tv.files[k].name,
        tv.files[k].atts,
    ) by {
        assert(lines[i + (1 + ld.len() + 1 + k)] == st[1 + ld.len() + 1 + k]);
        assert(st[1 + ld.len() + 1 + k] == fl[k]);
        assert(fl[k] == entry_line(kind_byte(tv.files[k].kind), tv.files[k].name, tv.files[k].atts));
    }
    assert(lines[i + (1 + ld.len() + 1 + fl.len() as int)] == st[1 + ld.len() + 1 + fl.len() as int]);
    assert(lines[j + fl.len()] == seq![0x75u8]);
    lemma_parse_ser_files(lines, j, tv.files, 0);
    assert(tv.files.skip(0) =~= tv.files);
    assert(parse_files(lines, j) == Some((tv.files, i + st.len())));
    let r = parse_dir(lines, i);
    assert(r is Some);
    assert(r.unwrap().0 =~= tv);
    assert(r.unwrap().0 == tv);
}

proof fn lemma_parse_ser_dirs(lines: Seq<Seq<u8>>, i: int, ds: Seq<TreeV>, di: int)
    requires
        0 <= di <= ds.len(),
        0 <= i,
        i + ser_dirs(ds, di).len() < lines.len(),
        lines.subrange(i, i + ser_dirs(ds, di).len()) == ser_dirs(ds, di),
        lines[i + ser_dirs(ds, di).len()] == seq![0x2du8],
    ensures
        parse_subdirs(lines, i) == Some((ds.skip(di), i + ser_dirs(ds, di).len() + 1)),
    decreases ds, ds.len() - di,
{
    let sd = ser_dirs(ds, di);
    if di == ds.len() {
        assert(sd =~= Seq::<Seq<u8>>::empty());
        assert(lines[i] == seq![0x2du8]);
        assert(ds.skip(di) =~= Seq::<TreeV>::empty());
    } else {
        let st = ser_tree(ds[di]);
        let sd2 = ser_dirs(ds, di + 1);
        assert(sd == st + sd2);
        assert(st.len() > 0);
        assert forall|j: int| 0 <= j < sd.len() implies lines[i + j] == sd[j] by {
            assert(lines.subrange(i, i + sd.len() as int)[j] == lines[i + j]);
        }
        assert(lines[i + 0] == sd[0]);
        assert(sd[0] == st[0]);
        assert(st[0] == entry_line(0x64, ds[di].name, ds[di].atts));
        assert(lines[i] != seq![0x2du8]) by {
            assert(st[0][0] == 0x64);
        }
        assert(lines.subrange(i, i + st.len()) =~= st) by {
            assert forall|k: int| 0 <= k < st.len() implies lines.subrange(i, i + st.len())[k]
                == st[k] by {
                assert(lines.subrange(i, i + st.len())[k] == lines[i + k]);
                assert(sd[k] == st[k]);
            }
        }
        lemma_parse_ser_tree(lines, i, ds[di]);
        let j = i + st.len();
        assert(lines.subrange(j, j + sd2.len()) =~= sd2) by {
            assert forall|k: int| 0 <= k < sd2.len() implies lines.subrange(j, j + sd2.len())[k]
                == sd2[k] by {
                assert(lines.subrange(j, j + sd2.len())[k] == lines[j + k]);
                assert(lines[i + (st.len() + k)] == sd[st.len() + k]);
                assert(sd[st.len() + k] == sd2[k]);
            }
        }
        assert(lines[i + (st.len() + sd2.len() as int)] == seq![0x2du8]) by {
            assert(i + sd.len() == i + (st.len() + sd2.len() as int));
        }
        assert(lines[j + sd2.len()] == seq![0x2du8]);
        lemma_parse_ser_dirs(lines, j, ds, di + 1);
        assert(seq![ds[di]] + ds.skip(di + 1) =~= ds.skip(di));
    }
}

proof fn lemma_parse_ser_files(lines: Seq<Seq<u8>>, i: int, fs: Seq<NodeV>, fi: int)
    requires
        0 <= fi <= fs.len(),
        0 <= i,
        i + (fs.len() - fi) < lines.len(),
        forall|k: int|
            fi <= k < fs.len() ==> lines[i + (k - fi)] == entry_line(
                kind_byte(fs[k].kind),
                fs[k].name,
                fs[k].atts,
            ),
        lines[i + (fs.len() - fi)] == seq![0x75u8],
    ensures
        parse_files(lines, i) == Some((fs.skip(fi), i + (fs.len() - fi) + 1)),
    decreases fs.len() - fi,
{
    if fi == fs.len() {
        assert(lines[i] == seq![0x75u8]);
        assert(fs.skip(fi) =~= Seq::<NodeV>::empty());
    } else {
        let el = entry_line(kind_byte(fs[fi].kind), fs[fi].name, fs[fi].atts);
        assert(lines[i] == el);
        assert(lines[i] != seq![0x75u8]) by {
            assert(el[0] == kind_byte(fs[fi].kind));
        }
        lemma_parse_entry_line(kind_byte(fs[fi].kind), fs[fi].name, fs[fi].atts);
        assert(byte_kind(kind_byte(fs[fi].kind)) == Some(fs[fi].kind));
        lemma_parse_ser_files(lines, i + 1, fs, fi + 1);
        assert(seq![NodeV { name: fs[fi].name, kind: fs[fi].kind, atts: fs[fi].atts }] + fs.skip(
            fi + 1,
        ) =~= fs.skip(fi)) by {
            assert(NodeV { name: fs[fi].name, kind: fs[fi].kind, atts: fs[fi].atts } == fs[fi]);
        }
    }
}

/// Serialize, then parse: the tree comes back whole, with every line
/// consumed. The serialized form therefore determines the tree.
pub proof fn lemma_serial_round_trip(tv: TreeV)
    ensures
        parse_dir(ser_tree(tv), 0) == Some((tv, ser_tree(tv).len() as int)),
{
    assert(ser_tree(tv).subrange(0, ser_tree(tv).len() as int) =~= ser_tree(tv));
    lemma_parse_ser_tree(ser_tree(tv), 0, tv);
}


fn append_bytes(out: &mut Vec<u8>, s: &Vec<u8>)
    ensures
        final(out)@ == old(out)@ + s@,
{
    let ghost base = out@;
    let mut k: usize = 0;
    while k < s.len()
        invariant
            k <= s.len(),
            out@ == base + s@.take(k as int),
        decreases s.len() - k,
    {
        out.push(s[k]);
        proof {
            assert(out@ =~= base + s@.take(k + 1));
        }
        k = k + 1;
    }
    proof {
        assert(base + s@.take(s@.len() as int) =~= base + s@);
    }
}

proof fn lemma_atts_tokens_append(a: Seq<(Seq<u8>, Seq<u8>)>, b: Seq<(Seq<u8>, Seq<u8>)>)
    ensures
        atts_tokens(a + b) == atts_tokens(a) + atts_tokens(b),
    decreases a.len(),
{
    if a.len() == 0 {
        assert(a + b =~= b);
        assert(atts_tokens(a) + atts_tokens(b) =~= atts_tokens(b));
    } else {
        lemma_atts_tokens_append(a.skip(1), b);
        assert((a + b).skip(1) =~= a.skip(1) + b);
        assert(atts_tokens(a + b) =~= atts_tokens(a) + atts_tokens(b));
    }
}

/// Write one entry line: kind byte, escaped name, and the attribute block.
pub fn build_entry(c: u8, name: &Vec<u8>, atts: &Atts) -> (r: Vec<u8>)
    ensures
        r@ == entry_line(c, name@, atts@),
{
    let mut out: Vec<u8> = Vec::new();
    out.push(c);
    let en = escape(name.as_slice());
    append_bytes(&mut out, &en);
    out.push(0x20);
    out.push(0x5b);
    let mut toks: Vec<Vec<u8>> = Vec::new();
    let mut i: usize = 0;
    let ghost av = atts@;
    proof {
        assert(lines_view(toks@) =~= atts_tokens(av.take(0)));
    }
    while i < atts.pairs.len()
        invariant
            i <= atts.pairs@.len(),
            av == atts@,
            av.len() == atts.pairs@.len(),
            lines_view(toks@) == atts_tokens(av.take(i as int)),
        decreases atts.pairs@.len() - i,
    {
        let ghost prevt = lines_view(toks@);
        let ek = escape(atts.pairs[i].0.as_slice());
        let ev = escape(atts.pairs[i].1.as_slice());
        let ghost ekv = ek@;
        let ghost evv = ev@;
        toks.push(ek);
        toks.push(ev);
        proof {
            assert(av[i as int] == (atts.pairs@[i as int].0@, atts.pairs@[i as int].1@));
            assert(lines_view(toks@) =~= prevt + seq![ekv, evv]);
            assert(av.take(i + 1) =~= av.take(i as int) + seq![av[i as int]]);
            lemma_atts_tokens_append(av.take(i as int), seq![av[i as int]]);
            assert(atts_tokens(seq![av[i as int]]) =~= seq![
                escape_bytes(av[i as int].0),
                escape_bytes(av[i as int].1),
            ]) by {
                assert(seq![av[i as int]].skip(1) =~= Seq::<(Seq<u8>, Seq<u8>)>::empty());
                assert(atts_tokens(Seq::<(Seq<u8>, Seq<u8>)>::empty()) =~= Seq::<Seq<u8>>::empty());
                assert(atts_tokens(seq![av[i as int]]) == seq![
                    escape_bytes(av[i as int].0),
                    escape_bytes(av[i as int].1),
                ] + atts_tokens(seq![av[i as int]].skip(1)));
            }
            assert(lines_view(toks@) =~= atts_tokens(av.take(i + 1)));
        }
        i = i + 1;
    }
    proof {
        assert(av.take(av.len() as int) =~= av);
    }
    let joined = join(&toks, 0x20);
    append_bytes(&mut out, &joined);
    out.push(0x5d);
    proof {
        assert(out@ =~= entry_line(c, name@, atts@));
    }
    out
}

/// Serialize a tree onto the end of a line list, depth first.
pub fn ser_into(t: &SureTree, out: &mut Vec<Vec<u8>>)
    ensures
        lines_view(final(out)@) == lines_view(old(out)@) + ser_tree(tree_view(*t)),
    decreases *t,
{
    let ghost base = lines_view(out@);
    let ghost tv = tree_view(*t);
    let hdr = build_entry(0x64, &t.name, &t.atts);
    let ghost hdrv = hdr@;
    out.push(hdr);
    proof {
        lemma_trees_view_from(t.dirs@, 0);
        assert(lines_view(out@) =~= base.push(hdrv));
        assert(base.push(hdrv) + ser_dirs(tv.dirs, 0) =~= base + seq![hdrv] + ser_dirs(tv.dirs, 0));
    }
    let mut i: usize = 0;
    while i < t.dirs.len()
        invariant
            i <= t.dirs@.len(),
            tv == tree_view(*t),
            hdrv == entry_line(0x64, tv.name, tv.atts),
            base == lines_view(old(out)@),
            tv.dirs.len() == t.dirs@.len(),
            lines_view(out@) + ser_dirs(tv.dirs, i as int) == base + seq![hdrv] + ser_dirs(
                tv.dirs,
                0,
            ),
        decreases t.dirs@.len() - i,
    {
        let ghost prev = lines_view(out@);
        ser_into(&t.dirs[i], out);
        proof {
            lemma_trees_view_from(t.dirs@, 0);
            assert(tree_view(t.dirs@[i as int]) == tv.dirs[i as int]);
            assert(ser_dirs(tv.dirs, i as int) == ser_tree(tv.dirs[i as int]) + ser_dirs(
                tv.dirs,
                i + 1,
            ));
            assert((prev + ser_tree(tv.dirs[i as int])) + ser_dirs(tv.dirs, i + 1) =~= prev + (
            ser_tree(tv.dirs[i as int]) + ser_dirs(tv.dirs, i + 1)));
        }
        i = i + 1;
    }
    proof {
        assert(ser_dirs(tv.dirs, tv.dirs.len() as int) =~= Seq::<Seq<u8>>::empty());
        assert(lines_view(out@) + Seq::<Seq<u8>>::empty() =~= lines_view(out@));
    }
    let mut dash: Vec<u8> = Vec::new();
    dash.push(0x2d);
    let ghost predash = lines_view(out@);
    out.push(dash);
    proof {
        assert(lines_view(out@) =~= predash.push(seq![0x2du8]));
    }
    let ghost fl = tv.files.map_values(|n: NodeV| entry_line(kind_byte(n.kind), n.name, n.atts));
    let ghost base2 = lines_view(out@);
    let mut k: usize = 0;
    while k < t.files.len()
        invariant
            k <= t.files@.len(),
            tv == tree_view(*t),
            fl == tv.files.map_values(
                |n: NodeV| entry_line(kind_byte(n.kind), n.name, n.atts),
            ),
            tv.files.len() == t.files@.len(),
            base2 == lines_view(out@).take(base2.len() as int) && base2.len() <= lines_view(
                out@,
            ).len(),
            lines_view(out@) == base2 + fl.take(k as int),
        decreases t.files@.len() - k,
    {
        let ghost prev = lines_view(out@);
        let fc = kind_to_byte(t.files[k].kind);
        let eline = build_entry(fc, &t.files[k].name, &t.files[k].atts);
        let ghost ev = eline@;
        out.push(eline);
        proof {
            assert(tv.files[k as int] == node_view(t.files@[k as int]));
            assert(ev == fl[k as int]);
            assert(lines_view(out@) =~= prev.push(ev));
            assert(base2 + fl.take(k + 1) =~= (base2 + fl.take(k as int)).push(fl[k as int]));
            assert(base2 =~= lines_view(out@).take(base2.len() as int));
        }
        k = k + 1;
    }
    proof {
        assert(fl.take(fl.len() as int) =~= fl);
    }
    let mut ul: Vec<u8> = Vec::new();
    ul.push(0x75);
    let ghost preu = lines_view(out@);
    out.push(ul);
    proof {
        assert(lines_view(out@) =~= preu.push(seq![0x75u8]));
        assert(lines_view(out@) =~= base + ser_tree(tv));
    }
}

/// Serialize a tree to its lines.
pub fn serialize_tree(t: &SureTree) -> (r: Vec<Vec<u8>>)
    ensures
        lines_view(r@) == ser_tree(tree_view(*t)),
{
    let mut out: Vec<Vec<u8>> = Vec::new();
    ser_into(t, &mut out);
    proof {
        assert(lines_view(Seq::<Vec<u8>>::empty()) =~= Seq::<Seq<u8>>::empty());
        assert(Seq::<Seq<u8>>::empty() + ser_tree(tree_view(*t)) =~= ser_tree(tree_view(*t)));
    }
    out
}


pub fn copy_range(line: &Vec<u8>, a: usize, b: usize) -> (r: Vec<u8>)
    requires
        a <= b <= line@.len(),
    ensures
        r@ == line@.subrange(a as int, b as int),
{
    let mut out: Vec<u8> = Vec::new();
    let mut k: usize = a;
    while k < b
        invariant
            a <= k <= b <= line@.len(),
            out@ == line@.subrange(a as int, k as int),
        decreases b - k,
    {
        out.push(line[k]);
        proof {
            assert(out@ =~= line@.subrange(a as int, k + 1));
        }
        k = k + 1;
    }
    out
}

/// Decode one entry line into its kind byte, name, and attributes.
pub fn parse_entry_exec(line: &Vec<u8>) -> (r: Result<(u8, Vec<u8>, Atts), SureError>)
    ensures
        match r {
            Ok(p) => parse_entry(line@) == Some((p.0, p.1@, p.2@)),
            Err(e) => parse_entry(line@) is None && e is FormatError,
        },
{
    let n = line.len();
    if n < 1 {
        return Err(SureError::FormatError { line: 0 });
    }
    let mut sp: usize = 1;
    proof {
        crate::lines::lemma_first_sep_bounds(line@, 0x20, 1);
    }
    while sp < n && line[sp] != 0x20
        invariant
            1 <= sp <= n,
            n == line@.len(),
            first_sep(line@, 0x20, 1) == first_sep(line@, 0x20, sp as int),
            forall|j: int| 1 <= j < sp ==> line@[j] != 0x20,
        decreases n - sp,
    {
        sp = sp + 1;
    }
    proof {
        if sp < n {
            assert(first_sep(line@, 0x20, sp as int) == sp);
        } else {
            assert(first_sep(line@, 0x20, sp as int) == line@.len());
        }
    }
    if sp >= n {
        return Err(SureError::FormatError { line: 0 });
    }
    let ghost blockv = line@.subrange(sp + 1, n as int);
    if n - (sp + 1) < 2 {
        assert(parse_entry(line@) is None) by {
            assert(blockv.len() < 2);
        }
        return Err(SureError::FormatError { line: 0 });
    }
    if line[sp + 1] != 0x5b || line[n - 1] != 0x5d {
        assert(parse_entry(line@) is None) by {
            assert(blockv[0] == line@[sp + 1]);
            assert(blockv.last() == line@[n - 1]);
        }
        return Err(SureError::FormatError { line: 0 });
    }
    proof {
        assert(blockv[0] == line@[sp + 1]);
        assert(blockv.last() == line@[n - 1]);
    }
    let name_esc = copy_range(line, 1, sp);
    let name = match unescape(name_esc.as_slice()) {
        Some(v) => v,
        None => {
            return Err(SureError::FormatError { line: 0 });
        },
    };
    let inner = copy_range(line, sp + 2, n - 1);
    proof {
        assert(inner@ =~= blockv.subrange(1, blockv.len() - 1));
    }
    if inner.len() == 0 {
        let atts = Atts::new();
        let c = line[0];
        return Ok((c, name, atts));
    }
    let toks = split(&inner, 0x20);
    let ghost tv = split_bytes(inner@, 0x20);
    let ghost namev = name@;
    let ghost c0 = line@[0];
    proof {
        assert(parse_entry(line@) == (match detok(tv) {
            Some(ps) => Some((c0, namev, ps)),
            None => None::<(u8, Seq<u8>, Seq<(Seq<u8>, Seq<u8>)>)>,
        }));
    }
    let mut pairs: Vec<(Vec<u8>, Vec<u8>)> = Vec::new();
    let mut i: usize = 0;
    proof {
        assert(tv.skip(0) =~= tv);
        assert(pairs_view(pairs@) =~= Seq::<(Seq<u8>, Seq<u8>)>::empty());
        if detok(tv) is Some {
            assert(Seq::<(Seq<u8>, Seq<u8>)>::empty() + detok(tv).unwrap() =~= detok(
                tv,
            ).unwrap());
        }
    }
    while i < toks.len()
        invariant
            i <= toks@.len(),
            tv == lines_view(toks@),
            tv.len() == toks@.len(),
            namev == name@,
            line@.len() > 0,
            c0 == line@[0],
            parse_entry(line@) == (match detok(tv) {
                Some(ps) => Some((c0, namev, ps)),
                None => None::<(u8, Seq<u8>, Seq<(Seq<u8>, Seq<u8>)>)>,
            }),
            detok(tv) == (match detok(tv.skip(i as int)) {
                Some(rest) => Some(pairs_view(pairs@) + rest),
                None => None::<Seq<(Seq<u8>, Seq<u8>)>>,
            }),
        decreases toks@.len() - i,
    {
        let ghost pre = tv.skip(i as int);
        if i + 1 >= toks.len() {
            assert(pre.len() == 1);
            return Err(SureError::FormatError { line: 0 });
        }
        proof {
            assert(pre[0] == tv[i as int]);
            assert(pre[1] == tv[i + 1]);
            assert(pre.skip(2) =~= tv.skip(i + 2));
        }
        let k = match unescape(toks[i].as_slice()) {
            Some(v) => v,
            None => {
                return Err(SureError::FormatError { line: 0 });
            },
        };
        let v = match unescape(toks[i + 1].as_slice()) {
            Some(v) => v,
            None => {
                return Err(SureError::FormatError { line: 0 });
            },
        };
        let ghost kv = k@;
        let ghost vv = v@;
        let ghost prevp = pairs_view(pairs@);
        pairs.push((k, v));
        proof {
            assert(pairs_view(pairs@) =~= prevp.push((kv, vv)));
            if detok(tv.skip(i + 2)) is Some {
                assert(prevp + (seq![(kv, vv)] + detok(tv.skip(i + 2)).unwrap()) =~= (
                prevp.push((kv, vv))) + detok(tv.skip(i + 2)).unwrap());
            }
        }
        i = i + 2;
    }
    proof {
        assert(tv.skip(tv.len() as int) =~= Seq::<Seq<u8>>::empty());
        assert(pairs_view(pairs@) + Seq::<(Seq<u8>, Seq<u8>)>::empty() =~= pairs_view(pairs@));
    }
    let atts = Atts { pairs };
    let c = line[0];
    Ok((c, name, atts))
}

fn is_marker(line: &Vec<u8>, m: u8) -> (r: bool)
    ensures
        r == (line@ == seq![m]),
{
    if line.len() == 1 && line[0] == m {
        proof {
            assert(line@ =~= seq![m]);
        }
        true
    } else {
        proof {
            if line@ == seq![m] {
                assert(line@.len() == 1);
                assert(line@[0] == m);
            }
        }
        false
    }
}

/// Decode a directory entry and its subtree, returning the line index after
/// its closing marker.
pub fn parse_dir_exec(lines: &Vec<Vec<u8>>, i: usize) -> (r: Result<(SureTree, usize), SureError>)
    ensures
        match r {
            Ok(p) => parse_dir(lines_view(lines@), i as int) == Some((tree_view(p.0), p.1 as int))
                && i < p.1 <= lines@.len(),
            Err(e) => parse_dir(lines_view(lines@), i as int) is None && e is FormatError,
        },
    decreases lines@.len() - i,
{
    let ghost lv = lines_view(lines@);
    if i >= lines.len() {
        return Err(SureError::FormatError { line: i as u64 });
    }
    proof {
        assert(lv[i as int] == lines@[i as int]@);
    }
    let ent = match parse_entry_exec(&lines[i]) {
        Ok(p) => p,
        Err(e) => {
            return Err(e);
        },
    };
    let (c, name, atts) = ent;
    if c != 0x64 {
        return Err(SureError::FormatError { line: i as u64 });
    }
    let ghost namev = name@;
    let ghost attsv = atts@;
    let mut tree = SureTree::new(name, atts);
    let mut cur: usize = i + 1;
    proof {
        lemma_trees_view_from(tree.dirs@, 0);
        assert(tree_view(tree).dirs =~= Seq::<TreeV>::empty());
        assert(tree_view(tree).files =~= Seq::<NodeV>::empty());
    }
    let mut fin: bool = false;
    while !fin
        invariant
            i + 1 <= cur <= lines@.len(),
            lv == lines_view(lines@),
            lv.len() == lines@.len(),
            tree_view(tree).name == namev,
            tree_view(tree).atts == attsv,
            tree_view(tree).files == Seq::<NodeV>::empty(),
            parse_entry(lv[i as int]) == Some((0x64u8, namev, attsv)),
            i < lines@.len(),
            fin ==> parse_subdirs(lv, i + 1) == Some((tree_view(tree).dirs, cur as int)),
            !fin ==> (match parse_subdirs(lv, cur as int) {
                Some(p) => parse_subdirs(lv, i + 1) == Some(
                    (tree_view(tree).dirs + p.0, p.1),
                ),
                None => parse_subdirs(lv, i + 1) is None,
            }),
        decreases lines@.len() - cur + if fin {
            0int
        } else {
            1int
        },
    {
        if cur >= lines.len() {
            return Err(SureError::FormatError { line: cur as u64 });
        }
        proof {
            assert(lv[cur as int] == lines@[cur as int]@);
        }
        if is_marker(&lines[cur], 0x2d) {
            cur = cur + 1;
            fin = true;
            proof {
                assert(tree_view(tree).dirs + Seq::<TreeV>::empty() =~= tree_view(tree).dirs);
            }
            continue;
        }
        let child = match parse_dir_exec(lines, cur) {
            Ok(p) => p,
            Err(e) => {
                return Err(e);
            },
        };
        let (ct, j) = child;
        let ghost prevdirs = tree_view(tree).dirs;
        let ghost ctv = tree_view(ct);
        tree.push_dir(ct);
        proof {
            assert(parse_subdirs(lv, cur as int) == (match parse_subdirs(lv, j as int) {
                Some(p) => Some((seq![ctv] + p.0, p.1)),
                None => None::<(Seq<TreeV>, int)>,
            }));
            if parse_subdirs(lv, j as int) is Some {
                let p = parse_subdirs(lv, j as int).unwrap();
                assert(prevdirs + (seq![ctv] + p.0) =~= (prevdirs.push(ctv)) + p.0);
            }
        }
        cur = j;
    }
    let ghost dirsv = tree_view(tree).dirs;
    let ghost fstart = cur as int;
    proof {
        assert(parse_subdirs(lv, i + 1) == Some((dirsv, fstart)));
    }
    let mut fin2: bool = false;
    while !fin2
        invariant
            i + 1 <= cur <= lines@.len(),
            lv == lines_view(lines@),
            lv.len() == lines@.len(),
            tree_view(tree).name == namev,
            tree_view(tree).atts == attsv,
            tree_view(tree).dirs == dirsv,
            parse_entry(lv[i as int]) == Some((0x64u8, namev, attsv)),
            parse_subdirs(lv, i + 1) == Some((dirsv, fstart)),
            i < lines@.len(),
            fin2 ==> parse_files(lv, fstart) == Some((tree_view(tree).files, cur as int)),
            !fin2 ==> (match parse_files(lv, cur as int) {
                Some(p) => parse_files(lv, fstart) == Some((tree_view(tree).files + p.0, p.1)),
                None => parse_files(lv, fstart) is None,
            }),
        decreases lines@.len() - cur + if fin2 {
            0int
        } else {
            1int
        },
    {
        if cur >= lines.len() {
            return Err(SureError::FormatError { line: cur as u64 });
        }
        proof {
            assert(lv[cur as int] == lines@[cur as int]@);
        }
        if is_marker(&lines[cur], 0x75) {
            cur = cur + 1;
            fin2 = true;
            proof {
                assert(tree_view(tree).files + Seq::<NodeV>::empty() =~= tree_view(tree).files);
            }
            continue;
        }
        let ent2 = match parse_entry_exec(&lines[cur]) {
            Ok(p) => p,
            Err(e) => {
                return Err(e);
            },
        };
        let (c2, name2, atts2) = ent2;
        let k2 = match kind_of_byte(c2) {
            Some(k) => k,
            None => {
                return Err(SureError::FormatError { line: cur as u64 });
            },
        };
        let ghost prevfiles = tree_view(tree).files;
        let node = SureNode { name: name2, kind: k2, atts: atts2 };
        let ghost nv = node_view(node);
        tree.push_file(node);
        proof {
            assert(parse_files(lv, cur as int) == (match parse_files(lv, cur + 1) {
                Some(p) => Some((seq![nv] + p.0, p.1)),
                None => None::<(Seq<NodeV>, int)>,
            }));
            if parse_files(lv, cur + 1) is Some {
                let p = parse_files(lv, cur + 1).unwrap();
                assert(prevfiles + (seq![nv] + p.0) =~= (prevfiles.push(nv)) + p.0);
            }
        }
        cur = cur + 1;
    }
    proof {
        assert(parse_files(lv, fstart) == Some((tree_view(tree).files, cur as int)));
        assert(parse_dir(lv, i as int) == Some(
            (
                TreeV { name: namev, atts: attsv, dirs: dirsv, files: tree_view(tree).files },
                cur as int,
            ),
        ));
        assert(TreeV { name: namev, atts: attsv, dirs: dirsv, files: tree_view(tree).files }
            == tree_view(tree));
    }
    Ok((tree, cur))
}

/// Decode a whole serialized tree; every line must be consumed.
pub fn parse_tree(lines: &Vec<Vec<u8>>) -> (r: Result<SureTree, SureError>)
    ensures
        match r {
            Ok(t) => parse_dir(lines_view(lines@), 0) == Some(
                (tree_view(t), lines@.len() as int),
            ),
            Err(e) => (parse_dir(lines_view(lines@), 0) is None || !(parse_dir(
                lines_view(lines@),
                0,
            ).unwrap().1 == lines@.len())) && e is FormatError,
        },
{
    match parse_dir_exec(lines, 0) {
        Ok(p) => {
            let (t, j) = p;
            if j != lines.len() {
                return Err(SureError::FormatError { line: j as u64 });
            }
            Ok(t)
        },
        Err(e) => Err(e),
    }
}


/// The first two lines of a stored tree: the format magic and a blank line.
pub open spec fn magic_line() -> Seq<u8> {
    seq![0x61u8, 0x73u8, 0x75u8, 0x72u8, 0x65u8, 0x2du8, 0x32u8, 0x2eu8, 0x30u8]
}

fn magic_exec() -> (r: Vec<u8>)
    ensures
        r@ == magic_line(),
{
    let mut v: Vec<u8> = Vec::new();
    v.push(0x61);
    v.push(0x73);
    v.push(0x75);
    v.push(0x72);
    v.push(0x65);
    v.push(0x2d);
    v.push(0x32);
    v.push(0x2e);
    v.push(0x30);
    proof {
        assert(v@ =~= magic_line());
    }
    v
}

/// The full stored form of a tree: magic, a blank line, then the grammar.
pub fn write_surefile_lines(t: &SureTree) -> (r: Vec<Vec<u8>>)
    ensures
        lines_view(r@) == seq![magic_line(), Seq::<u8>::empty()] + ser_tree(tree_view(*t)),
{
    let mut out: Vec<Vec<u8>> = Vec::new();
    out.push(magic_exec());
    out.push(Vec::new());
    proof {
        assert(lines_view(out@) =~= seq![magic_line(), Seq::<u8>::empty()]);
        assert(lines_view(out@) =~= seq![magic_line(), Seq::<u8>::empty()] + ser_tree(
            tree_view(*t),
        ).take(0));
    }
    let body = serialize_tree(t);
    let ghost base = lines_view(out@);
    let ghost bv = lines_view(body@);
    let mut i: usize = 0;
    while i < body.len()
        invariant
            i <= body@.len(),
            bv == lines_view(body@),
            bv.len() == body@.len(),
            lines_view(out@) == base + bv.take(i as int),
        decreases body@.len() - i,
    {
        let ghost prev = lines_view(out@);
        let line = crate::weave::clone_bytes(&body[i]);
        out.push(line);
        proof {
            assert(lines_view(out@) =~= prev.push(bv[i as int]));
            assert(lines_view(out@) =~= base + bv.take(i + 1));
        }
        i = i + 1;
    }
    proof {
        assert(bv.take(bv.len() as int) =~= bv);
    }
    out
}

/// The whole stored form is accepted: the magic, the blank line, and a tree
/// that spans every remaining line.
pub open spec fn surefile_ok(lv: Seq<Seq<u8>>) -> bool {
    &&& lv.len() >= 2
    &&& lv[0] == magic_line()
    &&& lv[1] == Seq::<u8>::empty()
    &&& parse_dir(lv, 2) matches Some(p) && p.1 == lv.len()
}

/// Decode a stored tree: the magic and blank line, then the whole grammar.
/// Fails exactly when the lines are no stored tree.
pub fn read_surefile_lines(lines: &Vec<Vec<u8>>) -> (r: Result<SureTree, SureError>)
    ensures
        match r {
            Ok(t) => surefile_ok(lines_view(lines@)) && parse_dir(lines_view(lines@), 2)
                == Some((tree_view(t), lines@.len() as int)),
            Err(e) => !surefile_ok(lines_view(lines@)) && e is FormatError,
        },
{
    let ghost lv = lines_view(lines@);
    proof {
        if lines@.len() >= 1 {
            assert(lv[0] == lines@[0 as int]@);
        }
        if lines@.len() >= 2 {
            assert(lv[1] == lines@[1 as int]@);
        }
    }
    if lines.len() < 2 {
        return Err(SureError::FormatError { line: 0 });
    }
    let magic = magic_exec();
    if !crate::delta::bytes_eq(&lines[0], &magic) {
        return Err(SureError::FormatError { line: 0 });
    }
    if lines[1].len() != 0 {
        return Err(SureError::FormatError { line: 1 });
    }
    proof {
        assert(lines@[1]@ =~= Seq::<u8>::empty());
    }
    match parse_dir_exec(lines, 2) {
        Ok(p) => {
            let (t, j) = p;
            if j != lines.len() {
                proof {
                    assert(!surefile_ok(lv)) by {
                        assert(parse_dir(lv, 2) == Some((tree_view(t), j as int)));
                    }
                }
                return Err(SureError::FormatError { line: j as u64 });
            }
            Ok(t)
        },
        Err(e) => {
            proof {
                assert(!surefile_ok(lv)) by {
                    assert(parse_dir(lv, 2) is None);
                }
            }
            Err(e)
        },
    }
}

} // verus!
