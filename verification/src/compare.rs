use vstd::prelude::*;

use crate::delta::bytes_eq;
use crate::lines::{lex_lt, lex_lt_bytes};
use crate::tree::{
    Atts, Kind, NodeV, SureNode, SureTree, TreeV, atts_lookup, atts_wf, kind_byte, lemma_trees_view_from,
    node_view, tree_view, tree_wf,
};
use crate::weave::{clone_bytes, lines_view};

verus! {

broadcast use {vstd::std_specs::vec::group_vec_axioms, vstd::seq::axiom_seq_index_decreases};

/// One difference reported while walking two trees in canonical order. Paths
/// are name chains from the root; kinds are the wire marker byte, with `d`
/// for a directory.
pub enum Event {
    Enter(Vec<Vec<u8>>),
    Leave(Vec<Vec<u8>>),
    Added(Vec<Vec<u8>>, u8),
    Removed(Vec<Vec<u8>>, u8),
    Changed(Vec<Vec<u8>>, u8, Vec<Vec<u8>>),
}

/// The mathematical form of an event.
pub enum EventV {
    Enter(Seq<Seq<u8>>),
    Leave(Seq<Seq<u8>>),
    Added(Seq<Seq<u8>>, u8),
    Removed(Seq<Seq<u8>>, u8),
    Changed(Seq<Seq<u8>>, u8, Seq<Seq<u8>>),
}

pub open spec fn event_view(e: Event) -> EventV {
    match e {
        Event::Enter(p) => EventV::Enter(lines_view(p@)),
        Event::Leave(p) => EventV::Leave(lines_view(p@)),
        Event::Added(p, k) => EventV::Added(lines_view(p@), k),
        Event::Removed(p, k) => EventV::Removed(lines_view(p@), k),
        Event::Changed(p, k, d) => EventV::Changed(lines_view(p@), k, lines_view(d@)),
    }
}

pub open spec fn events_view(es: Seq<Event>) -> Seq<EventV> {
    es.map_values(|e: Event| event_view(e))
}

pub open spec fn key_ino() -> Seq<u8> {
    seq![0x69u8, 0x6eu8, 0x6fu8]
}

pub open spec fn key_ctime() -> Seq<u8> {
    seq![0x63u8, 0x74u8, 0x69u8, 0x6du8, 0x65u8]
}

pub open spec fn key_sha1() -> Seq<u8> {
    seq![0x73u8, 0x68u8, 0x61u8, 0x31u8]
}

pub open spec fn key_hash_missing() -> Seq<u8> {
    seq![0x68u8, 0x61u8, 0x73u8, 0x68u8, 0x2du8, 0x6du8, 0x69u8, 0x73u8, 0x73u8, 0x69u8, 0x6eu8,
        0x67u8]
}

/// The keys of `a` whose value in `b` is different or missing.
pub open spec fn diff_left(a: Seq<(Seq<u8>, Seq<u8>)>, b: Seq<(Seq<u8>, Seq<u8>)>) -> Seq<Seq<u8>>
    decreases a.len(),
{
    if a.len() == 0 {
        Seq::empty()
    } else {
        (if atts_lookup(b, a[0].0) == Some(a[0].1) {
            Seq::empty()
        } else {
            seq![a[0].0]
        }) + diff_left(a.skip(1), b)
    }
}

/// The keys of `b` that `a` does not have at all.
pub open spec fn missing_in(a: Seq<(Seq<u8>, Seq<u8>)>, b: Seq<(Seq<u8>, Seq<u8>)>) -> Seq<Seq<u8>>
    decreases b.len(),
{
    if b.len() == 0 {
        Seq::empty()
    } else {
        (if atts_lookup(a, b[0].0) is None {
            seq![b[0].0]
        } else {
            Seq::empty()
        }) + missing_in(a, b.skip(1))
    }
}

/// Every key whose value differs between the two attribute lists.
pub open spec fn atts_diff(a: Seq<(Seq<u8>, Seq<u8>)>, b: Seq<(Seq<u8>, Seq<u8>)>) -> Seq<Seq<u8>> {
    diff_left(a, b) + missing_in(a, b)
}

/// Inode and change-time churn alone does not make a file changed.
pub open spec fn significant(d: Seq<Seq<u8>>, k: Kind) -> bool {
    if k == Kind::File {
        exists|i: int| 0 <= i < d.len() && d[i] != key_ino() && d[i] != key_ctime()
    } else {
        d.len() > 0
    }
}

/// The reported difference list for one same-named file, by the policy: no
/// report when nothing significant differs; a `hash-missing` marker when the
/// old side carried a hash that the new side lost.
pub open spec fn file_report(o: NodeV, n: NodeV) -> Option<Seq<Seq<u8>>> {
    if o.kind != n.kind {
        Some(seq![seq![0x6bu8, 0x69u8, 0x6eu8, 0x64u8]])
    } else {
        let d = atts_diff(o.atts, n.atts);
        let d2 = if atts_lookup(o.atts, key_sha1()) is Some && atts_lookup(
            n.atts,
            key_sha1(),
        ) is None {
            d + seq![key_hash_missing()]
        } else {
            d
        };
        if significant(d2, n.kind) {
            Some(d2)
        } else {
            None
        }
    }
}

/// The event stream of comparing two trees with the same root name: enter,
/// the directory merge, the file merge, leave. An added or removed child is
/// reported once, at its own path, without descending into it.
pub open spec fn cmp_tree(o: TreeV, n: TreeV, path: Seq<Seq<u8>>) -> Seq<EventV>
    decreases o, n, 0int,
{
    seq![EventV::Enter(path)] + cmp_dirs(o.dirs, n.dirs, path, 0, 0) + cmp_files(
        o.files,
        n.files,
        path,
        0,
        0,
    ) + seq![EventV::Leave(path)]
}

pub open spec fn cmp_dirs(os: Seq<TreeV>, ns: Seq<TreeV>, path: Seq<Seq<u8>>, i: int, j: int) -> Seq<
    EventV,
>
    decreases os, ns, os.len() + ns.len() - i - j,
{
    if i < 0 || j < 0 || (i >= os.len() && j >= ns.len()) || os.len() + ns.len() - i - j <= 0 {
        Seq::empty()
    } else if i >= os.len() {
        seq![EventV::Added(path.push(ns[j].name), 0x64u8)] + cmp_dirs(os, ns, path, i, j + 1)
    } else if j >= ns.len() {
        seq![EventV::Removed(path.push(os[i].name), 0x64u8)] + cmp_dirs(os, ns, path, i + 1, j)
    } else if os[i].name == ns[j].name {
        cmp_tree(os[i], ns[j], path.push(os[i].name)) + cmp_dirs(os, ns, path, i + 1, j + 1)
    } else if lex_lt(os[i].name, ns[j].name) {
        seq![EventV::Removed(path.push(os[i].name), 0x64u8)] + cmp_dirs(os, ns, path, i + 1, j)
    } else {
        seq![EventV::Added(path.push(ns[j].name), 0x64u8)] + cmp_dirs(os, ns, path, i, j + 1)
    }
}

pub open spec fn cmp_files(fs: Seq<NodeV>, gs: Seq<NodeV>, path: Seq<Seq<u8>>, i: int, j: int) -> Seq<
    EventV,
>
    decreases fs.len() + gs.len() - i - j,
{
    if i < 0 || j < 0 || (i >= fs.len() && j >= gs.len()) || fs.len() + gs.len() - i - j <= 0 {
        Seq::empty()
    } else if i >= fs.len() {
        seq![EventV::Added(path.push(gs[j].name), kind_byte(gs[j].kind))] + cmp_files(
            fs,
            gs,
            path,
            i,
            j + 1,
        )
    } else if j >= gs.len() {
        seq![EventV::Removed(path.push(fs[i].name), kind_byte(fs[i].kind))] + cmp_files(
            fs,
            gs,
            path,
            i + 1,
            j,
        )
    } else if fs[i].name == gs[j].name {
        (match file_report(fs[i], gs[j]) {
            Some(d) => seq![
                EventV::Changed(path.push(gs[j].name), kind_byte(gs[j].kind), d),
            ],
            None => Seq::empty(),
        }) + cmp_files(fs, gs, path, i + 1, j + 1)
    } else if lex_lt(fs[i].name, gs[j].name) {
        seq![EventV::Removed(path.push(fs[i].name), kind_byte(fs[i].kind))] + cmp_files(
            fs,
            gs,
            path,
            i + 1,
            j,
        )
    } else {
        seq![EventV::Added(path.push(gs[j].name), kind_byte(gs[j].kind))] + cmp_files(
            fs,
            gs,
            path,
            i,
            j + 1,
        )
    }
}

pub open spec fn quiet(e: EventV) -> bool {
    e is Enter || e is Leave
}

/// Comparing a well-formed tree with itself reports nothing: only the walk's
/// own enter and leave events appear.
pub proof fn lemma_compare_self(tv: TreeV, path: Seq<Seq<u8>>)
    requires
        tree_wf(tv),
    ensures
        forall|i: int| 0 <= i < cmp_tree(tv, tv, path).len() ==> quiet(#[trigger] cmp_tree(tv, tv, path)[i]),
    decreases tv, 1int, 0int,
{
    let es = cmp_tree(tv, tv, path);
    lemma_cmp_dirs_self(tv.dirs, path, 0, tv);
    lemma_cmp_files_self(tv.files, path, 0);
    assert forall|i: int| 0 <= i < es.len() implies quiet(#[trigger] es[i]) by {
        let a = cmp_dirs(tv.dirs, tv.dirs, path, 0, 0);
        let b = cmp_files(tv.files, tv.files, path, 0, 0);
        if i == 0 {
        } else if i < 1 + a.len() {
            assert(es[i] == a[i - 1]);
        } else if i < 1 + a.len() + b.len() {
            assert(es[i] == b[i - 1 - a.len()]);
        } else {
            assert(es[i] == EventV::Leave(path));
        }
    }
}

proof fn lemma_cmp_dirs_self(ds: Seq<TreeV>, path: Seq<Seq<u8>>, i: int, bound: TreeV)
    requires
        0 <= i,
        forall|k: int| 0 <= k < ds.len() ==> tree_wf(#[trigger] ds[k]),
        ds == bound.dirs,
    ensures
        forall|m: int|
            0 <= m < cmp_dirs(ds, ds, path, i, i).len() ==> quiet(
                #[trigger] cmp_dirs(ds, ds, path, i, i)[m],
            ),
    decreases bound, 0int, ds.len() - i,
{
    if i >= ds.len() {
    } else {
        assert(ds[i].name == ds[i].name);
        lemma_compare_self(ds[i], path.push(ds[i].name));
        lemma_cmp_dirs_self(ds, path, i + 1, bound);
        let a = cmp_tree(ds[i], ds[i], path.push(ds[i].name));
        let rest = cmp_dirs(ds, ds, path, i + 1, i + 1);
        assert forall|m: int|
            0 <= m < cmp_dirs(ds, ds, path, i, i).len() implies quiet(
            #[trigger] cmp_dirs(ds, ds, path, i, i)[m],
        ) by {
            if m < a.len() {
                assert(cmp_dirs(ds, ds, path, i, i)[m] == a[m]);
            } else {
                assert(cmp_dirs(ds, ds, path, i, i)[m] == rest[m - a.len()]);
            }
        }
    }
}

proof fn lemma_lookup_self(a: Seq<(Seq<u8>, Seq<u8>)>, i: int)
    requires
        atts_wf(a),
        0 <= i < a.len(),
    ensures
        atts_lookup(a, a[i].0) == Some(a[i].1),
    decreases i,
{
    if i == 0 {
    } else {
        assert(lex_lt(a[0].0, a[i].0));
        assert(a[0].0 != a[i].0) by {
            if a[0].0 == a[i].0 {
                crate::tree::lemma_lex_irrefl(a[0].0);
            }
        }
        lemma_lookup_self(a.skip(1), i - 1);
        assert(a.skip(1)[i - 1] == a[i]);
        assert(atts_wf(a.skip(1))) by {
            assert(forall|x: int, y: int|
                0 <= x < y < a.skip(1).len() ==> a.skip(1)[x] == a[x + 1] && a.skip(1)[y] == a[y
                    + 1]);
        }
    }
}

proof fn lemma_diff_left_self(a: Seq<(Seq<u8>, Seq<u8>)>, full: Seq<(Seq<u8>, Seq<u8>)>, i: int)
    requires
        atts_wf(full),
        0 <= i <= full.len(),
        a == full.skip(i),
    ensures
        diff_left(a, full) == Seq::<Seq<u8>>::empty(),
    decreases a.len(),
{
    if a.len() == 0 {
    } else {
        assert(a[0] == full[i]);
        lemma_lookup_self(full, i);
        assert(a.skip(1) =~= full.skip(i + 1));
        lemma_diff_left_self(a.skip(1), full, i + 1);
        assert(diff_left(a, full) =~= Seq::<Seq<u8>>::empty());
    }
}

proof fn lemma_missing_self(a: Seq<(Seq<u8>, Seq<u8>)>, full: Seq<(Seq<u8>, Seq<u8>)>, i: int)
    requires
        atts_wf(full),
        0 <= i <= full.len(),
        a == full.skip(i),
    ensures
        missing_in(full, a) == Seq::<Seq<u8>>::empty(),
    decreases a.len(),
{
    if a.len() == 0 {
    } else {
        assert(a[0] == full[i]);
        lemma_lookup_self(full, i);
        assert(a.skip(1) =~= full.skip(i + 1));
        lemma_missing_self(a.skip(1), full, i + 1);
        assert(missing_in(full, a) =~= Seq::<Seq<u8>>::empty());
    }
}

/// A file compared with itself reports nothing.
proof fn lemma_file_report_self(n: NodeV)
    requires
        atts_wf(n.atts),
    ensures
        file_report(n, n) is None,
{
    assert(n.atts.skip(0) =~= n.atts);
    lemma_diff_left_self(n.atts, n.atts, 0);
    lemma_missing_self(n.atts, n.atts, 0);
    let d = atts_diff(n.atts, n.atts);
    assert(d =~= Seq::<Seq<u8>>::empty());
}

proof fn lemma_cmp_files_self(fs: Seq<NodeV>, path: Seq<Seq<u8>>, i: int)
    requires
        0 <= i,
        forall|k: int| 0 <= k < fs.len() ==> atts_wf((#[trigger] fs[k]).atts),
    ensures
        forall|m: int|
            0 <= m < cmp_files(fs, fs, path, i, i).len() ==> quiet(
                #[trigger] cmp_files(fs, fs, path, i, i)[m],
            ),
    decreases fs.len() - i,
{
    if i >= fs.len() {
    } else {
        lemma_file_report_self(fs[i]);
        lemma_cmp_files_self(fs, path, i + 1);
        assert(cmp_files(fs, fs, path, i, i) =~= cmp_files(fs, fs, path, i + 1, i + 1));
    }
}


fn key_ino_exec() -> (r: Vec<u8>)
    ensures
        r@ == key_ino(),
{
    let mut v: Vec<u8> = Vec::new();
    v.push(0x69);
    v.push(0x6e);
    v.push(0x6f);
    proof {
        assert(v@ =~= key_ino());
    }
    v
}

fn key_ctime_exec() -> (r: Vec<u8>)
    ensures
        r@ == key_ctime(),
{
    let mut v: Vec<u8> = Vec::new();
    v.push(0x63);
    v.push(0x74);
    v.push(0x69);
    v.push(0x6d);
    v.push(0x65);
    proof {
        assert(v@ =~= key_ctime());
    }
    v
}

fn key_sha1_exec() -> (r: Vec<u8>)
    ensures
        r@ == key_sha1(),
{
    let mut v: Vec<u8> = Vec::new();
    v.push(0x73);
    v.push(0x68);
    v.push(0x61);
    v.push(0x31);
    proof {
        assert(v@ =~= key_sha1());
    }
    v
}

fn key_hash_missing_exec() -> (r: Vec<u8>)
    ensures
        r@ == key_hash_missing(),
{
    let mut v: Vec<u8> = Vec::new();
    v.push(0x68);
    v.push(0x61);
    v.push(0x73);
    v.push(0x68);
    v.push(0x2d);
    v.push(0x6d);
    v.push(0x69);
    v.push(0x73);
    v.push(0x73);
    v.push(0x69);
    v.push(0x6e);
    v.push(0x67);
    proof {
        assert(v@ =~= key_hash_missing());
    }
    v
}

fn clone_path(p: &Vec<Vec<u8>>) -> (r: Vec<Vec<u8>>)
    ensures
        lines_view(r@) == lines_view(p@),
{
    let mut out: Vec<Vec<u8>> = Vec::new();
    let mut i: usize = 0;
    while i < p.len()
        invariant
            i <= p@.len(),
            lines_view(out@) == lines_view(p@).take(i as int),
        decreases p@.len() - i,
    {
        let ghost prev = lines_view(out@);
        let c = clone_bytes(&p[i]);
        out.push(c);
        proof {
            assert(lines_view(out@) =~= prev.push(p@[i as int]@));
            assert(lines_view(out@) =~= lines_view(p@).take(i + 1));
        }
        i = i + 1;
    }
    proof {
        assert(lines_view(p@).take(p@.len() as int) =~= lines_view(p@));
    }
    out
}

fn pushed_path(p: &Vec<Vec<u8>>, name: &Vec<u8>) -> (r: Vec<Vec<u8>>)
    ensures
        lines_view(r@) == lines_view(p@).push(name@),
{
    let mut out = clone_path(p);
    let ghost prev = lines_view(out@);
    let n = clone_bytes(name);
    out.push(n);
    proof {
        assert(lines_view(out@) =~= prev.push(name@));
    }
    out
}

fn diff_left_exec(a: &Atts, b: &Atts) -> (r: Vec<Vec<u8>>)
    ensures
        lines_view(r@) == diff_left(a@, b@),
{
    let mut out: Vec<Vec<u8>> = Vec::new();
    let mut i: usize = 0;
    let ghost av = a@;
    proof {
        assert(av.skip(0) =~= av);
        assert(lines_view(out@) + diff_left(av, b@) =~= diff_left(av, b@));
    }
    while i < a.pairs.len()
        invariant
            i <= a.pairs@.len(),
            av == a@,
            av.len() == a.pairs@.len(),
            diff_left(av, b@) == lines_view(out@) + diff_left(av.skip(i as int), b@),
        decreases a.pairs@.len() - i,
    {
        let ghost pre = av.skip(i as int);
        proof {
            assert(pre[0] == av[i as int]);
            assert(pre.skip(1) =~= av.skip(i + 1));
        }
        let key = &a.pairs[i].0;
        let same = match b.get(key) {
            Some(v) => bytes_eq(v, &a.pairs[i].1),
            None => false,
        };
        if !same {
            let ghost prev = lines_view(out@);
            let kc = clone_bytes(key);
            out.push(kc);
            proof {
                assert(lines_view(out@) =~= prev.push(key@));
                assert(prev + (seq![key@] + diff_left(av.skip(i + 1), b@)) =~= prev.push(key@)
                    + diff_left(av.skip(i + 1), b@));
            }
        }
        i = i + 1;
    }
    proof {
        assert(av.skip(av.len() as int) =~= Seq::<(Seq<u8>, Seq<u8>)>::empty());
        assert(lines_view(out@) + Seq::<Seq<u8>>::empty() =~= lines_view(out@));
    }
    out
}

fn missing_in_exec(a: &Atts, b: &Atts) -> (r: Vec<Vec<u8>>)
    ensures
        lines_view(r@) == missing_in(a@, b@),
{
    let mut out: Vec<Vec<u8>> = Vec::new();
    let mut i: usize = 0;
    let ghost bv = b@;
    proof {
        assert(bv.skip(0) =~= bv);
        assert(lines_view(out@) + missing_in(a@, bv) =~= missing_in(a@, bv));
    }
    while i < b.pairs.len()
        invariant
            i <= b.pairs@.len(),
            bv == b@,
            bv.len() == b.pairs@.len(),
            missing_in(a@, bv) == lines_view(out@) + missing_in(a@, bv.skip(i as int)),
        decreases b.pairs@.len() - i,
    {
        let ghost pre = bv.skip(i as int);
        proof {
            assert(pre[0] == bv[i as int]);
            assert(pre.skip(1) =~= bv.skip(i + 1));
        }
        let key = &b.pairs[i].0;
        let absent = match a.get(key) {
            Some(_) => false,
            None => true,
        };
        if absent {
            let ghost prev = lines_view(out@);
            let kc = clone_bytes(key);
            out.push(kc);
            proof {
                assert(lines_view(out@) =~= prev.push(key@));
                assert(prev + (seq![key@] + missing_in(a@, bv.skip(i + 1))) =~= prev.push(key@)
                    + missing_in(a@, bv.skip(i + 1)));
            }
        }
        i = i + 1;
    }
    proof {
        assert(bv.skip(bv.len() as int) =~= Seq::<(Seq<u8>, Seq<u8>)>::empty());
        assert(lines_view(out@) + Seq::<Seq<u8>>::empty() =~= lines_view(out@));
    }
    out
}

fn significant_exec(d: &Vec<Vec<u8>>, k: Kind) -> (r: bool)
    ensures
        r == significant(lines_view(d@), k),
{
    if k == Kind::File {
        let ino = key_ino_exec();
        let ctime = key_ctime_exec();
        let mut i: usize = 0;
        while i < d.len()
            invariant
                i <= d@.len(),
                ino@ == key_ino(),
                ctime@ == key_ctime(),
                forall|j: int|
                    0 <= j < i ==> lines_view(d@)[j] == key_ino() || lines_view(d@)[j]
                        == key_ctime(),
            decreases d@.len() - i,
        {
            proof {
                assert(lines_view(d@)[i as int] == d@[i as int]@);
            }
            let is_ino = bytes_eq(&d[i], &ino);
            let is_ctime = bytes_eq(&d[i], &ctime);
            if !is_ino && !is_ctime {
                assert(lines_view(d@)[i as int] != key_ino() && lines_view(d@)[i as int]
                    != key_ctime());
                return true;
            }
            i = i + 1;
        }
        false
    } else {
        d.len() > 0
    }
}

/// The reported difference list for one same-named entry, by the policy.
pub fn file_report_exec(o: &SureNode, n: &SureNode) -> (r: Option<Vec<Vec<u8>>>)
    ensures
        match r {
            Some(d) => file_report(node_view(*o), node_view(*n)) == Some(lines_view(d@)),
            None => file_report(node_view(*o), node_view(*n)) is None,
        },
{
    if o.kind != n.kind {
        let mut kindkey: Vec<u8> = Vec::new();
        kindkey.push(0x6b);
        kindkey.push(0x69);
        kindkey.push(0x6e);
        kindkey.push(0x64);
        let mut d: Vec<Vec<u8>> = Vec::new();
        let ghost kv = kindkey@;
        d.push(kindkey);
        proof {
            assert(kv =~= seq![0x6bu8, 0x69u8, 0x6eu8, 0x64u8]);
            assert(lines_view(d@) =~= seq![seq![0x6bu8, 0x69u8, 0x6eu8, 0x64u8]]);
        }
        return Some(d);
    }
    let mut d = diff_left_exec(&o.atts, &n.atts);
    let m = missing_in_exec(&o.atts, &n.atts);
    let ghost dv = lines_view(d@);
    let ghost mv = lines_view(m@);
    let mut q: usize = 0;
    while q < m.len()
        invariant
            q <= m@.len(),
            mv == lines_view(m@),
            mv.len() == m@.len(),
            lines_view(d@) == dv + mv.take(q as int),
        decreases m@.len() - q,
    {
        let ghost prev = lines_view(d@);
        let c = clone_bytes(&m[q]);
        d.push(c);
        proof {
            assert(lines_view(d@) =~= prev.push(mv[q as int]));
            assert(dv + mv.take(q + 1) =~= (dv + mv.take(q as int)).push(mv[q as int]));
        }
        q = q + 1;
    }
    proof {
        assert(mv.take(mv.len() as int) =~= mv);
        assert(lines_view(d@) == atts_diff(o.atts@, n.atts@));
    }
    let sha = key_sha1_exec();
    let lost = match o.atts.get(&sha) {
        Some(_) => match n.atts.get(&sha) {
            Some(_) => false,
            None => true,
        },
        None => false,
    };
    if lost {
        let ghost prev = lines_view(d@);
        let hm = key_hash_missing_exec();
        d.push(hm);
        proof {
            assert(lines_view(d@) =~= prev.push(key_hash_missing()));
            assert(lines_view(d@) =~= atts_diff(o.atts@, n.atts@) + seq![key_hash_missing()]);
        }
    }
    if significant_exec(&d, n.kind) {
        Some(d)
    } else {
        None
    }
}


/// Walk two trees in canonical order and record every difference, exactly as
/// the comparison stream defines it.
pub fn cmp_into(o: &SureTree, n: &SureTree, path: &Vec<Vec<u8>>, out: &mut Vec<Event>)
    ensures
        events_view(final(out)@) == events_view(old(out)@) + cmp_tree(
            tree_view(*o),
            tree_view(*n),
            lines_view(path@),
        ),
    decreases *o, *n,
{
    let ghost base = events_view(out@);
    let ghost ov = tree_view(*o);
    let ghost nv = tree_view(*n);
    let ghost pathv = lines_view(path@);
    let ep = clone_path(path);
    out.push(Event::Enter(ep));
    proof {
        assert(events_view(out@) =~= base.push(EventV::Enter(pathv)));
    }
    let ghost base1 = events_view(out@);
    let mut i: usize = 0;
    let mut j: usize = 0;
    proof {
        lemma_trees_view_from(o.dirs@, 0);
        lemma_trees_view_from(n.dirs@, 0);
        assert(base1 + cmp_dirs(ov.dirs, nv.dirs, pathv, 0, 0) =~= events_view(out@) + cmp_dirs(
            ov.dirs,
            nv.dirs,
            pathv,
            0,
            0,
        ));
    }
    while i < o.dirs.len() || j < n.dirs.len()
        invariant
            i <= o.dirs@.len(),
            j <= n.dirs@.len(),
            ov == tree_view(*o),
            nv == tree_view(*n),
            pathv == lines_view(path@),
            ov.dirs.len() == o.dirs@.len(),
            nv.dirs.len() == n.dirs@.len(),
            base1 + cmp_dirs(ov.dirs, nv.dirs, pathv, 0, 0) == events_view(out@) + cmp_dirs(
                ov.dirs,
                nv.dirs,
                pathv,
                i as int,
                j as int,
            ),
        decreases o.dirs@.len() - i + n.dirs@.len() - j,
    {
        proof {
            lemma_trees_view_from(o.dirs@, 0);
            lemma_trees_view_from(n.dirs@, 0);
        }
        let ghost prev = events_view(out@);
        if i >= o.dirs.len() {
            let p = pushed_path(path, &n.dirs[j].name);
            out.push(Event::Added(p, 0x64));
            proof {
                assert(nv.dirs[j as int].name == n.dirs@[j as int].name@);
                assert(events_view(out@) =~= prev.push(
                    EventV::Added(pathv.push(nv.dirs[j as int].name), 0x64u8),
                ));
                assert(prev + (seq![
                    EventV::Added(pathv.push(nv.dirs[j as int].name), 0x64u8),
                ] + cmp_dirs(ov.dirs, nv.dirs, pathv, i as int, j + 1)) =~= events_view(out@)
                    + cmp_dirs(ov.dirs, nv.dirs, pathv, i as int, j + 1));
            }
            j = j + 1;
        } else if j >= n.dirs.len() {
            let p = pushed_path(path, &o.dirs[i].name);
            out.push(Event::Removed(p, 0x64));
            proof {
                assert(ov.dirs[i as int].name == o.dirs@[i as int].name@);
                assert(events_view(out@) =~= prev.push(
                    EventV::Removed(pathv.push(ov.dirs[i as int].name), 0x64u8),
                ));
                assert(prev + (seq![
                    EventV::Removed(pathv.push(ov.dirs[i as int].name), 0x64u8),
                ] + cmp_dirs(ov.dirs, nv.dirs, pathv, i + 1, j as int)) =~= events_view(out@)
                    + cmp_dirs(ov.dirs, nv.dirs, pathv, i + 1, j as int));
            }
            i = i + 1;
        } else if bytes_eq(&o.dirs[i].name, &n.dirs[j].name) {
            let p = pushed_path(path, &o.dirs[i].name);
            cmp_into(&o.dirs[i], &n.dirs[j], &p, out);
            proof {
                assert(ov.dirs[i as int] == tree_view(o.dirs@[i as int]));
                assert(nv.dirs[j as int] == tree_view(n.dirs@[j as int]));
                assert(ov.dirs[i as int].name == nv.dirs[j as int].name);
                assert(lines_view(p@) == pathv.push(ov.dirs[i as int].name));
                assert(prev + (cmp_tree(
                    ov.dirs[i as int],
                    nv.dirs[j as int],
                    pathv.push(ov.dirs[i as int].name),
                ) + cmp_dirs(ov.dirs, nv.dirs, pathv, i + 1, j + 1)) =~= events_view(out@)
                    + cmp_dirs(ov.dirs, nv.dirs, pathv, i + 1, j + 1));
            }
            i = i + 1;
            j = j + 1;
        } else if lex_lt_bytes(&o.dirs[i].name, &n.dirs[j].name) {
            let p = pushed_path(path, &o.dirs[i].name);
            out.push(Event::Removed(p, 0x64));
            proof {
                assert(ov.dirs[i as int].name == o.dirs@[i as int].name@);
                assert(nv.dirs[j as int].name == n.dirs@[j as int].name@);
                assert(events_view(out@) =~= prev.push(
                    EventV::Removed(pathv.push(ov.dirs[i as int].name), 0x64u8),
                ));
                assert(prev + (seq![
                    EventV::Removed(pathv.push(ov.dirs[i as int].name), 0x64u8),
                ] + cmp_dirs(ov.dirs, nv.dirs, pathv, i + 1, j as int)) =~= events_view(out@)
                    + cmp_dirs(ov.dirs, nv.dirs, pathv, i + 1, j as int));
            }
            i = i + 1;
        } else {
            let p = pushed_path(path, &n.dirs[j].name);
            out.push(Event::Added(p, 0x64));
            proof {
                assert(ov.dirs[i as int].name == o.dirs@[i as int].name@);
                assert(nv.dirs[j as int].name == n.dirs@[j as int].name@);
                assert(events_view(out@) =~= prev.push(
                    EventV::Added(pathv.push(nv.dirs[j as int].name), 0x64u8),
                ));
                assert(prev + (seq![
                    EventV::Added(pathv.push(nv.dirs[j as int].name), 0x64u8),
                ] + cmp_dirs(ov.dirs, nv.dirs, pathv, i as int, j + 1)) =~= events_view(out@)
                    + cmp_dirs(ov.dirs, nv.dirs, pathv, i as int, j + 1));
            }
            j = j + 1;
        }
    }
    proof {
        assert(cmp_dirs(ov.dirs, nv.dirs, pathv, i as int, j as int) =~= Seq::<EventV>::empty());
        assert(events_view(out@) + Seq::<EventV>::empty() =~= events_view(out@));
        assert(events_view(out@) == base1 + cmp_dirs(ov.dirs, nv.dirs, pathv, 0, 0));
    }
    let ghost base2 = events_view(out@);
    let mut fi: usize = 0;
    let mut fj: usize = 0;
    proof {
        assert(base2 + cmp_files(ov.files, nv.files, pathv, 0, 0) =~= events_view(out@)
            + cmp_files(ov.files, nv.files, pathv, 0, 0));
    }
    while fi < o.files.len() || fj < n.files.len()
        invariant
            fi <= o.files@.len(),
            fj <= n.files@.len(),
            ov == tree_view(*o),
            nv == tree_view(*n),
            pathv == lines_view(path@),
            ov.files.len() == o.files@.len(),
            nv.files.len() == n.files@.len(),
            base2 + cmp_files(ov.files, nv.files, pathv, 0, 0) == events_view(out@) + cmp_files(
                ov.files,
                nv.files,
                pathv,
                fi as int,
                fj as int,
            ),
        decreases o.files@.len() - fi + n.files@.len() - fj,
    {
        let ghost prev = events_view(out@);
        proof {
            assert(forall|k: int|
                0 <= k < ov.files.len() ==> ov.files[k] == node_view(o.files@[k]));
            assert(forall|k: int|
                0 <= k < nv.files.len() ==> nv.files[k] == node_view(n.files@[k]));
        }
        if fi >= o.files.len() {
            let p = pushed_path(path, &n.files[fj].name);
            let kb = crate::tree::kind_to_byte(n.files[fj].kind);
            out.push(Event::Added(p, kb));
            proof {
                assert(events_view(out@) =~= prev.push(
                    EventV::Added(
                        pathv.push(nv.files[fj as int].name),
                        kind_byte(nv.files[fj as int].kind),
                    ),
                ));
                assert(prev + (seq![
                    EventV::Added(
                        pathv.push(nv.files[fj as int].name),
                        kind_byte(nv.files[fj as int].kind),
                    ),
                ] + cmp_files(ov.files, nv.files, pathv, fi as int, fj + 1)) =~= events_view(
                    out@,
                ) + cmp_files(ov.files, nv.files, pathv, fi as int, fj + 1));
            }
            fj = fj + 1;
        } else if fj >= n.files.len() {
            let p = pushed_path(path, &o.files[fi].name);
            let kb = crate::tree::kind_to_byte(o.files[fi].kind);
            out.push(Event::Removed(p, kb));
            proof {
                assert(events_view(out@) =~= prev.push(
                    EventV::Removed(
                        pathv.push(ov.files[fi as int].name),
                        kind_byte(ov.files[fi as int].kind),
                    ),
                ));
                assert(prev + (seq![
                    EventV::Removed(
                        pathv.push(ov.files[fi as int].name),
                        kind_byte(ov.files[fi as int].kind),
                    ),
                ] + cmp_files(ov.files, nv.files, pathv, fi + 1, fj as int)) =~= events_view(
                    out@,
                ) + cmp_files(ov.files, nv.files, pathv, fi + 1, fj as int));
            }
            fi = fi + 1;
        } else if bytes_eq(&o.files[fi].name, &n.files[fj].name) {
            match file_report_exec(&o.files[fi], &n.files[fj]) {
                Some(d) => {
                    let p = pushed_path(path, &n.files[fj].name);
                    let kb = crate::tree::kind_to_byte(n.files[fj].kind);
                    let ghost dv = lines_view(d@);
                    out.push(Event::Changed(p, kb, d));
                    proof {
                        assert(events_view(out@) =~= prev.push(
                            EventV::Changed(
                                pathv.push(nv.files[fj as int].name),
                                kind_byte(nv.files[fj as int].kind),
                                dv,
                            ),
                        ));
                        assert(prev + (seq![
                            EventV::Changed(
                                pathv.push(nv.files[fj as int].name),
                                kind_byte(nv.files[fj as int].kind),
                                dv,
                            ),
                        ] + cmp_files(ov.files, nv.files, pathv, fi + 1, fj + 1))
                            =~= events_view(out@) + cmp_files(
                            ov.files,
                            nv.files,
                            pathv,
                            fi + 1,
                            fj + 1,
                        ));
                    }
                },
                None => {
                    proof {
                        assert(prev + (Seq::<EventV>::empty() + cmp_files(
                            ov.files,
                            nv.files,
                            pathv,
                            fi + 1,
                            fj + 1,
                        )) =~= events_view(out@) + cmp_files(
                            ov.files,
                            nv.files,
                            pathv,
                            fi + 1,
                            fj + 1,
                        ));
                    }
                },
            }
            fi = fi + 1;
            fj = fj + 1;
        } else if lex_lt_bytes(&o.files[fi].name, &n.files[fj].name) {
            let p = pushed_path(path, &o.files[fi].name);
            let kb = crate::tree::kind_to_byte(o.files[fi].kind);
            out.push(Event::Removed(p, kb));
            proof {
                assert(events_view(out@) =~= prev.push(
                    EventV::Removed(
                        pathv.push(ov.files[fi as int].name),
                        kind_byte(ov.files[fi as int].kind),
                    ),
                ));
                assert(prev + (seq![
                    EventV::Removed(
                        pathv.push(ov.files[fi as int].name),
                        kind_byte(ov.files[fi as int].kind),
                    ),
                ] + cmp_files(ov.files, nv.files, pathv, fi + 1, fj as int)) =~= events_view(
                    out@,
                ) + cmp_files(ov.files, nv.files, pathv, fi + 1, fj as int));
            }
            fi = fi + 1;
        } else {
            let p = pushed_path(path, &n.files[fj].name);
            let kb = crate::tree::kind_to_byte(n.files[fj].kind);
            out.push(Event::Added(p, kb));
            proof {
                assert(events_view(out@) =~= prev.push(
                    EventV::Added(
                        pathv.push(nv.files[fj as int].name),
                        kind_byte(nv.files[fj as int].kind),
                    ),
                ));
                assert(prev + (seq![
                    EventV::Added(
                        pathv.push(nv.files[fj as int].name),
                        kind_byte(nv.files[fj as int].kind),
                    ),
                ] + cmp_files(ov.files, nv.files, pathv, fi as int, fj + 1)) =~= events_view(
                    out@,
                ) + cmp_files(ov.files, nv.files, pathv, fi as int, fj + 1));
            }
            fj = fj + 1;
        }
    }
    proof {
        assert(cmp_files(ov.files, nv.files, pathv, fi as int, fj as int) =~= Seq::<
            EventV,
        >::empty());
        assert(events_view(out@) + Seq::<EventV>::empty() =~= events_view(out@));
        assert(events_view(out@) == base2 + cmp_files(ov.files, nv.files, pathv, 0, 0));
    }
    let ghost preleave = events_view(out@);
    let lp = clone_path(path);
    out.push(Event::Leave(lp));
    proof {
        assert(events_view(out@) =~= preleave.push(EventV::Leave(pathv)));
        assert(events_view(out@) =~= base + cmp_tree(ov, nv, pathv));
    }
}

/// Compare an old and a new tree, reporting differences as the new tree sees
/// them, in depth-first canonical order.
pub fn compare_trees(old_tree: &SureTree, new_tree: &SureTree) -> (r: Vec<Event>)
    ensures
        events_view(r@) == cmp_tree(
            tree_view(*old_tree),
            tree_view(*new_tree),
            Seq::<Seq<u8>>::empty(),
        ),
{
    let mut out: Vec<Event> = Vec::new();
    let path: Vec<Vec<u8>> = Vec::new();
    cmp_into(old_tree, new_tree, &path, &mut out);
    proof {
        assert(lines_view(path@) =~= Seq::<Seq<u8>>::empty());
        assert(events_view(Seq::<Event>::empty()) =~= Seq::<EventV>::empty());
        assert(Seq::<EventV>::empty() + cmp_tree(
            tree_view(*old_tree),
            tree_view(*new_tree),
            Seq::<Seq<u8>>::empty(),
        ) =~= cmp_tree(tree_view(*old_tree), tree_view(*new_tree), Seq::<Seq<u8>>::empty()));
    }
    out
}

} // verus!
