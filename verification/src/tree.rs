use vstd::prelude::*;

use crate::lines::{lex_lt, lex_lt_bytes};
use crate::weave::clone_bytes;

verus! {

broadcast use {vstd::std_specs::vec::group_vec_axioms, vstd::seq::axiom_seq_index_decreases};

/// The kind of a non-directory filesystem entry.
#[derive(Clone, Copy, PartialEq, Eq, Structural, Debug)]
pub enum Kind {
    File,
    Link,
    Fifo,
    Sock,
    Chr,
    Blk,
}

/// The one-byte marker of a kind on the wire.
pub open spec fn kind_byte(k: Kind) -> u8 {
    match k {
        Kind::File => 0x66,
        Kind::Link => 0x6c,
        Kind::Fifo => 0x70,
        Kind::Sock => 0x73,
        Kind::Chr => 0x63,
        Kind::Blk => 0x62,
    }
}

pub open spec fn byte_kind(b: u8) -> Option<Kind> {
    if b == 0x66 {
        Some(Kind::File)
    } else if b == 0x6c {
        Some(Kind::Link)
    } else if b == 0x70 {
        Some(Kind::Fifo)
    } else if b == 0x73 {
        Some(Kind::Sock)
    } else if b == 0x63 {
        Some(Kind::Chr)
    } else if b == 0x62 {
        Some(Kind::Blk)
    } else {
        None
    }
}

pub fn kind_to_byte(k: Kind) -> (r: u8)
    ensures
        r == kind_byte(k),
        byte_kind(r) == Some(k),
{
    match k {
        Kind::File => 0x66,
        Kind::Link => 0x6c,
        Kind::Fifo => 0x70,
        Kind::Sock => 0x73,
        Kind::Chr => 0x63,
        Kind::Blk => 0x62,
    }
}

pub fn kind_of_byte(b: u8) -> (r: Option<Kind>)
    ensures
        r == byte_kind(b),
{
    if b == 0x66 {
        Some(Kind::File)
    } else if b == 0x6c {
        Some(Kind::Link)
    } else if b == 0x70 {
        Some(Kind::Fifo)
    } else if b == 0x73 {
        Some(Kind::Sock)
    } else if b == 0x63 {
        Some(Kind::Chr)
    } else if b == 0x62 {
        Some(Kind::Blk)
    } else {
        None
    }
}

/// The mathematical form of an attribute list: key and value byte strings.
pub open spec fn pairs_view(s: Seq<(Vec<u8>, Vec<u8>)>) -> Seq<(Seq<u8>, Seq<u8>)> {
    s.map_values(|p: (Vec<u8>, Vec<u8>)| (p.0@, p.1@))
}

/// Attribute keys are sorted strictly by byte-lexicographic order, so each
/// key occurs once; keys are never empty.
pub open spec fn atts_wf(a: Seq<(Seq<u8>, Seq<u8>)>) -> bool {
    &&& forall|i: int, j: int| 0 <= i < j < a.len() ==> lex_lt(a[i].0, a[j].0)
    &&& forall|i: int| 0 <= i < a.len() ==> (#[trigger] a[i]).0.len() > 0
}

/// The value at a key, scanning from the front.
pub open spec fn atts_lookup(a: Seq<(Seq<u8>, Seq<u8>)>, k: Seq<u8>) -> Option<Seq<u8>>
    decreases a.len(),
{
    if a.len() == 0 {
        None
    } else if a[0].0 == k {
        Some(a[0].1)
    } else {
        atts_lookup(a.skip(1), k)
    }
}

/// The list with `k` bound to `v`, keeping the sorted order.
pub open spec fn atts_put(a: Seq<(Seq<u8>, Seq<u8>)>, k: Seq<u8>, v: Seq<u8>) -> Seq<
    (Seq<u8>, Seq<u8>),
>
    decreases a.len(),
{
    if a.len() == 0 {
        seq![(k, v)]
    } else if lex_lt(k, a[0].0) {
        seq![(k, v)] + a
    } else if k == a[0].0 {
        seq![(k, v)] + a.skip(1)
    } else {
        seq![a[0]] + atts_put(a.skip(1), k, v)
    }
}

/// Byte-lexicographic order is transitive.
pub proof fn lemma_lex_trans(a: Seq<u8>, b: Seq<u8>, c: Seq<u8>)
    requires
        lex_lt(a, b),
        lex_lt(b, c),
    ensures
        lex_lt(a, c),
    decreases a.len(),
{
    if a.len() == 0 {
    } else {
        if a[0] < b[0] {
            if b[0] < c[0] {
            } else {
                assert(b[0] == c[0]);
            }
        } else {
            assert(a[0] == b[0]);
            if b[0] < c[0] {
            } else {
                assert(b[0] == c[0]);
                lemma_lex_trans(a.skip(1), b.skip(1), c.skip(1));
            }
        }
    }
}

/// Nothing is before itself in byte-lexicographic order.
pub proof fn lemma_lex_irrefl(a: Seq<u8>)
    ensures
        !lex_lt(a, a),
    decreases a.len(),
{
    if a.len() > 0 {
        lemma_lex_irrefl(a.skip(1));
    }
}

/// Two byte strings with neither before the other are equal.
pub proof fn lemma_lex_total(a: Seq<u8>, b: Seq<u8>)
    requires
        !lex_lt(a, b),
        !lex_lt(b, a),
    ensures
        a == b,
    decreases a.len(),
{
    if b.len() == 0 {
        assert(a.len() == 0);
        assert(a =~= b);
    } else {
        assert(a.len() > 0);
        assert(a[0] == b[0]);
        lemma_lex_total(a.skip(1), b.skip(1));
        assert(a =~= b) by {
            assert(a.skip(1).len() == b.skip(1).len());
            assert(a.skip(1).len() == a.len() - 1);
            assert(b.skip(1).len() == b.len() - 1);
            assert(a.len() == b.len());
            assert(forall|j: int|
                1 <= j < a.len() ==> a[j] == a.skip(1)[j - 1] && b[j] == b.skip(1)[j - 1]);
        }
    }
}

/// Every key of the updated list is the new key or one of the old keys.
proof fn lemma_put_keys(a: Seq<(Seq<u8>, Seq<u8>)>, k: Seq<u8>, v: Seq<u8>)
    ensures
        forall|i: int|
            0 <= i < atts_put(a, k, v).len() ==> (#[trigger] atts_put(a, k, v)[i]).0 == k
                || exists|j: int| 0 <= j < a.len() && a[j].0 == atts_put(a, k, v)[i].0,
    decreases a.len(),
{
    let r = atts_put(a, k, v);
    if a.len() == 0 {
    } else if lex_lt(k, a[0].0) {
        assert forall|i: int| 0 <= i < r.len() implies (#[trigger] r[i]).0 == k || exists|j: int|
            0 <= j < a.len() && a[j].0 == r[i].0 by {
            if i > 0 {
                assert(a[i - 1].0 == r[i].0);
            }
        }
    } else if k == a[0].0 {
        assert forall|i: int| 0 <= i < r.len() implies (#[trigger] r[i]).0 == k || exists|j: int|
            0 <= j < a.len() && a[j].0 == r[i].0 by {
            if i > 0 {
                assert(a[i].0 == r[i].0);
            }
        }
    } else {
        lemma_put_keys(a.skip(1), k, v);
        let rr = atts_put(a.skip(1), k, v);
        assert forall|i: int| 0 <= i < r.len() implies (#[trigger] r[i]).0 == k || exists|j: int|
            0 <= j < a.len() && a[j].0 == r[i].0 by {
            if i == 0 {
                assert(a[0].0 == r[0].0);
            } else {
                assert(r[i] == rr[i - 1]);
                if rr[i - 1].0 == k {
                } else {
                    let j = choose|j: int| 0 <= j < a.skip(1).len() && a.skip(1)[j].0 == rr[i
                        - 1].0;
                    assert(a[j + 1].0 == r[i].0);
                }
            }
        }
    }
}

/// Updating a sorted attribute list keeps it sorted.
pub proof fn lemma_put_wf(a: Seq<(Seq<u8>, Seq<u8>)>, k: Seq<u8>, v: Seq<u8>)
    requires
        atts_wf(a),
        k.len() > 0,
    ensures
        atts_wf(atts_put(a, k, v)),
    decreases a.len(),
{
    let r = atts_put(a, k, v);
    if a.len() == 0 {
    } else if lex_lt(k, a[0].0) {
        assert forall|i: int, j: int| 0 <= i < j < r.len() implies lex_lt(r[i].0, r[j].0) by {
            if i == 0 {
                if j == 1 {
                } else {
                    lemma_lex_trans(k, a[0].0, a[j - 1].0);
                }
            }
        }
    } else if k == a[0].0 {
        assert forall|i: int, j: int| 0 <= i < j < r.len() implies lex_lt(r[i].0, r[j].0) by {
            assert(r[j].0 == a[j].0);
            if i > 0 {
                assert(r[i].0 == a[i].0);
            }
        }
    } else {
        lemma_lex_total_helper(k, a[0].0);
        lemma_put_wf(a.skip(1), k, v);
        lemma_put_keys(a.skip(1), k, v);
        let rr = atts_put(a.skip(1), k, v);
        assert forall|i: int, j: int| 0 <= i < j < r.len() implies lex_lt(r[i].0, r[j].0) by {
            if i == 0 {
                assert(r[j] == rr[j - 1]);
                if rr[j - 1].0 == k {
                    assert(lex_lt(a[0].0, k));
                } else {
                    let m = choose|m: int| 0 <= m < a.skip(1).len() && a.skip(1)[m].0 == rr[j
                        - 1].0;
                    assert(a.skip(1)[m] == a[m + 1]);
                    assert(lex_lt(a[0].0, a[m + 1].0));
                }
            } else {
                assert(r[i] == rr[i - 1] && r[j] == rr[j - 1]);
            }
        }
        assert forall|i: int| 0 <= i < r.len() implies (#[trigger] r[i]).0.len() > 0 by {
            if i > 0 {
                assert(r[i] == rr[i - 1]);
            }
        }
    }
}

proof fn lemma_lex_total_helper(k: Seq<u8>, b: Seq<u8>)
    requires
        !lex_lt(k, b),
        k != b,
    ensures
        lex_lt(b, k),
{
    if !lex_lt(b, k) {
        lemma_lex_total(k, b);
    }
}

/// A per-node attribute map, kept sorted by key.
pub struct Atts {
    pub pairs: Vec<(Vec<u8>, Vec<u8>)>,
}

impl View for Atts {
    type V = Seq<(Seq<u8>, Seq<u8>)>;

    open spec fn view(&self) -> Seq<(Seq<u8>, Seq<u8>)> {
        pairs_view(self.pairs@)
    }
}

impl Atts {
    /// An empty attribute map.
    pub fn new() -> (r: Atts)
        ensures
            r@ == Seq::<(Seq<u8>, Seq<u8>)>::empty(),
    {
        let r = Atts { pairs: Vec::new() };
        proof {
            assert(r@ =~= Seq::<(Seq<u8>, Seq<u8>)>::empty());
        }
        r
    }

    /// The value bound to a key, if any.
    pub fn get(&self, key: &Vec<u8>) -> (r: Option<&Vec<u8>>)
        ensures
            match r {
                Some(v) => atts_lookup(self@, key@) == Some(v@),
                None => atts_lookup(self@, key@) is None,
            },
    {
        let mut i: usize = 0;
        proof {
            assert(self@.skip(0) =~= self@);
        }
        while i < self.pairs.len()
            invariant
                i <= self.pairs@.len(),
                atts_lookup(self@, key@) == atts_lookup(self@.skip(i as int), key@),
            decreases self.pairs@.len() - i,
        {
            let ghost pre = self@.skip(i as int);
            proof {
                assert(pre[0] == self@[i as int]);
                assert(pre.skip(1) =~= self@.skip(i + 1));
            }
            if crate::delta::bytes_eq(&self.pairs[i].0, key) {
                return Some(&self.pairs[i].1);
            }
            i = i + 1;
        }
        proof {
            assert(self@.skip(self@.len() as int) =~= Seq::<(Seq<u8>, Seq<u8>)>::empty());
        }
        None
    }

    /// Bind a key to a value, keeping the sorted order; an existing binding
    /// of the key is replaced.
    pub fn set(&mut self, key: &Vec<u8>, val: Vec<u8>)
        ensures
            final(self)@ == atts_put(old(self)@, key@, val@),
    {
        let ghost av = self@;
        let mut out: Vec<(Vec<u8>, Vec<u8>)> = Vec::new();
        let mut i: usize = 0;
        let mut placed: bool = false;
        proof {
            assert(av.skip(0) =~= av);
            assert(pairs_view(out@) =~= Seq::<(Seq<u8>, Seq<u8>)>::empty());
            assert(Seq::<(Seq<u8>, Seq<u8>)>::empty() + atts_put(av, key@, val@) =~= atts_put(
                av,
                key@,
                val@,
            ));
        }
        while i < self.pairs.len()
            invariant
                i <= self.pairs@.len(),
                av == pairs_view(self.pairs@),
                av.len() == self.pairs@.len(),
                atts_put(av, key@, val@) == pairs_view(out@) + if placed {
                    av.skip(i as int)
                } else {
                    atts_put(av.skip(i as int), key@, val@)
                },
            decreases self.pairs@.len() - i,
        {
            let ghost pre = av.skip(i as int);
            let ghost prevout = pairs_view(out@);
            proof {
                assert(pre[0] == av[i as int]);
                assert(pre.skip(1) =~= av.skip(i + 1));
            }
            if placed {
                let kc = clone_bytes(&self.pairs[i].0);
                let vc = clone_bytes(&self.pairs[i].1);
                out.push((kc, vc));
                proof {
                    assert(pairs_view(out@) =~= prevout.push(av[i as int]));
                    assert(prevout.push(av[i as int]) + av.skip(i + 1) =~= prevout + av.skip(
                        i as int,
                    ));
                }
            } else if lex_lt_bytes(key, &self.pairs[i].0) {
                let kc = clone_bytes(key);
                let vc0 = clone_bytes(&val);
                out.push((kc, vc0));
                let ghost mid = pairs_view(out@);
                proof {
                    assert(mid =~= prevout.push((key@, val@)));
                }
                let kc2 = clone_bytes(&self.pairs[i].0);
                let vc2 = clone_bytes(&self.pairs[i].1);
                out.push((kc2, vc2));
                placed = true;
                proof {
                    assert(atts_put(pre, key@, val@) == seq![(key@, val@)] + pre);
                    assert(pairs_view(out@) =~= mid.push(av[i as int]));
                    assert(prevout + (seq![(key@, val@)] + pre) =~= pairs_view(out@) + av.skip(
                        i + 1,
                    ));
                }
            } else if crate::delta::bytes_eq(key, &self.pairs[i].0) {
                let kc = clone_bytes(key);
                let vc0 = clone_bytes(&val);
                out.push((kc, vc0));
                placed = true;
                proof {
                    assert(atts_put(pre, key@, val@) == seq![(key@, val@)] + pre.skip(1));
                    assert(pairs_view(out@) =~= prevout.push((key@, val@)));
                    assert(prevout + (seq![(key@, val@)] + pre.skip(1)) =~= pairs_view(out@)
                        + av.skip(i + 1));
                }
            } else {
                let kc = clone_bytes(&self.pairs[i].0);
                let vc = clone_bytes(&self.pairs[i].1);
                out.push((kc, vc));
                proof {
                    assert(atts_put(pre, key@, val@) == seq![pre[0]] + atts_put(
                        pre.skip(1),
                        key@,
                        val@,
                    ));
                    assert(pairs_view(out@) =~= prevout.push(av[i as int]));
                    assert(prevout + (seq![pre[0]] + atts_put(pre.skip(1), key@, val@))
                        =~= pairs_view(out@) + atts_put(av.skip(i + 1), key@, val@));
                }
            }
            i = i + 1;
        }
        if !placed {
            let kc = clone_bytes(key);
            let ghost prevout = pairs_view(out@);
            out.push((kc, val));
            proof {
                assert(av.skip(av.len() as int) =~= Seq::<(Seq<u8>, Seq<u8>)>::empty());
                assert(atts_put(Seq::<(Seq<u8>, Seq<u8>)>::empty(), key@, val@) == seq![
                    (key@, val@),
                ]);
                assert(pairs_view(out@) =~= prevout.push((key@, val@)));
                assert(prevout + seq![(key@, val@)] =~= pairs_view(out@));
            }
        } else {
            proof {
                assert(av.skip(av.len() as int) =~= Seq::<(Seq<u8>, Seq<u8>)>::empty());
                assert(pairs_view(out@) + Seq::<(Seq<u8>, Seq<u8>)>::empty() =~= pairs_view(
                    out@,
                ));
            }
        }
        self.pairs = out;
    }
}


/// A chain of adjacent orderings yields every pairwise ordering.
proof fn lemma_lex_chain(xs: Seq<Seq<u8>>, i: int, j: int)
    requires
        forall|m: int| 0 <= m < xs.len() - 1 ==> lex_lt(#[trigger] xs[m], xs[m + 1]),
        0 <= i < j < xs.len(),
    ensures
        lex_lt(xs[i], xs[j]),
    decreases j - i,
{
    if j == i + 1 {
        assert(lex_lt(xs[i], xs[i + 1]));
    } else {
        lemma_lex_chain(xs, i, j - 1);
        assert(lex_lt(xs[j - 1], xs[j - 1 + 1]));
        lemma_lex_trans(xs[i], xs[j - 1], xs[j]);
    }
}

/// The keys of an attribute list.
pub open spec fn keys_of(a: Seq<(Seq<u8>, Seq<u8>)>) -> Seq<Seq<u8>> {
    a.map_values(|p: (Seq<u8>, Seq<u8>)| p.0)
}

/// Check that an attribute list is sorted with unique, nonempty keys.
pub fn atts_check(a: &Atts) -> (r: bool)
    ensures
        r == atts_wf(a@),
{
    let n = a.pairs.len();
    let mut m: usize = 0;
    while m < n
        invariant
            m <= n,
            n == a.pairs@.len(),
            forall|x: int| 0 <= x < m ==> (#[trigger] a@[x]).0.len() > 0,
        decreases n - m,
    {
        proof {
            assert(a@[m as int].0 == a.pairs@[m as int].0@);
        }
        if a.pairs[m].0.len() == 0 {
            assert(!atts_wf(a@));
            return false;
        }
        m = m + 1;
    }
    let mut i: usize = 0;
    while n > 0 && i < n - 1
        invariant
            n == a.pairs@.len(),
            i <= n || i == 0,
            forall|x: int| 0 <= x < a@.len() ==> (#[trigger] a@[x]).0.len() > 0,
            forall|x: int| 0 <= x < i ==> lex_lt(#[trigger] keys_of(a@)[x], keys_of(a@)[x + 1]),
        decreases n - i,
    {
        proof {
            assert(keys_of(a@)[i as int] == a.pairs@[i as int].0@);
            assert(keys_of(a@)[i + 1] == a.pairs@[i + 1].0@);
        }
        if !lex_lt_bytes(&a.pairs[i].0, &a.pairs[i + 1].0) {
            assert(!atts_wf(a@)) by {
                assert(a@[i as int].0 == keys_of(a@)[i as int]);
                assert(a@[i + 1].0 == keys_of(a@)[i + 1]);
            }
            return false;
        }
        i = i + 1;
    }
    proof {
        assert forall|x: int, y: int| 0 <= x < y < a@.len() implies lex_lt(
            a@[x].0,
            a@[y].0,
        ) by {
            lemma_lex_chain(keys_of(a@), x, y);
            assert(keys_of(a@)[x] == a@[x].0);
            assert(keys_of(a@)[y] == a@[y].0);
        }
    }
    true
}

/// One non-directory entry of a tree.
pub struct SureNode {
    pub name: Vec<u8>,
    pub kind: Kind,
    pub atts: Atts,
}

/// The mathematical form of a non-directory entry.
pub struct NodeV {
    pub name: Seq<u8>,
    pub kind: Kind,
    pub atts: Seq<(Seq<u8>, Seq<u8>)>,
}

pub open spec fn node_view(n: SureNode) -> NodeV {
    NodeV { name: n.name@, kind: n.kind, atts: n.atts@ }
}

/// A directory of the snapshot: child directories and child files, each in
/// byte-lexicographic order of name.
pub struct SureTree {
    pub name: Vec<u8>,
    pub atts: Atts,
    pub dirs: Vec<SureTree>,
    pub files: Vec<SureNode>,
}

/// The mathematical form of a directory tree.
pub struct TreeV {
    pub name: Seq<u8>,
    pub atts: Seq<(Seq<u8>, Seq<u8>)>,
    pub dirs: Seq<TreeV>,
    pub files: Seq<NodeV>,
}

pub open spec fn tree_view(t: SureTree) -> TreeV
    decreases t, 0int,
{
    TreeV {
        name: t.name@,
        atts: t.atts@,
        dirs: trees_view_from(t.dirs@, 0),
        files: t.files@.map_values(|n: SureNode| node_view(n)),
    }
}

/// The mathematical form of the child directories from an index on.
pub open spec fn trees_view_from(ds: Seq<SureTree>, i: int) -> Seq<TreeV>
    decreases ds, ds.len() - i,
{
    if i < 0 || i >= ds.len() {
        Seq::empty()
    } else {
        seq![tree_view(ds[i])] + trees_view_from(ds, i + 1)
    }
}

/// The children view, element by element.
pub proof fn lemma_trees_view_from(ds: Seq<SureTree>, i: int)
    requires
        0 <= i <= ds.len(),
    ensures
        trees_view_from(ds, i).len() == ds.len() - i,
        forall|j: int|
            0 <= j < ds.len() - i ==> trees_view_from(ds, i)[j] == tree_view(ds[i + j]),
    decreases ds.len() - i,
{
    if i < ds.len() {
        lemma_trees_view_from(ds, i + 1);
        assert forall|j: int| 0 <= j < ds.len() - i implies trees_view_from(ds, i)[j] == tree_view(
            ds[i + j],
        ) by {
            if j > 0 {
                assert(trees_view_from(ds, i)[j] == trees_view_from(ds, i + 1)[j - 1]);
            }
        }
    }
}

/// A well-formed tree: attributes sorted everywhere, children strictly
/// ordered by name in both lists.
pub open spec fn tree_wf(tv: TreeV) -> bool
    decreases tv,
{
    &&& atts_wf(tv.atts)
    &&& forall|i: int, j: int| 0 <= i < j < tv.dirs.len() ==> lex_lt(tv.dirs[i].name, tv.dirs[j].name)
    &&& forall|i: int, j: int|
        0 <= i < j < tv.files.len() ==> lex_lt(tv.files[i].name, tv.files[j].name)
    &&& forall|i: int| 0 <= i < tv.files.len() ==> atts_wf((#[trigger] tv.files[i]).atts)
    &&& forall|i: int| 0 <= i < tv.dirs.len() ==> tree_wf(#[trigger] tv.dirs[i])
}

impl SureTree {
    /// A directory with no children yet; well formed as soon as its own
    /// attributes are.
    pub fn new(name: Vec<u8>, atts: Atts) -> (r: SureTree)
        ensures
            tree_view(r) == (TreeV {
                name: name@,
                atts: atts@,
                dirs: Seq::<TreeV>::empty(),
                files: Seq::<NodeV>::empty(),
            }),
            atts_wf(atts@) ==> tree_wf(tree_view(r)),
    {
        let r = SureTree { name, atts, dirs: Vec::new(), files: Vec::new() };
        proof {
            assert(tree_view(r).dirs =~= Seq::<TreeV>::empty());
            assert(tree_view(r).files =~= Seq::<NodeV>::empty());
        }
        r
    }

    /// Append a child directory; the caller appends children in name order,
    /// and in that order the tree stays well formed.
    pub fn push_dir(&mut self, child: SureTree)
        ensures
            tree_view(*final(self)) == (TreeV {
                dirs: tree_view(*old(self)).dirs.push(tree_view(child)),
                ..tree_view(*old(self))
            }),
            tree_wf(tree_view(*old(self))) && tree_wf(tree_view(child)) && (tree_view(
                *old(self),
            ).dirs.len() == 0 || lex_lt(
                tree_view(*old(self)).dirs.last().name,
                tree_view(child).name,
            )) ==> tree_wf(tree_view(*final(self))),
    {
        let ghost oldv = tree_view(*self);
        let ghost olddirs = self.dirs@;
        let ghost cv = tree_view(child);
        self.dirs.push(child);
        proof {
            lemma_trees_view_from(olddirs, 0);
            lemma_trees_view_from(self.dirs@, 0);
            assert(tree_view(*self).dirs =~= oldv.dirs.push(cv));
            assert(tree_view(*self).files =~= oldv.files);
            let newv = tree_view(*self);
            if tree_wf(oldv) && tree_wf(cv) && (oldv.dirs.len() == 0 || lex_lt(
                oldv.dirs.last().name,
                cv.name,
            )) {
                assert forall|i: int, j: int|
                    0 <= i < j < newv.dirs.len() implies lex_lt(
                    newv.dirs[i].name,
                    newv.dirs[j].name,
                ) by {
                    if j < oldv.dirs.len() {
                        assert(newv.dirs[i] == oldv.dirs[i] && newv.dirs[j] == oldv.dirs[j]);
                    } else {
                        assert(newv.dirs[j] == cv);
                        assert(newv.dirs[i] == oldv.dirs[i]);
                        if i < oldv.dirs.len() - 1 {
                            assert(lex_lt(oldv.dirs[i].name, oldv.dirs.last().name));
                            lemma_lex_trans(oldv.dirs[i].name, oldv.dirs.last().name, cv.name);
                        }
                    }
                }
                assert forall|i: int| 0 <= i < newv.dirs.len() implies tree_wf(
                    #[trigger] newv.dirs[i],
                ) by {
                    if i < oldv.dirs.len() {
                        assert(newv.dirs[i] == oldv.dirs[i]);
                    } else {
                        assert(newv.dirs[i] == cv);
                    }
                }
                assert(tree_wf(newv));
            }
        }
    }

    /// Append a child file or other non-directory entry, in name order, and
    /// in that order the tree stays well formed.
    pub fn push_file(&mut self, child: SureNode)
        ensures
            tree_view(*final(self)) == (TreeV {
                files: tree_view(*old(self)).files.push(node_view(child)),
                ..tree_view(*old(self))
            }),
            tree_wf(tree_view(*old(self))) && atts_wf(node_view(child).atts) && (tree_view(
                *old(self),
            ).files.len() == 0 || lex_lt(
                tree_view(*old(self)).files.last().name,
                node_view(child).name,
            )) ==> tree_wf(tree_view(*final(self))),
    {
        let ghost oldv = tree_view(*self);
        let ghost cv = node_view(child);
        self.files.push(child);
        proof {
            assert(tree_view(*self).files =~= oldv.files.push(cv));
            assert(tree_view(*self).dirs =~= oldv.dirs);
            let newv = tree_view(*self);
            if tree_wf(oldv) && atts_wf(cv.atts) && (oldv.files.len() == 0 || lex_lt(
                oldv.files.last().name,
                cv.name,
            )) {
                assert forall|i: int, j: int|
                    0 <= i < j < newv.files.len() implies lex_lt(
                    newv.files[i].name,
                    newv.files[j].name,
                ) by {
                    if j < oldv.files.len() {
                        assert(newv.files[i] == oldv.files[i] && newv.files[j] == oldv.files[j]);
                    } else {
                        assert(newv.files[j] == cv);
                        assert(newv.files[i] == oldv.files[i]);
                        if i < oldv.files.len() - 1 {
                            assert(lex_lt(oldv.files[i].name, oldv.files.last().name));
                            lemma_lex_trans(oldv.files[i].name, oldv.files.last().name, cv.name);
                        }
                    }
                }
                assert forall|i: int| 0 <= i < newv.files.len() implies atts_wf(
                    (#[trigger] newv.files[i]).atts,
                ) by {
                    if i < oldv.files.len() {
                        assert(newv.files[i] == oldv.files[i]);
                    } else {
                        assert(newv.files[i] == cv);
                    }
                }
                assert forall|i: int| 0 <= i < newv.dirs.len() implies tree_wf(
                    #[trigger] newv.dirs[i],
                ) by {
                    assert(newv.dirs[i] == oldv.dirs[i]);
                }
                assert(tree_wf(newv));
            }
        }
    }
}


/// Check a whole tree's invariant: attributes sorted everywhere, child
/// directories and files each strictly ordered by name. Establishes the
/// invariant for a tree assembled elsewhere or read back from a store.
pub fn tree_is_wf(t: &SureTree) -> (r: bool)
    ensures
        r == tree_wf(tree_view(*t)),
    decreases *t,
{
    let ghost tv = tree_view(*t);
    proof {
        lemma_trees_view_from(t.dirs@, 0);
    }
    if !atts_check(&t.atts) {
        assert(!tree_wf(tv));
        return false;
    }
    let nd = t.dirs.len();
    let mut i: usize = 0;
    while nd > 0 && i < nd - 1
        invariant
            i <= nd || i == 0,
            nd == t.dirs@.len(),
            tv == tree_view(*t),
            tv.dirs.len() == nd,
            forall|x: int| 0 <= x < i ==> lex_lt(#[trigger] tv.dirs[x].name, tv.dirs[x + 1].name),
        decreases nd - i,
    {
        proof {
            lemma_trees_view_from(t.dirs@, 0);
            assert(tv.dirs[i as int].name == t.dirs@[i as int].name@);
            assert(tv.dirs[i + 1].name == t.dirs@[i + 1].name@);
        }
        if !lex_lt_bytes(&t.dirs[i].name, &t.dirs[i + 1].name) {
            assert(!tree_wf(tv));
            return false;
        }
        i = i + 1;
    }
    let nf = t.files.len();
    let mut k: usize = 0;
    while k < nf
        invariant
            k <= nf,
            nf == t.files@.len(),
            tv == tree_view(*t),
            tv.files.len() == nf,
            forall|x: int| 0 <= x < k ==> atts_wf((#[trigger] tv.files[x]).atts),
        decreases nf - k,
    {
        proof {
            assert(tv.files[k as int] == node_view(t.files@[k as int]));
        }
        if !atts_check(&t.files[k].atts) {
            assert(!tree_wf(tv));
            return false;
        }
        k = k + 1;
    }
    let mut k2: usize = 0;
    while nf > 0 && k2 < nf - 1
        invariant
            k2 <= nf || k2 == 0,
            nf == t.files@.len(),
            tv == tree_view(*t),
            tv.files.len() == nf,
            forall|x: int|
                0 <= x < k2 ==> lex_lt(#[trigger] tv.files[x].name, tv.files[x + 1].name),
        decreases nf - k2,
    {
        proof {
            assert(tv.files[k2 as int].name == t.files@[k2 as int].name@);
            assert(tv.files[k2 + 1].name == t.files@[k2 + 1].name@);
        }
        if !lex_lt_bytes(&t.files[k2].name, &t.files[k2 + 1].name) {
            assert(!tree_wf(tv));
            return false;
        }
        k2 = k2 + 1;
    }
    let mut d: usize = 0;
    while d < nd
        invariant
            d <= nd,
            nd == t.dirs@.len(),
            tv == tree_view(*t),
            tv.dirs.len() == nd,
            forall|x: int| 0 <= x < d ==> tree_wf(#[trigger] tv.dirs[x]),
        decreases nd - d,
    {
        proof {
            lemma_trees_view_from(t.dirs@, 0);
            assert(tv.dirs[d as int] == tree_view(t.dirs@[d as int]));
        }
        if !tree_is_wf(&t.dirs[d]) {
            assert(!tree_wf(tv));
            return false;
        }
        d = d + 1;
    }
    proof {
        let dn = tv.dirs.map_values(|x: TreeV| x.name);
        assert forall|x: int, y: int| 0 <= x < y < tv.dirs.len() implies lex_lt(
            tv.dirs[x].name,
            tv.dirs[y].name,
        ) by {
            assert(forall|m: int| 0 <= m < dn.len() - 1 ==> lex_lt(#[trigger] dn[m], dn[m + 1]));
            lemma_lex_chain(dn, x, y);
            assert(dn[x] == tv.dirs[x].name && dn[y] == tv.dirs[y].name);
        }
        let fnm = tv.files.map_values(|x: NodeV| x.name);
        assert forall|x: int, y: int| 0 <= x < y < tv.files.len() implies lex_lt(
            tv.files[x].name,
            tv.files[y].name,
        ) by {
            assert(forall|m: int|
                0 <= m < fnm.len() - 1 ==> lex_lt(#[trigger] fnm[m], fnm[m + 1]));
            lemma_lex_chain(fnm, x, y);
            assert(fnm[x] == tv.files[x].name && fnm[y] == tv.files[y].name);
        }
        assert(tree_wf(tv));
    }
    true
}

} // verus!
