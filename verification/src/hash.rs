use vstd::prelude::*;

use crate::compare::key_sha1;
use crate::escape::hex_digit;
use crate::tree::{
    Atts, Kind, NodeV, SureNode, SureTree, TreeV, atts_lookup, atts_put, lemma_trees_view_from,
    node_view, tree_view, trees_view_from,
};

verus! {

broadcast use {vstd::std_specs::vec::group_vec_axioms, vstd::seq::axiom_seq_index_decreases};

/// The SHA-1 digest of a byte string: twenty bytes, a function of the input
/// alone.
pub uninterp spec fn sha1_of(data: Seq<u8>) -> Seq<u8>;

/// Relies on sha1::Sha1 of the RustCrypto crates: the SHA-1 digest of the
/// input bytes, always twenty bytes, depending on the input alone.
#[verifier::external_body]
fn sha1_digest(data: &Vec<u8>) -> (r: Vec<u8>)
    ensures
        r@ == sha1_of(data@),
        r@.len() == 20,
{
    <sha1::Sha1 as sha1::Digest>::digest(data.as_slice()).to_vec()
}

/// Lowercase hexadecimal, two digits for each byte.
pub open spec fn hex_of(s: Seq<u8>) -> Seq<u8>
    decreases s.len(),
{
    if s.len() == 0 {
        Seq::empty()
    } else {
        seq![hex_digit(s[0] / 16), hex_digit(s[0] % 16)] + hex_of(s.skip(1))
    }
}

fn hex_bytes(s: &Vec<u8>) -> (r: Vec<u8>)
    ensures
        r@ == hex_of(s@),
{
    let mut out: Vec<u8> = Vec::new();
    let mut i: usize = 0;
    proof {
        assert(s@.skip(0) =~= s@);
        assert(Seq::<u8>::empty() + hex_of(s@) =~= hex_of(s@));
    }
    while i < s.len()
        invariant
            i <= s.len(),
            hex_of(s@) == out@ + hex_of(s@.skip(i as int)),
        decreases s.len() - i,
    {
        let ghost pre = s@.skip(i as int);
        proof {
            assert(pre[0] == s@[i as int]);
            assert(pre.skip(1) =~= s@.skip(i + 1));
        }
        let b = s[i];
        let ghost prev = out@;
        if b / 16 < 10 {
            out.push(0x30 + b / 16);
        } else {
            out.push(0x57 + b / 16);
        }
        if b % 16 < 10 {
            out.push(0x30 + b % 16);
        } else {
            out.push(0x57 + b % 16);
        }
        proof {
            assert(out@ =~= prev + seq![hex_digit(b / 16), hex_digit(b % 16)]);
            assert(prev + (seq![hex_digit(b / 16), hex_digit(b % 16)] + hex_of(s@.skip(i + 1)))
                =~= out@ + hex_of(s@.skip(i + 1)));
        }
        i = i + 1;
    }
    proof {
        assert(s@.skip(s@.len() as int) =~= Seq::<u8>::empty());
        assert(out@ + Seq::<u8>::empty() =~= out@);
    }
    out
}

/// The hexadecimal SHA-1 of a file body, as stored in the `sha1` attribute.
pub open spec fn sha1_hex_of(data: Seq<u8>) -> Seq<u8> {
    hex_of(sha1_of(data))
}

/// Hash one file body: the digest in lowercase hexadecimal, forty digits.
pub fn sha1_hex(data: &Vec<u8>) -> (r: Vec<u8>)
    ensures
        r@ == sha1_hex_of(data@),
        r@.len() == 40,
{
    let d = sha1_digest(data);
    proof {
        lemma_hex_len(d@);
    }
    hex_bytes(&d)
}

proof fn lemma_hex_len(s: Seq<u8>)
    ensures
        hex_of(s).len() == 2 * s.len(),
    decreases s.len(),
{
    if s.len() > 0 {
        lemma_hex_len(s.skip(1));
    }
}

pub open spec fn key_size() -> Seq<u8> {
    seq![0x73u8, 0x69u8, 0x7au8, 0x65u8]
}

fn key_size_exec() -> (r: Vec<u8>)
    ensures
        r@ == key_size(),
{
    let mut v: Vec<u8> = Vec::new();
    v.push(0x73);
    v.push(0x69);
    v.push(0x7a);
    v.push(0x65);
    proof {
        assert(v@ =~= key_size());
    }
    v
}

fn key_sha1_exec() -> (r: Vec<u8>)
    ensures
        r@ == key_sha1(),
{
    let mut v: Vec<u8> = Vec::new();
    v.push(0x73);
    v.push(0x68);
    v.push(0x61);
    v.push(0x31);
    proof {
        assert(v@ =~= key_sha1());
    }
    v
}

/// A file is hashed when it is a regular file without a `sha1` attribute
/// whose recorded size is not zero.
pub open spec fn needs_hash(n: NodeV) -> bool {
    &&& n.kind == Kind::File
    &&& atts_lookup(n.atts, key_sha1()) is None
    &&& atts_lookup(n.atts, key_size()) != Some(seq![0x30u8])
}

pub fn node_needs_hash(n: &SureNode) -> (r: bool)
    ensures
        r == needs_hash(node_view(*n)),
{
    if !matches!(n.kind, Kind::File) {
        assert(node_view(*n).kind != Kind::File);
        return false;
    }
    let sk = key_sha1_exec();
    if let Some(_) = n.atts.get(&sk) {
        return false;
    }
    let zk = key_size_exec();
    match n.atts.get(&zk) {
        Some(v) => {
            if v.len() == 1 && v[0] == 0x30 {
                proof {
                    assert(v@ =~= seq![0x30u8]);
                }
                false
            } else {
                proof {
                    if v@ == seq![0x30u8] {
                        assert(v@.len() == 1 && v@[0] == 0x30);
                    }
                }
                true
            }
        },
        None => true,
    }
}

/// The node after hashing one file body for it.
pub open spec fn hashed_node(n: NodeV, data: Seq<u8>) -> NodeV {
    NodeV { atts: atts_put(n.atts, key_sha1(), sha1_hex_of(data)), ..n }
}

/// Hash a file body and store the digest on the node.
pub fn node_set_hash(n: &mut SureNode, data: &Vec<u8>)
    ensures
        node_view(*final(n)) == hashed_node(node_view(*old(n)), data@),
{
    let hx = sha1_hex(data);
    let sk = key_sha1_exec();
    n.atts.set(&sk, hx);
}

pub open spec fn sat_add(a: u64, b: u64) -> u64 {
    if a + b > u64::MAX {
        u64::MAX
    } else {
        (a + b) as u64
    }
}

fn sat_add_exec(a: u64, b: u64) -> (r: u64)
    ensures
        r == sat_add(a, b),
{
    if a > u64::MAX - b {
        u64::MAX
    } else {
        a + b
    }
}

/// A decimal attribute value, saturated at the largest representable count;
/// zero when the value is not plain digits.
pub open spec fn dec_sat(s: Seq<u8>) -> u64
    decreases s.len(),
{
    if s.len() == 0 {
        0
    } else if !(0x30 <= s.last() <= 0x39) {
        0
    } else if dec_sat(s.drop_last()) > (u64::MAX - (s.last() - 0x30)) / 10 {
        u64::MAX
    } else {
        (dec_sat(s.drop_last()) * 10 + (s.last() - 0x30)) as u64
    }
}

fn dec_sat_exec(s: &Vec<u8>) -> (r: u64)
    ensures
        r == dec_sat(s@),
{
    let mut acc: u64 = 0;
    let mut i: usize = 0;
    proof {
        assert(s@.take(0) =~= Seq::<u8>::empty());
    }
    while i < s.len()
        invariant
            i <= s.len(),
            acc == dec_sat(s@.take(i as int)),
        decreases s.len() - i,
    {
        let b = s[i];
        proof {
            assert(s@.take(i + 1).drop_last() =~= s@.take(i as int));
            assert(s@.take(i + 1).last() == s@[i as int]);
        }
        if b < 0x30 || b > 0x39 {
            acc = 0;
        } else if acc > (u64::MAX - ((b - 0x30) as u64)) / 10 {
            acc = u64::MAX;
        } else {
            acc = acc * 10 + ((b - 0x30) as u64);
        }
        i = i + 1;
    }
    proof {
        assert(s@.take(s@.len() as int) =~= s@);
    }
    acc
}

/// The recorded size of a node, for the estimate.
pub open spec fn size_of(n: NodeV) -> u64 {
    match atts_lookup(n.atts, key_size()) {
        Some(v) => dec_sat(v),
        None => 0,
    }
}

/// The files still to hash and the bytes they hold, counted over a file
/// list and over a whole tree, saturating rather than wrapping.
pub open spec fn est_files(fs: Seq<NodeV>, i: int) -> (u64, u64)
    decreases fs.len() - i,
{
    if i < 0 || i >= fs.len() {
        (0, 0)
    } else {
        let rest = est_files(fs, i + 1);
        if needs_hash(fs[i]) {
            (sat_add(1, rest.0), sat_add(size_of(fs[i]), rest.1))
        } else {
            rest
        }
    }
}

pub open spec fn est_tree(tv: TreeV) -> (u64, u64)
    decreases tv, 1int, 0int,
{
    let d = est_dirs(tv.dirs, 0, tv);
    let f = est_files(tv.files, 0);
    (sat_add(d.0, f.0), sat_add(d.1, f.1))
}

pub open spec fn est_dirs(ds: Seq<TreeV>, i: int, bound: TreeV) -> (u64, u64)
    decreases bound, 0int, ds.len() - i,
{
    if i < 0 || i >= ds.len() || ds != bound.dirs {
        (0, 0)
    } else {
        let here = est_tree(ds[i]);
        let rest = est_dirs(ds, i + 1, bound);
        (sat_add(here.0, rest.0), sat_add(here.1, rest.1))
    }
}

fn est_node(n: &SureNode) -> (r: (u64, u64))
    ensures
        needs_hash(node_view(*n)) ==> r == (1u64, size_of(node_view(*n))),
        !needs_hash(node_view(*n)) ==> r == (0u64, 0u64),
{
    if node_needs_hash(n) {
        let zk = key_size_exec();
        let sz = match n.atts.get(&zk) {
            Some(v) => dec_sat_exec(v),
            None => 0,
        };
        (1, sz)
    } else {
        (0, 0)
    }
}

/// Walk the tree and report how many files a hash update would read and how
/// many bytes they hold, without opening anything.
pub fn hash_estimate(t: &SureTree) -> (r: (u64, u64))
    ensures
        r == est_tree(tree_view(*t)),
    decreases *t,
{
    let ghost tv = tree_view(*t);
    let mut files: u64 = 0;
    let mut bytes: u64 = 0;
    let mut i: usize = t.dirs.len();
    proof {
        lemma_trees_view_from(t.dirs@, 0);
        assert(est_dirs(tv.dirs, t.dirs@.len() as int, tv) == (0u64, 0u64));
    }
    while i > 0
        invariant
            i <= t.dirs@.len(),
            tv == tree_view(*t),
            tv.dirs.len() == t.dirs@.len(),
            (files, bytes) == est_dirs(tv.dirs, i as int, tv),
        decreases i,
    {
        i = i - 1;
        let sub = hash_estimate(&t.dirs[i]);
        proof {
            lemma_trees_view_from(t.dirs@, 0);
            assert(tree_view(t.dirs@[i as int]) == tv.dirs[i as int]);
        }
        files = sat_add_exec(sub.0, files);
        bytes = sat_add_exec(sub.1, bytes);
    }
    let mut k: usize = t.files.len();
    let mut ffiles: u64 = 0;
    let mut fbytes: u64 = 0;
    proof {
        assert(est_files(tv.files, t.files@.len() as int) == (0u64, 0u64));
    }
    while k > 0
        invariant
            k <= t.files@.len(),
            tv == tree_view(*t),
            tv.files.len() == t.files@.len(),
            (ffiles, fbytes) == est_files(tv.files, k as int),
        decreases k,
    {
        k = k - 1;
        let one = est_node(&t.files[k]);
        proof {
            assert(node_view(t.files@[k as int]) == tv.files[k as int]);
        }
        ffiles = sat_add_exec(one.0, ffiles);
        fbytes = sat_add_exec(one.1, fbytes);
    }
    (sat_add_exec(files, ffiles), sat_add_exec(bytes, fbytes))
}

} // verus!
