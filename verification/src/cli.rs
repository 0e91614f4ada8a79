use vstd::prelude::*;

verus! {

/// The tags recorded with one stored snapshot: a map with keys in
/// code-point order, each key bound once.
pub type StoreTags = Vec<(String, String)>;

/// The mathematical form of a tag list.
pub open spec fn tags_view(s: Seq<(String, String)>) -> Seq<(Seq<char>, Seq<char>)> {
    s.map_values(|p: (String, String)| (p.0@, p.1@))
}

/// Strict code-point order on text.
pub open spec fn chars_lt(a: Seq<char>, b: Seq<char>) -> bool
    decreases a.len(),
{
    if b.len() == 0 {
        false
    } else if a.len() == 0 {
        true
    } else if (a[0] as u32) < (b[0] as u32) {
        true
    } else if (a[0] as u32) > (b[0] as u32) {
        false
    } else {
        chars_lt(a.skip(1), b.skip(1))
    }
}

fn str_lt(a: &str, b: &str) -> (r: bool)
    ensures
        r == chars_lt(a@, b@),
{
    let la = a.unicode_len();
    let lb = b.unicode_len();
    let mut i: usize = 0;
    proof {
        assert(a@.skip(0) =~= a@);
        assert(b@.skip(0) =~= b@);
    }
    while i < la && i < lb
        invariant
            i <= la && i <= lb,
            la as nat == a@.len(),
            lb as nat == b@.len(),
            chars_lt(a@, b@) == chars_lt(a@.skip(i as int), b@.skip(i as int)),
        decreases la - i,
    {
        let x = a.get_char(i);
        let y = b.get_char(i);
        proof {
            assert(a@.skip(i as int)[0] == a@[i as int]);
            assert(b@.skip(i as int)[0] == b@[i as int]);
            assert(a@.skip(i as int).skip(1) =~= a@.skip(i + 1));
            assert(b@.skip(i as int).skip(1) =~= b@.skip(i + 1));
        }
        if (x as u32) < (y as u32) {
            return true;
        }
        if (x as u32) > (y as u32) {
            return false;
        }
        i = i + 1;
    }
    proof {
        assert(a@.skip(i as int).len() == a@.len() - i);
        assert(b@.skip(i as int).len() == b@.len() - i);
    }
    la < lb
}

pub(crate) fn str_eq(a: &str, b: &str) -> (r: bool)
    ensures
        r == (a@ == b@),
{
    let la = a.unicode_len();
    let lb = b.unicode_len();
    if la != lb {
        proof {
            if a@ == b@ {
                assert(a@.len() == b@.len());
            }
        }
        return false;
    }
    let mut i: usize = 0;
    while i < la
        invariant
            i <= la,
            la as nat == a@.len(),
            la as nat == b@.len(),
            forall|j: int| 0 <= j < i ==> a@[j] == b@[j],
        decreases la - i,
    {
        if a.get_char(i) != b.get_char(i) {
            return false;
        }
        i = i + 1;
    }
    proof {
        assert(a@ =~= b@);
    }
    true
}

/// Code-point order is transitive.
proof fn lemma_chars_trans(a: Seq<char>, b: Seq<char>, c: Seq<char>)
    requires
        chars_lt(a, b),
        chars_lt(b, c),
    ensures
        chars_lt(a, c),
    decreases a.len(),
{
    if a.len() == 0 {
    } else {
        if (a[0] as u32) < (b[0] as u32) {
            if (b[0] as u32) < (c[0] as u32) {
            } else {
                assert(b[0] as u32 == c[0] as u32);
            }
        } else {
            assert(a[0] as u32 == b[0] as u32);
            if (b[0] as u32) < (c[0] as u32) {
            } else {
                assert(b[0] as u32 == c[0] as u32);
                lemma_chars_trans(a.skip(1), b.skip(1), c.skip(1));
            }
        }
    }
}

/// Two texts with neither before the other are equal.
proof fn lemma_chars_total(a: Seq<char>, b: Seq<char>)
    requires
        !chars_lt(a, b),
        !chars_lt(b, a),
    ensures
        a == b,
    decreases a.len(),
{
    if b.len() == 0 {
        assert(a.len() == 0);
        assert(a =~= b);
    } else {
        assert(a.len() > 0);
        assert(a[0] as u32 == b[0] as u32);
        assert(a[0] == b[0]) by {
            vstd::utf8::char_u32_cast(a[0], a[0] as u32);
            vstd::utf8::char_u32_cast(b[0], b[0] as u32);
        }
        lemma_chars_total(a.skip(1), b.skip(1));
        assert(a =~= b) by {
            assert(a.skip(1).len() == b.skip(1).len());
            assert(a.len() == b.len());
            assert(forall|j: int|
                1 <= j < a.len() ==> a[j] == a.skip(1)[j - 1] && b[j] == b.skip(1)[j - 1]);
        }
    }
}

/// The map with `k` bound to `v`, keys kept in order; an existing binding of
/// the key is replaced.
pub open spec fn tag_put(m: Seq<(Seq<char>, Seq<char>)>, k: Seq<char>, v: Seq<char>) -> Seq<
    (Seq<char>, Seq<char>),
>
    decreases m.len(),
{
    if m.len() == 0 {
        seq![(k, v)]
    } else if chars_lt(k, m[0].0) {
        seq![(k, v)] + m
    } else if k == m[0].0 {
        seq![(k, v)] + m.skip(1)
    } else {
        seq![m[0]] + tag_put(m.skip(1), k, v)
    }
}

/// Keys strictly increasing: each key occurs once, in code-point order.
pub open spec fn tags_sorted(m: Seq<(Seq<char>, Seq<char>)>) -> bool {
    forall|i: int, j: int| 0 <= i < j < m.len() ==> chars_lt(m[i].0, m[j].0)
}

/// Whether the map binds the key.
pub open spec fn map_has(m: Seq<(Seq<char>, Seq<char>)>, k: Seq<char>) -> bool {
    exists|i: int| 0 <= i < m.len() && (#[trigger] m[i]).0 == k
}

/// Every key of the updated map is the new key or one of the old keys.
proof fn lemma_tag_put_keys(m: Seq<(Seq<char>, Seq<char>)>, k: Seq<char>, v: Seq<char>)
    ensures
        forall|i: int|
            0 <= i < tag_put(m, k, v).len() ==> (#[trigger] tag_put(m, k, v)[i]).0 == k
                || exists|j: int| 0 <= j < m.len() && m[j].0 == tag_put(m, k, v)[i].0,
        map_has(tag_put(m, k, v), k),
        forall|k2: Seq<char>| map_has(m, k2) ==> map_has(tag_put(m, k, v), k2),
    decreases m.len(),
{
    let r = tag_put(m, k, v);
    if m.len() == 0 {
        assert(r[0].0 == k);
        assert forall|k2: Seq<char>| map_has(m, k2) implies map_has(r, k2) by {}
    } else if chars_lt(k, m[0].0) {
        assert(r[0].0 == k);
        assert forall|i: int| 0 <= i < r.len() implies (#[trigger] r[i]).0 == k || exists|j: int|
            0 <= j < m.len() && m[j].0 == r[i].0 by {
            if i > 0 {
                assert(m[i - 1].0 == r[i].0);
            }
        }
        assert forall|k2: Seq<char>| map_has(m, k2) implies map_has(r, k2) by {
            if map_has(m, k2) {
                let j = choose|j: int| 0 <= j < m.len() && (#[trigger] m[j]).0 == k2;
                assert(r[j + 1].0 == k2);
            }
        }
    } else if k == m[0].0 {
        assert(r[0].0 == k);
        assert forall|i: int| 0 <= i < r.len() implies (#[trigger] r[i]).0 == k || exists|j: int|
            0 <= j < m.len() && m[j].0 == r[i].0 by {
            if i > 0 {
                assert(m[i].0 == r[i].0);
            }
        }
        assert forall|k2: Seq<char>| map_has(m, k2) implies map_has(r, k2) by {
            if map_has(m, k2) {
                let j = choose|j: int| 0 <= j < m.len() && (#[trigger] m[j]).0 == k2;
                if j == 0 {
                    assert(r[0].0 == k2);
                } else {
                    assert(r[j].0 == k2);
                }
            }
        }
    } else {
        lemma_tag_put_keys(m.skip(1), k, v);
        let rr = tag_put(m.skip(1), k, v);
        assert forall|i: int| 0 <= i < r.len() implies (#[trigger] r[i]).0 == k || exists|j: int|
            0 <= j < m.len() && m[j].0 == r[i].0 by {
            if i == 0 {
                assert(m[0].0 == r[0].0);
            } else {
                assert(r[i] == rr[i - 1]);
                if rr[i - 1].0 != k {
                    let j = choose|j: int|
                        0 <= j < m.skip(1).len() && (#[trigger] m.skip(1)[j]).0 == rr[i - 1].0;
                    assert(m[j + 1].0 == r[i].0);
                }
            }
        }
        assert(map_has(r, k)) by {
            let j = choose|j: int| 0 <= j < rr.len() && (#[trigger] rr[j]).0 == k;
            assert(r[j + 1].0 == k);
        }
        assert forall|k2: Seq<char>| map_has(m, k2) implies map_has(r, k2) by {
            if map_has(m, k2) {
                let j = choose|j: int| 0 <= j < m.len() && (#[trigger] m[j]).0 == k2;
                if j == 0 {
                    assert(r[0].0 == k2);
                } else {
                    assert(m.skip(1)[j - 1].0 == k2);
                    assert(map_has(m.skip(1), k2));
                    let j2 = choose|j2: int| 0 <= j2 < rr.len() && (#[trigger] rr[j2]).0 == k2;
                    assert(r[j2 + 1].0 == k2);
                }
            }
        }
    }
}

/// Updating a sorted tag map keeps it sorted.
pub proof fn lemma_tag_put_sorted(m: Seq<(Seq<char>, Seq<char>)>, k: Seq<char>, v: Seq<char>)
    requires
        tags_sorted(m),
    ensures
        tags_sorted(tag_put(m, k, v)),
        map_has(tag_put(m, k, v), k),
        forall|k2: Seq<char>| map_has(m, k2) ==> map_has(tag_put(m, k, v), k2),
    decreases m.len(),
{
    lemma_tag_put_keys(m, k, v);
    let r = tag_put(m, k, v);
    if m.len() == 0 {
    } else if chars_lt(k, m[0].0) {
        assert forall|i: int, j: int| 0 <= i < j < r.len() implies chars_lt(r[i].0, r[j].0) by {
            if i == 0 {
                if j == 1 {
                } else {
                    lemma_chars_trans(k, m[0].0, m[j - 1].0);
                }
            }
        }
    } else if k == m[0].0 {
        assert forall|i: int, j: int| 0 <= i < j < r.len() implies chars_lt(r[i].0, r[j].0) by {
            assert(r[j].0 == m[j].0);
            if i > 0 {
                assert(r[i].0 == m[i].0);
            }
        }
    } else {
        assert(chars_lt(m[0].0, k)) by {
            if !chars_lt(m[0].0, k) {
                lemma_chars_total(k, m[0].0);
            }
        }
        assert(tags_sorted(m.skip(1))) by {
            assert(forall|x: int, y: int|
                0 <= x < y < m.skip(1).len() ==> m.skip(1)[x] == m[x + 1] && m.skip(1)[y] == m[y
                    + 1]);
        }
        lemma_tag_put_sorted(m.skip(1), k, v);
        lemma_tag_put_keys(m.skip(1), k, v);
        let rr = tag_put(m.skip(1), k, v);
        assert forall|i: int, j: int| 0 <= i < j < r.len() implies chars_lt(r[i].0, r[j].0) by {
            if i == 0 {
                assert(r[j] == rr[j - 1]);
                if rr[j - 1].0 == k {
                } else {
                    let w = choose|w: int|
                        0 <= w < m.skip(1).len() && (#[trigger] m.skip(1)[w]).0 == rr[j - 1].0;
                    assert(m.skip(1)[w] == m[w + 1]);
                    assert(chars_lt(m[0].0, m[w + 1].0));
                }
            } else {
                assert(r[i] == rr[i - 1] && r[j] == rr[j - 1]);
            }
        }
    }
}

fn string_copy(s: &String) -> (r: String)
    ensures
        r@ == s@,
{
    String::from_str(s.as_str())
}

/// Bind a key in the tag map, keeping the sorted order; an existing binding
/// of the key is replaced.
pub fn tag_insert(tags: &mut StoreTags, key: String, val: String)
    ensures
        tags_view(final(tags)@) == tag_put(tags_view(old(tags)@), key@, val@),
{
    let ghost mv = tags_view(tags@);
    let mut out: StoreTags = Vec::new();
    let mut i: usize = 0;
    let mut placed: bool = false;
    proof {
        assert(mv.skip(0) =~= mv);
        assert(tags_view(out@) =~= Seq::<(Seq<char>, Seq<char>)>::empty());
        assert(Seq::<(Seq<char>, Seq<char>)>::empty() + tag_put(mv, key@, val@) =~= tag_put(
            mv,
            key@,
            val@,
        ));
    }
    while i < tags.len()
        invariant
            i <= tags@.len(),
            mv == tags_view(tags@),
            mv.len() == tags@.len(),
            tag_put(mv, key@, val@) == tags_view(out@) + if placed {
                mv.skip(i as int)
            } else {
                tag_put(mv.skip(i as int), key@, val@)
            },
        decreases tags@.len() - i,
    {
        let ghost pre = mv.skip(i as int);
        let ghost prevout = tags_view(out@);
        proof {
            assert(pre[0] == mv[i as int]);
            assert(pre.skip(1) =~= mv.skip(i + 1));
        }
        if placed {
            let kc = string_copy(&tags[i].0);
            let vc = string_copy(&tags[i].1);
            out.push((kc, vc));
            proof {
                assert(tags_view(out@) =~= prevout.push(mv[i as int]));
                assert(prevout.push(mv[i as int]) + mv.skip(i + 1) =~= prevout + mv.skip(
                    i as int,
                ));
            }
        } else if str_lt(key.as_str(), tags[i].0.as_str()) {
            let kc = string_copy(&key);
            let vc = string_copy(&val);
            out.push((kc, vc));
            let ghost midv = tags_view(out@);
            proof {
                assert(midv =~= prevout.push((key@, val@)));
            }
            let kc2 = string_copy(&tags[i].0);
            let vc2 = string_copy(&tags[i].1);
            out.push((kc2, vc2));
            placed = true;
            proof {
                assert(tag_put(pre, key@, val@) == seq![(key@, val@)] + pre);
                assert(tags_view(out@) =~= midv.push(mv[i as int]));
                assert(prevout + (seq![(key@, val@)] + pre) =~= tags_view(out@) + mv.skip(i + 1));
            }
        } else if str_eq(key.as_str(), tags[i].0.as_str()) {
            let kc = string_copy(&key);
            let vc = string_copy(&val);
            out.push((kc, vc));
            placed = true;
            proof {
                assert(tag_put(pre, key@, val@) == seq![(key@, val@)] + pre.skip(1));
                assert(tags_view(out@) =~= prevout.push((key@, val@)));
                assert(prevout + (seq![(key@, val@)] + pre.skip(1)) =~= tags_view(out@)
                    + mv.skip(i + 1));
            }
        } else {
            let kc = string_copy(&tags[i].0);
            let vc = string_copy(&tags[i].1);
            out.push((kc, vc));
            proof {
                assert(tag_put(pre, key@, val@) == seq![pre[0]] + tag_put(
                    pre.skip(1),
                    key@,
                    val@,
                ));
                assert(tags_view(out@) =~= prevout.push(mv[i as int]));
                assert(prevout + (seq![pre[0]] + tag_put(pre.skip(1), key@, val@)) =~= tags_view(
                    out@,
                ) + tag_put(mv.skip(i + 1), key@, val@));
            }
        }
        i = i + 1;
    }
    if !placed {
        let ghost prevout = tags_view(out@);
        out.push((key, val));
        proof {
            assert(mv.skip(mv.len() as int) =~= Seq::<(Seq<char>, Seq<char>)>::empty());
            assert(tag_put(Seq::<(Seq<char>, Seq<char>)>::empty(), key@, val@) == seq![
                (key@, val@),
            ]);
            assert(tags_view(out@) =~= prevout.push((key@, val@)));
            assert(prevout + seq![(key@, val@)] =~= tags_view(out@));
        }
    } else {
        proof {
            assert(mv.skip(mv.len() as int) =~= Seq::<(Seq<char>, Seq<char>)>::empty());
            assert(tags_view(out@) + Seq::<(Seq<char>, Seq<char>)>::empty() =~= tags_view(out@));
        }
    }
    *tags = out;
}

/// The first position of `=` in a character sequence; the length when there
/// is none.
pub open spec fn first_eq(s: Seq<char>, from: int) -> int
    decreases s.len() - from,
{
    if from < 0 || from >= s.len() {
        s.len() as int
    } else if s[from] == '=' {
        from
    } else {
        first_eq(s, from + 1)
    }
}

/// Split one `key=value` argument at its first `=`.
pub fn decode_tag(tag: &str) -> (r: (String, String))
    requires
        exists|i: int| 0 <= i < tag@.len() && tag@[i] == '=',
    ensures
        r.0@ == tag@.take(first_eq(tag@, 0)),
        r.1@ == tag@.skip(first_eq(tag@, 0) + 1),
{
    let n = tag.unicode_len();
    let mut p: usize = 0;
    while p < n && tag.get_char(p) != '='
        invariant
            p <= n,
            n as nat == tag@.len(),
            first_eq(tag@, 0) == first_eq(tag@, p as int),
            forall|j: int| 0 <= j < p ==> tag@[j] != '=',
        decreases n - p,
    {
        p = p + 1;
    }
    proof {
        if p < n {
            assert(first_eq(tag@, p as int) == p);
        } else {
            assert(first_eq(tag@, p as int) == tag@.len());
            let i = choose|i: int| 0 <= i < tag@.len() && tag@[i] == '=';
            assert(tag@[i] != '=');
        }
    }
    let key = tag.substring_char(0, p);
    let val = tag.substring_char(p + 1, n);
    proof {
        assert(key@ =~= tag@.take(p as int));
        assert(val@ =~= tag@.skip(p + 1));
    }
    (String::from_str(key), String::from_str(val))
}

/// The tag map an argument list builds: each argument split at its first
/// `=`, a later binding of a key replacing an earlier one.
pub open spec fn tags_fold(args: Seq<String>, i: int) -> Seq<(Seq<char>, Seq<char>)>
    decreases i,
{
    if i <= 0 {
        Seq::empty()
    } else {
        let s = args[i - 1]@;
        tag_put(tags_fold(args, i - 1), s.take(first_eq(s, 0)), s.skip(first_eq(s, 0) + 1))
    }
}

/// A folded tag map has its keys sorted and unique.
pub proof fn lemma_tags_fold_sorted(args: Seq<String>, i: int)
    ensures
        tags_sorted(tags_fold(args, i)),
    decreases i,
{
    if i <= 0 {
    } else {
        lemma_tags_fold_sorted(args, i - 1);
        let s = args[i - 1]@;
        lemma_tag_put_sorted(tags_fold(args, i - 1), s.take(first_eq(s, 0)), s.skip(
            first_eq(s, 0) + 1,
        ));
    }
}

/// Decode every `key=value` argument into a tag map: keys sorted, each key
/// bound once, to the value of its last argument.
pub fn decode_tags(tags: &Vec<String>) -> (r: StoreTags)
    requires
        forall|k: int|
            0 <= k < tags@.len() ==> exists|i: int|
                0 <= i < (#[trigger] tags@[k])@.len() && tags@[k]@[i] == '=',
    ensures
        tags_view(r@) == tags_fold(tags@, tags@.len() as int),
        tags_sorted(tags_view(r@)),
{
    let mut out: StoreTags = Vec::new();
    let mut k: usize = 0;
    proof {
        assert(tags_view(out@) =~= Seq::<(Seq<char>, Seq<char>)>::empty());
    }
    #[verifier::loop_isolation(false)]
    while k < tags.len()
        invariant
            k <= tags@.len(),
            tags_view(out@) == tags_fold(tags@, k as int),
        decreases tags@.len() - k,
    {
        let pair = decode_tag(tags[k].as_str());
        let (key, val) = pair;
        tag_insert(&mut out, key, val);
        k = k + 1;
    }
    proof {
        lemma_tags_fold_sorted(tags@, tags@.len() as int);
    }
    out
}

fn tags_have_key(tags: &StoreTags, key: &str) -> (r: bool)
    ensures
        r == map_has(tags_view(tags@), key@),
{
    let mut i: usize = 0;
    while i < tags.len()
        invariant
            i <= tags@.len(),
            forall|j: int| 0 <= j < i ==> (#[trigger] tags_view(tags@)[j]).0 != key@,
        decreases tags@.len() - i,
    {
        proof {
            assert(tags_view(tags@)[i as int].0 == tags@[i as int].0@);
        }
        if str_eq(tags[i].0.as_str(), key) {
            return true;
        }
        i = i + 1;
    }
    false
}

/// Relies on chrono::Local::now and to_rfc3339: the wall clock as a text
/// stamp. Nothing is promised of the value; it is the machine's clock.
#[verifier::external_body]
fn now_rfc3339() -> (r: String) {
    chrono::Local::now().to_rfc3339()
}

/// The map with the scan directory filled in when it was absent.
pub open spec fn with_dir(m: Seq<(Seq<char>, Seq<char>)>, dir: Seq<char>) -> Seq<
    (Seq<char>, Seq<char>),
> {
    if map_has(m, "dir"@) {
        m
    } else {
        tag_put(m, "dir"@, dir)
    }
}

/// Give the tag map a `name` (the current time stamp, when none was given)
/// and a `dir` (the given text, when none was given), by the map's own
/// insertion. Only the stamp's text is left open: it is the clock's.
pub fn add_name_tag(tags: &mut StoreTags, dir: String)
    ensures
        map_has(tags_view(old(tags)@), "name"@) ==> tags_view(final(tags)@) == with_dir(
            tags_view(old(tags)@),
            dir@,
        ),
        !map_has(tags_view(old(tags)@), "name"@) ==> exists|stamp: Seq<char>|
            tags_view(final(tags)@) == with_dir(
                #[trigger] tag_put(tags_view(old(tags)@), "name"@, stamp),
                dir@,
            ),
        map_has(tags_view(final(tags)@), "name"@),
        map_has(tags_view(final(tags)@), "dir"@),
{
    let ghost m0 = tags_view(tags@);
    let had_name = tags_have_key(tags, "name");
    if !had_name {
        let stamp = now_rfc3339();
        let ghost sv = stamp@;
        tag_insert(tags, String::from_str("name"), stamp);
        proof {
            lemma_tag_put_keys(m0, "name"@, sv);
            assert(tags_view(tags@) == tag_put(m0, "name"@, sv));
        }
    }
    let ghost m1 = tags_view(tags@);
    proof {
        assert(map_has(m1, "name"@));
    }
    let had_dir = tags_have_key(tags, "dir");
    if !had_dir {
        tag_insert(tags, String::from_str("dir"), dir);
        proof {
            lemma_tag_put_keys(m1, "dir"@, dir@);
        }
    }
    proof {
        assert(tags_view(tags@) == with_dir(m1, dir@));
        assert(map_has(tags_view(tags@), "name"@)) by {
            if had_dir {
            } else {
                lemma_tag_put_keys(m1, "dir"@, dir@);
            }
        }
        assert(map_has(tags_view(tags@), "dir"@)) by {
            if !had_dir {
                lemma_tag_put_keys(m1, "dir"@, dir@);
            }
        }
    }
}

/// Relies on chrono: an epoch second count shown in the machine's local time
/// zone. The text depends on the zone, so nothing more is promised.
#[verifier::external_body]
fn format_local(secs: i64) -> (r: String) {
    match <chrono::Local as chrono::TimeZone>::timestamp_opt(&chrono::Local, secs, 0) {
        chrono::LocalResult::Single(t) => format!("{}", t.format("%Y-%m-%d %H:%M:%S")),
        chrono::LocalResult::Ambiguous(t, _) => format!("{}", t.format("%Y-%m-%d %H:%M:%S")),
        chrono::LocalResult::None => String::new(),
    }
}

/// One version held in a store, as shown to the user.
pub struct StoreVersion {
    pub version: crate::Version,
    pub time: i64,
    pub name: String,
}

/// The text padded with spaces to at least four characters.
pub open spec fn pad4(s: Seq<char>) -> Seq<char>
    decreases 4 - s.len(),
{
    if s.len() >= 4 {
        s
    } else {
        pad4(s.push(' '))
    }
}

/// The version column of a listing row.
pub open spec fn version_label(v: crate::Version) -> Seq<char> {
    match v {
        crate::Version::Latest => "tip"@,
        crate::Version::Prior => "prev"@,
        crate::Version::Tagged(s) => s@,
    }
}

/// One listing row: the padded version label, the time stamp, the name,
/// separated by ` | `.
pub open spec fn row_chars(v: crate::Version, stamp: Seq<char>, name: Seq<char>) -> Seq<char> {
    pad4(version_label(v)) + " | "@ + stamp + " | "@ + name
}

/// Write one listing row for a version and a drawn time stamp.
pub fn format_row(v: &crate::Version, stamp: &str, name: &str) -> (r: String)
    ensures
        r@ == row_chars(*v, stamp@, name@),
{
    let mut label = match v {
        crate::Version::Latest => String::from_str("tip"),
        crate::Version::Prior => String::from_str("prev"),
        crate::Version::Tagged(s) => string_copy(s),
    };
    let mut n = label.as_str().unicode_len();
    while n < 4
        invariant
            n as nat == label@.len(),
            pad4(version_label(*v)) == pad4(label@),
        decreases 4 - n,
    {
        let ghost prev = label@;
        label.append(" ");
        proof {
            reveal_strlit(" ");
            assert(" "@ =~= seq![' ']);
            assert(label@ =~= prev.push(' '));
        }
        n = n + 1;
    }
    proof {
        assert(pad4(label@) == label@);
    }
    let mut row = label;
    row.append(" | ");
    row.append(stamp);
    row.append(" | ");
    row.append(name);
    proof {
        assert(row@ =~= row_chars(*v, stamp@, name@));
    }
    row
}

/// The mathematical form of a list of lines of text.
pub open spec fn strs_view(s: Seq<String>) -> Seq<Seq<char>> {
    s.map_values(|x: String| x@)
}

/// The listing of a store's versions: the two fixed heading lines, then one
/// row for each version in the order given, each row showing that version's
/// label and name around a drawn clock text.
pub fn format_versions(versions: &Vec<StoreVersion>) -> (r: Vec<String>)
    ensures
        exists|stamps: Seq<Seq<char>>|
            #![trigger stamps.len()]
            stamps.len() == versions@.len() && strs_view(r@) == seq![
                "vers | Time captured       | name"@,
                "-----+---------------------+------------------"@,
            ] + Seq::new(
                versions@.len(),
                |m: int| row_chars(versions@[m].version, stamps[m], versions@[m].name@),
            ),
{
    let mut out: Vec<String> = Vec::new();
    out.push(String::from_str("vers | Time captured       | name"));
    out.push(String::from_str("-----+---------------------+------------------"));
    let ghost heads: Seq<Seq<char>> = seq![
        "vers | Time captured       | name"@,
        "-----+---------------------+------------------"@,
    ];
    let ghost mut stamps: Seq<Seq<char>> = Seq::empty();
    proof {
        assert(strs_view(out@) =~= heads);
        assert(strs_view(out@) =~= heads + Seq::new(
            0nat,
            |m: int| row_chars(versions@[m].version, stamps[m], versions@[m].name@),
        ));
    }
    let mut i: usize = 0;
    while i < versions.len()
        invariant
            i <= versions@.len(),
            stamps.len() == i,
            heads == seq![
                "vers | Time captured       | name"@,
                "-----+---------------------+------------------"@,
            ],
            strs_view(out@) == heads + Seq::new(
                i as nat,
                |m: int| row_chars(versions@[m].version, stamps[m], versions@[m].name@),
            ),
        decreases versions@.len() - i,
    {
        let stamp = format_local(versions[i].time);
        let row = format_row(&versions[i].version, stamp.as_str(), versions[i].name.as_str());
        let ghost sv = stamp@;
        let ghost rv = row@;
        let ghost prevstamps = stamps;
        let ghost prevseq = strs_view(out@);
        out.push(row);
        proof {
            stamps = stamps.push(sv);
            assert(strs_view(out@) =~= prevseq.push(rv));
            assert(rv == row_chars(versions@[i as int].version, stamps[i as int], versions@[
                i as int].name@));
            assert(strs_view(out@) =~= heads + Seq::new(
                (i + 1) as nat,
                |m: int| row_chars(versions@[m].version, stamps[m], versions@[m].name@),
            )) by {
                assert(forall|m: int|
                    0 <= m < i ==> prevstamps[m] == stamps[m]);
            }
        }
        i = i + 1;
    }
    proof {
        assert(stamps.len() == versions@.len() && strs_view(out@) == seq![
            "vers | Time captured       | name"@,
            "-----+---------------------+------------------"@,
        ] + Seq::new(
            versions@.len(),
            |m: int| row_chars(versions@[m].version, stamps[m], versions@[m].name@),
        ));
    }
    out
}

} // verus!
