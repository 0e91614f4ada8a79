use vstd::prelude::*;

verus! {

/// Strict byte-lexicographic order.
pub open spec fn lex_lt(a: Seq<u8>, b: Seq<u8>) -> bool
    decreases a.len(),
{
    if b.len() == 0 {
        false
    } else if a.len() == 0 {
        true
    } else if a[0] < b[0] {
        true
    } else if a[0] > b[0] {
        false
    } else {
        lex_lt(a.skip(1), b.skip(1))
    }
}

/// Compare two byte strings in byte-lexicographic order.
pub fn lex_lt_bytes(a: &Vec<u8>, b: &Vec<u8>) -> (r: bool)
    ensures
        r == lex_lt(a@, b@),
{
    let mut i: usize = 0;
    proof {
        assert(a@.skip(0) =~= a@);
        assert(b@.skip(0) =~= b@);
    }
    while i < a.len() && i < b.len()
        invariant
            i <= a.len() && i <= b.len(),
            lex_lt(a@, b@) == lex_lt(a@.skip(i as int), b@.skip(i as int)),
            forall|j: int| 0 <= j < i ==> a@[j] == b@[j],
        decreases a.len() - i,
    {
        let x = a[i];
        let y = b[i];
        if x < y {
            assert(a@.skip(i as int)[0] == x && b@.skip(i as int)[0] == y);
            return true;
        }
        if x > y {
            assert(a@.skip(i as int)[0] == x && b@.skip(i as int)[0] == y);
            return false;
        }
        proof {
            assert(a@.skip(i as int)[0] == x && b@.skip(i as int)[0] == y);
            assert(a@.skip(i as int).skip(1) =~= a@.skip(i + 1));
            assert(b@.skip(i as int).skip(1) =~= b@.skip(i + 1));
        }
        i = i + 1;
    }
    let r = a.len() < b.len();
    proof {
        assert(a@.skip(i as int).len() == a@.len() - i);
        assert(b@.skip(i as int).len() == b@.len() - i);
    }
    r
}

/// The parts joined with a one-byte separator between them; empty for no
/// parts.
pub open spec fn join_bytes(parts: Seq<Seq<u8>>, sep: u8) -> Seq<u8>
    decreases parts.len(),
{
    if parts.len() == 0 {
        Seq::empty()
    } else if parts.len() == 1 {
        parts[0]
    } else {
        parts[0] + seq![sep] + join_bytes(parts.skip(1), sep)
    }
}

/// The split of a byte string at every separator; one (possibly empty) part
/// more than there are separators.
pub open spec fn split_bytes(s: Seq<u8>, sep: u8) -> Seq<Seq<u8>>
    decreases s.len() via split_bytes_dec
{
    if forall|j: int| 0 <= j < s.len() ==> s[j] != sep {
        seq![s]
    } else {
        let i = first_sep(s, sep, 0);
        seq![s.take(i)] + split_bytes(s.skip(i + 1), sep)
    }
}

#[via_fn]
proof fn split_bytes_dec(s: Seq<u8>, sep: u8) {
    lemma_first_sep_bounds(s, sep, 0);
    if !(forall|j: int| 0 <= j < s.len() ==> s[j] != sep) {
        let i = first_sep(s, sep, 0);
        if i >= s.len() {
            assert(forall|j: int| 0 <= j < s.len() ==> s[j] != sep);
        }
    }
}

/// The first separator position at or after `from`.
pub open spec fn first_sep(s: Seq<u8>, sep: u8, from: int) -> int
    decreases s.len() - from,
{
    if from < 0 || from >= s.len() {
        s.len() as int
    } else if s[from] == sep {
        from
    } else {
        first_sep(s, sep, from + 1)
    }
}

pub proof fn lemma_first_sep_bounds(s: Seq<u8>, sep: u8, from: int)
    requires
        0 <= from <= s.len(),
    ensures
        from <= first_sep(s, sep, from) <= s.len(),
        forall|j: int| from <= j < first_sep(s, sep, from) ==> s[j] != sep,
        first_sep(s, sep, from) < s.len() ==> s[first_sep(s, sep, from)] == sep,
    decreases s.len() - from,
{
    if from >= s.len() {
    } else if s[from] == sep {
    } else {
        lemma_first_sep_bounds(s, sep, from + 1);
    }
}

/// Splitting undoes joining, for parts that hold no separator.
pub proof fn lemma_split_join(parts: Seq<Seq<u8>>, sep: u8)
    requires
        parts.len() > 0,
        forall|i: int, j: int|
            0 <= i < parts.len() && 0 <= j < parts[i].len() ==> #[trigger] parts[i][j] != sep,
    ensures
        split_bytes(join_bytes(parts, sep), sep) == parts,
    decreases parts.len(),
{
    let s = join_bytes(parts, sep);
    if parts.len() == 1 {
        assert(s == parts[0]);
        assert(forall|j: int| 0 <= j < s.len() ==> s[j] != sep);
        assert(split_bytes(s, sep) =~= parts);
    } else {
        let rest = join_bytes(parts.skip(1), sep);
        assert(s == parts[0] + seq![sep] + rest);
        let p0 = parts[0];
        assert(s[p0.len() as int] == sep);
        assert(!(forall|j: int| 0 <= j < s.len() ==> s[j] != sep));
        assert(forall|j: int| 0 <= j < p0.len() ==> s[j] == p0[j] && s[j] != sep);
        lemma_first_sep_bounds(s, sep, 0);
        let i = first_sep(s, sep, 0);
        assert(i <= p0.len()) by {
            if i > p0.len() {
                assert(s[p0.len() as int] != sep);
            }
        }
        assert(i >= p0.len()) by {
            if i < p0.len() {
                assert(s[i] == sep);
                assert(s[i] != sep);
            }
        }
        assert(s.take(i) =~= p0);
        assert(s.skip(i + 1) =~= rest);
        lemma_split_join(parts.skip(1), sep);
        assert(seq![p0] + parts.skip(1) =~= parts);
    }
}

/// Join byte strings with a separator byte.
pub fn join(parts: &Vec<Vec<u8>>, sep: u8) -> (r: Vec<u8>)
    ensures
        r@ == join_bytes(crate::weave::lines_view(parts@), sep),
{
    let ghost pv = crate::weave::lines_view(parts@);
    let mut out: Vec<u8> = Vec::new();
    let mut i: usize = 0;
    while i < parts.len()
        invariant
            i <= parts.len(),
            pv == crate::weave::lines_view(parts@),
            out@ == if i == 0 {
                Seq::<u8>::empty()
            } else if i < parts.len() {
                join_bytes(pv.take(i as int), sep) + seq![sep]
            } else {
                join_bytes(pv, sep)
            },
        decreases parts.len() - i,
    {
        let ghost prevo = out@;
        let mut k: usize = 0;
        let part = &parts[i];
        while k < part.len()
            invariant
                k <= part.len(),
                out@ == prevo + part@.take(k as int),
            decreases part.len() - k,
        {
            out.push(part[k]);
            proof {
                assert(out@ =~= prevo + part@.take(k + 1));
            }
            k = k + 1;
        }
        proof {
            assert(part@.take(part@.len() as int) =~= part@);
            assert(pv[i as int] == part@);
        }
        proof {
            lemma_join_take_step(pv, sep, i as int);
            if i == 0 {
                assert(out@ =~= join_bytes(pv.take(1), sep));
            } else {
                assert(out@ =~= join_bytes(pv.take(i + 1), sep));
            }
        }
        if i + 1 < parts.len() {
            out.push(sep);
        } else {
            proof {
                assert(pv.take(i + 1) =~= pv);
            }
        }
        i = i + 1;
    }
    proof {
        if parts.len() == 0 {
            assert(pv =~= Seq::<Seq<u8>>::empty());
        }
    }
    out
}

/// Appending one more part extends the join by a separator and the part.
proof fn lemma_join_take_step(pv: Seq<Seq<u8>>, sep: u8, i: int)
    requires
        0 <= i < pv.len(),
    ensures
        i == 0 ==> join_bytes(pv.take(1), sep) == pv[0],
        i > 0 ==> join_bytes(pv.take(i + 1), sep) == join_bytes(pv.take(i), sep) + seq![sep]
            + pv[i],
    decreases i,
{
    if i == 0 {
        assert(pv.take(1).len() == 1);
        assert(pv.take(1)[0] == pv[0]);
    } else {
        lemma_join_take_step(pv, sep, i - 1);
        lemma_join_snoc(pv.take(i + 1), sep);
        assert(pv.take(i + 1).drop_last() =~= pv.take(i));
        assert(pv.take(i + 1).last() == pv[i]);
    }
}

/// A join ends with its last part.
proof fn lemma_join_snoc(pv: Seq<Seq<u8>>, sep: u8)
    requires
        pv.len() >= 2,
    ensures
        join_bytes(pv, sep) == join_bytes(pv.drop_last(), sep) + seq![sep] + pv.last(),
    decreases pv.len(),
{
    if pv.len() == 2 {
        assert(pv.skip(1) =~= seq![pv[1]]);
        assert(join_bytes(pv.skip(1), sep) == pv[1]) by {
            assert(pv.skip(1).len() == 1);
            assert(pv.skip(1)[0] == pv[1]);
        }
        assert(pv.drop_last() =~= seq![pv[0]]);
        assert(join_bytes(pv.drop_last(), sep) == pv[0]) by {
            assert(pv.drop_last().len() == 1);
            assert(pv.drop_last()[0] == pv[0]);
        }
    } else {
        lemma_join_snoc(pv.skip(1), sep);
        assert(pv.skip(1).drop_last() =~= pv.drop_last().skip(1));
        assert(pv.skip(1).last() == pv.last());
        assert(join_bytes(pv, sep) == pv[0] + seq![sep] + join_bytes(pv.skip(1), sep));
        assert(pv.drop_last()[0] == pv[0]);
        assert(pv.drop_last().len() >= 2);
        assert(join_bytes(pv.drop_last(), sep) == pv.drop_last()[0] + seq![sep] + join_bytes(
            pv.drop_last().skip(1),
            sep,
        ));
        assert(pv[0] + seq![sep] + (join_bytes(pv.drop_last().skip(1), sep) + seq![sep]
            + pv.last()) =~= (pv[0] + seq![sep] + join_bytes(pv.drop_last().skip(1), sep))
            + seq![sep] + pv.last());
    }
}

/// A separator-free head part splits off whole.
proof fn lemma_split_head(a: Seq<u8>, rest: Seq<u8>, sep: u8)
    requires
        forall|j: int| 0 <= j < a.len() ==> a[j] != sep,
    ensures
        split_bytes(a + seq![sep] + rest, sep) == seq![a] + split_bytes(rest, sep),
{
    let s = a + seq![sep] + rest;
    assert(s[a.len() as int] == sep);
    assert(!(forall|j: int| 0 <= j < s.len() ==> s[j] != sep));
    lemma_first_sep_bounds(s, sep, 0);
    let i = first_sep(s, sep, 0);
    assert(forall|j: int| 0 <= j < a.len() ==> s[j] == a[j] && s[j] != sep);
    assert(i <= a.len()) by {
        if i > a.len() {
            assert(s[a.len() as int] != sep);
        }
    }
    assert(i >= a.len()) by {
        if i < a.len() {
            assert(s[i] == sep);
            assert(s[i] != sep);
        }
    }
    assert(s.take(i) =~= a);
    assert(s.skip(i + 1) =~= rest);
}

/// Split a byte string at every separator byte.
pub fn split(s: &Vec<u8>, sep: u8) -> (r: Vec<Vec<u8>>)
    ensures
        crate::weave::lines_view(r@) == split_bytes(s@, sep),
{
    let mut out: Vec<Vec<u8>> = Vec::new();
    let mut cur: Vec<u8> = Vec::new();
    let mut i: usize = 0;
    proof {
        assert(cur@ + s@.skip(0) =~= s@);
        assert(crate::weave::lines_view(out@) =~= Seq::<Seq<u8>>::empty());
        assert(Seq::<Seq<u8>>::empty() + split_bytes(s@, sep) =~= split_bytes(s@, sep));
    }
    while i < s.len()
        invariant
            i <= s.len(),
            forall|j: int| 0 <= j < cur@.len() ==> cur@[j] != sep,
            split_bytes(s@, sep) == crate::weave::lines_view(out@) + split_bytes(
                cur@ + s@.skip(i as int),
                sep,
            ),
        decreases s.len() - i,
    {
        let b = s[i];
        let ghost pre = cur@ + s@.skip(i as int);
        proof {
            assert(pre[cur@.len() as int] == s@[i as int]);
        }
        if b == sep {
            let ghost prevout = crate::weave::lines_view(out@);
            let ghost oldcur = cur@;
            proof {
                assert(pre =~= oldcur + seq![sep] + s@.skip(i + 1));
                lemma_split_head(oldcur, s@.skip(i + 1), sep);
            }
            let done = cur;
            cur = Vec::new();
            out.push(done);
            proof {
                assert(crate::weave::lines_view(out@) =~= prevout + seq![oldcur]);
                assert((prevout + seq![oldcur]) + split_bytes(s@.skip(i + 1), sep) =~= prevout + (
                seq![oldcur] + split_bytes(s@.skip(i + 1), sep)));
                assert(cur@ + s@.skip(i + 1) =~= s@.skip(i + 1));
            }
        } else {
            cur.push(b);
            proof {
                assert(cur@ + s@.skip(i + 1) =~= pre);
            }
        }
        i = i + 1;
    }
    proof {
        assert(cur@ + s@.skip(s@.len() as int) =~= cur@);
        assert(split_bytes(cur@, sep) =~= seq![cur@]);
    }
    let ghost prevout = crate::weave::lines_view(out@);
    out.push(cur);
    proof {
        assert(crate::weave::lines_view(out@) =~= split_bytes(s@, sep));
    }
    out
}


/// The lines of a text file: split at every line break, one trailing break
/// ending the last line rather than opening an empty one.
pub open spec fn file_lines(s: Seq<u8>) -> Seq<Seq<u8>> {
    if s.len() > 0 && s.last() == 0x0a {
        split_bytes(s.drop_last(), 0x0a)
    } else {
        split_bytes(s, 0x0a)
    }
}

/// Split a file's bytes into its lines.
pub fn split_file_lines(raw: &Vec<u8>) -> (r: Vec<Vec<u8>>)
    ensures
        crate::weave::lines_view(r@) == file_lines(raw@),
{
    let n = raw.len();
    if n > 0 && raw[n - 1] == 0x0a {
        let body = crate::serial::copy_range(raw, 0, n - 1);
        proof {
            assert(body@ =~= raw@.drop_last());
        }
        split(&body, 0x0a)
    } else {
        split(raw, 0x0a)
    }
}

} // verus!
