use vstd::prelude::*;

use crate::SureError;

verus! {

/// One line of a weave body: an insert, delete or end control marker carrying
/// the delta number that introduced it, or a plain content line.
pub enum WeaveLine {
    Insert(u64),
    Delete(u64),
    End(u64),
    Plain(Vec<u8>),
}

/// The mathematical form of a weave body line.
pub enum WLine {
    Insert(u64),
    Delete(u64),
    End(u64),
    Plain(Seq<u8>),
}

pub open spec fn line_view(l: WeaveLine) -> WLine {
    match l {
        WeaveLine::Insert(n) => WLine::Insert(n),
        WeaveLine::Delete(n) => WLine::Delete(n),
        WeaveLine::End(n) => WLine::End(n),
        WeaveLine::Plain(v) => WLine::Plain(v@),
    }
}

pub open spec fn body_view(b: Seq<WeaveLine>) -> Seq<WLine> {
    b.map_values(|l: WeaveLine| line_view(l))
}

/// The mathematical form of a list of byte lines.
pub open spec fn lines_view(v: Seq<Vec<u8>>) -> Seq<Seq<u8>> {
    v.map_values(|x: Vec<u8>| x@)
}

/// A block-stack entry: `true` for an insert block, `false` for a delete
/// block, with the delta number that opened it.
pub type Block = (bool, u64);

/// A body line is kept for target `t` when some enclosing insert block was
/// introduced at or before `t` and no enclosing delete block was.
pub open spec fn block_keep(stack: Seq<Block>, t: u64) -> bool {
    &&& exists|j: int| 0 <= j < stack.len() && (#[trigger] stack[j]).0 && stack[j].1 <= t
    &&& forall|j: int| 0 <= j < stack.len() && !(#[trigger] stack[j]).0 ==> stack[j].1 > t
}

/// The weave traversal machine: runs the body from a given block stack and
/// returns the lines kept for target `t` together with the final stack.
/// An end marker on an empty stack leaves the stack empty.
pub open spec fn run(body: Seq<WLine>, stack: Seq<Block>, t: u64) -> (Seq<Seq<u8>>, Seq<Block>)
    decreases body.len(),
{
    if body.len() == 0 {
        (Seq::empty(), stack)
    } else {
        match body[0] {
            WLine::Insert(n) => run(body.skip(1), stack.push((true, n)), t),
            WLine::Delete(n) => run(body.skip(1), stack.push((false, n)), t),
            WLine::End(n) => run(
                body.skip(1),
                if stack.len() > 0 {
                    stack.drop_last()
                } else {
                    stack
                },
                t,
            ),
            WLine::Plain(l) => {
                let rest = run(body.skip(1), stack, t);
                if block_keep(stack, t) {
                    (seq![l] + rest.0, rest.1)
                } else {
                    rest
                }
            },
        }
    }
}

/// The content of a weave body for target delta `t`.
pub open spec fn extract(body: Seq<WLine>, t: u64) -> Seq<Seq<u8>> {
    run(body, Seq::empty(), t).0
}

/// Well-formedness of a body from a given stack: every end marker matches the
/// nearest open block, and every block is closed by the end.
pub open spec fn wf_from(body: Seq<WLine>, stack: Seq<Block>) -> bool
    decreases body.len(),
{
    if body.len() == 0 {
        stack.len() == 0
    } else {
        match body[0] {
            WLine::Insert(n) => wf_from(body.skip(1), stack.push((true, n))),
            WLine::Delete(n) => wf_from(body.skip(1), stack.push((false, n))),
            WLine::End(n) => stack.len() > 0 && stack.last().1 == n && wf_from(
                body.skip(1),
                stack.drop_last(),
            ),
            WLine::Plain(_) => wf_from(body.skip(1), stack),
        }
    }
}

pub open spec fn wf_body(body: Seq<WLine>) -> bool {
    wf_from(body, Seq::empty())
}

/// Every control marker of the body carries a delta number at most `m`.
pub open spec fn nums_le(body: Seq<WLine>, m: u64) -> bool {
    forall|j: int| 0 <= j < body.len() ==> match #[trigger] body[j] {
        WLine::Insert(n) => n <= m,
        WLine::Delete(n) => n <= m,
        WLine::End(n) => n <= m,
        WLine::Plain(_) => true,
    }
}

/// Running a concatenation runs the two parts in order, threading the stack.
pub proof fn lemma_run_append(a: Seq<WLine>, b: Seq<WLine>, stack: Seq<Block>, t: u64)
    ensures
        run(a + b, stack, t).0 == run(a, stack, t).0 + run(b, run(a, stack, t).1, t).0,
        run(a + b, stack, t).1 == run(b, run(a, stack, t).1, t).1,
    decreases a.len(),
{
    if a.len() == 0 {
        assert(a + b =~= b);
        assert(run(a, stack, t).0 + run(b, stack, t).0 =~= run(b, stack, t).0);
    } else {
        assert((a + b).skip(1) =~= a.skip(1) + b);
        match a[0] {
            WLine::Insert(n) => {
                lemma_run_append(a.skip(1), b, stack.push((true, n)), t);
            },
            WLine::Delete(n) => {
                lemma_run_append(a.skip(1), b, stack.push((false, n)), t);
            },
            WLine::End(n) => {
                let st2 = if stack.len() > 0 {
                    stack.drop_last()
                } else {
                    stack
                };
                lemma_run_append(a.skip(1), b, st2, t);
            },
            WLine::Plain(l) => {
                lemma_run_append(a.skip(1), b, stack, t);
                if block_keep(stack, t) {
                    assert(seq![l] + (run(a.skip(1), stack, t).0 + run(
                        b,
                        run(a.skip(1), stack, t).1,
                        t,
                    ).0) =~= (seq![l] + run(a.skip(1), stack, t).0) + run(
                        b,
                        run(a.skip(1), stack, t).1,
                        t,
                    ).0);
                }
            },
        }
    }
}

/// A run of plain lines alone neither opens nor closes blocks; its output is
/// all of the lines or none, by the stack it starts from.
pub open spec fn plains(c: Seq<Seq<u8>>) -> Seq<WLine> {
    c.map_values(|l: Seq<u8>| WLine::Plain(l))
}

pub proof fn lemma_run_plains(c: Seq<Seq<u8>>, stack: Seq<Block>, t: u64)
    ensures
        run(plains(c), stack, t).1 == stack,
        block_keep(stack, t) ==> run(plains(c), stack, t).0 == c,
        !block_keep(stack, t) ==> run(plains(c), stack, t).0 == Seq::<Seq<u8>>::empty(),
    decreases c.len(),
{
    if c.len() == 0 {
        assert(plains(c) =~= Seq::<WLine>::empty());
    } else {
        lemma_run_plains(c.skip(1), stack, t);
        assert(plains(c)[0] == WLine::Plain(c[0]));
        assert(plains(c).skip(1) =~= plains(c.skip(1)));
        if block_keep(stack, t) {
            assert(seq![c[0]] + c.skip(1) =~= c);
        }
    }
}

/// The body of a brand-new weave: the whole content inside one insert block
/// for delta one.
pub open spec fn first_body(c: Seq<Seq<u8>>) -> Seq<WLine> {
    seq![WLine::Insert(1u64)] + plains(c) + seq![WLine::End(1u64)]
}

/// A new weave's body is well formed, mentions no delta beyond one, and
/// yields exactly the written content for every target at or past one.
pub proof fn lemma_first_body(c: Seq<Seq<u8>>, t: u64)
    ensures
        wf_body(first_body(c)),
        nums_le(first_body(c), 1),
        t >= 1 ==> extract(first_body(c), t) == c,
{
    let fb = first_body(c);
    let st1: Seq<Block> = seq![(true, 1u64)];
    let tail = plains(c) + seq![WLine::End(1u64)];
    assert(fb[0] == WLine::Insert(1u64));
    assert(fb.skip(1) =~= tail);
    assert(Seq::<Block>::empty().push((true, 1u64)) =~= st1);

    // well-formedness of the tail, by induction through the plains
    lemma_wf_plains_end(c, st1);
    assert(wf_body(fb));

    assert forall|j: int| 0 <= j < fb.len() implies match #[trigger] fb[j] {
        WLine::Insert(n) => n <= 1,
        WLine::Delete(n) => n <= 1,
        WLine::End(n) => n <= 1,
        WLine::Plain(_) => true,
    } by {
        if j == 0 {
        } else if j == fb.len() - 1 {
            assert(fb[j] == WLine::End(1u64));
        } else {
            assert(fb[j] == plains(c)[j - 1]);
            assert(plains(c)[j - 1] == WLine::Plain(c[j - 1]));
        }
    }

    if t >= 1 {
        lemma_run_append(plains(c), seq![WLine::End(1u64)], st1, t);
        lemma_run_plains(c, st1, t);
        assert(block_keep(st1, t)) by {
            assert(st1[0].0 && st1[0].1 <= t);
        }
        assert(plains(c) + seq![WLine::End(1u64)] =~= tail);
        let e = seq![WLine::End(1u64)];
        assert(e[0] == WLine::End(1u64));
        assert(e.skip(1) =~= Seq::<WLine>::empty());
        assert(run(e.skip(1), st1.drop_last(), t).0 =~= Seq::<Seq<u8>>::empty());
        assert(run(e, st1, t).0 =~= Seq::<Seq<u8>>::empty());
        assert(extract(fb, t) =~= run(tail, st1, t).0);
        assert(run(tail, st1, t).0 =~= c + Seq::<Seq<u8>>::empty());
        assert(c + Seq::<Seq<u8>>::empty() =~= c);
    }
}

pub proof fn lemma_wf_plains_end(c: Seq<Seq<u8>>, stack: Seq<Block>)
    requires
        stack.len() == 1,
    ensures
        wf_from(plains(c) + seq![WLine::End(stack.last().1)], stack),
    decreases c.len(),
{
    let tail = plains(c) + seq![WLine::End(stack.last().1)];
    if c.len() == 0 {
        assert(tail =~= seq![WLine::End(stack.last().1)]);
        assert(tail[0] == WLine::End(stack.last().1));
        assert(tail.skip(1) =~= Seq::<WLine>::empty());
        assert(stack.drop_last() =~= Seq::<Block>::empty());
        assert(wf_from(tail.skip(1), stack.drop_last()));
        assert(wf_from(tail, stack));
    } else {
        lemma_wf_plains_end(c.skip(1), stack);
        assert(tail[0] == WLine::Plain(c[0]));
        assert(tail.skip(1) =~= plains(c.skip(1)) + seq![WLine::End(stack.last().1)]);
        assert(wf_from(tail.skip(1), stack));
        assert(wf_from(tail, stack));
    }
}

pub fn keep_now(stack: &Vec<(bool, u64)>, t: u64) -> (r: bool)
    ensures
        r == block_keep(stack@, t),
{
    let mut has_ins: bool = false;
    let mut has_del: bool = false;
    let mut j: usize = 0;
    while j < stack.len()
        invariant
            j <= stack.len(),
            has_ins == exists|k: int| 0 <= k < j && (#[trigger] stack@[k]).0 && stack@[k].1 <= t,
            has_del == exists|k: int| 0 <= k < j && !(#[trigger] stack@[k]).0 && stack@[k].1 <= t,
        decreases stack.len() - j,
    {
        let (ins, n) = stack[j];
        if n <= t {
            if ins {
                has_ins = true;
            } else {
                has_del = true;
            }
        }
        j = j + 1;
    }
    if has_del {
        assert(!block_keep(stack@, t));
    }
    if !has_ins {
        assert(!block_keep(stack@, t));
    }
    if has_ins && !has_del {
        assert(block_keep(stack@, t)) by {
            assert(forall|k: int|
                0 <= k < stack@.len() && !(#[trigger] stack@[k]).0 ==> stack@[k].1 > t);
        }
    }
    has_ins && !has_del
}

/// Decode a weave body for one target delta: drive the traversal machine and
/// collect the kept lines. Fails exactly on an ill-formed body, naming the
/// first offending line.
pub fn parse_body(body: &Vec<WeaveLine>, target: u64) -> (r: Result<Vec<Vec<u8>>, SureError>)
    ensures
        match r {
            Ok(v) => wf_body(body_view(body@)) && lines_view(v@) == extract(
                body_view(body@),
                target,
            ),
            Err(e) => !wf_body(body_view(body@)) && e is FormatError,
        },
{
    let ghost bv = body_view(body@);
    let mut out: Vec<Vec<u8>> = Vec::new();
    let mut stack: Vec<(bool, u64)> = Vec::new();
    let mut i: usize = 0;
    proof {
        assert(bv.skip(0) =~= bv);
        assert(lines_view(out@) =~= Seq::<Seq<u8>>::empty());
        assert(Seq::<Seq<u8>>::empty() + run(bv, Seq::empty(), target).0 =~= run(
            bv,
            Seq::empty(),
            target,
        ).0);
    }
    while i < body.len()
        invariant
            i <= body.len(),
            bv == body_view(body@),
            bv.len() == body@.len(),
            wf_from(bv, Seq::empty()) == wf_from(bv.skip(i as int), stack@),
            run(bv, Seq::empty(), target).0 == lines_view(out@) + run(
                bv.skip(i as int),
                stack@,
                target,
            ).0,
            run(bv, Seq::empty(), target).1 == run(bv.skip(i as int), stack@, target).1,
        decreases body.len() - i,
    {
        let ghost pre = bv.skip(i as int);
        proof {
            assert(pre[0] == bv[i as int]);
            assert(bv[i as int] == line_view(body@[i as int]));
            assert(pre.skip(1) =~= bv.skip(i + 1));
        }
        match &body[i] {
            WeaveLine::Insert(n) => {
                stack.push((true, *n));
            },
            WeaveLine::Delete(n) => {
                stack.push((false, *n));
            },
            WeaveLine::End(n) => {
                if stack.len() == 0 {
                    assert(!wf_from(pre, stack@));
                    return Err(SureError::FormatError { line: i as u64 });
                }
                let top = stack[stack.len() - 1];
                if top.1 != *n {
                    assert(stack@.last() == top);
                    assert(!wf_from(pre, stack@));
                    return Err(SureError::FormatError { line: i as u64 });
                }
                proof {
                    assert(stack@.last() == top);
                }
                stack.pop();
            },
            WeaveLine::Plain(l) => {
                let keep = keep_now(&stack, target);
                if keep {
                    let ghost prev = lines_view(out@);
                    let line = clone_bytes(l);
                    out.push(line);
                    proof {
                        assert(lines_view(out@) =~= prev + seq![l@]);
                        assert((prev + seq![l@]) + run(bv.skip(i + 1), stack@, target).0 =~= prev
                            + (seq![l@] + run(bv.skip(i + 1), stack@, target).0));
                    }
                }
            },
        }
        i = i + 1;
    }
    proof {
        assert(bv.skip(body@.len() as int) =~= Seq::<WLine>::empty());
    }
    if stack.len() != 0 {
        assert(!wf_from(bv.skip(body@.len() as int), stack@));
        return Err(SureError::FormatError { line: body.len() as u64 });
    }
    proof {
        assert(lines_view(out@) + Seq::<Seq<u8>>::empty() =~= lines_view(out@));
    }
    Ok(out)
}

/// Check every control marker's delta number against a bound, so a caller
/// can test the delta writer's numbering condition before rewriting.
pub fn body_nums_le(body: &Vec<WeaveLine>, m: u64) -> (r: bool)
    ensures
        r == nums_le(body_view(body@), m),
{
    let ghost bv = body_view(body@);
    let mut i: usize = 0;
    while i < body.len()
        invariant
            i <= body@.len(),
            bv == body_view(body@),
            bv.len() == body@.len(),
            forall|j: int|
                0 <= j < i ==> match #[trigger] bv[j] {
                    WLine::Insert(n) => n <= m,
                    WLine::Delete(n) => n <= m,
                    WLine::End(n) => n <= m,
                    WLine::Plain(_) => true,
                },
        decreases body@.len() - i,
    {
        proof {
            assert(bv[i as int] == line_view(body@[i as int]));
        }
        let ok = match &body[i] {
            WeaveLine::Insert(n) => *n <= m,
            WeaveLine::Delete(n) => *n <= m,
            WeaveLine::End(n) => *n <= m,
            WeaveLine::Plain(_) => true,
        };
        if !ok {
            assert(!nums_le(bv, m));
            return false;
        }
        i = i + 1;
    }
    true
}

/// Copy one line of bytes.
pub fn clone_bytes(v: &Vec<u8>) -> (r: Vec<u8>)
    ensures
        r@ == v@,
{
    let mut out: Vec<u8> = Vec::new();
    let mut i: usize = 0;
    while i < v.len()
        invariant
            i <= v.len(),
            out@ == v@.take(i as int),
        decreases v.len() - i,
    {
        out.push(v[i]);
        proof {
            assert(v@.take(i + 1) =~= v@.take(i as int).push(v@[i as int]));
        }
        i = i + 1;
    }
    proof {
        assert(v@.take(v@.len() as int) =~= v@);
    }
    out
}

/// Write the body of a brand-new weave: the whole content as delta one.
pub fn first_delta_body(content: &Vec<Vec<u8>>) -> (r: Vec<WeaveLine>)
    ensures
        body_view(r@) == first_body(lines_view(content@)),
{
    let mut out: Vec<WeaveLine> = Vec::new();
    out.push(WeaveLine::Insert(1));
    proof {
        assert(body_view(out@) =~= seq![WLine::Insert(1u64)] + plains(
            lines_view(content@).take(0),
        ));
    }
    let mut i: usize = 0;
    while i < content.len()
        invariant
            i <= content.len(),
            body_view(out@) == seq![WLine::Insert(1u64)] + plains(
                lines_view(content@).take(i as int),
            ),
        decreases content.len() - i,
    {
        let ghost prevb = body_view(out@);
        let ghost dv = lines_view(content@);
        let line = clone_bytes(&content[i]);
        let ghost lv = line@;
        out.push(WeaveLine::Plain(line));
        proof {
            assert(lv == dv[i as int]);
            assert(body_view(out@) =~= prevb.push(WLine::Plain(lv)));
            assert(dv.take(i + 1) =~= dv.take(i as int).push(dv[i as int]));
            assert(plains(dv.take(i + 1)) =~= plains(dv.take(i as int)).push(
                WLine::Plain(dv[i as int]),
            ));
            assert(seq![WLine::Insert(1u64)] + plains(dv.take(i + 1)) =~= (seq![
                WLine::Insert(1u64),
            ] + plains(dv.take(i as int))).push(WLine::Plain(dv[i as int])));
        }
        i = i + 1;
    }
    out.push(WeaveLine::End(1));
    proof {
        assert(lines_view(content@).take(lines_view(content@).len() as int) =~= lines_view(
            content@,
        ));
        assert(body_view(out@) =~= first_body(lines_view(content@)));
    }
    out
}

} // verus!
