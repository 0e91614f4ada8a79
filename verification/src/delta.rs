use vstd::prelude::*;

use crate::SureError;
use crate::weave::{
    Block, WLine, WeaveLine, block_keep, body_view, clone_bytes, extract, keep_now,
    lemma_run_append, lemma_run_plains, lines_view, nums_le, parse_body, plains, run, wf_body,
    wf_from,
};

verus! {

/// Close every open block, innermost first.
pub open spec fn closes(stack: Seq<Block>) -> Seq<WLine> {
    Seq::new(stack.len(), |i: int| WLine::End(stack[stack.len() - 1 - i].1))
}

pub open spec fn open_of(b: Block) -> WLine {
    if b.0 {
        WLine::Insert(b.1)
    } else {
        WLine::Delete(b.1)
    }
}

/// Reopen every block, outermost first.
pub open spec fn reopens(stack: Seq<Block>) -> Seq<WLine> {
    Seq::new(stack.len(), |i: int| open_of(stack[i]))
}

/// The new lines of a delta, inside one insert block of their own.
pub open spec fn mid_part(t: u64, mid: Seq<Seq<u8>>) -> Seq<WLine> {
    seq![WLine::Insert(t)] + plains(mid) + seq![WLine::End(t)]
}

/// An insert splice: close the surrounding blocks, write the new lines as an
/// insert block of delta `t`, and reopen what was closed. The new lines end
/// up enclosed by the new insert block alone.
pub open spec fn ins_block(stack: Seq<Block>, t: u64, mid: Seq<Seq<u8>>) -> Seq<WLine> {
    closes(stack) + mid_part(t, mid) + reopens(stack)
}

/// The rewritten body for a new delta `t` over base `base`: the old body is
/// re-emitted verbatim; the lines of the base content numbered `p+1 ..= p+d`
/// are each wrapped in a delete block of `t`, and the new lines `mid` are
/// spliced in before the `p+1`-th base line (at the end when there is none).
/// `c` counts base-content lines already passed, `done` says whether the
/// insert splice is already written.
pub open spec fn splice_rec(
    body: Seq<WLine>,
    stack: Seq<Block>,
    c: int,
    done: bool,
    t: u64,
    base: u64,
    p: int,
    d: int,
    mid: Seq<Seq<u8>>,
) -> Seq<WLine>
    decreases body.len(),
{
    if body.len() == 0 {
        if !done {
            ins_block(stack, t, mid)
        } else {
            Seq::empty()
        }
    } else {
        match body[0] {
            WLine::Insert(n) => seq![body[0]] + splice_rec(
                body.skip(1),
                stack.push((true, n)),
                c,
                done,
                t,
                base,
                p,
                d,
                mid,
            ),
            WLine::Delete(n) => seq![body[0]] + splice_rec(
                body.skip(1),
                stack.push((false, n)),
                c,
                done,
                t,
                base,
                p,
                d,
                mid,
            ),
            WLine::End(_) => seq![body[0]] + splice_rec(
                body.skip(1),
                if stack.len() > 0 {
                    stack.drop_last()
                } else {
                    stack
                },
                c,
                done,
                t,
                base,
                p,
                d,
                mid,
            ),
            WLine::Plain(_) => {
                if block_keep(stack, base) {
                    let fire = !done && c >= p;
                    let pre: Seq<WLine> = if fire {
                        ins_block(stack, t, mid)
                    } else {
                        Seq::empty()
                    };
                    let piece: Seq<WLine> = if p < c + 1 <= p + d {
                        seq![WLine::Delete(t), body[0], WLine::End(t)]
                    } else {
                        seq![body[0]]
                    };
                    pre + piece + splice_rec(
                        body.skip(1),
                        stack,
                        c + 1,
                        done || fire,
                        t,
                        base,
                        p,
                        d,
                        mid,
                    )
                } else {
                    seq![body[0]] + splice_rec(body.skip(1), stack, c, done, t, base, p, d, mid)
                }
            },
        }
    }
}

/// The whole rewritten body.
pub open spec fn splice(body: Seq<WLine>, t: u64, base: u64, p: int, d: int, mid: Seq<Seq<u8>>) -> Seq<
    WLine,
> {
    splice_rec(body, Seq::empty(), 0, false, t, base, p, d, mid)
}

/// Every block number on the stack is at most `m`.
pub open spec fn stack_nums_le(stack: Seq<Block>, m: u64) -> bool {
    forall|j: int| 0 <= j < stack.len() ==> (#[trigger] stack[j]).1 <= m
}

/// Closing the open blocks pops the whole stack and keeps nothing.
proof fn lemma_run_closes(stack: Seq<Block>, k: u64)
    ensures
        run(closes(stack), stack, k).0 == Seq::<Seq<u8>>::empty(),
        run(closes(stack), stack, k).1 == Seq::<Block>::empty(),
    decreases stack.len(),
{
    reveal_with_fuel(run, 5);
    if stack.len() == 0 {
        assert(closes(stack) =~= Seq::<WLine>::empty());
    } else {
        lemma_run_closes(stack.drop_last(), k);
        assert(closes(stack)[0] == WLine::End(stack.last().1));
        assert(closes(stack).skip(1) =~= closes(stack.drop_last()));
    }
}

/// Reopening pushes the blocks back, outermost first, and keeps nothing.
proof fn lemma_run_reopens(stack: Seq<Block>, k: u64)
    ensures
        run(reopens(stack), Seq::empty(), k).0 == Seq::<Seq<u8>>::empty(),
        run(reopens(stack), Seq::empty(), k).1 == stack,
    decreases stack.len(),
{
    reveal_with_fuel(run, 5);
    if stack.len() == 0 {
        assert(reopens(stack) =~= Seq::<WLine>::empty());
    } else {
        lemma_run_reopens(stack.drop_last(), k);
        assert(reopens(stack) =~= reopens(stack.drop_last()) + seq![open_of(stack.last())]);
        lemma_run_append(reopens(stack.drop_last()), seq![open_of(stack.last())], Seq::empty(), k);
        let one = seq![open_of(stack.last())];
        assert(one[0] == open_of(stack.last()));
        assert(one.skip(1) =~= Seq::<WLine>::empty());
        assert(stack.drop_last().push((stack.last().0, stack.last().1)) =~= stack);
        assert(run(one, stack.drop_last(), k).1 =~= stack);
        assert(Seq::<Seq<u8>>::empty() + Seq::<Seq<u8>>::empty() =~= Seq::<Seq<u8>>::empty());
    }
}

/// The insert splice leaves the stack as it stood; its lines are kept for a
/// target exactly when the target is at or past the new delta.
proof fn lemma_run_ins_block(stack: Seq<Block>, t: u64, mid: Seq<Seq<u8>>, k: u64)
    ensures
        run(ins_block(stack, t, mid), stack, k).0 == if t <= k {
            mid
        } else {
            Seq::<Seq<u8>>::empty()
        },
        run(ins_block(stack, t, mid), stack, k).1 == stack,
{
    reveal_with_fuel(run, 5);
    let ib = ins_block(stack, t, mid);
    let mp = mid_part(t, mid);
    lemma_run_closes(stack, k);
    assert(ib =~= closes(stack) + (mp + reopens(stack)));
    lemma_run_append(closes(stack), mp + reopens(stack), stack, k);
    lemma_run_append(mp, reopens(stack), Seq::empty(), k);
    // run of the middle part from the empty stack
    let st1: Seq<Block> = seq![(true, t)];
    assert(mp =~= seq![WLine::Insert(t)] + (plains(mid) + seq![WLine::End(t)]));
    lemma_run_append(seq![WLine::Insert(t)], plains(mid) + seq![WLine::End(t)], Seq::empty(), k);
    let onei = seq![WLine::Insert(t)];
    assert(onei[0] == WLine::Insert(t));
    assert(onei.skip(1) =~= Seq::<WLine>::empty());
    assert(Seq::<Block>::empty().push((true, t)) =~= st1);
    assert(run(onei, Seq::empty(), k).1 == st1);
    lemma_run_append(plains(mid), seq![WLine::End(t)], st1, k);
    lemma_run_plains(mid, st1, k);
    assert(block_keep(st1, k) == (t <= k)) by {
        if t <= k {
            assert(st1[0].0 && st1[0].1 <= k);
        }
    }
    let onee = seq![WLine::End(t)];
    assert(onee[0] == WLine::End(t));
    assert(onee.skip(1) =~= Seq::<WLine>::empty());
    assert(st1.drop_last() =~= Seq::<Block>::empty());
    assert(run(onee, st1, k).1 =~= Seq::<Block>::empty());
    lemma_run_reopens(stack, k);
    if t <= k {
        assert(run(ib, stack, k).0 =~= mid);
    } else {
        assert(run(ib, stack, k).0 =~= Seq::<Seq<u8>>::empty());
    }
}

/// A delete wrap keeps the line for targets before the deleting delta and
/// drops it from the deleting delta on; the stack is untouched.
proof fn lemma_run_dwrap(l: Seq<u8>, stack: Seq<Block>, t: u64, k: u64)
    ensures
        run(seq![WLine::Delete(t), WLine::Plain(l), WLine::End(t)], stack, k).1 == stack,
        run(seq![WLine::Delete(t), WLine::Plain(l), WLine::End(t)], stack, k).0 == if k < t
            && block_keep(stack, k) {
            seq![l]
        } else {
            Seq::<Seq<u8>>::empty()
        },
{
    reveal_with_fuel(run, 5);
    let w = seq![WLine::Delete(t), WLine::Plain(l), WLine::End(t)];
    let st2 = stack.push((false, t));
    assert(w[0] == WLine::Delete(t));
    assert(w.skip(1) =~= seq![WLine::Plain(l), WLine::End(t)]);
    let w1 = seq![WLine::Plain(l), WLine::End(t)];
    assert(w1[0] == WLine::Plain(l));
    assert(w1.skip(1) =~= seq![WLine::End(t)]);
    let w2 = seq![WLine::End(t)];
    assert(w2[0] == WLine::End(t));
    assert(w2.skip(1) =~= Seq::<WLine>::empty());
    assert(st2.drop_last() =~= stack);
    assert(run(w2, st2, k).1 =~= stack);
    if k < t {
        assert(block_keep(st2, k) == block_keep(stack, k)) by {
            if block_keep(stack, k) {
                let j = choose|j: int| 0 <= j < stack.len() && (#[trigger] stack[j]).0
                    && stack[j].1 <= k;
                assert(st2[j].0 && st2[j].1 <= k);
            }
            if block_keep(st2, k) {
                let j = choose|j: int| 0 <= j < st2.len() && (#[trigger] st2[j]).0 && st2[j].1
                    <= k;
                assert(j < stack.len());
                assert(stack[j].0 && stack[j].1 <= k);
            }
        }
    } else {
        assert(!block_keep(st2, k)) by {
            assert(!st2[stack.len() as int].0 && st2[stack.len() as int].1 <= k);
        }
    }
    if block_keep(st2, k) {
        assert(seq![l] + Seq::<Seq<u8>>::empty() =~= seq![l]);
    }
}

/// The rewrite is invisible to every target before the new delta: parsing
/// the spliced body for such a target gives what the old body gave.
pub proof fn lemma_splice_old(
    body: Seq<WLine>,
    stack: Seq<Block>,
    c: int,
    done: bool,
    t: u64,
    base: u64,
    p: int,
    d: int,
    mid: Seq<Seq<u8>>,
    k: u64,
)
    requires
        k < t,
    ensures
        run(splice_rec(body, stack, c, done, t, base, p, d, mid), stack, k).0 == run(
            body,
            stack,
            k,
        ).0,
        run(splice_rec(body, stack, c, done, t, base, p, d, mid), stack, k).1 == run(
            body,
            stack,
            k,
        ).1,
    decreases body.len(),
{
    reveal_with_fuel(run, 5);
    let sp = splice_rec(body, stack, c, done, t, base, p, d, mid);
    if body.len() == 0 {
        if !done {
            lemma_run_ins_block(stack, t, mid, k);
        } else {
            assert(sp =~= Seq::<WLine>::empty());
        }
    } else {
        let rest = body.skip(1);
        match body[0] {
            WLine::Insert(n) => {
                let st2 = stack.push((true, n));
                lemma_splice_old(rest, st2, c, done, t, base, p, d, mid, k);
                let rec = splice_rec(rest, st2, c, done, t, base, p, d, mid);
                lemma_run_append(seq![body[0]], rec, stack, k);
                assert(seq![body[0]].skip(1) =~= Seq::<WLine>::empty());
                assert(run(seq![body[0]], stack, k).1 == st2);
                assert(Seq::<Seq<u8>>::empty() + run(rec, st2, k).0 =~= run(rec, st2, k).0);
            },
            WLine::Delete(n) => {
                let st2 = stack.push((false, n));
                lemma_splice_old(rest, st2, c, done, t, base, p, d, mid, k);
                let rec = splice_rec(rest, st2, c, done, t, base, p, d, mid);
                lemma_run_append(seq![body[0]], rec, stack, k);
                assert(seq![body[0]].skip(1) =~= Seq::<WLine>::empty());
                assert(run(seq![body[0]], stack, k).1 == st2);
                assert(Seq::<Seq<u8>>::empty() + run(rec, st2, k).0 =~= run(rec, st2, k).0);
            },
            WLine::End(_) => {
                let st2 = if stack.len() > 0 {
                    stack.drop_last()
                } else {
                    stack
                };
                lemma_splice_old(rest, st2, c, done, t, base, p, d, mid, k);
                let rec = splice_rec(rest, st2, c, done, t, base, p, d, mid);
                lemma_run_append(seq![body[0]], rec, stack, k);
                assert(seq![body[0]].skip(1) =~= Seq::<WLine>::empty());
                assert(run(seq![body[0]], stack, k).1 == st2);
                assert(Seq::<Seq<u8>>::empty() + run(rec, st2, k).0 =~= run(rec, st2, k).0);
            },
            WLine::Plain(l) => {
                if block_keep(stack, base) {
                    let fire = !done && c >= p;
                    let pre: Seq<WLine> = if fire {
                        ins_block(stack, t, mid)
                    } else {
                        Seq::empty()
                    };
                    let piece: Seq<WLine> = if p < c + 1 <= p + d {
                        seq![WLine::Delete(t), body[0], WLine::End(t)]
                    } else {
                        seq![body[0]]
                    };
                    let rec = splice_rec(rest, stack, c + 1, done || fire, t, base, p, d, mid);
                    lemma_splice_old(rest, stack, c + 1, done || fire, t, base, p, d, mid, k);
                    assert(sp == pre + piece + rec);
                    lemma_run_append(pre + piece, rec, stack, k);
                    lemma_run_append(pre, piece, stack, k);
                    if fire {
                        lemma_run_ins_block(stack, t, mid, k);
                    } else {
                        assert(pre =~= Seq::<WLine>::empty());
                    }
                    assert(run(pre, stack, k).0 == Seq::<Seq<u8>>::empty());
                    assert(run(pre, stack, k).1 == stack);
                    if p < c + 1 <= p + d {
                        lemma_run_dwrap(l, stack, t, k);
                    } else {
                        assert(piece[0] == body[0]);
                        assert(piece.skip(1) =~= Seq::<WLine>::empty());
                    }
                    assert(run(piece, stack, k).1 == stack);
                    assert(run(piece, stack, k).0 == if block_keep(stack, k) {
                        seq![l]
                    } else {
                        Seq::<Seq<u8>>::empty()
                    });
                    assert((pre + piece) + rec =~= pre + piece + rec);
                    if block_keep(stack, k) {
                        assert(run(sp, stack, k).0 =~= seq![l] + run(rest, stack, k).0);
                    } else {
                        assert(run(sp, stack, k).0 =~= run(rest, stack, k).0);
                    }
                } else {
                    let rec = splice_rec(rest, stack, c, done, t, base, p, d, mid);
                    lemma_splice_old(rest, stack, c, done, t, base, p, d, mid, k);
                    lemma_run_append(seq![body[0]], rec, stack, k);
                    assert(seq![body[0]].skip(1) =~= Seq::<WLine>::empty());
                    assert(run(seq![body[0]], stack, k).1 == stack);
                    if block_keep(stack, k) {
                        assert(run(sp, stack, k).0 =~= seq![l] + run(rest, stack, k).0);
                    } else {
                        assert(run(sp, stack, k).0 =~= run(rest, stack, k).0);
                    }
                }
            },
        }
    }
}


/// With every number on the stack at or before `base`, a line's keep
/// decision is the same for `base` and for any later target.
proof fn lemma_keep_eq(stack: Seq<Block>, base: u64, t: u64)
    requires
        stack_nums_le(stack, base),
        base <= t,
    ensures
        block_keep(stack, t) == block_keep(stack, base),
{
    if block_keep(stack, base) {
        let j = choose|j: int| 0 <= j < stack.len() && (#[trigger] stack[j]).0 && stack[j].1
            <= base;
        assert(stack[j].0 && stack[j].1 <= t);
    }
    if block_keep(stack, t) {
        let j = choose|j: int| 0 <= j < stack.len() && (#[trigger] stack[j]).0 && stack[j].1 <= t;
        assert(stack[j].1 <= base);
        assert(forall|i: int| 0 <= i < stack.len() && !(#[trigger] stack[i]).0 ==> stack[i].1
            > base);
    }
}

proof fn lemma_nums_le_skip(body: Seq<WLine>, m: u64)
    requires
        nums_le(body, m),
        body.len() > 0,
    ensures
        nums_le(body.skip(1), m),
{
    assert forall|j: int| 0 <= j < body.skip(1).len() implies match #[trigger] body.skip(1)[j] {
        WLine::Insert(n) => n <= m,
        WLine::Delete(n) => n <= m,
        WLine::End(n) => n <= m,
        WLine::Plain(_) => true,
    } by {
        assert(body.skip(1)[j] == body[j + 1]);
    }
}

/// Parsing the spliced body for the new delta gives the edited content: the
/// base content with lines `p+1 ..= p+d` replaced by the new middle lines.
#[verifier::rlimit(60)]
pub proof fn lemma_splice_new(
    body: Seq<WLine>,
    stack: Seq<Block>,
    c: int,
    done: bool,
    t: u64,
    base: u64,
    p: int,
    d: int,
    mid: Seq<Seq<u8>>,
)
    requires
        base < t,
        nums_le(body, base),
        stack_nums_le(stack, base),
        0 <= c,
        0 <= p,
        0 <= d,
        !done ==> c <= p,
        done ==> c >= p,
        p + d <= c + run(body, stack, base).0.len(),
    ensures
        run(splice_rec(body, stack, c, done, t, base, p, d, mid), stack, t).1 == run(
            body,
            stack,
            t,
        ).1,
        !done ==> run(splice_rec(body, stack, c, done, t, base, p, d, mid), stack, t).0 == run(
            body,
            stack,
            base,
        ).0.take(p - c) + mid + run(body, stack, base).0.skip(p + d - c),
        done ==> run(splice_rec(body, stack, c, done, t, base, p, d, mid), stack, t).0 == run(
            body,
            stack,
            base,
        ).0.skip(
            if p + d - c >= 0 {
                p + d - c
            } else {
                0
            },
        ),
    decreases body.len(),
{
    reveal_with_fuel(run, 5);
    let sp = splice_rec(body, stack, c, done, t, base, p, d, mid);
    let bigr = run(body, stack, base).0;
    if body.len() == 0 {
        if !done {
            assert(p == c && d == 0);
            lemma_run_ins_block(stack, t, mid, t);
            assert(bigr.take(0) =~= Seq::<Seq<u8>>::empty());
            assert(bigr.skip(0) =~= Seq::<Seq<u8>>::empty());
            assert(bigr.take(p - c) + mid + bigr.skip(p + d - c) =~= mid);
        } else {
            assert(sp =~= Seq::<WLine>::empty());
            assert(p + d - c <= 0);
            assert(bigr.skip(0) =~= Seq::<Seq<u8>>::empty());
        }
    } else {
        let rest = body.skip(1);
        lemma_nums_le_skip(body, base);
        match body[0] {
            WLine::Insert(n) => {
                let st2 = stack.push((true, n));
                assert(n <= base);
                assert(stack_nums_le(st2, base));
                lemma_splice_new(rest, st2, c, done, t, base, p, d, mid);
                let rec = splice_rec(rest, st2, c, done, t, base, p, d, mid);
                lemma_run_append(seq![body[0]], rec, stack, t);
                assert(seq![body[0]].skip(1) =~= Seq::<WLine>::empty());
                assert(run(seq![body[0]], stack, t).1 == st2);
                assert(Seq::<Seq<u8>>::empty() + run(rec, st2, t).0 =~= run(rec, st2, t).0);
            },
            WLine::Delete(n) => {
                let st2 = stack.push((false, n));
                assert(n <= base);
                assert(stack_nums_le(st2, base));
                lemma_splice_new(rest, st2, c, done, t, base, p, d, mid);
                let rec = splice_rec(rest, st2, c, done, t, base, p, d, mid);
                lemma_run_append(seq![body[0]], rec, stack, t);
                assert(seq![body[0]].skip(1) =~= Seq::<WLine>::empty());
                assert(run(seq![body[0]], stack, t).1 == st2);
                assert(Seq::<Seq<u8>>::empty() + run(rec, st2, t).0 =~= run(rec, st2, t).0);
            },
            WLine::End(_) => {
                let st2 = if stack.len() > 0 {
                    stack.drop_last()
                } else {
                    stack
                };
                assert(stack_nums_le(st2, base)) by {
                    assert(forall|j: int| 0 <= j < st2.len() ==> st2[j] == stack[j]);
                }
                lemma_splice_new(rest, st2, c, done, t, base, p, d, mid);
                let rec = splice_rec(rest, st2, c, done, t, base, p, d, mid);
                lemma_run_append(seq![body[0]], rec, stack, t);
                assert(seq![body[0]].skip(1) =~= Seq::<WLine>::empty());
                assert(run(seq![body[0]], stack, t).1 == st2);
                assert(Seq::<Seq<u8>>::empty() + run(rec, st2, t).0 =~= run(rec, st2, t).0);
            },
            WLine::Plain(l) => {
                lemma_keep_eq(stack, base, t);
                if block_keep(stack, base) {
                    let smallr = run(rest, stack, base).0;
                    assert(bigr == seq![l] + smallr);
                    assert(bigr.len() == 1 + smallr.len());
                    let fire = !done && c >= p;
                    let done2 = done || fire;
                    let pre: Seq<WLine> = if fire {
                        ins_block(stack, t, mid)
                    } else {
                        Seq::empty()
                    };
                    let piece: Seq<WLine> = if p < c + 1 <= p + d {
                        seq![WLine::Delete(t), body[0], WLine::End(t)]
                    } else {
                        seq![body[0]]
                    };
                    let rec = splice_rec(rest, stack, c + 1, done2, t, base, p, d, mid);
                    lemma_splice_new(rest, stack, c + 1, done2, t, base, p, d, mid);
                    assert(sp == pre + piece + rec);
                    assert((pre + piece) + rec =~= pre + piece + rec);
                    lemma_run_append(pre + piece, rec, stack, t);
                    lemma_run_append(pre, piece, stack, t);
                    if fire {
                        lemma_run_ins_block(stack, t, mid, t);
                        assert(run(pre, stack, t).0 == mid);
                    } else {
                        assert(pre =~= Seq::<WLine>::empty());
                        assert(run(pre, stack, t).0 == Seq::<Seq<u8>>::empty());
                    }
                    assert(run(pre, stack, t).1 == stack);
                    if p < c + 1 <= p + d {
                        lemma_run_dwrap(l, stack, t, t);
                        assert(run(piece, stack, t).0 == Seq::<Seq<u8>>::empty());
                    } else {
                        assert(piece[0] == body[0]);
                        assert(piece.skip(1) =~= Seq::<WLine>::empty());
                        assert(run(piece, stack, t).0 == seq![l]);
                    }
                    assert(run(piece, stack, t).1 == stack);
                    let reco = run(rec, stack, t).0;
                    assert(run(sp, stack, t).0 == run(pre, stack, t).0 + run(piece, stack, t).0
                        + reco);
                    if !done {
                        if c < p {
                            assert(!fire && done2 == false);
                            assert(reco == smallr.take(p - c - 1) + mid + smallr.skip(
                                p + d - c - 1,
                            ));
                            assert(bigr.take(p - c) =~= seq![l] + smallr.take(p - c - 1));
                            assert(bigr.skip(p + d - c) =~= smallr.skip(p + d - c - 1));
                            assert(Seq::<Seq<u8>>::empty() + seq![l] + reco =~= seq![l] + (
                            smallr.take(p - c - 1) + mid + smallr.skip(p + d - c - 1)));
                            assert(seq![l] + (smallr.take(p - c - 1) + mid + smallr.skip(
                                p + d - c - 1,
                            )) =~= (seq![l] + smallr.take(p - c - 1)) + mid + smallr.skip(
                                p + d - c - 1,
                            ));
                        } else {
                            assert(c == p && fire && done2);
                            if d >= 1 {
                                assert(p < c + 1 <= p + d);
                                assert(reco == smallr.skip(d - 1));
                                assert(bigr.skip(p + d - c) =~= smallr.skip(d - 1));
                                assert(bigr.take(0) =~= Seq::<Seq<u8>>::empty());
                                assert(mid + Seq::<Seq<u8>>::empty() + reco =~= Seq::<
                                    Seq<u8>,
                                >::empty() + mid + bigr.skip(p + d - c));
                            } else {
                                assert(!(p < c + 1 <= p + d));
                                assert(reco == smallr.skip(0));
                                assert(smallr.skip(0) =~= smallr);
                                assert(bigr.take(0) =~= Seq::<Seq<u8>>::empty());
                                assert(bigr.skip(0) =~= bigr);
                                assert(mid + seq![l] + smallr =~= Seq::<Seq<u8>>::empty() + mid
                                    + bigr);
                            }
                        }
                    } else {
                        assert(!fire && done2);
                        if c + 1 <= p + d {
                            assert(p < c + 1);
                            assert(reco == smallr.skip(p + d - c - 1));
                            assert(bigr.skip(p + d - c) =~= smallr.skip(p + d - c - 1));
                            assert(Seq::<Seq<u8>>::empty() + Seq::<Seq<u8>>::empty() + reco
                                =~= bigr.skip(p + d - c));
                        } else {
                            assert(p + d - c <= 0);
                            assert(reco == smallr.skip(0));
                            assert(smallr.skip(0) =~= smallr);
                            assert(bigr.skip(0) =~= bigr);
                            assert(Seq::<Seq<u8>>::empty() + seq![l] + smallr =~= bigr);
                        }
                    }
                } else {
                    let rec = splice_rec(rest, stack, c, done, t, base, p, d, mid);
                    lemma_splice_new(rest, stack, c, done, t, base, p, d, mid);
                    lemma_run_append(seq![body[0]], rec, stack, t);
                    assert(seq![body[0]].skip(1) =~= Seq::<WLine>::empty());
                    assert(run(seq![body[0]], stack, t).1 == stack);
                    assert(run(seq![body[0]], stack, t).0 == Seq::<Seq<u8>>::empty());
                    assert(Seq::<Seq<u8>>::empty() + run(rec, stack, t).0 =~= run(
                        rec,
                        stack,
                        t,
                    ).0);
                }
            },
        }
    }
}


/// Like well-formedness, but a prefix need not close every block it opened.
pub open spec fn ok_prefix(a: Seq<WLine>, stack: Seq<Block>) -> bool
    decreases a.len(),
{
    if a.len() == 0 {
        true
    } else {
        match a[0] {
            WLine::Insert(n) => ok_prefix(a.skip(1), stack.push((true, n))),
            WLine::Delete(n) => ok_prefix(a.skip(1), stack.push((false, n))),
            WLine::End(n) => stack.len() > 0 && stack.last().1 == n && ok_prefix(
                a.skip(1),
                stack.drop_last(),
            ),
            WLine::Plain(_) => ok_prefix(a.skip(1), stack),
        }
    }
}

proof fn lemma_wf_implies_ok(a: Seq<WLine>, stack: Seq<Block>)
    requires
        wf_from(a, stack),
    ensures
        ok_prefix(a, stack),
    decreases a.len(),
{
    if a.len() == 0 {
    } else {
        match a[0] {
            WLine::Insert(n) => {
                lemma_wf_implies_ok(a.skip(1), stack.push((true, n)));
            },
            WLine::Delete(n) => {
                lemma_wf_implies_ok(a.skip(1), stack.push((false, n)));
            },
            WLine::End(_) => {
                lemma_wf_implies_ok(a.skip(1), stack.drop_last());
            },
            WLine::Plain(_) => {
                lemma_wf_implies_ok(a.skip(1), stack);
            },
        }
    }
}

/// A concatenation is well formed exactly when the first part keeps its
/// markers matched and the rest is well formed from the stack it leaves.
proof fn lemma_wf_split(a: Seq<WLine>, b: Seq<WLine>, stack: Seq<Block>)
    ensures
        wf_from(a + b, stack) == (ok_prefix(a, stack) && wf_from(b, run(a, stack, 0).1)),
        ok_prefix(a + b, stack) == (ok_prefix(a, stack) && ok_prefix(b, run(a, stack, 0).1)),
    decreases a.len(),
{
    reveal_with_fuel(run, 3);
    if a.len() == 0 {
        assert(a + b =~= b);
    } else {
        assert((a + b).skip(1) =~= a.skip(1) + b);
        match a[0] {
            WLine::Insert(n) => {
                lemma_wf_split(a.skip(1), b, stack.push((true, n)));
            },
            WLine::Delete(n) => {
                lemma_wf_split(a.skip(1), b, stack.push((false, n)));
            },
            WLine::End(n) => {
                let st2 = if stack.len() > 0 {
                    stack.drop_last()
                } else {
                    stack
                };
                lemma_wf_split(a.skip(1), b, st2);
            },
            WLine::Plain(_) => {
                lemma_wf_split(a.skip(1), b, stack);
            },
        }
    }
}

proof fn lemma_ok_closes(stack: Seq<Block>)
    ensures
        ok_prefix(closes(stack), stack),
    decreases stack.len(),
{
    if stack.len() == 0 {
        assert(closes(stack) =~= Seq::<WLine>::empty());
    } else {
        lemma_ok_closes(stack.drop_last());
        assert(closes(stack)[0] == WLine::End(stack.last().1));
        assert(closes(stack).skip(1) =~= closes(stack.drop_last()));
    }
}

proof fn lemma_ok_reopens(stack: Seq<Block>, st0: Seq<Block>)
    ensures
        ok_prefix(reopens(stack), st0),
    decreases stack.len(),
{
    if stack.len() == 0 {
        assert(reopens(stack) =~= Seq::<WLine>::empty());
    } else {
        assert(reopens(stack)[0] == open_of(stack[0]));
        assert(reopens(stack).skip(1) =~= reopens(stack.skip(1)));
        if stack[0].0 {
            lemma_ok_reopens(stack.skip(1), st0.push((true, stack[0].1)));
        } else {
            lemma_ok_reopens(stack.skip(1), st0.push((false, stack[0].1)));
        }
    }
}

proof fn lemma_run_mid_part(t: u64, mid: Seq<Seq<u8>>, k: u64)
    ensures
        run(mid_part(t, mid), Seq::empty(), k).1 == Seq::<Block>::empty(),
{
    reveal_with_fuel(run, 5);
    let st1: Seq<Block> = seq![(true, t)];
    assert(mid_part(t, mid) =~= seq![WLine::Insert(t)] + (plains(mid) + seq![WLine::End(t)]));
    lemma_run_append(seq![WLine::Insert(t)], plains(mid) + seq![WLine::End(t)], Seq::empty(), k);
    let onei = seq![WLine::Insert(t)];
    assert(onei[0] == WLine::Insert(t));
    assert(onei.skip(1) =~= Seq::<WLine>::empty());
    assert(Seq::<Block>::empty().push((true, t)) =~= st1);
    assert(run(onei, Seq::empty(), k).1 == st1);
    lemma_run_append(plains(mid), seq![WLine::End(t)], st1, k);
    lemma_run_plains(mid, st1, k);
    let onee = seq![WLine::End(t)];
    assert(onee[0] == WLine::End(t));
    assert(onee.skip(1) =~= Seq::<WLine>::empty());
    assert(st1.drop_last() =~= Seq::<Block>::empty());
    assert(run(onee, st1, k).1 =~= Seq::<Block>::empty());
}

/// The insert splice keeps its markers matched from the stack it is written
/// at.
proof fn lemma_ok_ins_block(stack: Seq<Block>, t: u64, mid: Seq<Seq<u8>>)
    ensures
        ok_prefix(ins_block(stack, t, mid), stack),
{
    let mp = mid_part(t, mid);
    assert(ins_block(stack, t, mid) =~= closes(stack) + (mp + reopens(stack)));
    lemma_wf_split(closes(stack), mp + reopens(stack), stack);
    lemma_ok_closes(stack);
    lemma_run_closes(stack, 0);
    lemma_wf_split(mp, reopens(stack), Seq::empty());
    crate::weave::lemma_wf_plains_end(mid, seq![(true, t)]);
    assert(wf_from(mp, Seq::empty())) by {
        assert(mp[0] == WLine::Insert(t));
        assert(mp.skip(1) =~= plains(mid) + seq![WLine::End(t)]);
        assert(Seq::<Block>::empty().push((true, t)) =~= seq![(true, t)]);
    }
    lemma_wf_implies_ok(mp, Seq::empty());
    lemma_run_mid_part(t, mid, 0);
    lemma_ok_reopens(stack, Seq::empty());
}

/// The rewrite keeps the body well formed.
#[verifier::rlimit(60)]
pub proof fn lemma_splice_wf(
    body: Seq<WLine>,
    stack: Seq<Block>,
    c: int,
    done: bool,
    t: u64,
    base: u64,
    p: int,
    d: int,
    mid: Seq<Seq<u8>>,
)
    requires
        wf_from(body, stack),
    ensures
        wf_from(splice_rec(body, stack, c, done, t, base, p, d, mid), stack),
    decreases body.len(),
{
    reveal_with_fuel(run, 5);
    reveal_with_fuel(ok_prefix, 5);
    let sp = splice_rec(body, stack, c, done, t, base, p, d, mid);
    if body.len() == 0 {
        if !done {
            assert(stack.len() == 0);
            assert(ins_block(stack, t, mid) =~= mid_part(t, mid)) by {
                assert(closes(stack) =~= Seq::<WLine>::empty());
                assert(reopens(stack) =~= Seq::<WLine>::empty());
            }
            crate::weave::lemma_wf_plains_end(mid, seq![(true, t)]);
            assert(wf_from(mid_part(t, mid), stack)) by {
                assert(mid_part(t, mid)[0] == WLine::Insert(t));
                assert(mid_part(t, mid).skip(1) =~= plains(mid) + seq![WLine::End(t)]);
                assert(stack.push((true, t)) =~= seq![(true, t)]);
            }
        } else {
            assert(sp =~= Seq::<WLine>::empty());
        }
    } else {
        let rest = body.skip(1);
        match body[0] {
            WLine::Insert(n) => {
                let st2 = stack.push((true, n));
                lemma_splice_wf(rest, st2, c, done, t, base, p, d, mid);
                let rec = splice_rec(rest, st2, c, done, t, base, p, d, mid);
                lemma_wf_split(seq![body[0]], rec, stack);
                assert(seq![body[0]].skip(1) =~= Seq::<WLine>::empty());
                assert(run(seq![body[0]], stack, 0).1 == st2);
            },
            WLine::Delete(n) => {
                let st2 = stack.push((false, n));
                lemma_splice_wf(rest, st2, c, done, t, base, p, d, mid);
                let rec = splice_rec(rest, st2, c, done, t, base, p, d, mid);
                lemma_wf_split(seq![body[0]], rec, stack);
                assert(seq![body[0]].skip(1) =~= Seq::<WLine>::empty());
                assert(run(seq![body[0]], stack, 0).1 == st2);
            },
            WLine::End(_) => {
                let st2 = stack.drop_last();
                lemma_splice_wf(rest, st2, c, done, t, base, p, d, mid);
                let rec = splice_rec(rest, st2, c, done, t, base, p, d, mid);
                lemma_wf_split(seq![body[0]], rec, stack);
                assert(seq![body[0]].skip(1) =~= Seq::<WLine>::empty());
                assert(run(seq![body[0]], stack, 0).1 == st2);
            },
            WLine::Plain(l) => {
                if block_keep(stack, base) {
                    let fire = !done && c >= p;
                    let done2 = done || fire;
                    let pre: Seq<WLine> = if fire {
                        ins_block(stack, t, mid)
                    } else {
                        Seq::empty()
                    };
                    let piece: Seq<WLine> = if p < c + 1 <= p + d {
                        seq![WLine::Delete(t), body[0], WLine::End(t)]
                    } else {
                        seq![body[0]]
                    };
                    let rec = splice_rec(rest, stack, c + 1, done2, t, base, p, d, mid);
                    lemma_splice_wf(rest, stack, c + 1, done2, t, base, p, d, mid);
                    assert(sp == pre + piece + rec);
                    assert((pre + piece) + rec =~= pre + piece + rec);
                    lemma_wf_split(pre + piece, rec, stack);
                    lemma_wf_split(pre, piece, stack);
                    lemma_run_append(pre, piece, stack, 0);
                    if fire {
                        lemma_ok_ins_block(stack, t, mid);
                        lemma_run_ins_block(stack, t, mid, 0);
                    } else {
                        assert(pre =~= Seq::<WLine>::empty());
                    }
                    assert(ok_prefix(pre, stack));
                    assert(run(pre, stack, 0).1 == stack);
                    if p < c + 1 <= p + d {
                        lemma_run_dwrap(l, stack, t, 0);
                        assert(ok_prefix(piece, stack)) by {
                            assert(piece[0] == WLine::Delete(t));
                            assert(piece.skip(1) =~= seq![body[0], WLine::End(t)]);
                            let w1 = seq![body[0], WLine::End(t)];
                            assert(w1[0] == body[0]);
                            assert(w1.skip(1) =~= seq![WLine::End(t)]);
                            let w2 = seq![WLine::End(t)];
                            assert(w2[0] == WLine::End(t));
                            assert(w2.skip(1) =~= Seq::<WLine>::empty());
                            let st2 = stack.push((false, t));
                            assert(st2.last().1 == t);
                            assert(st2.drop_last() =~= stack);
                        }
                    } else {
                        assert(piece[0] == body[0]);
                        assert(piece.skip(1) =~= Seq::<WLine>::empty());
                        assert(ok_prefix(piece, stack));
                    }
                    assert(run(piece, stack, 0).1 == stack);
                } else {
                    let rec = splice_rec(rest, stack, c, done, t, base, p, d, mid);
                    lemma_splice_wf(rest, stack, c, done, t, base, p, d, mid);
                    lemma_wf_split(seq![body[0]], rec, stack);
                    assert(seq![body[0]].skip(1) =~= Seq::<WLine>::empty());
                    assert(run(seq![body[0]], stack, 0).1 == stack);
                }
            },
        }
    }
}

proof fn lemma_nums_append(a: Seq<WLine>, b: Seq<WLine>, m: u64)
    requires
        nums_le(a, m),
        nums_le(b, m),
    ensures
        nums_le(a + b, m),
{
    assert forall|j: int| 0 <= j < (a + b).len() implies match #[trigger] (a + b)[j] {
        WLine::Insert(n) => n <= m,
        WLine::Delete(n) => n <= m,
        WLine::End(n) => n <= m,
        WLine::Plain(_) => true,
    } by {
        if j < a.len() {
            assert((a + b)[j] == a[j]);
        } else {
            assert((a + b)[j] == b[j - a.len()]);
        }
    }
}

proof fn lemma_nums_ins_block(stack: Seq<Block>, t: u64, mid: Seq<Seq<u8>>)
    requires
        stack_nums_le(stack, t),
    ensures
        nums_le(ins_block(stack, t, mid), t),
{
    let ib = ins_block(stack, t, mid);
    let cl = closes(stack);
    let mp = mid_part(t, mid);
    let ro = reopens(stack);
    assert forall|j: int| 0 <= j < ib.len() implies match #[trigger] ib[j] {
        WLine::Insert(n) => n <= t,
        WLine::Delete(n) => n <= t,
        WLine::End(n) => n <= t,
        WLine::Plain(_) => true,
    } by {
        if j < cl.len() {
            assert(ib[j] == cl[j]);
            assert(cl[j] == WLine::End(stack[stack.len() - 1 - j].1));
        } else if j < cl.len() + mp.len() {
            let i = j - cl.len();
            assert(ib[j] == mp[i]);
            if i == 0 {
                assert(mp[i] == WLine::Insert(t));
            } else if i == mp.len() - 1 {
                assert(mp[i] == WLine::End(t));
            } else {
                assert(mp[i] == plains(mid)[i - 1]);
                assert(plains(mid)[i - 1] == WLine::Plain(mid[i - 1]));
            }
        } else {
            let i = j - cl.len() - mp.len();
            assert(ib[j] == ro[i]);
            assert(ro[i] == open_of(stack[i]));
        }
    }
}

/// The rewrite mentions no delta number past the new one.
#[verifier::rlimit(60)]
pub proof fn lemma_splice_nums(
    body: Seq<WLine>,
    stack: Seq<Block>,
    c: int,
    done: bool,
    t: u64,
    base: u64,
    p: int,
    d: int,
    mid: Seq<Seq<u8>>,
)
    requires
        base <= t,
        nums_le(body, base),
        stack_nums_le(stack, base),
    ensures
        nums_le(splice_rec(body, stack, c, done, t, base, p, d, mid), t),
    decreases body.len(),
{
    let sp = splice_rec(body, stack, c, done, t, base, p, d, mid);
    if body.len() == 0 {
        if !done {
            assert(stack_nums_le(stack, t));
            lemma_nums_ins_block(stack, t, mid);
        } else {
            assert(sp =~= Seq::<WLine>::empty());
            assert(nums_le(sp, t));
        }
    } else {
        let rest = body.skip(1);
        lemma_nums_le_skip(body, base);
        let one = seq![body[0]];
        assert(nums_le(one, t)) by {
            assert(one[0] == body[0]);
        }
        match body[0] {
            WLine::Insert(n) => {
                let st2 = stack.push((true, n));
                assert(n <= base);
                assert(stack_nums_le(st2, base));
                lemma_splice_nums(rest, st2, c, done, t, base, p, d, mid);
                lemma_nums_append(one, splice_rec(rest, st2, c, done, t, base, p, d, mid), t);
            },
            WLine::Delete(n) => {
                let st2 = stack.push((false, n));
                assert(n <= base);
                assert(stack_nums_le(st2, base));
                lemma_splice_nums(rest, st2, c, done, t, base, p, d, mid);
                lemma_nums_append(one, splice_rec(rest, st2, c, done, t, base, p, d, mid), t);
            },
            WLine::End(_) => {
                let st2 = if stack.len() > 0 {
                    stack.drop_last()
                } else {
                    stack
                };
                assert(stack_nums_le(st2, base)) by {
                    assert(forall|j: int| 0 <= j < st2.len() ==> st2[j] == stack[j]);
                }
                lemma_splice_nums(rest, st2, c, done, t, base, p, d, mid);
                lemma_nums_append(one, splice_rec(rest, st2, c, done, t, base, p, d, mid), t);
            },
            WLine::Plain(_) => {
                if block_keep(stack, base) {
                    let fire = !done && c >= p;
                    let done2 = done || fire;
                    let pre: Seq<WLine> = if fire {
                        ins_block(stack, t, mid)
                    } else {
                        Seq::empty()
                    };
                    let piece: Seq<WLine> = if p < c + 1 <= p + d {
                        seq![WLine::Delete(t), body[0], WLine::End(t)]
                    } else {
                        one
                    };
                    lemma_splice_nums(rest, stack, c + 1, done2, t, base, p, d, mid);
                    if fire {
                        assert(stack_nums_le(stack, t));
                        lemma_nums_ins_block(stack, t, mid);
                    } else {
                        assert(pre =~= Seq::<WLine>::empty());
                        assert(nums_le(pre, t));
                    }
                    assert(nums_le(piece, t)) by {
                        if p < c + 1 <= p + d {
                            assert(piece[0] == WLine::Delete(t));
                            assert(piece[1] == body[0]);
                            assert(piece[2] == WLine::End(t));
                        }
                    }
                    lemma_nums_append(pre, piece, t);
                    lemma_nums_append(
                        pre + piece,
                        splice_rec(rest, stack, c + 1, done2, t, base, p, d, mid),
                        t,
                    );
                    assert((pre + piece) + splice_rec(rest, stack, c + 1, done2, t, base, p, d, mid)
                        =~= pre + piece + splice_rec(
                        rest,
                        stack,
                        c + 1,
                        done2,
                        t,
                        base,
                        p,
                        d,
                        mid,
                    ));
                } else {
                    lemma_splice_nums(rest, stack, c, done, t, base, p, d, mid);
                    lemma_nums_append(one, splice_rec(rest, stack, c, done, t, base, p, d, mid), t);
                }
            },
        }
    }
}


/// Byte-for-byte equality of two lines.
pub fn bytes_eq(a: &Vec<u8>, b: &Vec<u8>) -> (r: bool)
    ensures
        r == (a@ == b@),
{
    if a.len() != b.len() {
        return false;
    }
    let mut i: usize = 0;
    while i < a.len()
        invariant
            i <= a.len(),
            a@.len() == b@.len(),
            forall|j: int| 0 <= j < i ==> a@[j] == b@[j],
        decreases a.len() - i,
    {
        if a[i] != b[i] {
            return false;
        }
        i = i + 1;
    }
    proof {
        assert(a@ =~= b@);
    }
    true
}

/// A line diff by common prefix and suffix: returns `(p, d, mid)` such that
/// the new content is the old one with lines `p+1 ..= p+d` replaced by `mid`.
/// Not minimal, but deterministic and correct, which is all a weave needs.
pub fn diff_content(oldc: &Vec<Vec<u8>>, newc: &Vec<Vec<u8>>) -> (r: (usize, usize, Vec<Vec<u8>>))
    ensures
        r.0 + r.1 <= oldc@.len(),
        lines_view(newc@) == lines_view(oldc@).take(r.0 as int) + lines_view(r.2@) + lines_view(
            oldc@,
        ).skip(r.0 + r.1 as int),
{
    let ghost ov = lines_view(oldc@);
    let ghost nv = lines_view(newc@);
    let n1 = oldc.len();
    let n2 = newc.len();
    let minl = if n1 < n2 {
        n1
    } else {
        n2
    };
    let mut p: usize = 0;
    let mut going = true;
    while going && p < minl
        invariant
            p <= minl,
            minl <= n1 && minl <= n2,
            n1 == oldc@.len() && n2 == newc@.len(),
            ov == lines_view(oldc@),
            nv == lines_view(newc@),
            forall|j: int| 0 <= j < p ==> ov[j] == nv[j],
        decreases minl - p + if going {
            1int
        } else {
            0int
        },
    {
        if bytes_eq(&oldc[p], &newc[p]) {
            proof {
                assert(ov[p as int] == oldc@[p as int]@);
                assert(nv[p as int] == newc@[p as int]@);
            }
            p = p + 1;
        } else {
            going = false;
        }
    }
    let mut s: usize = 0;
    going = true;
    while going && s < minl - p
        invariant
            s <= minl - p,
            p <= minl,
            minl <= n1 && minl <= n2,
            n1 == oldc@.len() && n2 == newc@.len(),
            ov == lines_view(oldc@),
            nv == lines_view(newc@),
            forall|j: int| 0 <= j < s ==> #[trigger] ov[n1 - 1 - j] == nv[n2 - 1 - j],
        decreases minl - p - s + if going {
            1int
        } else {
            0int
        },
    {
        if bytes_eq(&oldc[n1 - 1 - s], &newc[n2 - 1 - s]) {
            proof {
                assert(ov[n1 - 1 - s] == oldc@[n1 - 1 - s]@);
                assert(nv[n2 - 1 - s] == newc@[n2 - 1 - s]@);
            }
            s = s + 1;
        } else {
            going = false;
        }
    }
    let d = n1 - p - s;
    let mut mid: Vec<Vec<u8>> = Vec::new();
    let mut k: usize = p;
    proof {
        assert(lines_view(mid@) =~= nv.subrange(p as int, p as int));
    }
    while k < n2 - s
        invariant
            p <= k <= n2 - s,
            s <= n2,
            n2 == newc@.len(),
            nv == lines_view(newc@),
            lines_view(mid@) == nv.subrange(p as int, k as int),
        decreases n2 - s - k,
    {
        let ghost prevm = lines_view(mid@);
        let line = clone_bytes(&newc[k]);
        mid.push(line);
        proof {
            assert(nv[k as int] == newc@[k as int]@);
            assert(lines_view(mid@) =~= prevm.push(newc@[k as int]@));
            assert(lines_view(mid@) =~= nv.subrange(p as int, k + 1));
        }
        k = k + 1;
    }
    proof {
        assert(nv =~= ov.take(p as int) + lines_view(mid@) + ov.skip(p + d as int)) by {
            assert forall|i: int| 0 <= i < nv.len() implies nv[i] == (ov.take(p as int)
                + lines_view(mid@) + ov.skip(p + d as int))[i] by {
                if i < p {
                } else if i < n2 - s {
                    assert(lines_view(mid@)[i - p] == nv[i]);
                } else {
                    let j = n2 - 1 - i;
                    assert(ov[n1 - 1 - j] == nv[n2 - 1 - j]);
                    assert(ov.skip(p + d as int)[i - (n2 - s)] == ov[n1 - n2 + i]);
                }
            }
            assert(nv.len() == (ov.take(p as int) + lines_view(mid@) + ov.skip(
                p + d as int,
            )).len());
        }
    }
    (p, d, mid)
}

/// Write the insert splice at the current point of the rewrite.
fn push_ins_block(out: &mut Vec<WeaveLine>, stack: &Vec<(bool, u64)>, t: u64, mid: &Vec<Vec<u8>>)
    ensures
        body_view(final(out)@) == body_view(old(out)@) + ins_block(stack@, t, lines_view(mid@)),
{
    let ghost base0 = body_view(old(out)@);
    let ghost mv = lines_view(mid@);
    let len = stack.len();
    let mut j: usize = len;
    proof {
        assert(body_view(out@) =~= base0 + closes(stack@).take(0));
    }
    while j > 0
        invariant
            j <= len,
            len == stack@.len(),
            body_view(out@) == base0 + closes(stack@).take(len - j),
        decreases j,
    {
        j = j - 1;
        let ghost prevb = body_view(out@);
        let (_ins, n) = stack[j];
        out.push(WeaveLine::End(n));
        proof {
            assert(body_view(out@) =~= prevb.push(WLine::End(stack@[j as int].1)));
            assert(closes(stack@)[len - j - 1] == WLine::End(stack@[j as int].1));
            assert(body_view(out@) =~= base0 + closes(stack@).take(len - j));
        }
    }
    proof {
        assert(closes(stack@).take(len as int) =~= closes(stack@));
    }
    let ghost base1 = base0 + closes(stack@);
    let ghost prevb1 = body_view(out@);
    out.push(WeaveLine::Insert(t));
    proof {
        assert(body_view(out@) =~= prevb1.push(WLine::Insert(t)));
        assert(body_view(out@) =~= base1 + seq![WLine::Insert(t)] + plains(mv.take(0)));
    }
    let mut k: usize = 0;
    while k < mid.len()
        invariant
            k <= mid.len(),
            mv == lines_view(mid@),
            body_view(out@) == base1 + seq![WLine::Insert(t)] + plains(mv.take(k as int)),
        decreases mid.len() - k,
    {
        let ghost prevb2 = body_view(out@);
        let line = clone_bytes(&mid[k]);
        let ghost lv = line@;
        out.push(WeaveLine::Plain(line));
        proof {
            assert(lv == mv[k as int]);
            assert(body_view(out@) =~= prevb2.push(WLine::Plain(mv[k as int])));
            assert(plains(mv.take(k + 1)) =~= plains(mv.take(k as int)).push(
                WLine::Plain(mv[k as int]),
            ));
            assert(body_view(out@) =~= base1 + seq![WLine::Insert(t)] + plains(mv.take(k + 1)));
        }
        k = k + 1;
    }
    proof {
        assert(mv.take(mv.len() as int) =~= mv);
    }
    let ghost prevb3 = body_view(out@);
    out.push(WeaveLine::End(t));
    proof {
        assert(body_view(out@) =~= prevb3.push(WLine::End(t)));
        assert(body_view(out@) =~= base1 + mid_part(t, mv) + reopens(stack@).take(0));
    }
    let ghost base2 = base1 + mid_part(t, mv);
    let mut j2: usize = 0;
    while j2 < len
        invariant
            j2 <= len,
            len == stack@.len(),
            body_view(out@) == base2 + reopens(stack@).take(j2 as int),
        decreases len - j2,
    {
        let ghost prevb4 = body_view(out@);
        let (ins, n) = stack[j2];
        if ins {
            out.push(WeaveLine::Insert(n));
        } else {
            out.push(WeaveLine::Delete(n));
        }
        proof {
            assert(body_view(out@) =~= prevb4.push(open_of(stack@[j2 as int])));
            assert(reopens(stack@)[j2 as int] == open_of(stack@[j2 as int]));
            assert(body_view(out@) =~= base2 + reopens(stack@).take(j2 + 1));
        }
        j2 = j2 + 1;
    }
    proof {
        assert(reopens(stack@).take(len as int) =~= reopens(stack@));
        assert(body_view(out@) =~= base0 + ins_block(stack@, t, mv));
    }
}

/// Rewrite the body for the new delta, exactly as the splice describes.
fn splice_exec(body: &Vec<WeaveLine>, t: u64, base: u64, p: usize, d: usize, mid: &Vec<Vec<u8>>) -> (r:
    Vec<WeaveLine>)
    requires
        p + d <= usize::MAX,
    ensures
        body_view(r@) == splice(body_view(body@), t, base, p as int, d as int, lines_view(mid@)),
{
    let ghost bv = body_view(body@);
    let ghost mv = lines_view(mid@);
    let mut out: Vec<WeaveLine> = Vec::new();
    let mut stack: Vec<(bool, u64)> = Vec::new();
    let mut c: usize = 0;
    let mut done: bool = false;
    let mut i: usize = 0;
    proof {
        assert(bv.skip(0) =~= bv);
        assert(body_view(out@) =~= Seq::<WLine>::empty());
        assert(Seq::<WLine>::empty() + splice_rec(bv, stack@, 0, false, t, base, p as int, d as int, mv)
            =~= splice_rec(bv, stack@, 0, false, t, base, p as int, d as int, mv));
    }
    while i < body.len()
        invariant
            i <= body.len(),
            c <= i,
            bv == body_view(body@),
            mv == lines_view(mid@),
            bv.len() == body@.len(),
            splice(bv, t, base, p as int, d as int, mv) == body_view(out@) + splice_rec(
                bv.skip(i as int),
                stack@,
                c as int,
                done,
                t,
                base,
                p as int,
                d as int,
                mv,
            ),
        decreases body.len() - i,
    {
        let ghost pre = bv.skip(i as int);
        let ghost prevout = body_view(out@);
        proof {
            assert(pre[0] == bv[i as int]);
            assert(bv[i as int] == crate::weave::line_view(body@[i as int]));
            assert(pre.skip(1) =~= bv.skip(i + 1));
        }
        match &body[i] {
            WeaveLine::Insert(n) => {
                out.push(WeaveLine::Insert(*n));
                stack.push((true, *n));
                proof {
                    assert(body_view(out@) =~= prevout + seq![pre[0]]);
                    assert((prevout + seq![pre[0]]) + splice_rec(
                        bv.skip(i + 1),
                        stack@,
                        c as int,
                        done,
                        t,
                        base,
                        p as int,
                        d as int,
                        mv,
                    ) =~= prevout + (seq![pre[0]] + splice_rec(
                        bv.skip(i + 1),
                        stack@,
                        c as int,
                        done,
                        t,
                        base,
                        p as int,
                        d as int,
                        mv,
                    )));
                }
            },
            WeaveLine::Delete(n) => {
                out.push(WeaveLine::Delete(*n));
                stack.push((false, *n));
                proof {
                    assert(body_view(out@) =~= prevout + seq![pre[0]]);
                    assert((prevout + seq![pre[0]]) + splice_rec(
                        bv.skip(i + 1),
                        stack@,
                        c as int,
                        done,
                        t,
                        base,
                        p as int,
                        d as int,
                        mv,
                    ) =~= prevout + (seq![pre[0]] + splice_rec(
                        bv.skip(i + 1),
                        stack@,
                        c as int,
                        done,
                        t,
                        base,
                        p as int,
                        d as int,
                        mv,
                    )));
                }
            },
            WeaveLine::End(n) => {
                out.push(WeaveLine::End(*n));
                if stack.len() > 0 {
                    let ghost st0 = stack@;
                    stack.pop();
                    proof {
                        assert(stack@ =~= st0.drop_last());
                    }
                }
                proof {
                    assert(body_view(out@) =~= prevout + seq![pre[0]]);
                    assert((prevout + seq![pre[0]]) + splice_rec(
                        bv.skip(i + 1),
                        stack@,
                        c as int,
                        done,
                        t,
                        base,
                        p as int,
                        d as int,
                        mv,
                    ) =~= prevout + (seq![pre[0]] + splice_rec(
                        bv.skip(i + 1),
                        stack@,
                        c as int,
                        done,
                        t,
                        base,
                        p as int,
                        d as int,
                        mv,
                    )));
                }
            },
            WeaveLine::Plain(l) => {
                let keep = keep_now(&stack, base);
                if keep {
                    let ghost fire_s = !done && c as int >= p as int;
                    let fire = !done && c >= p;
                    if fire {
                        push_ins_block(&mut out, &stack, t, mid);
                        done = true;
                    }
                    let ghost out1 = body_view(out@);
                    let wrapped = c + 1 > p && c - p < d;
                    proof {
                        assert(wrapped == (p < c + 1 <= p + d));
                    }
                    if wrapped {
                        out.push(WeaveLine::Delete(t));
                        let line = clone_bytes(l);
                        out.push(WeaveLine::Plain(line));
                        out.push(WeaveLine::End(t));
                        proof {
                            assert(body_view(out@) =~= out1 + seq![
                                WLine::Delete(t),
                                pre[0],
                                WLine::End(t),
                            ]);
                        }
                    } else {
                        let line = clone_bytes(l);
                        out.push(WeaveLine::Plain(line));
                        proof {
                            assert(body_view(out@) =~= out1 + seq![pre[0]]);
                        }
                    }
                    c = c + 1;
                    proof {
                        let recs = splice_rec(
                            bv.skip(i + 1),
                            stack@,
                            c as int,
                            done,
                            t,
                            base,
                            p as int,
                            d as int,
                            mv,
                        );
                        let pres: Seq<WLine> = if fire_s {
                            ins_block(stack@, t, mv)
                        } else {
                            Seq::empty()
                        };
                        let piece: Seq<WLine> = if p < c <= p + d {
                            seq![WLine::Delete(t), pre[0], WLine::End(t)]
                        } else {
                            seq![pre[0]]
                        };
                        if !fire_s {
                            assert(pres =~= Seq::<WLine>::empty());
                            assert(out1 =~= prevout + pres);
                        }
                        assert(body_view(out@) =~= prevout + pres + piece);
                        assert((prevout + pres + piece) + recs =~= prevout + (pres + piece
                            + recs));
                    }
                } else {
                    let line = clone_bytes(l);
                    out.push(WeaveLine::Plain(line));
                    proof {
                        assert(body_view(out@) =~= prevout + seq![pre[0]]);
                        assert((prevout + seq![pre[0]]) + splice_rec(
                            bv.skip(i + 1),
                            stack@,
                            c as int,
                            done,
                            t,
                            base,
                            p as int,
                            d as int,
                            mv,
                        ) =~= prevout + (seq![pre[0]] + splice_rec(
                            bv.skip(i + 1),
                            stack@,
                            c as int,
                            done,
                            t,
                            base,
                            p as int,
                            d as int,
                            mv,
                        )));
                    }
                }
            },
        }
        i = i + 1;
    }
    proof {
        assert(bv.skip(body@.len() as int) =~= Seq::<WLine>::empty());
    }
    if !done {
        push_ins_block(&mut out, &stack, t, mid);
        proof {
            assert(body_view(out@) == splice(bv, t, base, p as int, d as int, mv));
        }
    } else {
        proof {
            assert(splice_rec(
                Seq::<WLine>::empty(),
                stack@,
                c as int,
                done,
                t,
                base,
                p as int,
                d as int,
                mv,
            ) =~= Seq::<WLine>::empty());
            assert(body_view(out@) + Seq::<WLine>::empty() =~= body_view(out@));
        }
    }
    out
}

/// Append a new delta `t` to a weave body, against base delta `base`: the new
/// content replaces the base content for targets from `t` on, and every
/// earlier target still reads exactly what it read before.
pub fn add_delta(body: &Vec<WeaveLine>, base: u64, t: u64, newc: &Vec<Vec<u8>>) -> (r: Result<
    Vec<WeaveLine>,
    SureError,
>)
    requires
        base < t,
        nums_le(body_view(body@), base),
    ensures
        match r {
            Ok(nb) => {
                &&& wf_body(body_view(body@))
                &&& wf_body(body_view(nb@))
                &&& nums_le(body_view(nb@), t)
                &&& forall|k: u64|
                    k < t ==> extract(body_view(nb@), k) == extract(body_view(body@), k)
                &&& extract(body_view(nb@), t) == lines_view(newc@)
            },
            Err(e) => !wf_body(body_view(body@)) && e is FormatError,
        },
{
    let oldc = match parse_body(body, base) {
        Ok(v) => v,
        Err(e) => {
            return Err(e);
        },
    };
    let ol = oldc.len();
    let (pdm) = diff_content(&oldc, newc);
    let p = pdm.0;
    let d = pdm.1;
    let mid = pdm.2;
    proof {
        assert(p + d <= ol);
    }
    let nb = splice_exec(body, t, base, p, d, &mid);
    proof {
        let bv = body_view(body@);
        let mv = lines_view(mid@);
        let bigr = run(bv, Seq::<Block>::empty(), base).0;
        assert(bigr == lines_view(oldc@));
        lemma_splice_wf(bv, Seq::<Block>::empty(), 0, false, t, base, p as int, d as int, mv);
        lemma_splice_nums(bv, Seq::<Block>::empty(), 0, false, t, base, p as int, d as int, mv);
        assert forall|k: u64| k < t implies extract(body_view(nb@), k) == extract(bv, k) by {
            lemma_splice_old(
                bv,
                Seq::<Block>::empty(),
                0,
                false,
                t,
                base,
                p as int,
                d as int,
                mv,
                k,
            );
        }
        lemma_splice_new(bv, Seq::<Block>::empty(), 0, false, t, base, p as int, d as int, mv);
        assert(extract(body_view(nb@), t) == bigr.take(p as int) + mv + bigr.skip(p + d as int));
        assert(extract(body_view(nb@), t) == lines_view(newc@));
    }
    Ok(nb)
}


/// A weave history: the body after each delta, with the content each delta
/// wrote. The first body is what a first write promises (well formed,
/// numbers within one, reading back its content); each later body is what a
/// rewrite for the next delta promises: well formed, numbers within the new
/// delta, the new content read at the new delta, and every earlier delta
/// read unchanged. `first_delta_body` and `add_delta` establish exactly
/// these clauses.
pub open spec fn weave_history(bodies: Seq<Seq<WLine>>, cs: Seq<Seq<Seq<u8>>>) -> bool {
    &&& bodies.len() == cs.len()
    &&& bodies.len() >= 1
    &&& wf_body(bodies[0])
    &&& nums_le(bodies[0], 1)
    &&& extract(bodies[0], 1) == cs[0]
    &&& forall|k: int|
        1 <= k < bodies.len() ==> {
            &&& wf_body(#[trigger] bodies[k])
            &&& nums_le(bodies[k], (k + 1) as u64)
            &&& extract(bodies[k], (k + 1) as u64) == cs[k]
            &&& forall|j: u64| 1 <= j <= k ==> extract(bodies[k], j) == extract(bodies[k - 1], j)
        }
}

/// Every delta of a weave history reads back verbatim from the final body:
/// what was written as delta `n` is what parsing the finished weave for
/// target `n` yields.
pub proof fn lemma_history_retrieval(bodies: Seq<Seq<WLine>>, cs: Seq<Seq<Seq<u8>>>, n: u64)
    requires
        weave_history(bodies, cs),
        bodies.len() <= u64::MAX,
        1 <= n <= bodies.len(),
    ensures
        extract(bodies.last(), n) == cs[n - 1],
    decreases bodies.len(),
{
    let m = bodies.len() as int;
    if n == m {
        if m == 1 {
        } else {
            assert(extract(bodies[m - 1], ((m - 1) + 1) as u64) == cs[m - 1]);
        }
    } else {
        assert(m >= 2);
        assert(extract(bodies[m - 1], n) == extract(bodies[m - 2], n)) by {
            assert(1 <= n <= m - 1);
        }
        let bodies2 = bodies.drop_last();
        let cs2 = cs.drop_last();
        assert(weave_history(bodies2, cs2)) by {
            assert(bodies2[0] == bodies[0] && cs2[0] == cs[0]);
            assert forall|k: int| 1 <= k < bodies2.len() implies {
                &&& wf_body(#[trigger] bodies2[k])
                &&& nums_le(bodies2[k], (k + 1) as u64)
                &&& extract(bodies2[k], (k + 1) as u64) == cs2[k]
                &&& forall|j: u64|
                    1 <= j <= k ==> extract(bodies2[k], j) == extract(bodies2[k - 1], j)
            } by {
                assert(bodies2[k] == bodies[k] && bodies2[k - 1] == bodies[k - 1] && cs2[k]
                    == cs[k]);
            }
        }
        lemma_history_retrieval(bodies2, cs2, n);
        assert(bodies2.last() == bodies[m - 2]);
        assert(cs2[n - 1] == cs[n - 1]);
    }
}

} // verus!
