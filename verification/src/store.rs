use vstd::prelude::*;

use crate::SureError;
use crate::escape::{escape, escape_bytes, lemma_escape_printable, lemma_unescape_escape, unescape,
    unescape_bytes};
use crate::lines::{first_sep, join_bytes, lemma_split_join, split, split_bytes};
use crate::weave::{WLine, WeaveLine, body_view, clone_bytes, line_view, lines_view};

verus! {

/// The canonical decimal form of a number, without leading zeros.
pub open spec fn dec_of(n: u64) -> Seq<u8>
    decreases n,
{
    if n < 10 {
        seq![(0x30 + n) as u8]
    } else {
        dec_of(n / 10) + seq![(0x30 + n % 10) as u8]
    }
}

/// Read a decimal number; rejects anything but a canonical decimal that
/// fits.
pub open spec fn parse_dec_rec(s: Seq<u8>, acc: u64) -> Option<u64>
    decreases s.len(),
{
    if s.len() == 0 {
        Some(acc)
    } else if !(0x30 <= s[0] <= 0x39) {
        None
    } else if acc > (u64::MAX - (s[0] - 0x30)) / 10 {
        None
    } else {
        parse_dec_rec(s.skip(1), (acc * 10 + (s[0] - 0x30)) as u64)
    }
}

pub open spec fn parse_dec(s: Seq<u8>) -> Option<u64> {
    if s.len() == 0 || (s.len() > 1 && s[0] == 0x30) {
        None
    } else {
        parse_dec_rec(s, 0)
    }
}

/// Every digit of a canonical decimal is a digit byte.
pub proof fn lemma_dec_digits(n: u64)
    ensures
        forall|j: int| 0 <= j < dec_of(n).len() ==> 0x30 <= #[trigger] dec_of(n)[j] <= 0x39,
        dec_of(n).len() >= 1,
        n >= 10 ==> dec_of(n).len() >= 2,
        dec_of(n)[0] != 0x30 || n == 0,
    decreases n,
{
    if n < 10 {
    } else {
        lemma_dec_digits(n / 10);
        assert forall|j: int| 0 <= j < dec_of(n).len() implies 0x30 <= #[trigger] dec_of(n)[j]
            <= 0x39 by {
            if j < dec_of(n / 10).len() {
                assert(dec_of(n)[j] == dec_of(n / 10)[j]);
            }
        }
        assert(dec_of(n)[0] == dec_of(n / 10)[0]);
        assert(n / 10 != 0) by (nonlinear_arith)
            requires
                n >= 10,
        ;
    }
}

proof fn lemma_parse_dec_rec_append(a: Seq<u8>, d: u8, acc: u64)
    requires
        0x30 <= d <= 0x39,
    ensures
        parse_dec_rec(a + seq![d], acc) == (match parse_dec_rec(a, acc) {
            Some(v) => if v <= (u64::MAX - (d - 0x30)) / 10 {
                Some((v * 10 + (d - 0x30)) as u64)
            } else {
                None::<u64>
            },
            None => None::<u64>,
        }),
    decreases a.len(),
{
    reveal_with_fuel(parse_dec_rec, 3);
    if a.len() == 0 {
        assert(a + seq![d] =~= seq![d]);
        assert((seq![d]).skip(1) =~= Seq::<u8>::empty());
    } else {
        let s = a + seq![d];
        assert(s[0] == a[0]);
        if 0x30 <= a[0] <= 0x39 && acc <= (u64::MAX - (a[0] - 0x30)) / 10 {
            assert(s.skip(1) =~= a.skip(1) + seq![d]);
            lemma_parse_dec_rec_append(a.skip(1), d, (acc * 10 + (a[0] - 0x30)) as u64);
        }
    }
}

/// Reading back a written number gives the number.
pub proof fn lemma_dec_round(n: u64)
    ensures
        parse_dec(dec_of(n)) == Some(n),
    decreases n,
{
    lemma_dec_digits(n);
    lemma_dec_round_rec(n);
    if n >= 10 {
        assert(dec_of(n)[0] != 0x30);
    }
}

proof fn lemma_dec_round_rec(n: u64)
    ensures
        parse_dec_rec(dec_of(n), 0) == Some(n),
    decreases n,
{
    reveal_with_fuel(parse_dec_rec, 3);
    if n < 10 {
        assert(dec_of(n).skip(1) =~= Seq::<u8>::empty());
    } else {
        lemma_dec_round_rec(n / 10);
        lemma_dec_digits(n / 10);
        let d = (0x30 + n % 10) as u8;
        lemma_parse_dec_rec_append(dec_of(n / 10), d, 0);
        assert(n / 10 <= (u64::MAX - (d - 0x30)) / 10 && n / 10 * 10 + n % 10 == n)
            by (nonlinear_arith)
            requires
                10 <= n <= u64::MAX,
                d == 0x30 + n % 10,
        ;
        assert(dec_of(n) == dec_of(n / 10) + seq![d]);
        assert(parse_dec_rec(dec_of(n / 10), 0) == Some(n / 10));
        assert(parse_dec_rec(dec_of(n / 10) + seq![d], 0) == Some(
            (n / 10 * 10 + (d - 0x30)) as u64,
        ));
        assert((n / 10 * 10 + (d - 0x30)) as u64 == n);
    }
}

/// Write a number in canonical decimal.
pub fn u64_to_dec(n: u64) -> (r: Vec<u8>)
    ensures
        r@ == dec_of(n),
    decreases n,
{
    if n < 10 {
        let mut v: Vec<u8> = Vec::new();
        v.push(0x30 + (n as u8));
        proof {
            assert(v@ =~= dec_of(n));
        }
        v
    } else {
        let mut v = u64_to_dec(n / 10);
        v.push(0x30 + ((n % 10) as u8));
        proof {
            assert(v@ =~= dec_of(n));
        }
        v
    }
}

/// Read a canonical decimal number.
pub fn dec_to_u64(s: &Vec<u8>) -> (r: Option<u64>)
    ensures
        r == parse_dec(s@),
{
    if s.len() == 0 {
        return None;
    }
    if s.len() > 1 && s[0] == 0x30 {
        return None;
    }
    let mut acc: u64 = 0;
    let mut i: usize = 0;
    proof {
        assert(s@.skip(0) =~= s@);
    }
    while i < s.len()
        invariant
            i <= s@.len(),
            parse_dec_rec(s@, 0) == parse_dec_rec(s@.skip(i as int), acc),
        decreases s@.len() - i,
    {
        let b = s[i];
        proof {
            assert(s@.skip(i as int)[0] == s@[i as int]);
            assert(s@.skip(i as int).skip(1) =~= s@.skip(i + 1));
        }
        if b < 0x30 || b > 0x39 {
            return None;
        }
        let d = b - 0x30;
        if acc > (u64::MAX - (d as u64)) / 10 {
            return None;
        }
        acc = acc * 10 + (d as u64);
        i = i + 1;
    }
    proof {
        assert(s@.skip(s@.len() as int) =~= Seq::<u8>::empty());
    }
    Some(acc)
}

/// The wire form of one weave body line: control lines carry a one-byte
/// opcode after the marker byte, then the delta number in decimal.
pub open spec fn enc_wline(l: WLine) -> Seq<u8> {
    match l {
        WLine::Insert(n) => seq![0x01u8, 0x49u8, 0x20u8] + dec_of(n),
        WLine::Delete(n) => seq![0x01u8, 0x44u8, 0x20u8] + dec_of(n),
        WLine::End(n) => seq![0x01u8, 0x45u8, 0x20u8] + dec_of(n),
        WLine::Plain(s) => s,
    }
}

/// A body line that the wire can carry: a plain line neither starts with the
/// marker byte nor holds a line break.
pub open spec fn wire_plain(s: Seq<u8>) -> bool {
    &&& (s.len() > 0 ==> s[0] != 0x01)
    &&& forall|j: int| 0 <= j < s.len() ==> s[j] != 0x0a
}

/// Decode one line of a weave body: a control line, a plain line, or a
/// skipped header line; a control line with a bad number is refused.
pub open spec fn dec_wline(s: Seq<u8>) -> Result<Option<WLine>, ()> {
    if s.len() == 0 || s[0] != 0x01 {
        Ok(Some(WLine::Plain(s)))
    } else if s.len() >= 3 && (s[1] == 0x49 || s[1] == 0x44 || s[1] == 0x45) && s[2] == 0x20 {
        match parse_dec(s.skip(3)) {
            Some(n) => if s[1] == 0x49 {
                Ok(Some(WLine::Insert(n)))
            } else if s[1] == 0x44 {
                Ok(Some(WLine::Delete(n)))
            } else {
                Ok(Some(WLine::End(n)))
            },
            None => Err(()),
        }
    } else if s.len() >= 2 && (s[1] == 0x49 || s[1] == 0x44 || s[1] == 0x45) {
        Err(())
    } else {
        Ok(None)
    }
}

/// Decoding a written body line gives the line back.
pub proof fn lemma_wline_round(l: WLine)
    requires
        l matches WLine::Plain(s) ==> wire_plain(s),
    ensures
        dec_wline(enc_wline(l)) == Ok::<Option<WLine>, ()>(Some(l)),
{
    match l {
        WLine::Insert(n) => {
            lemma_dec_round(n);
            assert(enc_wline(l).skip(3) =~= dec_of(n));
        },
        WLine::Delete(n) => {
            lemma_dec_round(n);
            assert(enc_wline(l).skip(3) =~= dec_of(n));
        },
        WLine::End(n) => {
            lemma_dec_round(n);
            assert(enc_wline(l).skip(3) =~= dec_of(n));
        },
        WLine::Plain(s) => {
        },
    }
}

/// Write one body line for the wire.
pub fn encode_wline(l: &WeaveLine) -> (r: Vec<u8>)
    ensures
        r@ == enc_wline(line_view(*l)),
{
    match l {
        WeaveLine::Insert(n) => {
            let mut v: Vec<u8> = Vec::new();
            v.push(0x01);
            v.push(0x49);
            v.push(0x20);
            let d = u64_to_dec(*n);
            let mut k: usize = 0;
            while k < d.len()
                invariant
                    k <= d@.len(),
                    v@ == seq![0x01u8, 0x49u8, 0x20u8] + d@.take(k as int),
                decreases d@.len() - k,
            {
                v.push(d[k]);
                proof {
                    assert(v@ =~= seq![0x01u8, 0x49u8, 0x20u8] + d@.take(k + 1));
                }
                k = k + 1;
            }
            proof {
                assert(d@.take(d@.len() as int) =~= d@);
            }
            v
        },
        WeaveLine::Delete(n) => {
            let mut v: Vec<u8> = Vec::new();
            v.push(0x01);
            v.push(0x44);
            v.push(0x20);
            let d = u64_to_dec(*n);
            let mut k: usize = 0;
            while k < d.len()
                invariant
                    k <= d@.len(),
                    v@ == seq![0x01u8, 0x44u8, 0x20u8] + d@.take(k as int),
                decreases d@.len() - k,
            {
                v.push(d[k]);
                proof {
                    assert(v@ =~= seq![0x01u8, 0x44u8, 0x20u8] + d@.take(k + 1));
                }
                k = k + 1;
            }
            proof {
                assert(d@.take(d@.len() as int) =~= d@);
            }
            v
        },
        WeaveLine::End(n) => {
            let mut v: Vec<u8> = Vec::new();
            v.push(0x01);
            v.push(0x45);
            v.push(0x20);
            let d = u64_to_dec(*n);
            let mut k: usize = 0;
            while k < d.len()
                invariant
                    k <= d@.len(),
                    v@ == seq![0x01u8, 0x45u8, 0x20u8] + d@.take(k as int),
                decreases d@.len() - k,
            {
                v.push(d[k]);
                proof {
                    assert(v@ =~= seq![0x01u8, 0x45u8, 0x20u8] + d@.take(k + 1));
                }
                k = k + 1;
            }
            proof {
                assert(d@.take(d@.len() as int) =~= d@);
            }
            v
        },
        WeaveLine::Plain(s) => clone_bytes(s),
    }
}

/// Read one body line from the wire.
pub fn decode_wline(s: &Vec<u8>) -> (r: Result<Option<WeaveLine>, SureError>)
    ensures
        match r {
            Ok(Some(l)) => dec_wline(s@) == Ok::<Option<WLine>, ()>(Some(line_view(l))),
            Ok(None) => dec_wline(s@) == Ok::<Option<WLine>, ()>(None::<WLine>),
            Err(e) => dec_wline(s@) is Err && e is FormatError,
        },
{
    if s.len() == 0 || s[0] != 0x01 {
        let c = clone_bytes(s);
        return Ok(Some(WeaveLine::Plain(c)));
    }
    let known = s.len() >= 2 && (s[1] == 0x49 || s[1] == 0x44 || s[1] == 0x45);
    if s.len() >= 3 && known && s[2] == 0x20 {
        let num = crate::serial::copy_range(s, 3, s.len());
        proof {
            assert(num@ =~= s@.skip(3));
        }
        match dec_to_u64(&num) {
            Some(n) => {
                if s[1] == 0x49 {
                    Ok(Some(WeaveLine::Insert(n)))
                } else if s[1] == 0x44 {
                    Ok(Some(WeaveLine::Delete(n)))
                } else {
                    Ok(Some(WeaveLine::End(n)))
                }
            },
            None => Err(SureError::FormatError { line: 0 }),
        }
    } else if known {
        Err(SureError::FormatError { line: 0 })
    } else {
        Ok(None)
    }
}

/// Read a whole weave body from its wire lines: header and meta lines are
/// skipped, control and plain lines are kept in order.
pub open spec fn dec_body(lv: Seq<Seq<u8>>) -> Result<Seq<WLine>, ()>
    decreases lv.len(),
{
    if lv.len() == 0 {
        Ok(Seq::empty())
    } else {
        match dec_wline(lv[0]) {
            Err(e) => Err(e),
            Ok(None) => dec_body(lv.skip(1)),
            Ok(Some(l)) => match dec_body(lv.skip(1)) {
                Ok(rest) => Ok(seq![l] + rest),
                Err(e) => Err(e),
            },
        }
    }
}

/// Read a weave body from wire lines; fails on a control line with a bad
/// number, naming it.
pub fn decode_body(lines: &Vec<Vec<u8>>) -> (r: Result<Vec<WeaveLine>, SureError>)
    ensures
        match r {
            Ok(b) => dec_body(lines_view(lines@)) == Ok::<Seq<WLine>, ()>(body_view(b@)),
            Err(e) => dec_body(lines_view(lines@)) is Err && e is FormatError,
        },
{
    let ghost lv = lines_view(lines@);
    let mut out: Vec<WeaveLine> = Vec::new();
    let mut i: usize = 0;
    proof {
        assert(lv.skip(0) =~= lv);
        if dec_body(lv) is Ok {
            assert(Seq::<WLine>::empty() + dec_body(lv).unwrap() =~= dec_body(lv).unwrap());
        }
    }
    while i < lines.len()
        invariant
            i <= lines@.len(),
            lv == lines_view(lines@),
            lv.len() == lines@.len(),
            dec_body(lv) == (match dec_body(lv.skip(i as int)) {
                Ok(rest) => Ok::<Seq<WLine>, ()>(body_view(out@) + rest),
                Err(e) => Err::<Seq<WLine>, ()>(e),
            }),
        decreases lines@.len() - i,
    {
        let ghost pre = lv.skip(i as int);
        proof {
            assert(pre[0] == lv[i as int]);
            assert(pre.skip(1) =~= lv.skip(i + 1));
            assert(lv[i as int] == lines@[i as int]@);
        }
        match decode_wline(&lines[i]) {
            Ok(Some(l)) => {
                let ghost prevb = body_view(out@);
                let ghost lv2 = line_view(l);
                out.push(l);
                proof {
                    assert(body_view(out@) =~= prevb.push(lv2));
                    if dec_body(lv.skip(i + 1)) is Ok {
                        assert(prevb + (seq![lv2] + dec_body(lv.skip(i + 1)).unwrap())
                            =~= prevb.push(lv2) + dec_body(lv.skip(i + 1)).unwrap());
                    }
                }
            },
            Ok(None) => {},
            Err(e) => {
                return Err(SureError::FormatError { line: i as u64 });
            },
        }
        i = i + 1;
    }
    proof {
        assert(lv.skip(lv.len() as int) =~= Seq::<Seq<u8>>::empty());
        assert(body_view(out@) + Seq::<WLine>::empty() =~= body_view(out@));
    }
    Ok(out)
}

/// Write a weave body as wire lines, one for each body line.
pub fn encode_body(body: &Vec<WeaveLine>) -> (r: Vec<Vec<u8>>)
    ensures
        lines_view(r@) == body_view(body@).map_values(|l: WLine| enc_wline(l)),
{
    let mut out: Vec<Vec<u8>> = Vec::new();
    let ghost goal = body_view(body@).map_values(|l: WLine| enc_wline(l));
    let mut i: usize = 0;
    proof {
        assert(lines_view(out@) =~= goal.take(0));
    }
    while i < body.len()
        invariant
            i <= body@.len(),
            goal == body_view(body@).map_values(|l: WLine| enc_wline(l)),
            goal.len() == body@.len(),
            lines_view(out@) == goal.take(i as int),
        decreases body@.len() - i,
    {
        let ghost prev = lines_view(out@);
        let e = encode_wline(&body[i]);
        let ghost ev = e@;
        out.push(e);
        proof {
            assert(ev == goal[i as int]);
            assert(lines_view(out@) =~= prev.push(goal[i as int]));
            assert(lines_view(out@) =~= goal.take(i + 1));
        }
        i = i + 1;
    }
    proof {
        assert(goal.take(goal.len() as int) =~= goal);
    }
    out
}

/// One recorded delta of a weave: its number, the line count it wrote, a
/// caller-chosen identifier, and its tags. A time stamp travels as an
/// ordinary tag.
pub struct DeltaInfo {
    pub number: u64,
    pub count: u64,
    pub id: u64,
    pub tags: Vec<(Vec<u8>, Vec<u8>)>,
}

/// The mathematical form of a recorded delta.
pub struct DeltaV {
    pub number: u64,
    pub count: u64,
    pub id: u64,
    pub tags: Seq<(Seq<u8>, Seq<u8>)>,
}

pub open spec fn delta_view(d: DeltaInfo) -> DeltaV {
    DeltaV { number: d.number, count: d.count, id: d.id, tags: crate::tree::pairs_view(d.tags@) }
}

pub open spec fn deltas_view(ds: Seq<DeltaInfo>) -> Seq<DeltaV> {
    ds.map_values(|d: DeltaInfo| delta_view(d))
}

/// The `s` line that starts a delta record: number, line count, identifier.
pub open spec fn enc_sline(d: DeltaV) -> Seq<u8> {
    seq![0x01u8, 0x73u8, 0x20u8] + join_bytes(
        seq![dec_of(d.number), dec_of(d.count), dec_of(d.id)],
        0x20,
    )
}

/// One `t` line: an escaped key and an escaped value.
pub open spec fn enc_tline(p: (Seq<u8>, Seq<u8>)) -> Seq<u8> {
    seq![0x01u8, 0x74u8, 0x20u8] + escape_bytes(p.0) + seq![0x20u8] + escape_bytes(p.1)
}

/// A whole delta record: the `s` line, its tag lines, the `T` terminator.
pub open spec fn enc_delta(d: DeltaV) -> Seq<Seq<u8>> {
    seq![enc_sline(d)] + d.tags.map_values(|p: (Seq<u8>, Seq<u8>)| enc_tline(p)) + seq![
        seq![0x01u8, 0x54u8],
    ]
}

pub open spec fn enc_header(ds: Seq<DeltaV>, i: int) -> Seq<Seq<u8>>
    decreases ds.len() - i,
{
    if i < 0 || i >= ds.len() {
        Seq::empty()
    } else {
        enc_delta(ds[i]) + enc_header(ds, i + 1)
    }
}

/// Write one delta record.
pub fn encode_delta(d: &DeltaInfo) -> (r: Vec<Vec<u8>>)
    ensures
        lines_view(r@) == enc_delta(delta_view(*d)),
{
    let ghost dv = delta_view(*d);
    let mut out: Vec<Vec<u8>> = Vec::new();
    let mut sline: Vec<u8> = Vec::new();
    sline.push(0x01);
    sline.push(0x73);
    sline.push(0x20);
    let mut toks: Vec<Vec<u8>> = Vec::new();
    toks.push(u64_to_dec(d.number));
    toks.push(u64_to_dec(d.count));
    toks.push(u64_to_dec(d.id));
    proof {
        assert(lines_view(toks@) =~= seq![dec_of(dv.number), dec_of(dv.count), dec_of(dv.id)]);
    }
    let joined = crate::lines::join(&toks, 0x20);
    let ghost spre = sline@;
    let mut q: usize = 0;
    while q < joined.len()
        invariant
            q <= joined@.len(),
            sline@ == spre + joined@.take(q as int),
        decreases joined@.len() - q,
    {
        sline.push(joined[q]);
        proof {
            assert(sline@ =~= spre + joined@.take(q + 1));
        }
        q = q + 1;
    }
    proof {
        assert(spre + joined@.take(joined@.len() as int) =~= spre + joined@);
        assert(sline@ =~= enc_sline(dv));
    }
    out.push(sline);
    proof {
        assert(lines_view(out@) =~= seq![enc_sline(dv)]);
    }
    let ghost tl = dv.tags.map_values(|p: (Seq<u8>, Seq<u8>)| enc_tline(p));
    let mut i: usize = 0;
    proof {
        assert(lines_view(out@) =~= seq![enc_sline(dv)] + tl.take(0));
    }
    while i < d.tags.len()
        invariant
            i <= d.tags@.len(),
            dv == delta_view(*d),
            tl == dv.tags.map_values(|p: (Seq<u8>, Seq<u8>)| enc_tline(p)),
            dv.tags.len() == d.tags@.len(),
            lines_view(out@) == seq![enc_sline(dv)] + tl.take(i as int),
        decreases d.tags@.len() - i,
    {
        let ghost prev = lines_view(out@);
        let mut tline: Vec<u8> = Vec::new();
        tline.push(0x01);
        tline.push(0x74);
        tline.push(0x20);
        let ek = escape(d.tags[i].0.as_slice());
        let ghost t0 = tline@;
        let mut q2: usize = 0;
        while q2 < ek.len()
            invariant
                q2 <= ek@.len(),
                tline@ == t0 + ek@.take(q2 as int),
            decreases ek@.len() - q2,
        {
            tline.push(ek[q2]);
            proof {
                assert(tline@ =~= t0 + ek@.take(q2 + 1));
            }
            q2 = q2 + 1;
        }
        tline.push(0x20);
        let ev = escape(d.tags[i].1.as_slice());
        let ghost t1 = tline@;
        let mut q3: usize = 0;
        while q3 < ev.len()
            invariant
                q3 <= ev@.len(),
                tline@ == t1 + ev@.take(q3 as int),
            decreases ev@.len() - q3,
        {
            tline.push(ev[q3]);
            proof {
                assert(tline@ =~= t1 + ev@.take(q3 + 1));
            }
            q3 = q3 + 1;
        }
        proof {
            assert(ek@.take(ek@.len() as int) =~= ek@);
            assert(ev@.take(ev@.len() as int) =~= ev@);
            assert(dv.tags[i as int] == (d.tags@[i as int].0@, d.tags@[i as int].1@));
            assert(tline@ =~= enc_tline(dv.tags[i as int]));
        }
        out.push(tline);
        proof {
            assert(lines_view(out@) =~= prev.push(enc_tline(dv.tags[i as int])));
            assert(lines_view(out@) =~= seq![enc_sline(dv)] + tl.take(i + 1));
        }
        i = i + 1;
    }
    proof {
        assert(tl.take(tl.len() as int) =~= tl);
    }
    let mut term: Vec<u8> = Vec::new();
    term.push(0x01);
    term.push(0x54);
    proof {
        assert(term@ =~= seq![0x01u8, 0x54u8]);
    }
    let ghost prev2 = lines_view(out@);
    out.push(term);
    proof {
        assert(lines_view(out@) =~= prev2.push(seq![0x01u8, 0x54u8]));
        assert(lines_view(out@) =~= enc_delta(dv));
    }
    out
}

/// Write the whole header, newest delta first, then the encoded body.
pub fn encode_weave(deltas: &Vec<DeltaInfo>, body: &Vec<WeaveLine>) -> (r: Vec<Vec<u8>>)
    ensures
        lines_view(r@) == enc_header(deltas_view(deltas@), 0) + body_view(body@).map_values(
            |l: WLine| enc_wline(l),
        ),
{
    let ghost dsv = deltas_view(deltas@);
    let mut out: Vec<Vec<u8>> = Vec::new();
    let mut i: usize = 0;
    proof {
        assert(lines_view(out@) =~= Seq::<Seq<u8>>::empty());
        assert(Seq::<Seq<u8>>::empty() + enc_header(dsv, 0) =~= enc_header(dsv, 0));
    }
    while i < deltas.len()
        invariant
            i <= deltas@.len(),
            dsv == deltas_view(deltas@),
            dsv.len() == deltas@.len(),
            lines_view(out@) + enc_header(dsv, i as int) == enc_header(dsv, 0),
        decreases deltas@.len() - i,
    {
        let ghost prev = lines_view(out@);
        let rec = encode_delta(&deltas[i]);
        let mut k: usize = 0;
        let ghost rv = lines_view(rec@);
        while k < rec.len()
            invariant
                k <= rec@.len(),
                rv == lines_view(rec@),
                rv.len() == rec@.len(),
                lines_view(out@) == prev + rv.take(k as int),
            decreases rec@.len() - k,
        {
            let ghost p2 = lines_view(out@);
            let line = clone_bytes(&rec[k]);
            out.push(line);
            proof {
                assert(lines_view(out@) =~= p2.push(rv[k as int]));
                assert(lines_view(out@) =~= prev + rv.take(k + 1));
            }
            k = k + 1;
        }
        proof {
            assert(rv.take(rv.len() as int) =~= rv);
            assert(dsv[i as int] == delta_view(deltas@[i as int]));
            assert(enc_header(dsv, i as int) == enc_delta(dsv[i as int]) + enc_header(
                dsv,
                i + 1,
            ));
            assert((prev + rv) + enc_header(dsv, i + 1) =~= prev + (rv + enc_header(dsv, i + 1)));
        }
        i = i + 1;
    }
    proof {
        assert(enc_header(dsv, dsv.len() as int) =~= Seq::<Seq<u8>>::empty());
        assert(lines_view(out@) + Seq::<Seq<u8>>::empty() =~= lines_view(out@));
    }
    let blines = encode_body(body);
    let ghost prevall = lines_view(out@);
    let ghost bv = lines_view(blines@);
    let mut k2: usize = 0;
    while k2 < blines.len()
        invariant
            k2 <= blines@.len(),
            bv == lines_view(blines@),
            bv.len() == blines@.len(),
            lines_view(out@) == prevall + bv.take(k2 as int),
        decreases blines@.len() - k2,
    {
        let ghost p3 = lines_view(out@);
        let line = clone_bytes(&blines[k2]);
        out.push(line);
        proof {
            assert(lines_view(out@) =~= p3.push(bv[k2 as int]));
            assert(lines_view(out@) =~= prevall + bv.take(k2 + 1));
        }
        k2 = k2 + 1;
    }
    proof {
        assert(bv.take(bv.len() as int) =~= bv);
    }
    out
}

/// Find the delta number a version selector names: the newest-first header
/// list gives `Latest` and `Prior`; a tag selector matches on the `name`
/// tag's bytes, exactly.
pub fn select_delta(deltas: &Vec<DeltaInfo>, version: &crate::Version) -> (r: Result<
    u64,
    SureError,
>)
    ensures
        match r {
            Ok(n) => match *version {
                crate::Version::Latest => deltas@.len() >= 1 && n == deltas@[0].number,
                crate::Version::Prior => deltas@.len() >= 2 && n == deltas@[1].number,
                crate::Version::Tagged(s) => exists|i: int|
                    0 <= i < deltas@.len() && (#[trigger] deltas@[i]).number == n
                        && tag_named(deltas@[i].tags@, s@),
            },
            Err(e) => e is VersionNotFound && match *version {
                crate::Version::Latest => deltas@.len() == 0,
                crate::Version::Prior => deltas@.len() < 2,
                crate::Version::Tagged(s) => forall|i: int|
                    0 <= i < deltas@.len() ==> !tag_named((#[trigger] deltas@[i]).tags@, s@),
            },
        },
{
    match version {
        crate::Version::Latest => {
            if deltas.len() >= 1 {
                Ok(deltas[0].number)
            } else {
                Err(SureError::VersionNotFound)
            }
        },
        crate::Version::Prior => {
            if deltas.len() >= 2 {
                Ok(deltas[1].number)
            } else {
                Err(SureError::VersionNotFound)
            }
        },
        crate::Version::Tagged(s) => {
            let want = s.as_str().as_bytes_vec();
            let mut i: usize = 0;
            while i < deltas.len()
                invariant
                    i <= deltas@.len(),
                    *version == crate::Version::Tagged(*s),
                    want@ == vstd::utf8::encode_utf8(s@),
                    forall|j: int|
                        0 <= j < i ==> !tag_named((#[trigger] deltas@[j]).tags@, s@),
                decreases deltas@.len() - i,
            {
                if delta_has_name(&deltas[i], &want, Ghost(s@)) {
                    proof {
                        assert((deltas@[i as int]).number == deltas@[i as int].number
                            && tag_named(deltas@[i as int].tags@, s@));
                    }
                    return Ok(deltas[i].number);
                }
                i = i + 1;
            }
            Err(SureError::VersionNotFound)
        },
    }
}

/// Whether a delta's `name` tag holds exactly the selector's bytes.
pub open spec fn tag_named(tags: Seq<(Vec<u8>, Vec<u8>)>, name: Seq<char>) -> bool {
    exists|i: int|
        0 <= i < tags.len() && (#[trigger] tags[i]).0@ == name_key() && tags[i].1@ == vstd::utf8::encode_utf8(
            name,
        )
}

pub open spec fn name_key() -> Seq<u8> {
    seq![0x6eu8, 0x61u8, 0x6du8, 0x65u8]
}

fn delta_has_name(d: &DeltaInfo, want: &Vec<u8>, Ghost(sv): Ghost<Seq<char>>) -> (r: bool)
    requires
        want@ == vstd::utf8::encode_utf8(sv),
    ensures
        r == tag_named(d.tags@, sv),
{
    let mut nk: Vec<u8> = Vec::new();
    nk.push(0x6e);
    nk.push(0x61);
    nk.push(0x6d);
    nk.push(0x65);
    proof {
        assert(nk@ =~= name_key());
    }
    let mut i: usize = 0;
    while i < d.tags.len()
        invariant
            i <= d.tags@.len(),
            nk@ == name_key(),
            want@ == vstd::utf8::encode_utf8(sv),
            forall|j: int|
                0 <= j < i ==> !((#[trigger] d.tags@[j]).0@ == name_key() && d.tags@[j].1@
                    == vstd::utf8::encode_utf8(sv)),
        decreases d.tags@.len() - i,
    {
        if crate::delta::bytes_eq(&d.tags[i].0, &nk) {
            if crate::delta::bytes_eq(&d.tags[i].1, want) {
                return true;
            }
        }
        i = i + 1;
    }
    false
}


pub open spec fn parse_sline(line: Seq<u8>) -> Option<(u64, u64, u64)> {
    if line.len() < 3 || line[0] != 0x01 || line[1] != 0x73 || line[2] != 0x20 {
        None
    } else {
        let toks = split_bytes(line.skip(3), 0x20);
        if toks.len() != 3 {
            None
        } else {
            match (parse_dec(toks[0]), parse_dec(toks[1]), parse_dec(toks[2])) {
                (Some(a), Some(b), Some(c)) => Some((a, b, c)),
                _ => None,
            }
        }
    }
}

pub open spec fn is_tline(line: Seq<u8>) -> bool {
    line.len() >= 3 && line[0] == 0x01 && line[1] == 0x74 && line[2] == 0x20
}

pub open spec fn parse_tline(line: Seq<u8>) -> Option<(Seq<u8>, Seq<u8>)> {
    let toks = split_bytes(line.skip(3), 0x20);
    if toks.len() != 2 {
        None
    } else {
        match (unescape_bytes(toks[0]), unescape_bytes(toks[1])) {
            (Some(k), Some(v)) => Some((k, v)),
            _ => None,
        }
    }
}

/// The first line at or past `i` that is not a tag line.
pub open spec fn tags_end(lv: Seq<Seq<u8>>, i: int) -> int
    decreases lv.len() - i,
{
    if i < 0 || i >= lv.len() {
        lv.len() as int
    } else if is_tline(lv[i]) {
        tags_end(lv, i + 1)
    } else {
        i
    }
}

pub proof fn lemma_tags_end(lv: Seq<Seq<u8>>, i: int)
    requires
        0 <= i <= lv.len(),
    ensures
        i <= tags_end(lv, i) <= lv.len(),
        forall|j: int| i <= j < tags_end(lv, i) ==> is_tline(lv[j]),
        tags_end(lv, i) < lv.len() ==> !is_tline(lv[tags_end(lv, i)]),
    decreases lv.len() - i,
{
    if i < lv.len() && is_tline(lv[i]) {
        lemma_tags_end(lv, i + 1);
    }
}

/// The decoded tag lines of the range, each of which must decode.
pub open spec fn parse_tags_range(lv: Seq<Seq<u8>>, a: int, b: int) -> Option<
    Seq<(Seq<u8>, Seq<u8>)>,
>
    decreases b - a,
{
    if a >= b {
        Some(Seq::empty())
    } else {
        match parse_tline(lv[a]) {
            None => None,
            Some(p) => match parse_tags_range(lv, a + 1, b) {
                None => None,
                Some(rest) => Some(seq![p] + rest),
            },
        }
    }
}

pub open spec fn is_sline_start(line: Seq<u8>) -> bool {
    line.len() >= 2 && line[0] == 0x01 && line[1] == 0x73
}

/// Decode the header records from line `i` on: each record is an `s` line,
/// its tag lines, and a `T` terminator; the header ends at the first line
/// that starts no record.
pub open spec fn parse_header(lv: Seq<Seq<u8>>, i: int) -> Option<(Seq<DeltaV>, int)>
    decreases lv.len() - i via parse_header_dec
{
    if i < 0 || i >= lv.len() || !is_sline_start(lv[i]) {
        Some((Seq::empty(), if 0 <= i <= lv.len() {
            i
        } else {
            lv.len() as int
        }))
    } else {
        match parse_sline(lv[i]) {
            None => None,
            Some((num, cnt, id)) => {
                let j = tags_end(lv, i + 1);
                match parse_tags_range(lv, i + 1, j) {
                    None => None,
                    Some(tags) => if j < lv.len() && lv[j] == seq![0x01u8, 0x54u8] {
                        match parse_header(lv, j + 1) {
                            None => None,
                            Some((rest, k)) => Some(
                                (
                                    seq![DeltaV { number: num, count: cnt, id: id, tags: tags }]
                                        + rest,
                                    k,
                                ),
                            ),
                        }
                    } else {
                        None
                    },
                }
            },
        }
    }
}

#[via_fn]
proof fn parse_header_dec(lv: Seq<Seq<u8>>, i: int) {
    if 0 <= i < lv.len() && is_sline_start(lv[i]) {
        lemma_tags_end(lv, i + 1);
    }
}

/// Every successful header parse lands at or before the end.
pub proof fn lemma_parse_header_bounds(lv: Seq<Seq<u8>>, i: int)
    requires
        0 <= i <= lv.len(),
    ensures
        parse_header(lv, i) matches Some(r) ==> i <= r.1 <= lv.len(),
    decreases lv.len() - i,
{
    if i < lv.len() && is_sline_start(lv[i]) {
        lemma_tags_end(lv, i + 1);
        let j = tags_end(lv, i + 1);
        if j < lv.len() {
            lemma_parse_header_bounds(lv, j + 1);
        }
    }
}

fn is_prefix3(line: &Vec<u8>, b1: u8, b2: u8) -> (r: bool)
    ensures
        r == (line@.len() >= 3 && line@[0] == 0x01 && line@[1] == b1 && line@[2] == b2),
{
    line.len() >= 3 && line[0] == 0x01 && line[1] == b1 && line[2] == b2
}

/// Decode a weave file: the header records, then the body lines.
pub fn decode_weave(lines: &Vec<Vec<u8>>) -> (r: Result<(Vec<DeltaInfo>, Vec<WeaveLine>), SureError>)
    ensures
        match r {
            Ok(p) => {
                &&& parse_header(lines_view(lines@), 0) matches Some(h) && h.0 == deltas_view(
                    p.0@,
                )
                &&& (parse_header(lines_view(lines@), 0) matches Some(h) ==> dec_body(
                    lines_view(lines@).skip(h.1),
                ) == Ok::<Seq<WLine>, ()>(body_view(p.1@)))
            },
            Err(e) => (parse_header(lines_view(lines@), 0) is None || (
            parse_header(lines_view(lines@), 0) matches Some(h) && dec_body(
                lines_view(lines@).skip(h.1),
            ) is Err)) && e is FormatError,
        },
{
    let ghost lv = lines_view(lines@);
    let mut ds: Vec<DeltaInfo> = Vec::new();
    let mut i: usize = 0;
    let mut stop: bool = false;
    proof {
        assert(lv.skip(0) =~= lv);
    }
    while !stop
        invariant
            0 <= i <= lines@.len(),
            lv == lines_view(lines@),
            lv.len() == lines@.len(),
            !stop ==> (match parse_header(lv, i as int) {
                Some(p) => parse_header(lv, 0) == Some((deltas_view(ds@) + p.0, p.1)),
                None => parse_header(lv, 0) is None,
            }),
            stop ==> parse_header(lv, 0) == Some((deltas_view(ds@), i as int)),
        decreases lines@.len() - i + if stop {
            0int
        } else {
            1int
        },
    {
        proof {
            if i < lines@.len() {
                assert(lv[i as int] == lines@[i as int]@);
            }
        }
        if i >= lines.len() || !(lines[i].len() >= 2 && lines[i][0] == 0x01 && lines[i][1]
            == 0x73) {
            stop = true;
            proof {
                assert(parse_header(lv, i as int) == Some(
                    (Seq::<DeltaV>::empty(), i as int),
                ));
                assert(deltas_view(ds@) + Seq::<DeltaV>::empty() =~= deltas_view(ds@));
            }
            continue;
        }
        // the record's own line
        if !is_prefix3(&lines[i], 0x73, 0x20) {
            return Err(SureError::FormatError { line: i as u64 });
        }
        let rest = crate::serial::copy_range(&lines[i], 3, lines[i].len());
        proof {
            assert(rest@ =~= lv[i as int].skip(3));
        }
        let toks = split(&rest, 0x20);
        if toks.len() != 3 {
            return Err(SureError::FormatError { line: i as u64 });
        }
        let num = match dec_to_u64(&toks[0]) {
            Some(v) => v,
            None => {
                return Err(SureError::FormatError { line: i as u64 });
            },
        };
        let cnt = match dec_to_u64(&toks[1]) {
            Some(v) => v,
            None => {
                return Err(SureError::FormatError { line: i as u64 });
            },
        };
        let id = match dec_to_u64(&toks[2]) {
            Some(v) => v,
            None => {
                return Err(SureError::FormatError { line: i as u64 });
            },
        };
        proof {
            assert(lines_view(toks@)[0] == toks@[0 as int]@);
            assert(lines_view(toks@)[1] == toks@[1 as int]@);
            assert(lines_view(toks@)[2] == toks@[2 as int]@);
            assert(parse_sline(lv[i as int]) == Some((num, cnt, id)));
        }
        // the tag lines
        let ghost tend = tags_end(lv, i + 1);
        proof {
            lemma_tags_end(lv, i + 1);
        }
        let mut tags: Vec<(Vec<u8>, Vec<u8>)> = Vec::new();
        let mut j: usize = i + 1;
        while j < lines.len() && is_prefix3(&lines[j], 0x74, 0x20)
            invariant
                i + 1 <= j <= lines@.len(),
                lv == lines_view(lines@),
                lv.len() == lines@.len(),
                tend == tags_end(lv, i + 1),
                i < lines@.len(),
                is_sline_start(lv[i as int]),
                parse_sline(lv[i as int]) == Some((num, cnt, id)),
                (match parse_header(lv, i as int) {
                    Some(p) => parse_header(lv, 0) == Some((deltas_view(ds@) + p.0, p.1)),
                    None => parse_header(lv, 0) is None,
                }),
                forall|m: int| i + 1 <= m < j ==> is_tline(lv[m]),
                j <= tend,
                parse_tags_range(lv, i + 1, tend) == (match parse_tags_range(
                    lv,
                    j as int,
                    tend,
                ) {
                    Some(rest2) => Some(crate::tree::pairs_view(tags@) + rest2),
                    None => None::<Seq<(Seq<u8>, Seq<u8>)>>,
                }),
            decreases lines@.len() - j,
        {
            proof {
                assert(lv[j as int] == lines@[j as int]@);
                assert(is_tline(lv[j as int]));
                assert(j < tend) by {
                    lemma_tags_end(lv, i + 1);
                    if j >= tend {
                        assert(!is_tline(lv[tend]) || tend >= lv.len());
                    }
                }
            }
            let trest = crate::serial::copy_range(&lines[j], 3, lines[j].len());
            proof {
                assert(trest@ =~= lv[j as int].skip(3));
            }
            let ttoks = split(&trest, 0x20);
            if ttoks.len() != 2 {
                return Err(SureError::FormatError { line: j as u64 });
            }
            let k = match unescape(ttoks[0].as_slice()) {
                Some(v) => v,
                None => {
                    return Err(SureError::FormatError { line: j as u64 });
                },
            };
            let v = match unescape(ttoks[1].as_slice()) {
                Some(v) => v,
                None => {
                    return Err(SureError::FormatError { line: j as u64 });
                },
            };
            proof {
                assert(lines_view(ttoks@)[0] == ttoks@[0 as int]@);
                assert(lines_view(ttoks@)[1] == ttoks@[1 as int]@);
                assert(parse_tline(lv[j as int]) == Some((k@, v@)));
            }
            let ghost prevt = crate::tree::pairs_view(tags@);
            let ghost kv = k@;
            let ghost vv = v@;
            tags.push((k, v));
            proof {
                assert(crate::tree::pairs_view(tags@) =~= prevt.push((kv, vv)));
                if parse_tags_range(lv, j + 1, tend) is Some {
                    assert(prevt + (seq![(kv, vv)] + parse_tags_range(
                        lv,
                        j + 1,
                        tend,
                    ).unwrap()) =~= prevt.push((kv, vv)) + parse_tags_range(
                        lv,
                        j + 1,
                        tend,
                    ).unwrap());
                }
            }
            j = j + 1;
        }
        proof {
            assert(j >= tend) by {
                if j < tend {
                    assert(is_tline(lv[j as int]));
                    assert(lv[j as int] == lines@[j as int]@);
                }
            }
            assert(j == tend);
            assert(parse_tags_range(lv, tend, tend) == Some(
                Seq::<(Seq<u8>, Seq<u8>)>::empty(),
            ));
            assert(crate::tree::pairs_view(tags@) + Seq::<(Seq<u8>, Seq<u8>)>::empty()
                =~= crate::tree::pairs_view(tags@));
            assert(parse_tags_range(lv, i + 1, tend) == Some(crate::tree::pairs_view(tags@)));
        }
        // the terminator
        if j >= lines.len() {
            return Err(SureError::FormatError { line: j as u64 });
        }
        let okterm = lines[j].len() == 2 && lines[j][0] == 0x01 && lines[j][1] == 0x54;
        proof {
            assert(lv[j as int] == lines@[j as int]@);
            if okterm {
                assert(lv[j as int] =~= seq![0x01u8, 0x54u8]);
            } else {
                if lv[j as int] == seq![0x01u8, 0x54u8] {
                    assert(lv[j as int].len() == 2 && lv[j as int][0] == 0x01 && lv[j as int][1]
                        == 0x54);
                }
            }
        }
        if !okterm {
            return Err(SureError::FormatError { line: j as u64 });
        }
        let ghost prevds = deltas_view(ds@);
        let d = DeltaInfo { number: num, count: cnt, id: id, tags };
        let ghost dv2 = delta_view(d);
        ds.push(d);
        proof {
            assert(deltas_view(ds@) =~= prevds.push(dv2));
            assert(parse_header(lv, i as int) == (match parse_header(lv, j + 1) {
                Some((rest3, kk)) => Some((seq![dv2] + rest3, kk)),
                None => None::<(Seq<DeltaV>, int)>,
            }));
            if parse_header(lv, j + 1) is Some {
                let p = parse_header(lv, j + 1).unwrap();
                assert(prevds + (seq![dv2] + p.0) =~= prevds.push(dv2) + p.0);
            }
        }
        i = j + 1;
    }
    // the body
    let mut rest_lines: Vec<Vec<u8>> = Vec::new();
    let mut m: usize = i;
    proof {
        assert(lines_view(rest_lines@) =~= lv.skip(i as int).take(0));
    }
    while m < lines.len()
        invariant
            i <= m <= lines@.len(),
            lv == lines_view(lines@),
            lv.len() == lines@.len(),
            lines_view(rest_lines@) == lv.skip(i as int).take(m - i),
        decreases lines@.len() - m,
    {
        let ghost prevr = lines_view(rest_lines@);
        let line = clone_bytes(&lines[m]);
        rest_lines.push(line);
        proof {
            assert(lines_view(rest_lines@) =~= prevr.push(lv[m as int]));
            assert(lv.skip(i as int).take(m + 1 - i) =~= lv.skip(i as int).take(m - i).push(
                lv[m as int],
            ));
        }
        m = m + 1;
    }
    proof {
        assert(lv.skip(i as int).take(lv.len() - i) =~= lv.skip(i as int));
    }
    let body = match decode_body(&rest_lines) {
        Ok(b) => b,
        Err(e) => {
            return Err(SureError::FormatError { line: 0 });
        },
    };
    Ok((ds, body))
}


pub open spec fn time_key() -> Seq<u8> {
    seq![0x74u8, 0x69u8, 0x6du8, 0x65u8]
}

fn tags_get<'a>(tags: &'a Vec<(Vec<u8>, Vec<u8>)>, key: &Vec<u8>) -> (r: Option<&'a Vec<u8>>)
    ensures
        match r {
            Some(v) => crate::tree::atts_lookup(crate::tree::pairs_view(tags@), key@) == Some(
                v@,
            ),
            None => crate::tree::atts_lookup(crate::tree::pairs_view(tags@), key@) is None,
        },
{
    let ghost pv = crate::tree::pairs_view(tags@);
    let mut i: usize = 0;
    proof {
        assert(pv.skip(0) =~= pv);
    }
    while i < tags.len()
        invariant
            i <= tags@.len(),
            pv == crate::tree::pairs_view(tags@),
            pv.len() == tags@.len(),
            crate::tree::atts_lookup(pv, key@) == crate::tree::atts_lookup(
                pv.skip(i as int),
                key@,
            ),
        decreases tags@.len() - i,
    {
        let ghost pre = pv.skip(i as int);
        proof {
            assert(pre[0] == pv[i as int]);
            assert(pre.skip(1) =~= pv.skip(i + 1));
        }
        if crate::delta::bytes_eq(&tags[i].0, key) {
            return Some(&tags[i].1);
        }
        i = i + 1;
    }
    proof {
        assert(pv.skip(pv.len() as int) =~= Seq::<(Seq<u8>, Seq<u8>)>::empty());
    }
    None
}

/// The recorded time of a delta: its `time` tag read as a decimal second
/// count, zero when absent or unreadable, clamped to the signed range.
pub open spec fn delta_time(d: DeltaV) -> i64 {
    match crate::tree::atts_lookup(d.tags, time_key()) {
        Some(v) => match parse_dec(v) {
            Some(n) => if n > i64::MAX as u64 {
                i64::MAX
            } else {
                n as i64
            },
            None => 0,
        },
        None => 0,
    }
}

/// The recorded name of a delta: its `name` tag's bytes, empty when absent.
pub open spec fn delta_name(d: DeltaV) -> Seq<u8> {
    match crate::tree::atts_lookup(d.tags, name_key()) {
        Some(v) => v,
        None => Seq::empty(),
    }
}

pub open spec fn digit_char(d: u64) -> char {
    if d == 0 {
        '0'
    } else if d == 1 {
        '1'
    } else if d == 2 {
        '2'
    } else if d == 3 {
        '3'
    } else if d == 4 {
        '4'
    } else if d == 5 {
        '5'
    } else if d == 6 {
        '6'
    } else if d == 7 {
        '7'
    } else if d == 8 {
        '8'
    } else {
        '9'
    }
}

/// The decimal text of a number.
pub open spec fn dec_chars(n: u64) -> Seq<char>
    decreases n,
{
    if n < 10 {
        seq![digit_char(n)]
    } else {
        dec_chars(n / 10) + seq![digit_char(n % 10)]
    }
}

fn append_digit(s: &mut String, d: u64)
    requires
        d < 10,
    ensures
        final(s)@ == old(s)@ + seq![digit_char(d)],
{
    proof {
        reveal_strlit("0");
        reveal_strlit("1");
        reveal_strlit("2");
        reveal_strlit("3");
        reveal_strlit("4");
        reveal_strlit("5");
        reveal_strlit("6");
        reveal_strlit("7");
        reveal_strlit("8");
        reveal_strlit("9");
    }
    if d == 0 {
        s.append("0");
        proof {
            assert("0"@ =~= seq!['0']);
        }
    } else if d == 1 {
        s.append("1");
        proof {
            assert("1"@ =~= seq!['1']);
        }
    } else if d == 2 {
        s.append("2");
        proof {
            assert("2"@ =~= seq!['2']);
        }
    } else if d == 3 {
        s.append("3");
        proof {
            assert("3"@ =~= seq!['3']);
        }
    } else if d == 4 {
        s.append("4");
        proof {
            assert("4"@ =~= seq!['4']);
        }
    } else if d == 5 {
        s.append("5");
        proof {
            assert("5"@ =~= seq!['5']);
        }
    } else if d == 6 {
        s.append("6");
        proof {
            assert("6"@ =~= seq!['6']);
        }
    } else if d == 7 {
        s.append("7");
        proof {
            assert("7"@ =~= seq!['7']);
        }
    } else if d == 8 {
        s.append("8");
        proof {
            assert("8"@ =~= seq!['8']);
        }
    } else {
        s.append("9");
        proof {
            assert("9"@ =~= seq!['9']);
        }
    }
}

/// The number's decimal text, for a tag label.
pub fn dec_string(n: u64) -> (r: String)
    ensures
        r@ == dec_chars(n),
    decreases n,
{
    if n < 10 {
        let mut s = String::new();
        proof {
            assert(s@ =~= Seq::<char>::empty());
        }
        append_digit(&mut s, n);
        proof {
            assert(s@ =~= dec_chars(n));
        }
        s
    } else {
        let mut s = dec_string(n / 10);
        append_digit(&mut s, n % 10);
        proof {
            assert(s@ =~= dec_chars(n));
        }
        s
    }
}

/// One version of a store, as the listing reports it: the selector, the
/// recorded time, and the recorded name bytes.
pub struct VersionEntry {
    pub version: crate::Version,
    pub time: i64,
    pub name: Vec<u8>,
}

/// The version listing of a weave header, newest first: the newest delta is
/// `Latest`, the one before `Prior`, every older one is addressed by its
/// number's text; each entry carries the delta's recorded time and name.
pub fn store_versions(deltas: &Vec<DeltaInfo>) -> (r: Vec<VersionEntry>)
    ensures
        r@.len() == deltas@.len(),
        forall|i: int|
            0 <= i < deltas@.len() ==> {
                let d = deltas_view(deltas@)[i];
                &&& (#[trigger] r@[i]).time == delta_time(d)
                &&& r@[i].name@ == delta_name(d)
                &&& (i == 0 ==> r@[i].version is Latest)
                &&& (i == 1 ==> r@[i].version is Prior)
                &&& (i >= 2 ==> (r@[i].version matches crate::Version::Tagged(s) && s@
                    == dec_chars(d.number)))
            },
{
    let mut out: Vec<VersionEntry> = Vec::new();
    let mut i: usize = 0;
    let mut tk: Vec<u8> = Vec::new();
    tk.push(0x74);
    tk.push(0x69);
    tk.push(0x6d);
    tk.push(0x65);
    let mut nk: Vec<u8> = Vec::new();
    nk.push(0x6e);
    nk.push(0x61);
    nk.push(0x6d);
    nk.push(0x65);
    proof {
        assert(tk@ =~= time_key());
        assert(nk@ =~= name_key());
    }
    while i < deltas.len()
        invariant
            i <= deltas@.len(),
            tk@ == time_key(),
            nk@ == name_key(),
            out@.len() == i,
            forall|m: int|
                0 <= m < i ==> {
                    let d = deltas_view(deltas@)[m];
                    &&& (#[trigger] out@[m]).time == delta_time(d)
                    &&& out@[m].name@ == delta_name(d)
                    &&& (m == 0 ==> out@[m].version is Latest)
                    &&& (m == 1 ==> out@[m].version is Prior)
                    &&& (m >= 2 ==> (out@[m].version matches crate::Version::Tagged(s) && s@
                        == dec_chars(d.number)))
                },
        decreases deltas@.len() - i,
    {
        let ghost dv = deltas_view(deltas@)[i as int];
        proof {
            assert(dv == delta_view(deltas@[i as int]));
        }
        let version = if i == 0 {
            crate::Version::Latest
        } else if i == 1 {
            crate::Version::Prior
        } else {
            crate::Version::Tagged(dec_string(deltas[i].number))
        };
        let time: i64 = match tags_get(&deltas[i].tags, &tk) {
            Some(v) => match dec_to_u64(v) {
                Some(n) => {
                    if n > i64::MAX as u64 {
                        i64::MAX
                    } else {
                        n as i64
                    }
                },
                None => 0,
            },
            None => 0,
        };
        let name: Vec<u8> = match tags_get(&deltas[i].tags, &nk) {
            Some(v) => clone_bytes(v),
            None => Vec::new(),
        };
        proof {
            assert(time == delta_time(dv));
            assert(name@ == delta_name(dv));
        }
        out.push(VersionEntry { version, time, name });
        i = i + 1;
    }
    out
}

/// The wire form of a tag map for a delta record: a `time` tag first, then
/// every given tag but a `time` one, keys and values as their UTF-8 bytes.
pub open spec fn tags_bytes(m: Seq<(Seq<char>, Seq<char>)>) -> Seq<(Seq<u8>, Seq<u8>)>
    decreases m.len(),
{
    if m.len() == 0 {
        Seq::empty()
    } else if m[0].0 == "time"@ {
        tags_bytes(m.skip(1))
    } else {
        seq![
            (vstd::utf8::encode_utf8(m[0].0), vstd::utf8::encode_utf8(m[0].1)),
        ] + tags_bytes(m.skip(1))
    }
}

/// Turn a snapshot's tag map into record tags, stamping the given time.
pub fn tags_to_bytes(tags: &crate::cli::StoreTags, time: u64) -> (r: Vec<(Vec<u8>, Vec<u8>)>)
    ensures
        crate::tree::pairs_view(r@) == seq![(time_key(), dec_of(time))] + tags_bytes(
            crate::cli::tags_view(tags@),
        ),
{
    let ghost mv = crate::cli::tags_view(tags@);
    let mut out: Vec<(Vec<u8>, Vec<u8>)> = Vec::new();
    let mut tk: Vec<u8> = Vec::new();
    tk.push(0x74);
    tk.push(0x69);
    tk.push(0x6d);
    tk.push(0x65);
    proof {
        assert(tk@ =~= time_key());
    }
    out.push((tk, u64_to_dec(time)));
    let ghost head: Seq<(Seq<u8>, Seq<u8>)> = seq![(time_key(), dec_of(time))];
    let mut i: usize = 0;
    proof {
        assert(crate::tree::pairs_view(out@) =~= head);
        assert(mv.skip(0) =~= mv);
        assert(head + tags_bytes(mv) =~= crate::tree::pairs_view(out@) + tags_bytes(mv));
    }
    while i < tags.len()
        invariant
            i <= tags@.len(),
            mv == crate::cli::tags_view(tags@),
            mv.len() == tags@.len(),
            head == seq![(time_key(), dec_of(time))],
            head + tags_bytes(mv) == crate::tree::pairs_view(out@) + tags_bytes(
                mv.skip(i as int),
            ),
        decreases tags@.len() - i,
    {
        let ghost pre = mv.skip(i as int);
        let ghost prevout = crate::tree::pairs_view(out@);
        proof {
            assert(pre[0] == mv[i as int]);
            assert(pre.skip(1) =~= mv.skip(i + 1));
        }
        if !crate::cli::str_eq(tags[i].0.as_str(), "time") {
            let kb = tags[i].0.as_str().as_bytes_vec();
            let vb = tags[i].1.as_str().as_bytes_vec();
            let ghost kbv = kb@;
            let ghost vbv = vb@;
            out.push((kb, vb));
            proof {
                assert(crate::tree::pairs_view(out@) =~= prevout.push((kbv, vbv)));
                assert(prevout + (seq![(kbv, vbv)] + tags_bytes(mv.skip(i + 1))) =~= prevout.push(
                    (kbv, vbv),
                ) + tags_bytes(mv.skip(i + 1)));
            }
        }
        i = i + 1;
    }
    proof {
        assert(mv.skip(mv.len() as int) =~= Seq::<(Seq<char>, Seq<char>)>::empty());
        assert(crate::tree::pairs_view(out@) + Seq::<(Seq<u8>, Seq<u8>)>::empty()
            =~= crate::tree::pairs_view(out@));
    }
    out
}

} // verus!
