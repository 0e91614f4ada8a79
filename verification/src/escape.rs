use vstd::prelude::*;

verus! {

/// A byte that passes through the attribute codec unchanged: printable ASCII
/// that is neither `=` nor `\`.
pub open spec fn plain_byte(b: u8) -> bool {
    0x21 <= b <= 0x7e && b != 0x3d && b != 0x5c
}

/// The lowercase hexadecimal digit for a value below sixteen.
pub open spec fn hex_digit(n: u8) -> u8
    recommends
        n < 16,
{
    if n < 10 {
        (0x30 + n) as u8
    } else {
        (0x57 + n) as u8
    }
}

/// The value of a lowercase hexadecimal digit byte; sixteen when the byte is
/// no such digit.
pub open spec fn hex_value(b: u8) -> u8 {
    if 0x30 <= b <= 0x39 {
        (b - 0x30) as u8
    } else if 0x61 <= b <= 0x66 {
        (b - 0x57) as u8
    } else {
        16
    }
}

/// The escaped form of one byte: itself when plain, `=HH` otherwise.
pub open spec fn escape_byte(b: u8) -> Seq<u8> {
    if plain_byte(b) {
        seq![b]
    } else {
        seq![0x3du8, hex_digit(b / 16), hex_digit(b % 16)]
    }
}

/// The escaped form of a byte string, byte by byte.
pub open spec fn escape_bytes(s: Seq<u8>) -> Seq<u8>
    decreases s.len(),
{
    if s.len() == 0 {
        Seq::empty()
    } else {
        escape_byte(s[0]) + escape_bytes(s.skip(1))
    }
}

/// The decoded form of an escaped byte string: `=HH` becomes one byte, any
/// other byte passes through; a truncated or non-hexadecimal escape is
/// rejected.
pub open spec fn unescape_bytes(s: Seq<u8>) -> Option<Seq<u8>>
    decreases s.len(),
{
    if s.len() == 0 {
        Some(Seq::empty())
    } else if s[0] == 0x3d {
        if s.len() >= 3 && hex_value(s[1]) < 16 && hex_value(s[2]) < 16 {
            match unescape_bytes(s.skip(3)) {
                Some(rest) => Some(seq![(hex_value(s[1]) * 16 + hex_value(s[2])) as u8] + rest),
                None => None,
            }
        } else {
            None
        }
    } else {
        match unescape_bytes(s.skip(1)) {
            Some(rest) => Some(seq![s[0]] + rest),
            None => None,
        }
    }
}

/// Escaping distributes over concatenation.
pub proof fn lemma_escape_append(a: Seq<u8>, b: Seq<u8>)
    ensures
        escape_bytes(a + b) == escape_bytes(a) + escape_bytes(b),
    decreases a.len(),
{
    if a.len() == 0 {
        assert(a + b =~= b);
        assert(escape_bytes(a) + escape_bytes(b) =~= escape_bytes(b));
    } else {
        lemma_escape_append(a.skip(1), b);
        assert((a + b).skip(1) =~= a.skip(1) + b);
        assert(escape_bytes(a + b) =~= escape_bytes(a) + escape_bytes(b));
    }
}

/// Every byte of an escaped string is printable ASCII: in particular the
/// escaped form holds no space and no newline.
pub proof fn lemma_escape_printable(s: Seq<u8>)
    ensures
        forall|j: int| 0 <= j < escape_bytes(s).len() ==> 0x21 <= #[trigger] escape_bytes(s)[j] <= 0x7e,
    decreases s.len(),
{
    if s.len() == 0 {
    } else {
        lemma_escape_printable(s.skip(1));
        assert forall|j: int| 0 <= j < escape_bytes(s).len() implies 0x21 <= #[trigger] escape_bytes(s)[j] <= 0x7e by {
            let eb = escape_byte(s[0]);
            if j < eb.len() {
                assert(escape_bytes(s)[j] == eb[j]);
            } else {
                assert(escape_bytes(s)[j] == escape_bytes(s.skip(1))[j - eb.len()]);
            }
        }
    }
}

/// Decoding undoes escaping: the codec loses nothing.
pub proof fn lemma_unescape_escape(s: Seq<u8>)
    ensures
        unescape_bytes(escape_bytes(s)) == Some(s),
    decreases s.len(),
{
    if s.len() == 0 {
    } else {
        let b = s[0];
        let rest = s.skip(1);
        lemma_unescape_escape(rest);
        let es = escape_bytes(s);
        if plain_byte(b) {
            assert(es =~= seq![b] + escape_bytes(rest));
            assert(es.skip(1) =~= escape_bytes(rest));
            assert(unescape_bytes(es) == Some(seq![b] + rest));
            assert(seq![b] + rest =~= s);
        } else {
            let h = hex_digit(b / 16);
            let l = hex_digit(b % 16);
            assert(es =~= seq![0x3du8, h, l] + escape_bytes(rest));
            assert(es.skip(3) =~= escape_bytes(rest));
            assert(b / 16 < 16 && b % 16 < 16);
            assert(hex_value(h) == b / 16 && hex_value(l) == b % 16);
            assert(hex_value(h) * 16 + hex_value(l) == b) by {
                assert(b / 16 * 16 + b % 16 == b) by (nonlinear_arith);
            }
            assert(unescape_bytes(es) == Some(seq![b] + rest));
            assert(seq![b] + rest =~= s);
        }
    }
}

/// Splices one decoded byte onto the front of a partial decode.
pub open spec fn opt_prepend(p: Seq<u8>, o: Option<Seq<u8>>) -> Option<Seq<u8>> {
    match o {
        Some(r) => Some(p + r),
        None => None,
    }
}

fn hex_dig(n: u8) -> (r: u8)
    requires
        n < 16,
    ensures
        r == hex_digit(n),
{
    if n < 10 {
        0x30 + n
    } else {
        0x57 + n
    }
}

fn hex_val(b: u8) -> (r: u8)
    ensures
        r == hex_value(b),
{
    if 0x30 <= b && b <= 0x39 {
        b - 0x30
    } else if 0x61 <= b && b <= 0x66 {
        b - 0x57
    } else {
        16
    }
}

/// Encode a byte string for the wire: plain bytes pass, all others become
/// `=HH` with lowercase hexadecimal digits.
pub fn escape(s: &[u8]) -> (r: Vec<u8>)
    ensures
        r@ == escape_bytes(s@),
{
    let mut out: Vec<u8> = Vec::new();
    let mut i: usize = 0;
    while i < s.len()
        invariant
            i <= s.len(),
            out@ == escape_bytes(s@.take(i as int)),
        decreases s.len() - i,
    {
        let b = s[i];
        proof {
            assert(s@.take(i + 1) =~= s@.take(i as int) + seq![b]);
            lemma_escape_append(s@.take(i as int), seq![b]);
            assert(seq![b].skip(1) =~= Seq::<u8>::empty());
            assert(escape_bytes(Seq::<u8>::empty()) =~= Seq::<u8>::empty());
            assert(escape_bytes(seq![b]) == escape_byte(b) + escape_bytes(seq![b].skip(1)));
            assert(escape_bytes(seq![b]) =~= escape_byte(b));
        }
        if 0x21 <= b && b <= 0x7e && b != 0x3d && b != 0x5c {
            out.push(b);
        } else {
            out.push(0x3d);
            out.push(hex_dig(b / 16));
            out.push(hex_dig(b % 16));
        }
        proof {
            assert(out@ =~= escape_bytes(s@.take(i + 1)));
        }
        i = i + 1;
    }
    proof {
        assert(s@.take(s@.len() as int) =~= s@);
    }
    out
}

/// Decode an escaped byte string; rejects a truncated or malformed escape.
pub fn unescape(s: &[u8]) -> (r: Option<Vec<u8>>)
    ensures
        match r {
            Some(v) => unescape_bytes(s@) == Some(v@),
            None => unescape_bytes(s@) is None,
        },
{
    let mut out: Vec<u8> = Vec::new();
    let mut i: usize = 0;
    proof {
        assert(s@.skip(0) =~= s@);
        if unescape_bytes(s@) is Some {
            assert(Seq::<u8>::empty() + unescape_bytes(s@).unwrap() =~= unescape_bytes(s@).unwrap());
        }
    }
    while i < s.len()
        invariant
            i <= s.len(),
            unescape_bytes(s@) == opt_prepend(out@, unescape_bytes(s@.skip(i as int))),
        decreases s.len() - i,
    {
        let ghost pre = s@.skip(i as int);
        assert(pre[0] == s@[i as int]);
        if s[i] == 0x3d {
            if s.len() - i < 3 {
                assert(pre.len() < 3);
                return None;
            }
            let hv = hex_val(s[i + 1]);
            let lv = hex_val(s[i + 2]);
            assert(pre[1] == s@[i + 1] && pre[2] == s@[i + 2]);
            if hv >= 16 || lv >= 16 {
                return None;
            }
            let b = hv * 16 + lv;
            proof {
                assert(pre.skip(3) =~= s@.skip(i + 3));
                if unescape_bytes(s@.skip(i + 3)) is Some {
                    assert(out@ + (seq![b] + unescape_bytes(s@.skip(i + 3)).unwrap())
                        =~= (out@ + seq![b]) + unescape_bytes(s@.skip(i + 3)).unwrap());
                    assert(opt_prepend(out@, unescape_bytes(pre))
                        == Some((out@ + seq![b]) + unescape_bytes(s@.skip(i + 3)).unwrap()));
                }
            }
            out.push(b);
            i = i + 3;
        } else {
            let b = s[i];
            proof {
                assert(pre.skip(1) =~= s@.skip(i + 1));
                if unescape_bytes(s@.skip(i + 1)) is Some {
                    assert(out@ + (seq![b] + unescape_bytes(s@.skip(i + 1)).unwrap())
                        =~= (out@ + seq![b]) + unescape_bytes(s@.skip(i + 1)).unwrap());
                }
            }
            out.push(b);
            i = i + 1;
        }
    }
    proof {
        assert(s@.skip(s@.len() as int) =~= Seq::<u8>::empty());
        assert(out@ + Seq::<u8>::empty() =~= out@);
    }
    Some(out)
}

} // verus!
