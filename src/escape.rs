//! STOMP 1.2 header escaping and its inverse.
use vstd::prelude::*;

verus! {

pub const BACKSLASH: u8 = 92;

pub const COLON: u8 = 58;

pub const LF: u8 = 10;

pub const CR: u8 = 13;

/// The bytes that one input byte escapes to.
pub open spec fn escape_byte(b: u8) -> Seq<u8> {
    if b == LF {
        seq![BACKSLASH, 110u8]
    } else if b == CR {
        seq![BACKSLASH, 114u8]
    } else if b == COLON {
        seq![BACKSLASH, 99u8]
    } else if b == BACKSLASH {
        seq![BACKSLASH, BACKSLASH]
    } else {
        seq![b]
    }
}

/// Escaped form of a header name or value.
pub open spec fn escape_spec(s: Seq<u8>) -> Seq<u8>
    decreases s.len(),
{
    if s.len() == 0 {
        seq![]
    } else {
        escape_byte(s[0]) + escape_spec(s.subrange(1, s.len() as int))
    }
}

/// The byte that an escape sequence `\x` stands for, if `x` is a legal escape.
pub open spec fn unescape_byte(x: u8) -> Option<u8> {
    if x == 110u8 {
        Some(LF)
    } else if x == 114u8 {
        Some(CR)
    } else if x == 99u8 {
        Some(COLON)
    } else if x == BACKSLASH {
        Some(BACKSLASH)
    } else {
        None
    }
}

pub open spec fn opt_prepend(p: Seq<u8>, r: Option<Seq<u8>>) -> Option<Seq<u8>> {
    match r {
        Some(x) => Some(p + x),
        None => None,
    }
}

/// Decoded form of escaped header text; `None` for a dangling or unknown escape.
pub open spec fn unescape_spec(s: Seq<u8>) -> Option<Seq<u8>>
    decreases s.len(),
{
    if s.len() == 0 {
        Some(seq![])
    } else if s[0] != BACKSLASH {
        opt_prepend(seq![s[0]], unescape_spec(s.subrange(1, s.len() as int)))
    } else if s.len() < 2 {
        None
    } else {
        match unescape_byte(s[1]) {
            Some(c) => opt_prepend(seq![c], unescape_spec(s.subrange(2, s.len() as int))),
            None => None,
        }
    }
}

proof fn lemma_escape_push(s: Seq<u8>, b: u8)
    ensures
        escape_spec(s.push(b)) == escape_spec(s) + escape_byte(b),
    decreases s.len(),
{
    if s.len() == 0 {
        assert(s.push(b).subrange(1, 1) =~= s);
        assert(escape_spec(s) == Seq::<u8>::empty());
        assert(escape_spec(s.push(b)) =~= escape_byte(b) + escape_spec(s));
        assert(escape_byte(b) + escape_spec(s) =~= escape_spec(s) + escape_byte(b));
    } else {
        let t = s.subrange(1, s.len() as int);
        lemma_escape_push(t, b);
        assert(s.push(b).subrange(1, s.len() as int + 1) =~= t.push(b));
        assert(escape_spec(s.push(b)) =~= escape_spec(s) + escape_byte(b));
    }
}

/// Decoding the escaped form of any byte string gives that string back.
pub proof fn lemma_unescape_escape(s: Seq<u8>)
    ensures
        unescape_spec(escape_spec(s)) == Some(s),
    decreases s.len(),
{
    if s.len() > 0 {
        let t = s.subrange(1, s.len() as int);
        lemma_unescape_escape(t);
        let e = escape_spec(s);
        let et = escape_spec(t);
        let k = escape_byte(s[0]).len() as int;
        assert(e == escape_byte(s[0]) + et);
        assert(e.subrange(k, e.len() as int) =~= et);
        assert(unescape_spec(e) =~= Some(seq![s[0]] + t));
        assert(seq![s[0]] + t =~= s);
    }
}

/// Every escaped string is free of line breaks and colons.
pub proof fn lemma_escape_has_no_delimiters(s: Seq<u8>, i: int)
    requires
        0 <= i < escape_spec(s).len(),
    ensures
        escape_spec(s)[i] != LF,
        escape_spec(s)[i] != CR,
        escape_spec(s)[i] != COLON,
    decreases s.len(),
{
    if s.len() > 0 {
        let t = s.subrange(1, s.len() as int);
        let k = escape_byte(s[0]).len() as int;
        if i >= k {
            lemma_escape_has_no_delimiters(t, i - k);
        }
    }
}

/// Appends the escaped form of `s` to `out`.
pub fn escape_into(s: &[u8], out: &mut Vec<u8>)
    ensures
        final(out)@ == old(out)@ + escape_spec(s@),
{
    let mut i: usize = 0;
    let ghost start = out@;
    while i < s.len()
        invariant
            i <= s@.len(),
            out@ == start + escape_spec(s@.subrange(0, i as int)),
        decreases s@.len() - i,
    {
        let b = s[i];
        proof {
            lemma_escape_push(s@.subrange(0, i as int), b);
            assert(s@.subrange(0, i as int).push(b) =~= s@.subrange(0, i + 1));
        }
        if b == LF {
            out.push(BACKSLASH);
            out.push(110u8);
        } else if b == CR {
            out.push(BACKSLASH);
            out.push(114u8);
        } else if b == COLON {
            out.push(BACKSLASH);
            out.push(99u8);
        } else if b == BACKSLASH {
            out.push(BACKSLASH);
            out.push(BACKSLASH);
        } else {
            out.push(b);
        }
        i = i + 1;
        assert(out@ =~= start + escape_spec(s@.subrange(0, i as int)));
    }
    assert(s@.subrange(0, s@.len() as int) =~= s@);
}

/// Escaped form of `s` as a fresh vector.
pub fn escape(s: &[u8]) -> (r: Vec<u8>)
    ensures
        r@ == escape_spec(s@),
{
    let mut r: Vec<u8> = Vec::new();
    escape_into(s, &mut r);
    assert(r@ =~= escape_spec(s@));
    r
}

/// Decodes `buf[start..end]` in place. On success the decoded text occupies
/// `buf[start..start + w]` and nothing outside `start..end` has changed; the
/// buffer's bytes before `start` and from `end` on are never touched.
pub fn unescape_in_place(buf: &mut Vec<u8>, start: usize, end: usize) -> (r: Option<usize>)
    requires
        start <= end <= old(buf)@.len(),
    ensures
        final(buf)@.len() == old(buf)@.len(),
        forall|k: int| 0 <= k < start ==> final(buf)@[k] == old(buf)@[k],
        forall|k: int| end <= k < old(buf)@.len() ==> final(buf)@[k] == old(buf)@[k],
        match r {
            Some(w) => start + w <= end && unescape_spec(old(buf)@.subrange(start as int, end as int))
                == Some(final(buf)@.subrange(start as int, start + w)),
            None => unescape_spec(old(buf)@.subrange(start as int, end as int)) is None,
        },
{
    let ghost orig = buf@;
    let ghost whole = orig.subrange(start as int, end as int);
    let mut rd: usize = start;
    let mut wr: usize = start;
    while rd < end
        invariant
            start <= wr <= rd <= end <= orig.len(),
            orig == old(buf)@,
            whole == orig.subrange(start as int, end as int),
            buf@.len() == orig.len(),
            forall|k: int| 0 <= k < start ==> buf@[k] == orig[k],
            forall|k: int| rd <= k < orig.len() ==> buf@[k] == orig[k],
            opt_prepend(
                buf@.subrange(start as int, wr as int),
                unescape_spec(orig.subrange(rd as int, end as int)),
            ) == unescape_spec(whole),
        decreases end - rd,
    {
        let ghost t = orig.subrange(rd as int, end as int);
        let ghost pre = buf@.subrange(start as int, wr as int);
        let b = buf[rd];
        assert(t[0] == b);
        if b != BACKSLASH {
            assert(t.subrange(1, t.len() as int) =~= orig.subrange(rd + 1, end as int));
            buf.set(wr, b);
            assert(buf@.subrange(start as int, wr + 1) =~= pre + seq![b]);
            wr = wr + 1;
            rd = rd + 1;
            proof {
                let rest = unescape_spec(orig.subrange(rd as int, end as int));
                match rest {
                    Some(x) => {
                        assert(pre + (seq![b] + x) =~= (pre + seq![b]) + x);
                    },
                    None => {},
                }
            }
        } else {
            if rd + 1 >= end {
                assert(unescape_spec(t) is None);
                return None;
            }
            let x = buf[rd + 1];
            assert(t[1] == x);
            let c: u8;
            if x == 110u8 {
                c = LF;
            } else if x == 114u8 {
                c = CR;
            } else if x == 99u8 {
                c = COLON;
            } else if x == BACKSLASH {
                c = BACKSLASH;
            } else {
                assert(unescape_spec(t) is None);
                return None;
            }
            assert(t.subrange(2, t.len() as int) =~= orig.subrange(rd + 2, end as int));
            buf.set(wr, c);
            assert(buf@.subrange(start as int, wr + 1) =~= pre + seq![c]);
            wr = wr + 1;
            rd = rd + 2;
            proof {
                let rest = unescape_spec(orig.subrange(rd as int, end as int));
                match rest {
                    Some(y) => {
                        assert(pre + (seq![c] + y) =~= (pre + seq![c]) + y);
                    },
                    None => {},
                }
            }
        }
    }
    assert(orig.subrange(end as int, end as int) =~= Seq::<u8>::empty());
    assert(buf@.subrange(start as int, wr as int) + seq![] =~= buf@.subrange(start as int, wr as int));
    Some(wr - start)
}

} // verus!
