//! Typed header values: protocol versions, heart-beats, acknowledgement
//! modes, lengths and plain text.
use vstd::prelude::*;
use vstd::slice::slice_subrange;
use crate::schema::HeaderName;
use crate::text::{first_index, find_byte, parse_u64, parse_u64_spec, push_decimal, decimal_spec};

verus! {

pub const COMMA: u8 = 44;

/// A STOMP protocol version.
#[derive(PartialEq, Eq, Structural, Clone, Copy, Debug)]
pub enum StompVersion {
    V1_0,
    V1_1,
    V1_2,
}

/// How a subscription acknowledges messages.
#[derive(PartialEq, Eq, Structural, Clone, Copy, Debug)]
pub enum AckType {
    Auto,
    Client,
    ClientIndividual,
}

/// The heart-beat intervals in milliseconds: what the sender supplies and
/// what it expects.
#[derive(PartialEq, Eq, Structural, Clone, Copy, Debug)]
pub struct HeartBeatIntervals {
    pub supplied: u64,
    pub expected: u64,
}

/// A run of bytes `start..end` inside a frame's buffer.
#[derive(PartialEq, Eq, Structural, Clone, Copy, Debug)]
pub struct Span {
    pub start: usize,
    pub end: usize,
}

impl Span {
    pub open spec fn within(self, len: nat) -> bool {
        self.start <= self.end <= len
    }

    pub open spec fn of(self, buf: Seq<u8>) -> Seq<u8> {
        buf.subrange(self.start as int, self.end as int)
    }
}

/// A header value as stored in a frame; text lies in the frame's buffer.
#[derive(Clone, Debug)]
pub enum HeaderValue {
    Text(Span),
    Versions(Vec<StompVersion>),
    Version(StompVersion),
    HeartBeat(HeartBeatIntervals),
    Ack(AckType),
    Length(u64),
}

/// The meaning of a header value.
pub enum ValueView {
    Text(Seq<u8>),
    Versions(Seq<StompVersion>),
    Version(StompVersion),
    HeartBeat(HeartBeatIntervals),
    Ack(AckType),
    Length(u64),
}

impl HeaderValue {
    pub open spec fn within(self, len: nat) -> bool {
        match self {
            HeaderValue::Text(s) => s.within(len),
            _ => true,
        }
    }

    pub open spec fn view_in(self, buf: Seq<u8>) -> ValueView {
        match self {
            HeaderValue::Text(s) => ValueView::Text(s.of(buf)),
            HeaderValue::Versions(v) => ValueView::Versions(v@),
            HeaderValue::Version(v) => ValueView::Version(v),
            HeaderValue::HeartBeat(h) => ValueView::HeartBeat(h),
            HeaderValue::Ack(a) => ValueView::Ack(a),
            HeaderValue::Length(n) => ValueView::Length(n),
        }
    }
}

pub open spec fn version_token(v: StompVersion) -> Seq<u8> {
    match v {
        StompVersion::V1_0 => seq![49u8, 46u8, 48u8],
        StompVersion::V1_1 => seq![49u8, 46u8, 49u8],
        StompVersion::V1_2 => seq![49u8, 46u8, 50u8],
    }
}

pub open spec fn version_lookup(t: Seq<u8>) -> Option<StompVersion> {
    if t == version_token(StompVersion::V1_0) {
        Some(StompVersion::V1_0)
    } else if t == version_token(StompVersion::V1_1) {
        Some(StompVersion::V1_1)
    } else if t == version_token(StompVersion::V1_2) {
        Some(StompVersion::V1_2)
    } else {
        None
    }
}

pub open spec fn ack_token(a: AckType) -> Seq<u8> {
    match a {
        AckType::Auto => seq![97u8, 117u8, 116u8, 111u8],
        AckType::Client => seq![99u8, 108u8, 105u8, 101u8, 110u8, 116u8],
        AckType::ClientIndividual => seq![
            99u8, 108u8, 105u8, 101u8, 110u8, 116u8, 45u8,
            105u8, 110u8, 100u8, 105u8, 118u8, 105u8, 100u8, 117u8, 97u8, 108u8,
        ],
    }
}

pub open spec fn ack_lookup(t: Seq<u8>) -> Option<AckType> {
    if t == ack_token(AckType::Auto) {
        Some(AckType::Auto)
    } else if t == ack_token(AckType::Client) {
        Some(AckType::Client)
    } else if t == ack_token(AckType::ClientIndividual) {
        Some(AckType::ClientIndividual)
    } else {
        None
    }
}

/// A comma-separated, non-empty list of version tags.
pub open spec fn versions_spec(t: Seq<u8>) -> Option<Seq<StompVersion>>
    decreases t.len(),
{
    if t.len() < 3 {
        None
    } else {
        match version_lookup(t.subrange(0, 3)) {
            None => None,
            Some(v) => if t.len() == 3 {
                Some(seq![v])
            } else if t[3] != COMMA {
                None
            } else {
                match versions_spec(t.subrange(4, t.len() as int)) {
                    Some(rest) => Some(seq![v] + rest),
                    None => None,
                }
            },
        }
    }
}

/// Two decimal numbers joined by a comma.
pub open spec fn heart_beat_spec(t: Seq<u8>) -> Option<HeartBeatIntervals> {
    let c = first_index(t, COMMA, 0);
    if c >= t.len() {
        None
    } else {
        match (parse_u64_spec(t.subrange(0, c)), parse_u64_spec(t.subrange(c + 1, t.len() as int))) {
            (Some(a), Some(b)) => Some(HeartBeatIntervals { supplied: a, expected: b }),
            _ => None,
        }
    }
}

/// The typed value that a known header's decoded text stands for.
pub open spec fn value_spec(h: HeaderName, t: Seq<u8>) -> Option<ValueView> {
    match h {
        HeaderName::AcceptVersion => match versions_spec(t) {
            Some(v) => Some(ValueView::Versions(v)),
            None => None,
        },
        HeaderName::Version => match version_lookup(t) {
            Some(v) => Some(ValueView::Version(v)),
            None => None,
        },
        HeaderName::HeartBeat => match heart_beat_spec(t) {
            Some(v) => Some(ValueView::HeartBeat(v)),
            None => None,
        },
        HeaderName::Ack => match ack_lookup(t) {
            Some(v) => Some(ValueView::Ack(v)),
            None => None,
        },
        HeaderName::ContentLength => match parse_u64_spec(t) {
            Some(v) => Some(ValueView::Length(v)),
            None => None,
        },
        _ => Some(ValueView::Text(t)),
    }
}

/// The list of versions written with commas between the tags.
pub open spec fn versions_text(vs: Seq<StompVersion>) -> Seq<u8>
    decreases vs.len(),
{
    if vs.len() == 0 {
        seq![]
    } else if vs.len() == 1 {
        version_token(vs[0])
    } else {
        versions_text(vs.drop_last()) + seq![COMMA] + version_token(vs.last())
    }
}

/// The textual form of a value, before escaping.
pub open spec fn value_text(v: ValueView) -> Seq<u8> {
    match v {
        ValueView::Text(t) => t,
        ValueView::Versions(vs) => versions_text(vs),
        ValueView::Version(x) => version_token(x),
        ValueView::HeartBeat(h) => decimal_spec(h.supplied as nat) + seq![COMMA] + decimal_spec(
            h.expected as nat,
        ),
        ValueView::Ack(a) => ack_token(a),
        ValueView::Length(n) => decimal_spec(n as nat),
    }
}

impl StompVersion {
    pub fn token(&self) -> (r: Vec<u8>)
        ensures
            r@ == version_token(*self),
    {
        let r = match self {
            StompVersion::V1_0 => vec![49u8, 46u8, 48u8],
            StompVersion::V1_1 => vec![49u8, 46u8, 49u8],
            StompVersion::V1_2 => vec![49u8, 46u8, 50u8],
        };
        assert(r@ =~= version_token(*self));
        r
    }

    pub fn from_token(t: &[u8]) -> (r: Option<StompVersion>)
        ensures
            r == version_lookup(t@),
    {
        if t.len() != 3 || t[0] != 49u8 || t[1] != 46u8 {
            proof {
                if t@.len() == 3 {
                    assert(t@ != version_token(StompVersion::V1_0));
                    assert(t@ != version_token(StompVersion::V1_1));
                    assert(t@ != version_token(StompVersion::V1_2));
                }
            }
            return None;
        }
        if t[2] == 48u8 {
            assert(t@ =~= version_token(StompVersion::V1_0));
            Some(StompVersion::V1_0)
        } else if t[2] == 49u8 {
            assert(t@ =~= version_token(StompVersion::V1_1));
            Some(StompVersion::V1_1)
        } else if t[2] == 50u8 {
            assert(t@ =~= version_token(StompVersion::V1_2));
            Some(StompVersion::V1_2)
        } else {
            assert(t@[2] != version_token(StompVersion::V1_0)[2]);
            assert(t@[2] != version_token(StompVersion::V1_1)[2]);
            assert(t@[2] != version_token(StompVersion::V1_2)[2]);
            None
        }
    }
}

impl AckType {
    pub fn token(&self) -> (r: Vec<u8>)
        ensures
            r@ == ack_token(*self),
    {
        let r = match self {
            AckType::Auto => vec![97u8, 117u8, 116u8, 111u8],
            AckType::Client => vec![99u8, 108u8, 105u8, 101u8, 110u8, 116u8],
            AckType::ClientIndividual => vec![
                99u8, 108u8, 105u8, 101u8, 110u8, 116u8, 45u8,
                105u8, 110u8, 100u8, 105u8, 118u8, 105u8, 100u8, 117u8, 97u8, 108u8,
            ],
        };
        assert(r@ =~= ack_token(*self));
        r
    }

    pub fn from_token(t: &[u8]) -> (r: Option<AckType>)
        ensures
            r == ack_lookup(t@),
    {
        let a = AckType::Auto.token();
        if crate::schema::bytes_eq(t, a.as_slice()) {
            return Some(AckType::Auto);
        }
        let c = AckType::Client.token();
        if crate::schema::bytes_eq(t, c.as_slice()) {
            return Some(AckType::Client);
        }
        let ci = AckType::ClientIndividual.token();
        if crate::schema::bytes_eq(t, ci.as_slice()) {
            return Some(AckType::ClientIndividual);
        }
        None
    }
}

/// Reads a comma-separated list of version tags.
pub fn parse_versions(t: &[u8]) -> (r: Option<Vec<StompVersion>>)
    ensures
        match r {
            Some(v) => versions_spec(t@) == Some(v@),
            None => versions_spec(t@) is None,
        },
{
    let mut acc: Vec<StompVersion> = Vec::new();
    let mut pos: usize = 0;
    assert(t@.subrange(0, t@.len() as int) =~= t@);
    proof {
        match versions_spec(t@) {
            Some(rest) => {
                assert(acc@ + rest =~= rest);
            },
            None => {},
        }
    }
    loop
        invariant
            pos <= t@.len(),
            match versions_spec(t@.subrange(pos as int, t@.len() as int)) {
                Some(rest) => versions_spec(t@) == Some(acc@ + rest),
                None => versions_spec(t@) is None,
            },
        decreases t@.len() - pos,
    {
        let ghost rem = t@.subrange(pos as int, t@.len() as int);
        if t.len() - pos < 3 {
            return None;
        }
        let tag = slice_subrange(t, pos, pos + 3);
        assert(tag@ =~= rem.subrange(0, 3));
        match StompVersion::from_token(tag) {
            None => {
                return None;
            },
            Some(v) => {
                if t.len() - pos == 3 {
                    proof {
                        assert(acc@.push(v) =~= acc@ + seq![v]);
                    }
                    acc.push(v);
                    return Some(acc);
                }
                if t[pos + 3] != COMMA {
                    return None;
                }
                assert(rem.subrange(4, rem.len() as int) =~= t@.subrange(pos + 4, t@.len() as int));
                proof {
                    match versions_spec(t@.subrange(pos + 4, t@.len() as int)) {
                        Some(rest) => {
                            assert(acc@ + (seq![v] + rest) =~= acc@.push(v) + rest);
                        },
                        None => {},
                    }
                }
                acc.push(v);
                pos = pos + 4;
            },
        }
    }
}

/// Reads a known header's decoded text `buf[start..end]` as its typed value.
pub fn parse_value(h: HeaderName, buf: &[u8], start: usize, end: usize) -> (r: Option<HeaderValue>)
    requires
        start <= end <= buf@.len(),
    ensures
        match r {
            Some(v) => v.within(buf@.len()) && value_spec(h, buf@.subrange(start as int, end as int))
                == Some(v.view_in(buf@)),
            None => value_spec(h, buf@.subrange(start as int, end as int)) is None,
        },
{
    let t = slice_subrange(buf, start, end);
    match h {
        HeaderName::AcceptVersion => match parse_versions(t) {
            Some(v) => Some(HeaderValue::Versions(v)),
            None => None,
        },
        HeaderName::Version => match StompVersion::from_token(t) {
            Some(v) => Some(HeaderValue::Version(v)),
            None => None,
        },
        HeaderName::HeartBeat => {
            let c = find_byte(t, COMMA, 0);
            proof { crate::text::lemma_first_index_bounds(t@, COMMA, 0); }
            if c >= t.len() {
                return None;
            }
            let a = parse_u64(slice_subrange(t, 0, c));
            let b = parse_u64(slice_subrange(t, c + 1, t.len()));
            match (a, b) {
                (Some(x), Some(y)) => Some(
                    HeaderValue::HeartBeat(HeartBeatIntervals { supplied: x, expected: y }),
                ),
                _ => None,
            }
        },
        HeaderName::Ack => match AckType::from_token(t) {
            Some(v) => Some(HeaderValue::Ack(v)),
            None => None,
        },
        HeaderName::ContentLength => match parse_u64(t) {
            Some(v) => Some(HeaderValue::Length(v)),
            None => None,
        },
        _ => Some(HeaderValue::Text(Span { start, end })),
    }
}

/// Appends the textual form of a value, before escaping, reading text from `buf`.
pub fn push_value_text(v: &HeaderValue, buf: &[u8], out: &mut Vec<u8>)
    requires
        v.within(buf@.len()),
    ensures
        final(out)@ == old(out)@ + value_text(v.view_in(buf@)),
{
    match v {
        HeaderValue::Text(s) => {
            let t = slice_subrange(buf, s.start, s.end);
            let mut i: usize = 0;
            while i < t.len()
                invariant
                    i <= t@.len(),
                    out@ == old(out)@ + t@.subrange(0, i as int),
                decreases t@.len() - i,
            {
                out.push(t[i]);
                i = i + 1;
                assert(out@ =~= old(out)@ + t@.subrange(0, i as int));
            }
            assert(t@.subrange(0, i as int) =~= t@);
        },
        HeaderValue::Versions(vs) => {
            let mut i: usize = 0;
            while i < vs.len()
                invariant
                    i <= vs@.len(),
                    out@ == old(out)@ + versions_text(vs@.subrange(0, i as int)),
                decreases vs@.len() - i,
            {
                let ghost p = vs@.subrange(0, i as int + 1);
                assert(p.drop_last() =~= vs@.subrange(0, i as int));
                if i > 0 {
                    out.push(COMMA);
                }
                let tok = vs[i].token();
                let mut k: usize = 0;
                let ghost mid = out@;
                while k < tok.len()
                    invariant
                        k <= tok@.len(),
                        out@ == mid + tok@.subrange(0, k as int),
                    decreases tok@.len() - k,
                {
                    out.push(tok[k]);
                    k = k + 1;
                    assert(out@ =~= mid + tok@.subrange(0, k as int));
                }
                assert(tok@.subrange(0, k as int) =~= tok@);
                i = i + 1;
                assert(out@ =~= old(out)@ + versions_text(vs@.subrange(0, i as int)));
            }
            assert(vs@.subrange(0, i as int) =~= vs@);
        },
        HeaderValue::Version(x) => {
            let tok = x.token();
            push_all(tok.as_slice(), out);
        },
        HeaderValue::HeartBeat(h) => {
            push_decimal(h.supplied, out);
            out.push(COMMA);
            push_decimal(h.expected, out);
            assert(out@ =~= old(out)@ + value_text(v.view_in(buf@)));
        },
        HeaderValue::Ack(a) => {
            let tok = a.token();
            push_all(tok.as_slice(), out);
        },
        HeaderValue::Length(n) => {
            push_decimal(*n, out);
        },
    }
}

/// Appends every byte of `s`.
pub fn push_all(s: &[u8], out: &mut Vec<u8>)
    ensures
        final(out)@ == old(out)@ + s@,
{
    let mut i: usize = 0;
    while i < s.len()
        invariant
            i <= s@.len(),
            out@ == old(out)@ + s@.subrange(0, i as int),
        decreases s@.len() - i,
    {
        out.push(s[i]);
        i = i + 1;
        assert(out@ =~= old(out)@ + s@.subrange(0, i as int));
    }
    assert(s@.subrange(0, i as int) =~= s@);
}

} // verus!
