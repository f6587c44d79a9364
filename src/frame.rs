//! Frames: their model, the wire grammar, parsing and rendering.
use vstd::prelude::*;
use vstd::slice::slice_subrange;
use crate::escape::{escape_spec, unescape_spec, unescape_in_place, escape_into, LF, CR, COLON};
use crate::schema::{
    Command, Direction, HeaderName, allows_body, allows_custom, bytes_eq, command_lookup,
    command_token, direction_of, escapes, header_token, is_known, schema,
};
use crate::text::{first_index, find_byte, lemma_first_index_bounds};
use crate::values::{AckType, HeartBeatIntervals, HeaderValue, Span, ValueView, parse_value, push_value_text, value_spec, value_text};

verus! {

pub const NUL: u8 = 0;

/// Why a buffer is not a frame.
#[derive(PartialEq, Eq, Structural, Clone, Copy, Debug)]
pub enum ParseError {
    /// The first line names no command.
    UnknownCommand,
    /// A header line has no colon or holds a bad escape.
    MalformedHeader,
    /// A required header is absent.
    MissingHeader(HeaderName),
    /// A known header's value does not read as its type.
    InvalidHeaderValue(HeaderName),
    /// The frame is unterminated, its length disagrees with its content, or it
    /// holds a body where none is allowed.
    InvalidBody,
    /// The command belongs to the other direction.
    WrongDirection(Command),
}

/// A header line as found in the buffer, after decoding.
#[derive(PartialEq, Eq, Structural, Clone, Copy, Debug)]
pub struct RawHeader {
    pub name: Span,
    pub value: Span,
}

impl RawHeader {
    pub open spec fn within(self, len: nat) -> bool {
        self.name.within(len) && self.value.within(len)
    }

    pub open spec fn pair(self, buf: Seq<u8>) -> (Seq<u8>, Seq<u8>) {
        (self.name.of(buf), self.value.of(buf))
    }
}

pub open spec fn raw_view(hs: Seq<RawHeader>, buf: Seq<u8>) -> Seq<(Seq<u8>, Seq<u8>)> {
    Seq::new(hs.len(), |j: int| hs[j].pair(buf))
}

/// The end of a line's content: a carriage return before the line feed is dropped.
pub open spec fn content_end(s: Seq<u8>, i: int, e: int) -> int {
    if e > i && s[e - 1] == CR {
        e - 1
    } else {
        e
    }
}

/// The name and value of one header line, decoded when `esc` holds.
pub open spec fn header_line_spec(t: Seq<u8>, esc: bool) -> Option<(Seq<u8>, Seq<u8>)> {
    let c = first_index(t, COLON, 0);
    if c >= t.len() {
        None
    } else {
        let n = t.subrange(0, c);
        let v = t.subrange(c + 1, t.len() as int);
        if esc {
            match (unescape_spec(n), unescape_spec(v)) {
                (Some(a), Some(b)) => Some((a, b)),
                _ => None,
            }
        } else {
            Some((n, v))
        }
    }
}

pub open spec fn prepend_headers(
    acc: Seq<(Seq<u8>, Seq<u8>)>,
    r: Result<(Seq<(Seq<u8>, Seq<u8>)>, int), ParseError>,
) -> Result<(Seq<(Seq<u8>, Seq<u8>)>, int), ParseError> {
    match r {
        Ok((rest, b)) => Ok((acc + rest, b)),
        Err(e) => Err(e),
    }
}

/// The header lines from `i` up to the blank line, and where the body starts.
pub open spec fn headers_spec(s: Seq<u8>, i: int, esc: bool) -> Result<
    (Seq<(Seq<u8>, Seq<u8>)>, int),
    ParseError,
>
    decreases s.len() - i,
    via headers_spec_decreases
{
    if i < 0 || i > s.len() {
        Err(ParseError::InvalidBody)
    } else {
        let e = first_index(s, LF, i);
        if e >= s.len() {
            Err(ParseError::InvalidBody)
        } else {
            let le = content_end(s, i, e);
            if le <= i {
                Ok((seq![], e + 1))
            } else {
                match header_line_spec(s.subrange(i, le), esc) {
                    None => Err(ParseError::MalformedHeader),
                    Some(h) => prepend_headers(seq![h], headers_spec(s, e + 1, esc)),
                }
            }
        }
    }
}

#[via_fn]
proof fn headers_spec_decreases(s: Seq<u8>, i: int, esc: bool) {
    if 0 <= i <= s.len() {
        lemma_first_index_bounds(s, LF, i);
    }
}

proof fn lemma_first_index_agree(s1: Seq<u8>, s2: Seq<u8>, b: u8, i: int)
    requires
        0 <= i <= s1.len(),
        s1.len() == s2.len(),
        forall|k: int| i <= k < s1.len() ==> s1[k] == s2[k],
    ensures
        first_index(s1, b, i) == first_index(s2, b, i),
    decreases s1.len() - i,
{
    if i < s1.len() {
        lemma_first_index_agree(s1, s2, b, i + 1);
    }
}

/// Reads the header lines that start at `i0`, decoding them in place when
/// `esc` holds. Only bytes in `i0..b` change, where `b` is where the body starts.
#[verifier::rlimit(60)]
fn parse_headers(buf: &mut Vec<u8>, i0: usize, esc: bool) -> (r: Result<(Vec<RawHeader>, usize), ParseError>)
    requires
        i0 <= old(buf)@.len(),
    ensures
        final(buf)@.len() == old(buf)@.len(),
        forall|k: int| 0 <= k < i0 ==> final(buf)@[k] == old(buf)@[k],
        match r {
            Ok((hs, b)) => {
                &&& i0 < b <= final(buf)@.len()
                &&& forall|k: int| b <= k < final(buf)@.len() ==> final(buf)@[k] == old(buf)@[k]
                &&& forall|j: int| 0 <= j < hs@.len() ==> (#[trigger] hs@[j]).within(final(buf)@.len())
                &&& headers_spec(old(buf)@, i0 as int, esc) == Ok::<(Seq<(Seq<u8>, Seq<u8>)>, int), ParseError>((raw_view(hs@, final(buf)@), b as int))
            },
            Err(e) => headers_spec(old(buf)@, i0 as int, esc) == Err::<(Seq<(Seq<u8>, Seq<u8>)>, int), ParseError>(e),
        },
{
    let ghost orig = buf@;
    let mut hs: Vec<RawHeader> = Vec::new();
    let mut i = i0;
    assert(raw_view(hs@, buf@) =~= Seq::<(Seq<u8>, Seq<u8>)>::empty());
    proof {
        match headers_spec(orig, i0 as int, esc) {
            Ok((rest, b)) => {
                assert(Seq::<(Seq<u8>, Seq<u8>)>::empty() + rest =~= rest);
            },
            Err(_) => {},
        }
    }
    loop
        invariant
            orig == old(buf)@,
            i0 <= i <= orig.len(),
            buf@.len() == orig.len(),
            forall|k: int| 0 <= k < i0 ==> buf@[k] == orig[k],
            forall|k: int| i <= k < orig.len() ==> buf@[k] == orig[k],
            forall|j: int|
                0 <= j < hs@.len() ==> (#[trigger] hs@[j]).within(i as nat) && hs@[j].within(
                    orig.len(),
                ),
            prepend_headers(raw_view(hs@, buf@), headers_spec(orig, i as int, esc)) == headers_spec(
                orig,
                i0 as int,
                esc,
            ),
        decreases orig.len() - i,
    {
        proof {
            lemma_first_index_agree(buf@, orig, LF, i as int);
            lemma_first_index_bounds(orig, LF, i as int);
        }
        let e = find_byte(buf.as_slice(), LF, i);
        if e >= buf.len() {
            return Err(ParseError::InvalidBody);
        }
        let le = if e > i && buf[e - 1] == CR {
            e - 1
        } else {
            e
        };
        assert(le == content_end(orig, i as int, e as int));
        if le <= i {
            return Ok((hs, e + 1));
        }
        let ghost line = orig.subrange(i as int, le as int);
        let t = slice_subrange(buf.as_slice(), i, le);
        assert(t@ =~= line);
        let c = find_byte(t, COLON, 0);
        proof { lemma_first_index_bounds(line, COLON, 0); }
        if c >= t.len() {
            return Err(ParseError::MalformedHeader);
        }
        let ghost before = buf@;
        let ghost hv = raw_view(hs@, buf@);
        let h: RawHeader;
        if esc {
            assert(orig.subrange(i as int, i + c) =~= line.subrange(0, c as int));
            assert(buf@.subrange(i as int, i + c) =~= line.subrange(0, c as int));
            let wn = match unescape_in_place(buf, i, i + c) {
                Some(w) => w,
                None => {
                    return Err(ParseError::MalformedHeader);
                },
            };
            let ghost mid = buf@;
            assert(buf@.subrange(i + c + 1, le as int) =~= line.subrange(c + 1, line.len() as int));
            let wv = match unescape_in_place(buf, i + c + 1, le) {
                Some(w) => w,
                None => {
                    return Err(ParseError::MalformedHeader);
                },
            };
            assert(buf@.subrange(i as int, i + wn) =~= mid.subrange(i as int, i + wn));
            h = RawHeader {
                name: Span { start: i, end: i + wn },
                value: Span { start: i + c + 1, end: i + c + 1 + wv },
            };
        } else {
            h = RawHeader {
                name: Span { start: i, end: i + c },
                value: Span { start: i + c + 1, end: le },
            };
            assert(buf@.subrange(i as int, i + c) =~= line.subrange(0, c as int));
            assert(buf@.subrange(i + c + 1, le as int) =~= line.subrange(c + 1, line.len() as int));
        }
        assert(header_line_spec(line, esc) == Some(h.pair(buf@)));
        assert forall|j: int| 0 <= j < hs@.len() implies #[trigger] hs@[j].pair(buf@) == hs@[j].pair(
            before,
        ) by {
            let x = hs@[j];
            assert(x.name.of(buf@) =~= x.name.of(before));
            assert(x.value.of(buf@) =~= x.value.of(before));
        }
        hs.push(h);
        assert(raw_view(hs@, buf@) =~= hv + seq![h.pair(buf@)]);
        proof {
            match headers_spec(orig, e + 1, esc) {
                Ok((rest, b)) => {
                    assert(hv + (seq![h.pair(buf@)] + rest) =~= (hv + seq![h.pair(buf@)]) + rest);
                },
                Err(_) => {},
            }
        }
        i = e + 1;
    }
}

/// The index of the first header at or after `k` named `name`, or the count.
pub open spec fn first_named(hs: Seq<(Seq<u8>, Seq<u8>)>, name: Seq<u8>, k: int) -> int
    decreases hs.len() - k,
{
    if k < 0 || k >= hs.len() {
        hs.len() as int
    } else if hs[k].0 == name {
        k
    } else {
        first_named(hs, name, k + 1)
    }
}

/// The schema's `i`-th header of `c`, read from its first occurrence.
pub open spec fn field_spec(c: Command, hs: Seq<(Seq<u8>, Seq<u8>)>, i: int) -> Result<
    Option<ValueView>,
    ParseError,
> {
    let h = schema(c)[i].0;
    let k = first_named(hs, header_token(h), 0);
    if k >= hs.len() {
        if schema(c)[i].1 {
            Err(ParseError::MissingHeader(h))
        } else {
            Ok(None)
        }
    } else {
        match value_spec(h, hs[k].1) {
            None => Err(ParseError::InvalidHeaderValue(h)),
            Some(v) => Ok(Some(v)),
        }
    }
}

/// The schema's headers of `c` from index `i` on; the first failure wins.
pub open spec fn fields_from(c: Command, hs: Seq<(Seq<u8>, Seq<u8>)>, i: int) -> Result<
    Seq<Option<ValueView>>,
    ParseError,
>
    decreases schema(c).len() - i,
{
    if i < 0 || i >= schema(c).len() {
        Ok(seq![])
    } else {
        match field_spec(c, hs, i) {
            Err(e) => Err(e),
            Ok(v) => match fields_from(c, hs, i + 1) {
                Ok(rest) => Ok(seq![v] + rest),
                Err(e) => Err(e),
            },
        }
    }
}

/// The headers whose names are outside the schema of `c`, in order.
pub open spec fn custom_of(c: Command, hs: Seq<(Seq<u8>, Seq<u8>)>) -> Seq<(Seq<u8>, Seq<u8>)>
    decreases hs.len(),
{
    if hs.len() == 0 {
        seq![]
    } else {
        let r = custom_of(c, hs.drop_last());
        if is_known(c, hs.last().0) {
            r
        } else {
            r.push(hs.last())
        }
    }
}

/// Where `content-length` stands in the schema of a command, if it has one.
pub open spec fn length_slot(c: Command) -> int {
    match c {
        Command::Send => 2,
        Command::Message => 4,
        _ => -1,
    }
}

/// The declared body length among a command's schema values.
pub open spec fn content_length_of(c: Command, fs: Seq<Option<ValueView>>) -> Option<u64> {
    let k = length_slot(c);
    if 0 <= k < fs.len() {
        match fs[k] {
            Some(ValueView::Length(n)) => Some(n),
            _ => None,
        }
    } else {
        None
    }
}

/// The body that starts at `b`: `n` bytes followed by a NUL when a length
/// `n` is declared; else every byte up to the buffer's last, which must be
/// the terminating NUL (so the body itself may hold NULs).
pub open spec fn body_bytes(s: Seq<u8>, b: int, cl: Option<u64>) -> Result<Seq<u8>, ParseError> {
    match cl {
        Some(n) => if b + n < s.len() && s[b + n] == NUL {
            Ok(s.subrange(b, b + n))
        } else {
            Err(ParseError::InvalidBody)
        },
        None => if b < s.len() && s.last() == NUL {
            Ok(s.subrange(b, s.len() - 1))
        } else {
            Err(ParseError::InvalidBody)
        },
    }
}

/// The body of a frame of command `c`: absent where the schema allows none,
/// in which case it must be empty on the wire.
pub open spec fn body_spec(c: Command, s: Seq<u8>, b: int, cl: Option<u64>) -> Result<
    Option<Seq<u8>>,
    ParseError,
> {
    match body_bytes(s, b, cl) {
        Err(e) => Err(e),
        Ok(x) => if allows_body(c) {
            Ok(Some(x))
        } else if x.len() == 0 {
            Ok(None)
        } else {
            Err(ParseError::InvalidBody)
        },
    }
}

/// The command line and where the headers start.
pub open spec fn command_spec(s: Seq<u8>) -> Result<(Command, int), ParseError> {
    let e = first_index(s, LF, 0);
    if e >= s.len() {
        Err(ParseError::InvalidBody)
    } else {
        match command_lookup(s.subrange(0, content_end(s, 0, e))) {
            None => Err(ParseError::UnknownCommand),
            Some(c) => Ok((c, e + 1)),
        }
    }
}

/// The meaning of a frame.
pub struct FrameView {
    pub command: Command,
    /// One slot per schema entry of the command, in declared order.
    pub fields: Seq<Option<ValueView>>,
    pub custom: Seq<(Seq<u8>, Seq<u8>)>,
    pub body: Option<Seq<u8>>,
}

/// The frame that a buffer holds, when a frame of direction `d` is expected.
pub open spec fn parse_spec(s: Seq<u8>, d: Direction) -> Result<FrameView, ParseError> {
    match command_spec(s) {
        Err(e) => Err(e),
        Ok((c, i)) => if direction_of(c) != d {
            Err(ParseError::WrongDirection(c))
        } else {
            match headers_spec(s, i, escapes(c)) {
                Err(e) => Err(e),
                Ok((hs, b)) => match fields_from(c, hs, 0) {
                    Err(e) => Err(e),
                    Ok(fs) => match body_spec(c, s, b, content_length_of(c, fs)) {
                        Err(e) => Err(e),
                        Ok(body) => Ok(
                            FrameView {
                                command: c,
                                fields: fs,
                                custom: if allows_custom(c) {
                                    custom_of(c, hs)
                                } else {
                                    seq![]
                                },
                                body,
                            },
                        ),
                    },
                },
            }
        },
    }
}

/// A frame. Every header text and the body lie in `buffer`; a parsed frame's
/// buffer is the very buffer it was parsed from.
pub struct Frame {
    pub command: Command,
    pub buffer: Vec<u8>,
    /// One slot per schema entry of the command, in declared order.
    pub fields: Vec<Option<HeaderValue>>,
    pub custom: Vec<RawHeader>,
    pub body: Option<Span>,
}

pub open spec fn opt_within(o: Option<HeaderValue>, len: nat) -> bool {
    match o {
        Some(v) => v.within(len),
        None => true,
    }
}

pub open spec fn opt_view(o: Option<HeaderValue>, buf: Seq<u8>) -> Option<ValueView> {
    match o {
        Some(v) => Some(v.view_in(buf)),
        None => None,
    }
}

impl Frame {
    /// Spans lie in the buffer, required headers are present, and custom
    /// headers and a body appear only where the schema allows them.
    pub open spec fn wf(&self) -> bool {
        let n = self.buffer@.len();
        &&& self.fields@.len() == schema(self.command).len()
        &&& forall|i: int|
            0 <= i < self.fields@.len() ==> opt_within(#[trigger] self.fields@[i], n)
        &&& forall|i: int|
            0 <= i < self.fields@.len() && (#[trigger] schema(self.command)[i]).1
                ==> self.fields@[i] is Some
        &&& forall|j: int| 0 <= j < self.custom@.len() ==> (#[trigger] self.custom@[j]).within(n)
        &&& (self.custom@.len() > 0 ==> allows_custom(self.command))
        &&& match self.body {
            Some(b) => b.within(n) && allows_body(self.command),
            None => true,
        }
    }
}

impl Frame {
    /// The meaning of the schema slot of `h`, where the command has one and it is set.
    pub open spec fn header_view(&self, h: HeaderName) -> Option<ValueView> {
        let i = slot_of(self.command, h);
        if 0 <= i < self.fields@.len() {
            opt_view(self.fields@[i], self.buffer@)
        } else {
            None
        }
    }
}

impl View for Frame {
    type V = FrameView;

    open spec fn view(&self) -> FrameView {
        FrameView {
            command: self.command,
            fields: Seq::new(self.fields@.len(), |i: int| opt_view(self.fields@[i], self.buffer@)),
            custom: raw_view(self.custom@, self.buffer@),
            body: match self.body {
                Some(b) => Some(b.of(self.buffer@)),
                None => None,
            },
        }
    }
}

fn find_named(hs: &Vec<RawHeader>, buf: &[u8], name: &[u8]) -> (r: usize)
    requires
        forall|j: int| 0 <= j < hs@.len() ==> (#[trigger] hs@[j]).within(buf@.len()),
    ensures
        r == first_named(raw_view(hs@, buf@), name@, 0),
{
    let ghost v = raw_view(hs@, buf@);
    let mut k: usize = 0;
    while k < hs.len()
        invariant
            k <= hs@.len(),
            v == raw_view(hs@, buf@),
            forall|j: int| 0 <= j < hs@.len() ==> (#[trigger] hs@[j]).within(buf@.len()),
            first_named(v, name@, 0) == first_named(v, name@, k as int),
        decreases hs@.len() - k,
    {
        let h = hs[k];
        let t = slice_subrange(buf, h.name.start, h.name.end);
        if bytes_eq(t, name) {
            return k;
        }
        k = k + 1;
    }
    k
}

/// Whether `name` is the name of a header in the schema of `c`.
pub fn is_known_name(c: Command, name: &[u8]) -> (r: bool)
    ensures
        r == is_known(c, name@),
{
    let sc = c.schema();
    let mut i: usize = 0;
    while i < sc.len()
        invariant
            sc@ == schema(c),
            i <= sc@.len(),
            forall|j: int| 0 <= j < i ==> header_token((#[trigger] schema(c)[j]).0) != name@,
        decreases sc@.len() - i,
    {
        let tok = sc[i].0.token();
        if bytes_eq(tok.as_slice(), name) {
            assert(header_token(schema(c)[i as int].0) == name@);
            return true;
        }
        i = i + 1;
    }
    false
}

fn parse_fields(c: Command, hs: &Vec<RawHeader>, buf: &[u8]) -> (r: Result<Vec<Option<HeaderValue>>, ParseError>)
    requires
        forall|j: int| 0 <= j < hs@.len() ==> (#[trigger] hs@[j]).within(buf@.len()),
    ensures
        match r {
            Ok(fs) => {
                &&& fs@.len() == schema(c).len()
                &&& forall|i: int| 0 <= i < fs@.len() ==> opt_within(#[trigger] fs@[i], buf@.len())
                &&& forall|i: int| 0 <= i < fs@.len() && (#[trigger] schema(c)[i]).1 ==> fs@[i] is Some
                &&& fields_from(c, raw_view(hs@, buf@), 0) == Ok::<Seq<Option<ValueView>>, ParseError>(
                    Seq::new(fs@.len(), |i: int| opt_view(fs@[i], buf@)),
                )
            },
            Err(e) => fields_from(c, raw_view(hs@, buf@), 0) == Err::<Seq<Option<ValueView>>, ParseError>(e),
        },
{
    let ghost v = raw_view(hs@, buf@);
    let sc = c.schema();
    let mut fs: Vec<Option<HeaderValue>> = Vec::new();
    let mut i: usize = 0;
    proof {
        match fields_from(c, v, 0) {
            Ok(rest) => {
                assert(Seq::new(0, |i: int| opt_view(fs@[i], buf@)) + rest =~= rest);
            },
            Err(_) => {},
        }
    }
    while i < sc.len()
        invariant
            sc@ == schema(c),
            v == raw_view(hs@, buf@),
            forall|j: int| 0 <= j < hs@.len() ==> (#[trigger] hs@[j]).within(buf@.len()),
            i <= sc@.len(),
            fs@.len() == i,
            forall|j: int| 0 <= j < fs@.len() ==> opt_within(#[trigger] fs@[j], buf@.len()),
            forall|j: int| 0 <= j < fs@.len() && (#[trigger] schema(c)[j]).1 ==> fs@[j] is Some,
            match fields_from(c, v, i as int) {
                Ok(rest) => fields_from(c, v, 0) == Ok::<Seq<Option<ValueView>>, ParseError>(
                    Seq::new(fs@.len(), |j: int| opt_view(fs@[j], buf@)) + rest,
                ),
                Err(e) => fields_from(c, v, 0) == Err::<Seq<Option<ValueView>>, ParseError>(e),
            },
        decreases sc@.len() - i,
    {
        let ghost pre = Seq::new(fs@.len(), |j: int| opt_view(fs@[j], buf@));
        let (h, req) = sc[i];
        assert(schema(c)[i as int] == (h, req));
        let tok = h.token();
        let k = find_named(hs, buf, tok.as_slice());
        proof { lemma_first_named_bounds(v, tok@, 0); }
        let slot: Option<HeaderValue>;
        if k >= hs.len() {
            if req {
                return Err(ParseError::MissingHeader(h));
            }
            slot = None;
        } else {
            let x = hs[k];
            match parse_value(h, buf, x.value.start, x.value.end) {
                None => {
                    return Err(ParseError::InvalidHeaderValue(h));
                },
                Some(val) => {
                    slot = Some(val);
                },
            }
        }
        assert(field_spec(c, v, i as int) == Ok::<Option<ValueView>, ParseError>(opt_view(slot, buf@)));
        fs.push(slot);
        proof {
            let now = Seq::new(fs@.len(), |j: int| opt_view(fs@[j], buf@));
            assert(now =~= pre.push(opt_view(slot, buf@)));
            match fields_from(c, v, i + 1) {
                Ok(rest) => {
                    assert(pre + (seq![opt_view(slot, buf@)] + rest) =~= now + rest);
                },
                Err(_) => {},
            }
        }
        i = i + 1;
    }
    proof {
        let now = Seq::new(fs@.len(), |j: int| opt_view(fs@[j], buf@));
        assert(now + Seq::<Option<ValueView>>::empty() =~= now);
    }
    Ok(fs)
}

proof fn lemma_first_named_bounds(hs: Seq<(Seq<u8>, Seq<u8>)>, name: Seq<u8>, k: int)
    requires
        0 <= k <= hs.len(),
    ensures
        k <= first_named(hs, name, k) <= hs.len(),
    decreases hs.len() - k,
{
    if k < hs.len() && hs[k].0 != name {
        lemma_first_named_bounds(hs, name, k + 1);
    }
}

fn collect_custom(c: Command, hs: &Vec<RawHeader>, buf: &[u8]) -> (r: Vec<RawHeader>)
    requires
        forall|j: int| 0 <= j < hs@.len() ==> (#[trigger] hs@[j]).within(buf@.len()),
    ensures
        forall|j: int| 0 <= j < r@.len() ==> (#[trigger] r@[j]).within(buf@.len()),
        raw_view(r@, buf@) == custom_of(c, raw_view(hs@, buf@)),
{
    let ghost v = raw_view(hs@, buf@);
    let mut out: Vec<RawHeader> = Vec::new();
    let mut k: usize = 0;
    assert(v.subrange(0, 0) =~= Seq::<(Seq<u8>, Seq<u8>)>::empty());
    assert(raw_view(out@, buf@) =~= Seq::<(Seq<u8>, Seq<u8>)>::empty());
    while k < hs.len()
        invariant
            k <= hs@.len(),
            v == raw_view(hs@, buf@),
            forall|j: int| 0 <= j < hs@.len() ==> (#[trigger] hs@[j]).within(buf@.len()),
            forall|j: int| 0 <= j < out@.len() ==> (#[trigger] out@[j]).within(buf@.len()),
            raw_view(out@, buf@) == custom_of(c, v.subrange(0, k as int)),
        decreases hs@.len() - k,
    {
        let ghost pre = raw_view(out@, buf@);
        let h = hs[k];
        assert(v.subrange(0, k as int + 1).drop_last() =~= v.subrange(0, k as int));
        assert(v.subrange(0, k as int + 1).last() == h.pair(buf@));
        let t = slice_subrange(buf, h.name.start, h.name.end);
        if !is_known_name(c, t) {
            out.push(h);
            assert(raw_view(out@, buf@) =~= pre.push(h.pair(buf@)));
        }
        k = k + 1;
    }
    assert(v.subrange(0, k as int) =~= v);
    out
}

/// Reads a frame of direction `d` from `input`. The frame keeps `input` as
/// its buffer: header texts are decoded in place and the body is not moved.
#[verifier::rlimit(100)]
pub fn parse_frame(input: Vec<u8>, d: Direction) -> (r: Result<Frame, ParseError>)
    ensures
        match (r, parse_spec(input@, d)) {
            (Ok(f), Ok(v)) => {
                &&& f.wf()
                &&& f@ == v
                &&& f.buffer@.len() == input@.len()
                &&& f.body matches Some(b) ==> b.of(f.buffer@) == b.of(input@)
            },
            (Err(e), Err(x)) => e == x,
            _ => false,
        },
{
    let mut buf = input;
    let e = find_byte(buf.as_slice(), LF, 0);
    proof { lemma_first_index_bounds(buf@, LF, 0); }
    if e >= buf.len() {
        return Err(ParseError::InvalidBody);
    }
    let le = if e > 0 && buf[e - 1] == CR {
        e - 1
    } else {
        e
    };
    let tok = slice_subrange(buf.as_slice(), 0, le);
    let c = match Command::from_token(tok) {
        Some(c) => c,
        None => {
            return Err(ParseError::UnknownCommand);
        },
    };
    if c.direction() != d {
        return Err(ParseError::WrongDirection(c));
    }
    let ghost orig = buf@;
    let (hs, b) = match parse_headers(&mut buf, e + 1, c.escapes()) {
        Ok(x) => x,
        Err(x) => {
            return Err(x);
        },
    };
    let ghost hv = raw_view(hs@, buf@);
    let fs = match parse_fields(c, &hs, buf.as_slice()) {
        Ok(x) => x,
        Err(x) => {
            return Err(x);
        },
    };
    let ghost fv = Seq::new(fs@.len(), |i: int| opt_view(fs@[i], buf@));
    let cl: Option<u64> = if c == Command::Send {
        match &fs[2] {
            Some(HeaderValue::Length(n)) => Some(*n),
            _ => None,
        }
    } else if c == Command::Message {
        match &fs[4] {
            Some(HeaderValue::Length(n)) => Some(*n),
            _ => None,
        }
    } else {
        None
    };
    assert(cl == content_length_of(c, fv));
    let body_end: usize;
    match cl {
        Some(n) => {
            if n as u128 >= (buf.len() - b) as u128 || buf[b + n as usize] != NUL {
                return Err(ParseError::InvalidBody);
            }
            body_end = b + n as usize;
        },
        None => {
            if b >= buf.len() || buf[buf.len() - 1] != NUL {
                return Err(ParseError::InvalidBody);
            }
            body_end = buf.len() - 1;
        },
    }
    assert(buf@.subrange(b as int, body_end as int) =~= orig.subrange(b as int, body_end as int));
    let body: Option<Span>;
    if c.allows_body() {
        body = Some(Span { start: b, end: body_end });
    } else if body_end == b {
        body = None;
    } else {
        return Err(ParseError::InvalidBody);
    }
    let custom = if c.allows_custom() {
        collect_custom(c, &hs, buf.as_slice())
    } else {
        Vec::new()
    };
    let f = Frame { command: c, buffer: buf, fields: fs, custom, body };
    assert(f@.fields =~= fv);
    assert(tok@ == orig.subrange(0, content_end(orig, 0, e as int)));
    assert(command_spec(orig) == Ok::<(Command, int), ParseError>((c, e + 1)));
    assert(headers_spec(orig, e + 1, escapes(c)) == Ok::<(Seq<(Seq<u8>, Seq<u8>)>, int), ParseError>((hv, b as int)));
    assert(fields_from(c, hv, 0) == Ok::<Seq<Option<ValueView>>, ParseError>(fv));
    assert(body_bytes(orig, b as int, cl) == Ok::<Seq<u8>, ParseError>(orig.subrange(b as int, body_end as int)));
    assert(body_spec(c, orig, b as int, cl) == Ok::<Option<Seq<u8>>, ParseError>(f@.body));
    assert(f.wf());
    proof {
        if !allows_custom(c) {
            assert(f@.custom =~= Seq::<(Seq<u8>, Seq<u8>)>::empty());
        }
    }
    Ok(f)
}

/// Reads a frame that a client sends. The frame's buffer is `input`.
pub fn parse_client(input: Vec<u8>) -> (r: Result<Frame, ParseError>)
    ensures
        match (r, parse_spec(input@, Direction::Client)) {
            (Ok(f), Ok(v)) => {
                &&& f.wf()
                &&& f@ == v
                &&& f.buffer@.len() == input@.len()
                &&& f.body matches Some(b) ==> b.of(f.buffer@) == b.of(input@)
            },
            (Err(e), Err(x)) => e == x,
            _ => false,
        },
{
    parse_frame(input, Direction::Client)
}

/// Reads a frame that a server sends. The frame's buffer is `input`.
pub fn parse_server(input: Vec<u8>) -> (r: Result<Frame, ParseError>)
    ensures
        match (r, parse_spec(input@, Direction::Server)) {
            (Ok(f), Ok(v)) => {
                &&& f.wf()
                &&& f@ == v
                &&& f.buffer@.len() == input@.len()
                &&& f.body matches Some(b) ==> b.of(f.buffer@) == b.of(input@)
            },
            (Err(e), Err(x)) => e == x,
            _ => false,
        },
{
    parse_frame(input, Direction::Server)
}

/// Header text on the wire: escaped unless the command switches escaping off.
pub open spec fn encode(esc: bool, t: Seq<u8>) -> Seq<u8> {
    if esc {
        escape_spec(t)
    } else {
        t
    }
}

pub open spec fn header_line(esc: bool, name: Seq<u8>, value: Seq<u8>) -> Seq<u8> {
    encode(esc, name) + seq![COLON] + encode(esc, value) + seq![LF]
}

/// The lines of the schema headers that are present, in declared order.
pub open spec fn fields_text(c: Command, fs: Seq<Option<ValueView>>) -> Seq<u8>
    decreases fs.len(),
{
    if fs.len() == 0 {
        seq![]
    } else {
        fields_text(c, fs.drop_last()) + match fs.last() {
            Some(v) => header_line(escapes(c), header_token(schema(c)[fs.len() - 1].0), value_text(v)),
            None => seq![],
        }
    }
}

/// The lines of the custom headers, in order.
pub open spec fn custom_text(esc: bool, cs: Seq<(Seq<u8>, Seq<u8>)>) -> Seq<u8>
    decreases cs.len(),
{
    if cs.len() == 0 {
        seq![]
    } else {
        custom_text(esc, cs.drop_last()) + header_line(esc, cs.last().0, cs.last().1)
    }
}

/// The wire form of a frame.
pub open spec fn render_spec(f: FrameView) -> Seq<u8> {
    command_token(f.command) + seq![LF] + fields_text(f.command, f.fields) + custom_text(
        escapes(f.command),
        f.custom,
    ) + seq![LF] + match f.body {
        Some(b) => b,
        None => seq![],
    } + seq![NUL]
}

fn push_encoded(esc: bool, t: &[u8], out: &mut Vec<u8>)
    ensures
        final(out)@ == old(out)@ + encode(esc, t@),
{
    if esc {
        escape_into(t, out);
    } else {
        crate::values::push_all(t, out);
    }
}

fn push_header_line(esc: bool, name: &[u8], value: &[u8], out: &mut Vec<u8>)
    ensures
        final(out)@ == old(out)@ + header_line(esc, name@, value@),
{
    push_encoded(esc, name, out);
    out.push(COLON);
    push_encoded(esc, value, out);
    out.push(LF);
    assert(final(out)@ =~= old(out)@ + header_line(esc, name@, value@));
}

impl Frame {
    /// The frame's wire form.
    pub fn render(&self) -> (r: Vec<u8>)
        requires
            self.wf(),
        ensures
            r@ == render_spec(self@),
    {
        let c = self.command;
        let esc = c.escapes();
        let sc = c.schema();
        let buf = self.buffer.as_slice();
        let mut out = c.token();
        out.push(LF);
        let ghost head = out@;
        let ghost fv = self@.fields;
        let mut i: usize = 0;
        assert(fv.subrange(0, 0) =~= Seq::<Option<ValueView>>::empty());
        assert(out@ =~= head + fields_text(c, fv.subrange(0, 0)));
        while i < self.fields.len()
            invariant
                self.wf(),
                c == self.command,
                esc == escapes(c),
                sc@ == schema(c),
                buf@ == self.buffer@,
                fv == self@.fields,
                i <= self.fields@.len(),
                out@ == head + fields_text(c, fv.subrange(0, i as int)),
            decreases self.fields@.len() - i,
        {
            let ghost before = out@;
            assert(fv.subrange(0, i + 1).drop_last() =~= fv.subrange(0, i as int));
            match &self.fields[i] {
                Some(v) => {
                    assert(opt_within(self.fields@[i as int], buf@.len()));
                    let mut t: Vec<u8> = Vec::new();
                    push_value_text(v, buf, &mut t);
                    assert(t@ =~= value_text(v.view_in(buf@)));
                    let tok = sc[i].0.token();
                    push_header_line(esc, tok.as_slice(), t.as_slice(), &mut out);
                },
                None => {},
            }
            i = i + 1;
            assert(out@ =~= head + fields_text(c, fv.subrange(0, i as int)));
        }
        assert(fv.subrange(0, i as int) =~= fv);
        let ghost mid = out@;
        let ghost cv = self@.custom;
        let mut k: usize = 0;
        assert(cv.subrange(0, 0) =~= Seq::<(Seq<u8>, Seq<u8>)>::empty());
        assert(out@ =~= mid + custom_text(esc, cv.subrange(0, 0)));
        while k < self.custom.len()
            invariant
                self.wf(),
                esc == escapes(c),
                c == self.command,
                buf@ == self.buffer@,
                cv == self@.custom,
                k <= self.custom@.len(),
                out@ == mid + custom_text(esc, cv.subrange(0, k as int)),
            decreases self.custom@.len() - k,
        {
            assert(cv.subrange(0, k + 1).drop_last() =~= cv.subrange(0, k as int));
            let h = self.custom[k];
            assert(h.within(buf@.len()));
            let n = slice_subrange(buf, h.name.start, h.name.end);
            let v = slice_subrange(buf, h.value.start, h.value.end);
            push_header_line(esc, n, v, &mut out);
            k = k + 1;
            assert(out@ =~= mid + custom_text(esc, cv.subrange(0, k as int)));
        }
        assert(cv.subrange(0, k as int) =~= cv);
        out.push(LF);
        let ghost tail = out@;
        match self.body {
            Some(b) => {
                let bs = slice_subrange(buf, b.start, b.end);
                crate::values::push_all(bs, &mut out);
            },
            None => {},
        }
        out.push(NUL);
        assert(out@ =~= render_spec(self@));
        out
    }

    /// The value in the schema slot of `h`, if the command has one and it is set.
    pub fn header(&self, h: HeaderName) -> (r: Option<&HeaderValue>)
        requires
            self.wf(),
        ensures
            match r {
                Some(v) => 0 <= slot_of(self.command, h) < self.fields@.len()
                    && self.fields@[slot_of(self.command, h)] == Some(*v),
                None => slot_of(self.command, h) >= self.fields@.len()
                    || self.fields@[slot_of(self.command, h)] is None,
            },
    {
        match slot(self.command, h) {
            Some(i) => match &self.fields[i] {
                Some(v) => Some(v),
                None => None,
            },
            None => None,
        }
    }

    /// The decoded text of a text-valued header, as a slice of the buffer.
    pub fn text(&self, h: HeaderName) -> (r: Option<&[u8]>)
        requires
            self.wf(),
        ensures
            match r {
                Some(t) => 0 <= slot_of(self.command, h) < self.fields@.len()
                    && self@.fields[slot_of(self.command, h)] == Some(ValueView::Text(t@)),
                None => !(0 <= slot_of(self.command, h) < self.fields@.len()
                    && self@.fields[slot_of(self.command, h)] matches Some(ValueView::Text(_))),
            },
    {
        match self.header(h) {
            Some(HeaderValue::Text(s)) => {
                let ghost i = slot_of(self.command, h);
                assert(opt_within(self.fields@[i], self.buffer@.len()));
                assert(self@.fields[i] == opt_view(self.fields@[i], self.buffer@));
                let t = slice_subrange(self.buffer.as_slice(), s.start, s.end);
                assert(self@.fields[i] == Some(ValueView::Text(t@)));
                Some(t)
            },
            _ => {
                proof {
                    let i = slot_of(self.command, h);
                    if 0 <= i < self.fields@.len() {
                        assert(self@.fields[i] == opt_view(self.fields@[i], self.buffer@));
                    }
                }
                None
            },
        }
    }

    /// The heart-beat header, or `0,0` where it is absent.
    pub fn heart_beat_or_default(&self) -> (r: HeartBeatIntervals)
        requires
            self.wf(),
        ensures
            match self.header_view(HeaderName::HeartBeat) {
                Some(ValueView::HeartBeat(h)) => r == h,
                _ => r == (HeartBeatIntervals { supplied: 0, expected: 0 }),
            },
    {
        match self.header(HeaderName::HeartBeat) {
            Some(HeaderValue::HeartBeat(h)) => *h,
            _ => HeartBeatIntervals { supplied: 0, expected: 0 },
        }
    }

    /// The ack mode, or `auto` where it is absent.
    pub fn ack_or_default(&self) -> (r: AckType)
        requires
            self.wf(),
        ensures
            match self.header_view(HeaderName::Ack) {
                Some(ValueView::Ack(a)) => r == a,
                _ => r == AckType::Auto,
            },
    {
        match self.header(HeaderName::Ack) {
            Some(HeaderValue::Ack(a)) => *a,
            _ => AckType::Auto,
        }
    }

    /// The body, as a slice of the buffer.
    pub fn body(&self) -> (r: Option<&[u8]>)
        requires
            self.wf(),
        ensures
            match r {
                Some(b) => self@.body == Some(b@),
                None => self@.body is None,
            },
    {
        match self.body {
            Some(b) => Some(slice_subrange(self.buffer.as_slice(), b.start, b.end)),
            None => None,
        }
    }

    /// The number of custom headers.
    pub fn custom_count(&self) -> (r: usize)
        ensures
            r == self@.custom.len(),
    {
        self.custom.len()
    }

    /// The `j`-th custom header's name and value, as slices of the buffer.
    pub fn custom_header(&self, j: usize) -> (r: (&[u8], &[u8]))
        requires
            self.wf(),
            j < self@.custom.len(),
        ensures
            (r.0@, r.1@) == self@.custom[j as int],
    {
        let h = self.custom[j];
        assert(h.within(self.buffer@.len()));
        (
            slice_subrange(self.buffer.as_slice(), h.name.start, h.name.end),
            slice_subrange(self.buffer.as_slice(), h.value.start, h.value.end),
        )
    }
}

/// The first slot at or after `i` of a schema that names `h`, or its length.
pub open spec fn first_slot(sc: Seq<(HeaderName, bool)>, h: HeaderName, i: int) -> int
    decreases sc.len() - i,
{
    if i < 0 || i >= sc.len() {
        sc.len() as int
    } else if sc[i].0 == h {
        i
    } else {
        first_slot(sc, h, i + 1)
    }
}

/// Where `h` stands in the schema of `c`; past its end if it is not there.
pub open spec fn slot_of(c: Command, h: HeaderName) -> int {
    first_slot(schema(c), h, 0)
}

/// Where `h` stands in the schema of `c`.
pub fn slot(c: Command, h: HeaderName) -> (r: Option<usize>)
    ensures
        match r {
            Some(i) => i == slot_of(c, h) && i < schema(c).len(),
            None => slot_of(c, h) >= schema(c).len(),
        },
{
    let sc = c.schema();
    let mut i: usize = 0;
    while i < sc.len()
        invariant
            sc@ == schema(c),
            i <= sc@.len(),
            first_slot(sc@, h, 0) == first_slot(sc@, h, i as int),
        decreases sc@.len() - i,
    {
        if sc[i].0 == h {
            return Some(i);
        }
        i = i + 1;
    }
    None
}

} // verus!
