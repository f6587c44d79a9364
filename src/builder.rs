//! Builders that assemble a frame and check its required headers.
use vstd::prelude::*;
use vstd::string::StringSliceAdditionalSpecFns;
use vstd::slice::slice_to_vec;
use crate::frame::{Frame, FrameView, opt_view, opt_within, slot, slot_of, RawHeader};
use crate::schema::{Command, HeaderName, allows_body, allows_custom, schema};
use crate::values::{HeaderValue, Span, ValueView, push_all};

verus! {

/// Why a builder could not produce a frame.
#[derive(PartialEq, Eq, Structural, Clone, Copy, Debug)]
pub enum BuildError {
    /// The first required header, in declared order, that was not set.
    MissingRequired(HeaderName),
}

/// Whether a header's values are plain text.
pub open spec fn is_text_header(h: HeaderName) -> bool {
    h != HeaderName::AcceptVersion && h != HeaderName::Version && h != HeaderName::HeartBeat && h
        != HeaderName::Ack && h != HeaderName::ContentLength
}

/// Whether a typed value has the shape that header `h` carries.
pub open spec fn fits(h: HeaderName, v: ValueView) -> bool {
    match h {
        HeaderName::AcceptVersion => v is Versions,
        HeaderName::Version => v is Version,
        HeaderName::HeartBeat => v is HeartBeat,
        HeaderName::Ack => v is Ack,
        HeaderName::ContentLength => v is Length,
        _ => v is Text,
    }
}

/// The first required slot at or after `i` that is unset, or the slot count.
pub open spec fn first_missing(c: Command, fs: Seq<Option<ValueView>>, i: int) -> int
    decreases fs.len() - i,
{
    if i < 0 || i >= fs.len() {
        fs.len() as int
    } else if schema(c)[i].1 && fs[i] is None {
        i
    } else {
        first_missing(c, fs, i + 1)
    }
}

/// `f` with slot `h` set to `v`, where the command has such a slot.
pub open spec fn with_field(f: FrameView, h: HeaderName, v: ValueView) -> FrameView {
    let i = slot_of(f.command, h);
    if 0 <= i < f.fields.len() {
        FrameView { fields: f.fields.update(i, Some(v)), ..f }
    } else {
        f
    }
}

/// A frame under construction.
pub struct FrameBuilder {
    pub draft: Frame,
}

impl FrameBuilder {
    /// As for a frame, except that required headers may still be missing.
    pub open spec fn wf(&self) -> bool {
        let f = self.draft;
        let n = f.buffer@.len();
        &&& f.fields@.len() == schema(f.command).len()
        &&& forall|i: int| 0 <= i < f.fields@.len() ==> opt_within(#[trigger] f.fields@[i], n)
        &&& forall|j: int| 0 <= j < f.custom@.len() ==> (#[trigger] f.custom@[j]).within(n)
        &&& (f.custom@.len() > 0 ==> allows_custom(f.command))
        &&& match f.body {
            Some(b) => b.within(n) && allows_body(f.command),
            None => true,
        }
    }

    pub open spec fn view(&self) -> FrameView {
        self.draft@
    }

    /// An empty builder for command `c`.
    pub fn new(c: Command) -> (r: FrameBuilder)
        ensures
            r.wf(),
            r.view() == (FrameView {
                command: c,
                fields: Seq::new(schema(c).len(), |i: int| None::<ValueView>),
                custom: seq![],
                body: None,
            }),
    {
        let sc = c.schema();
        let mut fields: Vec<Option<HeaderValue>> = Vec::new();
        let mut i: usize = 0;
        while i < sc.len()
            invariant
                sc@ == schema(c),
                i <= sc@.len(),
                fields@.len() == i,
                forall|j: int| 0 <= j < i ==> (#[trigger] fields@[j]) is None,
            decreases sc@.len() - i,
        {
            fields.push(None);
            i = i + 1;
        }
        let r = FrameBuilder {
            draft: Frame { command: c, buffer: Vec::new(), fields, custom: Vec::new(), body: None },
        };
        assert(r.view().fields =~= Seq::new(schema(c).len(), |i: int| None::<ValueView>));
        assert(r.view().custom =~= Seq::<(Seq<u8>, Seq<u8>)>::empty());
        r
    }

    /// Appends `v` to the buffer; what was stored before reads as before.
    fn append(&mut self, v: &[u8]) -> (s: Span)
        requires
            old(self).wf(),
        ensures
            final(self).wf(),
            final(self).draft.command == old(self).draft.command,
            final(self).draft.fields == old(self).draft.fields,
            final(self).draft.custom == old(self).draft.custom,
            final(self).draft.body == old(self).draft.body,
            final(self).view() == old(self).view(),
            s.within(final(self).draft.buffer@.len()),
            s.of(final(self).draft.buffer@) == v@,
            old(self).draft.buffer@.len() <= final(self).draft.buffer@.len(),
            final(self).draft.buffer@.subrange(0, old(self).draft.buffer@.len() as int)
                == old(self).draft.buffer@,
    {
        let ghost before = self.draft.buffer@;
        let start = self.draft.buffer.len();
        push_all(v, &mut self.draft.buffer);
        let s = Span { start, end: self.draft.buffer.len() };
        let ghost after = self.draft.buffer@;
        assert(s.of(after) =~= v@);
        assert(after.subrange(0, before.len() as int) =~= before);
        let ghost fo = old(self).view();
        let ghost fnew = self.view();
        assert forall|i: int| 0 <= i < fnew.fields.len() implies fnew.fields[i] == fo.fields[i] by {
            let o = self.draft.fields@[i];
            assert(opt_within(o, before.len()));
            match o {
                Some(HeaderValue::Text(t)) => {
                    assert(t.of(after) =~= t.of(before));
                },
                _ => {},
            }
        }
        assert(fnew.fields =~= fo.fields);
        assert forall|j: int| 0 <= j < fnew.custom.len() implies fnew.custom[j] == fo.custom[j] by {
            let x = self.draft.custom@[j];
            assert(x.within(before.len()));
            assert(x.name.of(after) =~= x.name.of(before));
            assert(x.value.of(after) =~= x.value.of(before));
        }
        assert(fnew.custom =~= fo.custom);
        match self.draft.body {
            Some(b) => {
                assert(b.of(after) =~= b.of(before));
            },
            None => {},
        }
        s
    }

    /// Sets a text-valued header; a header that is not text, or not in the
    /// command's schema, leaves the builder as it was.
    pub fn text(&mut self, h: HeaderName, v: &[u8])
        requires
            old(self).wf(),
        ensures
            final(self).wf(),
            final(self).view() == if is_text_header(h) {
                with_field(old(self).view(), h, ValueView::Text(v@))
            } else {
                old(self).view()
            },
    {
        if h == HeaderName::AcceptVersion || h == HeaderName::Version || h == HeaderName::HeartBeat
            || h == HeaderName::Ack || h == HeaderName::ContentLength {
            return;
        }
        match slot(self.draft.command, h) {
            Some(i) => {
                let s = self.append(v);
                let ghost mid = self.view();
                self.draft.fields.set(i, Some(HeaderValue::Text(s)));
                assert(self.view().fields =~= mid.fields.update(i as int, Some(ValueView::Text(v@))));
            },
            None => {},
        }
    }

    /// Sets a header whose value is typed (versions, heart-beat, ack mode or
    /// length); one outside the command's schema leaves the builder as it was.
    pub fn typed(&mut self, h: HeaderName, v: HeaderValue)
        requires
            old(self).wf(),
            !(v is Text),
            fits(h, v.view_in(seq![])),
        ensures
            final(self).wf(),
            final(self).view() == with_field(old(self).view(), h, v.view_in(seq![])),
    {
        match slot(self.draft.command, h) {
            Some(i) => {
                let ghost mid = self.view();
                let ghost vv = v.view_in(seq![]);
                assert(v.view_in(self.draft.buffer@) == vv);
                self.draft.fields.set(i, Some(v));
                assert(self.view().fields =~= mid.fields.update(i as int, Some(vv)));
            },
            None => {},
        }
    }

    /// Adds a custom header, where the command allows them.
    pub fn custom_header(&mut self, name: &[u8], value: &[u8])
        requires
            old(self).wf(),
        ensures
            final(self).wf(),
            final(self).view() == if allows_custom(old(self).view().command) {
                FrameView { custom: old(self).view().custom.push((name@, value@)), ..old(self).view() }
            } else {
                old(self).view()
            },
    {
        if !self.draft.command.allows_custom() {
            return;
        }
        let n = self.append(name);
        let ghost b1 = self.draft.buffer@;
        let v = self.append(value);
        let ghost b2 = self.draft.buffer@;
        assert(n.of(b2) =~= b2.subrange(0, b1.len() as int).subrange(n.start as int, n.end as int));
        let ghost mid = self.view();
        let h = RawHeader { name: n, value: v };
        self.draft.custom.push(h);
        assert(self.view().custom =~= mid.custom.push((name@, value@)));
    }

    /// Sets the body, where the command allows one.
    pub fn body(&mut self, b: &[u8])
        requires
            old(self).wf(),
        ensures
            final(self).wf(),
            final(self).view() == if allows_body(old(self).view().command) {
                FrameView { body: Some(b@), ..old(self).view() }
            } else {
                old(self).view()
            },
    {
        if !self.draft.command.allows_body() {
            return;
        }
        let s = self.append(b);
        self.draft.body = Some(s);
    }

    /// The frame, unless a required header is missing.
    pub fn build(self) -> (r: Result<Frame, BuildError>)
        requires
            self.wf(),
        ensures
            match r {
                Ok(f) => f.wf() && f@ == self.view() && first_missing(
                    self.view().command,
                    self.view().fields,
                    0,
                ) == self.view().fields.len(),
                Err(BuildError::MissingRequired(h)) => {
                    let i = first_missing(self.view().command, self.view().fields, 0);
                    0 <= i < self.view().fields.len() && h == schema(self.view().command)[i].0
                },
            },
    {
        let c = self.draft.command;
        let sc = c.schema();
        let ghost fv = self.view().fields;
        let mut i: usize = 0;
        while i < sc.len()
            invariant
                self.wf(),
                c == self.draft.command,
                sc@ == schema(c),
                fv == self.view().fields,
                i <= sc@.len(),
                first_missing(c, fv, 0) == first_missing(c, fv, i as int),
                forall|j: int| 0 <= j < i && (#[trigger] schema(c)[j]).1 ==> self.draft.fields@[j] is Some,
            decreases sc@.len() - i,
        {
            assert(fv[i as int] == opt_view(self.draft.fields@[i as int], self.draft.buffer@));
            if sc[i].1 && self.draft.fields[i].is_none() {
                return Err(BuildError::MissingRequired(sc[i].0));
            }
            i = i + 1;
        }
        Ok(self.draft)
    }
}

/// A server's ERROR frame.
pub struct ErrorFrame {
    pub frame: Frame,
}

impl ErrorFrame {
    /// An ERROR frame with no headers whose body is the text of `message`.
    pub fn from_message(message: &str) -> (r: ErrorFrame)
        ensures
            r.frame.wf(),
            r.frame@ == (FrameView {
                command: Command::Error,
                fields: seq![],
                custom: seq![],
                body: Some(message.spec_bytes()),
            }),
    {
        let buffer = slice_to_vec(message.as_bytes());
        let n = buffer.len();
        let frame = Frame {
            command: Command::Error,
            buffer,
            fields: Vec::new(),
            custom: Vec::new(),
            body: Some(Span { start: 0, end: n }),
        };
        assert(frame@.fields =~= Seq::<Option<ValueView>>::empty());
        assert(frame@.custom =~= Seq::<(Seq<u8>, Seq<u8>)>::empty());
        assert(frame.buffer@.subrange(0, n as int) =~= message.spec_bytes());
        ErrorFrame { frame }
    }
}

} // verus!
