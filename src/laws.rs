//! Properties of the codec that relate several of its parts.
use vstd::prelude::*;
use crate::frame::{
    Frame, FrameView, ParseError, body_spec, content_length_of, field_spec, fields_from,
    first_named, parse_spec, render_spec, length_slot,
};
use crate::schema::{allows_body, allows_custom, direction_of, is_known, command_token, Command, Direction, HeaderName, command_lookup, escapes, header_token, schema, stomp_token};
use crate::values::{
    AckType, StompVersion, ValueView, value_spec, value_text, versions_spec, versions_text,
    version_token, version_lookup, ack_token, ack_lookup, COMMA,
};
use crate::text::{decimal_spec, first_index, lemma_decimal_digits, lemma_parse_decimal};
use crate::escape::{COLON, lemma_escape_has_no_delimiters, lemma_unescape_escape};
use crate::frame::{custom_of, NUL, command_spec, custom_text, fields_text, encode, header_line, header_line_spec, headers_spec, content_end};
use crate::escape::{LF, CR};
use crate::builder::fits;

verus! {

/// Rendering depends on the frame's meaning alone: two frames that mean the
/// same render to the same bytes.
pub proof fn lemma_render_deterministic(a: Frame, b: Frame)
    requires
        a.wf(),
        b.wf(),
        a@ == b@,
    ensures
        render_spec(a@) == render_spec(b@),
{
}

/// Escaping is off for CONNECT and CONNECTED, and the STOMP token reads as
/// CONNECT, so it is off there too.
pub proof fn lemma_no_escaping_on_connect()
    ensures
        !escapes(Command::Connect),
        !escapes(Command::Connected),
        command_lookup(stomp_token()) == Some(Command::Connect),
{
    assert(stomp_token() != crate::schema::command_token(Command::Abort));
    assert(stomp_token() != crate::schema::command_token(Command::Ack));
    assert(stomp_token() != crate::schema::command_token(Command::Begin));
    assert(stomp_token() != crate::schema::command_token(Command::Commit));
    assert(stomp_token() != crate::schema::command_token(Command::Connect));
    assert(stomp_token() != crate::schema::command_token(Command::Disconnect));
    assert(stomp_token() != crate::schema::command_token(Command::Nack));
    assert(stomp_token() != crate::schema::command_token(Command::Send));
    assert(stomp_token() != crate::schema::command_token(Command::Subscribe));
    assert(stomp_token() != crate::schema::command_token(Command::Unsubscribe));
    assert(stomp_token() != crate::schema::command_token(Command::Connected));
    assert(stomp_token() != crate::schema::command_token(Command::Receipt));
    assert(stomp_token() != crate::schema::command_token(Command::Error));
    assert(stomp_token() != crate::schema::command_token(Command::Message));
}

proof fn lemma_first_named_is(hs: Seq<(Seq<u8>, Seq<u8>)>, name: Seq<u8>, k: int, j: int)
    requires
        0 <= k <= j < hs.len(),
        hs[j].0 == name,
        forall|m: int| k <= m < j ==> hs[m].0 != name,
    ensures
        first_named(hs, name, k) == j,
    decreases j - k,
{
    if k < j {
        lemma_first_named_is(hs, name, k + 1, j);
    }
}

proof fn lemma_fields_from_slot(c: Command, hs: Seq<(Seq<u8>, Seq<u8>)>, k: int, i: int)
    requires
        0 <= k <= i < schema(c).len(),
        fields_from(c, hs, k) is Ok,
    ensures
        fields_from(c, hs, k)->Ok_0.len() == schema(c).len() - k,
        field_spec(c, hs, i) == Ok::<Option<ValueView>, ParseError>(fields_from(c, hs, k)->Ok_0[i - k]),
    decreases schema(c).len() - k,
{
    lemma_fields_len(c, hs, k);
    if k < i {
        lemma_fields_from_slot(c, hs, k + 1, i);
    }
}

proof fn lemma_fields_len(c: Command, hs: Seq<(Seq<u8>, Seq<u8>)>, k: int)
    requires
        0 <= k <= schema(c).len(),
        fields_from(c, hs, k) is Ok,
    ensures
        fields_from(c, hs, k)->Ok_0.len() == schema(c).len() - k,
    decreases schema(c).len() - k,
{
    if k < schema(c).len() {
        lemma_fields_len(c, hs, k + 1);
    }
}

/// When a known header occurs more than once, the frame holds the value of
/// its first occurrence: if header `h` of the schema of `c` first occurs at
/// position `j` of the decoded header lines, the slot of `h` holds the typed
/// value of line `j`.
pub proof fn lemma_first_occurrence_wins(c: Command, hs: Seq<(Seq<u8>, Seq<u8>)>, i: int, j: int)
    requires
        0 <= i < schema(c).len(),
        0 <= j < hs.len(),
        hs[j].0 == header_token(schema(c)[i].0),
        forall|m: int| 0 <= m < j ==> hs[m].0 != header_token(schema(c)[i].0),
        fields_from(c, hs, 0) is Ok,
    ensures
        value_spec(schema(c)[i].0, hs[j].1) is Some,
        fields_from(c, hs, 0)->Ok_0[i] == Some(value_spec(schema(c)[i].0, hs[j].1)->Some_0),
{
    lemma_first_named_is(hs, header_token(schema(c)[i].0), 0, j);
    lemma_fields_from_slot(c, hs, 0, i);
}

proof fn lemma_body_start(s: Seq<u8>, i: int, esc: bool)
    requires
        crate::frame::headers_spec(s, i, esc) is Ok,
    ensures
        0 <= i < crate::frame::headers_spec(s, i, esc)->Ok_0.1,
    decreases s.len() - i,
{
    crate::text::lemma_first_index_bounds(s, crate::escape::LF, i);
    let e = crate::text::first_index(s, crate::escape::LF, i);
    let le = crate::frame::content_end(s, i, e);
    if le > i {
        lemma_body_start(s, e + 1, esc);
    }
}

/// A SEND or MESSAGE frame that parses with a declared content length has a
/// body of exactly that many bytes.
pub proof fn lemma_content_length_agreement(s: Seq<u8>, d: Direction, n: u64)
    requires
        parse_spec(s, d) is Ok,
        content_length_of(parse_spec(s, d)->Ok_0.command, parse_spec(s, d)->Ok_0.fields) == Some(n),
    ensures
        parse_spec(s, d)->Ok_0.body is Some,
        parse_spec(s, d)->Ok_0.body->Some_0.len() == n,
{
    let v = parse_spec(s, d)->Ok_0;
    let c = v.command;
    let (c2, i) = crate::frame::command_spec(s)->Ok_0;
    let (hs, b) = crate::frame::headers_spec(s, i, escapes(c))->Ok_0;
    assert(c2 == c);
    crate::text::lemma_first_index_bounds(s, crate::escape::LF, 0);
    lemma_body_start(s, i, escapes(c));
    assert(body_spec(c, s, b, Some(n)) is Ok);
    assert(length_slot(c) >= 0);
    assert(c == Command::Send || c == Command::Message);
}

proof fn lemma_version_token(v: StompVersion)
    ensures
        version_lookup(version_token(v)) == Some(v),
        version_token(v).len() == 3,
{
    assert(version_token(StompVersion::V1_0)[2] != version_token(StompVersion::V1_1)[2]);
    assert(version_token(StompVersion::V1_0)[2] != version_token(StompVersion::V1_2)[2]);
    assert(version_token(StompVersion::V1_1)[2] != version_token(StompVersion::V1_2)[2]);
}

proof fn lemma_ack_token(a: AckType)
    ensures
        ack_lookup(ack_token(a)) == Some(a),
{
    assert(ack_token(AckType::Auto).len() == 4);
    assert(ack_token(AckType::Client).len() == 6);
    assert(ack_token(AckType::ClientIndividual).len() == 17);
}

proof fn lemma_versions_text_cons(v: StompVersion, rest: Seq<StompVersion>)
    requires
        rest.len() >= 1,
    ensures
        versions_text(seq![v] + rest) == version_token(v) + seq![COMMA] + versions_text(rest),
    decreases rest.len(),
{
    let s = seq![v] + rest;
    assert(s.drop_last() =~= seq![v] + rest.drop_last());
    if rest.len() == 1 {
        assert(rest.drop_last() =~= Seq::<StompVersion>::empty());
        assert(s.drop_last() =~= seq![v]);
        assert(versions_text(rest) == version_token(rest[0]));
        assert(s.last() == rest[0]);
        assert(versions_text(seq![v]) == version_token(seq![v][0]));
        assert(versions_text(s) == versions_text(s.drop_last()) + seq![COMMA] + version_token(s.last()));
        assert(versions_text(s) =~= version_token(v) + seq![COMMA] + versions_text(rest));
    } else {
        lemma_versions_text_cons(v, rest.drop_last());
        assert(s.last() == rest.last());
        assert(versions_text(s) =~= version_token(v) + seq![COMMA] + versions_text(rest));
    }
}

proof fn lemma_versions_round_trip(vs: Seq<StompVersion>)
    requires
        vs.len() >= 1,
    ensures
        versions_spec(versions_text(vs)) == Some(vs),
    decreases vs.len(),
{
    let t = versions_text(vs);
    lemma_version_token(vs[0]);
    if vs.len() == 1 {
        assert(t.subrange(0, 3) =~= t);
        assert(seq![vs[0]] =~= vs);
    } else {
        let rest = vs.subrange(1, vs.len() as int);
        assert(vs =~= seq![vs[0]] + rest);
        lemma_versions_text_cons(vs[0], rest);
        lemma_versions_round_trip(rest);
        assert(t.subrange(0, 3) =~= version_token(vs[0]));
        assert(t.subrange(4, t.len() as int) =~= versions_text(rest));
        assert(seq![vs[0]] + rest =~= vs);
    }
}

proof fn lemma_first_index_is(s: Seq<u8>, b: u8, k: int, j: int)
    requires
        0 <= k <= j < s.len(),
        s[j] == b,
        forall|m: int| k <= m < j ==> s[m] != b,
    ensures
        first_index(s, b, k) == j,
    decreases j - k,
{
    if k < j {
        lemma_first_index_is(s, b, k + 1, j);
    }
}

/// Every typed value reads back from its textual form: a known header whose
/// value has the header's shape (and, for a version list, is not empty)
/// parses from `value_text` to that very value.
pub proof fn lemma_value_round_trip(h: HeaderName, v: ValueView)
    requires
        fits(h, v),
        v matches ValueView::Versions(vs) ==> vs.len() >= 1,
    ensures
        value_spec(h, value_text(v)) == Some(v),
{
    match v {
        ValueView::Versions(vs) => {
            lemma_versions_round_trip(vs);
        },
        ValueView::Version(x) => {
            lemma_version_token(x);
        },
        ValueView::Ack(a) => {
            lemma_ack_token(a);
        },
        ValueView::Length(n) => {
            lemma_parse_decimal(n);
        },
        ValueView::HeartBeat(hb) => {
            let da = decimal_spec(hb.supplied as nat);
            let db = decimal_spec(hb.expected as nat);
            let t = da + seq![COMMA] + db;
            lemma_decimal_digits(hb.supplied as nat);
            lemma_parse_decimal(hb.supplied);
            lemma_parse_decimal(hb.expected);
            assert forall|m: int| 0 <= m < da.len() implies t[m] != COMMA by {
                assert(t[m] == da[m]);
                assert(crate::text::is_digit(da[m]));
            }
            lemma_first_index_is(t, COMMA, 0, da.len() as int);
            assert(t.subrange(0, da.len() as int) =~= da);
            assert(t.subrange(da.len() as int + 1, t.len() as int) =~= db);
        },
        ValueView::Text(_) => {},
    }
}

/// A header line reads back as the name and value it was written from:
/// with escaping on, for any name and value; with it off, for a name that
/// holds no colon.
pub proof fn lemma_header_line_round_trip(esc: bool, name: Seq<u8>, value: Seq<u8>)
    requires
        !esc ==> forall|k: int| 0 <= k < name.len() ==> name[k] != COLON,
    ensures
        header_line_spec(encode(esc, name) + seq![COLON] + encode(esc, value), esc) == Some(
            (name, value),
        ),
{
    let en = encode(esc, name);
    let ev = encode(esc, value);
    let t = en + seq![COLON] + ev;
    assert forall|m: int| 0 <= m < en.len() implies t[m] != COLON by {
        assert(t[m] == en[m]);
        if esc {
            lemma_escape_has_no_delimiters(name, m);
        }
    }
    lemma_first_index_is(t, COLON, 0, en.len() as int);
    assert(t.subrange(0, en.len() as int) =~= en);
    assert(t.subrange(en.len() as int + 1, t.len() as int) =~= ev);
    if esc {
        lemma_unescape_escape(name);
        lemma_unescape_escape(value);
    }
}

/// Header lines written one after another, first to last.
pub open spec fn lines_of(esc: bool, ps: Seq<(Seq<u8>, Seq<u8>)>) -> Seq<u8>
    decreases ps.len(),
{
    if ps.len() == 0 {
        seq![]
    } else {
        header_line(esc, ps[0].0, ps[0].1) + lines_of(esc, ps.subrange(1, ps.len() as int))
    }
}

/// A header that can be written on one line and read back: with escaping
/// on, any; with it off, a name free of colons and line breaks and a value
/// free of line breaks.
pub open spec fn line_ok(esc: bool, name: Seq<u8>, value: Seq<u8>) -> bool {
    esc || ((forall|k: int| 0 <= k < name.len() ==> name[k] != COLON && name[k] != LF && name[k] != CR)
        && (forall|k: int| 0 <= k < value.len() ==> value[k] != LF && value[k] != CR))
}

proof fn lemma_encoded_clean(esc: bool, t: Seq<u8>, k: int)
    requires
        0 <= k < encode(esc, t).len(),
        !esc ==> forall|m: int| 0 <= m < t.len() ==> t[m] != LF && t[m] != CR,
    ensures
        encode(esc, t)[k] != LF,
        encode(esc, t)[k] != CR,
{
    if esc {
        lemma_escape_has_no_delimiters(t, k);
    }
}

/// A header section written from lines that can each be read back parses
/// to those very names and values, in order, and the body starts right
/// after the blank line.
pub proof fn lemma_header_section_round_trip(s: Seq<u8>, i: int, esc: bool, ps: Seq<(Seq<u8>, Seq<u8>)>)
    requires
        0 <= i,
        i + lines_of(esc, ps).len() + 1 <= s.len(),
        s.subrange(i, i + lines_of(esc, ps).len() + 1) == lines_of(esc, ps) + seq![LF],
        forall|j: int| 0 <= j < ps.len() ==> line_ok(esc, (#[trigger] ps[j]).0, ps[j].1),
    ensures
        headers_spec(s, i, esc) == Ok::<(Seq<(Seq<u8>, Seq<u8>)>, int), ParseError>(
            (ps, i + lines_of(esc, ps).len() + 1),
        ),
    decreases ps.len(),
{
    let l = lines_of(esc, ps);
    if ps.len() == 0 {
        assert(s[i] == s.subrange(i, i + l.len() + 1)[0]);
        lemma_first_index_is(s, LF, i, i);
        assert(ps =~= Seq::<(Seq<u8>, Seq<u8>)>::empty());
    } else {
        let (n, v) = ps[0];
        assert(line_ok(esc, ps[0].0, ps[0].1));
        let rest = ps.subrange(1, ps.len() as int);
        let en = encode(esc, n);
        let ev = encode(esc, v);
        let content = en + seq![COLON] + ev;
        let m = content.len() as int;
        let lr = lines_of(esc, rest);
        assert(header_line(esc, n, v) =~= content + seq![LF]);
        assert(l =~= content + seq![LF] + lr);
        assert forall|k: int| 0 <= k < m implies s[i + k] == content[k] by {
            assert(s.subrange(i, i + l.len() + 1)[k] == s[i + k]);
        }
        assert(s[i + m] == s.subrange(i, i + l.len() + 1)[m]);
        assert forall|k: int| 0 <= k < m implies content[k] != LF && content[k] != CR by {
            if k < en.len() {
                assert(content[k] == en[k]);
                lemma_encoded_clean(esc, n, k);
            } else if k > en.len() {
                assert(content[k] == ev[k - en.len() - 1]);
                lemma_encoded_clean(esc, v, k - en.len() - 1);
            }
        }
        assert forall|k: int| i <= k < i + m implies s[k] != LF by {
            assert(s[k] == content[k - i]);
        }
        lemma_first_index_is(s, LF, i, i + m);
        assert(s[i + m - 1] == content[m - 1]);
        assert(content_end(s, i, i + m) == i + m);
        assert(s.subrange(i, i + m) =~= content);
        if !esc {
            assert(forall|k: int| 0 <= k < n.len() ==> n[k] != COLON);
        }
        lemma_header_line_round_trip(esc, n, v);
        assert forall|j: int| 0 <= j < rest.len() implies line_ok(esc, (#[trigger] rest[j]).0, rest[j].1) by {
            assert(rest[j] == ps[j + 1]);
        }
        assert(s.subrange(i + m + 1, i + m + 1 + lr.len() + 1) =~= lr + seq![LF]) by {
            assert forall|k: int| 0 <= k < lr.len() + 1 implies s.subrange(i + m + 1, i + m + 1 + lr.len() + 1)[k]
                == (lr + seq![LF])[k] by {
                assert(s.subrange(i, i + l.len() + 1)[m + 1 + k] == s[i + m + 1 + k]);
                assert((l + seq![LF])[m + 1 + k] == (lr + seq![LF])[k]);
            }
        }
        lemma_header_section_round_trip(s, i + m + 1, esc, rest);
        assert(seq![(n, v)] + rest =~= ps);
    }
}

/// Each command token reads as its own command.
pub proof fn lemma_command_token_round_trip(c: Command)
    ensures
        command_lookup(command_token(c)) == Some(c),
{
    match c {
        Command::Abort => {

        },
        Command::Ack => {
            assert(command_token(Command::Ack).len() != command_token(Command::Abort).len());
        },
        Command::Begin => {
            assert(command_token(Command::Begin)[0] != command_token(Command::Abort)[0]);
            assert(command_token(Command::Begin).len() != command_token(Command::Ack).len());
        },
        Command::Commit => {
            assert(command_token(Command::Commit).len() != command_token(Command::Abort).len());
            assert(command_token(Command::Commit).len() != command_token(Command::Ack).len());
            assert(command_token(Command::Commit).len() != command_token(Command::Begin).len());
        },
        Command::Connect => {
            assert(command_token(Command::Connect).len() != command_token(Command::Abort).len());
            assert(command_token(Command::Connect).len() != command_token(Command::Ack).len());
            assert(command_token(Command::Connect).len() != command_token(Command::Begin).len());
            assert(command_token(Command::Connect).len() != command_token(Command::Commit).len());
        },
        Command::Disconnect => {
            assert(command_token(Command::Disconnect).len() != command_token(Command::Abort).len());
            assert(command_token(Command::Disconnect).len() != command_token(Command::Ack).len());
            assert(command_token(Command::Disconnect).len() != command_token(Command::Begin).len());
            assert(command_token(Command::Disconnect).len() != command_token(Command::Commit).len());
            assert(command_token(Command::Disconnect).len() != command_token(Command::Connect).len());
        },
        Command::Nack => {
            assert(command_token(Command::Nack).len() != command_token(Command::Abort).len());
            assert(command_token(Command::Nack).len() != command_token(Command::Ack).len());
            assert(command_token(Command::Nack).len() != command_token(Command::Begin).len());
            assert(command_token(Command::Nack).len() != command_token(Command::Commit).len());
            assert(command_token(Command::Nack).len() != command_token(Command::Connect).len());
            assert(command_token(Command::Nack).len() != command_token(Command::Disconnect).len());
        },
        Command::Send => {
            assert(command_token(Command::Send).len() != command_token(Command::Abort).len());
            assert(command_token(Command::Send).len() != command_token(Command::Ack).len());
            assert(command_token(Command::Send).len() != command_token(Command::Begin).len());
            assert(command_token(Command::Send).len() != command_token(Command::Commit).len());
            assert(command_token(Command::Send).len() != command_token(Command::Connect).len());
            assert(command_token(Command::Send).len() != command_token(Command::Disconnect).len());
            assert(command_token(Command::Send)[0] != command_token(Command::Nack)[0]);
        },
        Command::Subscribe => {
            assert(command_token(Command::Subscribe).len() != command_token(Command::Abort).len());
            assert(command_token(Command::Subscribe).len() != command_token(Command::Ack).len());
            assert(command_token(Command::Subscribe).len() != command_token(Command::Begin).len());
            assert(command_token(Command::Subscribe).len() != command_token(Command::Commit).len());
            assert(command_token(Command::Subscribe).len() != command_token(Command::Connect).len());
            assert(command_token(Command::Subscribe).len() != command_token(Command::Disconnect).len());
            assert(command_token(Command::Subscribe).len() != command_token(Command::Nack).len());
            assert(command_token(Command::Subscribe).len() != command_token(Command::Send).len());
        },
        Command::Unsubscribe => {
            assert(command_token(Command::Unsubscribe).len() != command_token(Command::Abort).len());
            assert(command_token(Command::Unsubscribe).len() != command_token(Command::Ack).len());
            assert(command_token(Command::Unsubscribe).len() != command_token(Command::Begin).len());
            assert(command_token(Command::Unsubscribe).len() != command_token(Command::Commit).len());
            assert(command_token(Command::Unsubscribe).len() != command_token(Command::Connect).len());
            assert(command_token(Command::Unsubscribe).len() != command_token(Command::Disconnect).len());
            assert(command_token(Command::Unsubscribe).len() != command_token(Command::Nack).len());
            assert(command_token(Command::Unsubscribe).len() != command_token(Command::Send).len());
            assert(command_token(Command::Unsubscribe).len() != command_token(Command::Subscribe).len());
        },
        Command::Connected => {
            assert(command_token(Command::Connected).len() != command_token(Command::Abort).len());
            assert(command_token(Command::Connected).len() != command_token(Command::Ack).len());
            assert(command_token(Command::Connected).len() != command_token(Command::Begin).len());
            assert(command_token(Command::Connected).len() != command_token(Command::Commit).len());
            assert(command_token(Command::Connected).len() != command_token(Command::Connect).len());
            assert(command_token(Command::Connected).len() != command_token(Command::Disconnect).len());
            assert(command_token(Command::Connected).len() != command_token(Command::Nack).len());
            assert(command_token(Command::Connected).len() != command_token(Command::Send).len());
            assert(command_token(Command::Connected)[0] != command_token(Command::Subscribe)[0]);
            assert(command_token(Command::Connected).len() != command_token(Command::Unsubscribe).len());
        },
        Command::Receipt => {
            assert(command_token(Command::Receipt).len() != command_token(Command::Abort).len());
            assert(command_token(Command::Receipt).len() != command_token(Command::Ack).len());
            assert(command_token(Command::Receipt).len() != command_token(Command::Begin).len());
            assert(command_token(Command::Receipt).len() != command_token(Command::Commit).len());
            assert(command_token(Command::Receipt)[0] != command_token(Command::Connect)[0]);
            assert(command_token(Command::Receipt).len() != command_token(Command::Disconnect).len());
            assert(command_token(Command::Receipt).len() != command_token(Command::Nack).len());
            assert(command_token(Command::Receipt).len() != command_token(Command::Send).len());
            assert(command_token(Command::Receipt).len() != command_token(Command::Subscribe).len());
            assert(command_token(Command::Receipt).len() != command_token(Command::Unsubscribe).len());
            assert(command_token(Command::Receipt).len() != command_token(Command::Connected).len());
        },
        Command::Error => {
            assert(command_token(Command::Error)[0] != command_token(Command::Abort)[0]);
            assert(command_token(Command::Error).len() != command_token(Command::Ack).len());
            assert(command_token(Command::Error)[0] != command_token(Command::Begin)[0]);
            assert(command_token(Command::Error).len() != command_token(Command::Commit).len());
            assert(command_token(Command::Error).len() != command_token(Command::Connect).len());
            assert(command_token(Command::Error).len() != command_token(Command::Disconnect).len());
            assert(command_token(Command::Error).len() != command_token(Command::Nack).len());
            assert(command_token(Command::Error).len() != command_token(Command::Send).len());
            assert(command_token(Command::Error).len() != command_token(Command::Subscribe).len());
            assert(command_token(Command::Error).len() != command_token(Command::Unsubscribe).len());
            assert(command_token(Command::Error).len() != command_token(Command::Connected).len());
            assert(command_token(Command::Error).len() != command_token(Command::Receipt).len());
        },
        Command::Message => {
            assert(command_token(Command::Message).len() != command_token(Command::Abort).len());
            assert(command_token(Command::Message).len() != command_token(Command::Ack).len());
            assert(command_token(Command::Message).len() != command_token(Command::Begin).len());
            assert(command_token(Command::Message).len() != command_token(Command::Commit).len());
            assert(command_token(Command::Message)[0] != command_token(Command::Connect)[0]);
            assert(command_token(Command::Message).len() != command_token(Command::Disconnect).len());
            assert(command_token(Command::Message).len() != command_token(Command::Nack).len());
            assert(command_token(Command::Message).len() != command_token(Command::Send).len());
            assert(command_token(Command::Message).len() != command_token(Command::Subscribe).len());
            assert(command_token(Command::Message).len() != command_token(Command::Unsubscribe).len());
            assert(command_token(Command::Message).len() != command_token(Command::Connected).len());
            assert(command_token(Command::Message)[0] != command_token(Command::Receipt)[0]);
            assert(command_token(Command::Message).len() != command_token(Command::Error).len());
        },
    }
}

/// The header lines of a frame's present schema headers, in declared order.
pub open spec fn field_pairs(c: Command, fs: Seq<Option<ValueView>>) -> Seq<(Seq<u8>, Seq<u8>)>
    decreases fs.len(),
{
    if fs.len() == 0 {
        seq![]
    } else {
        field_pairs(c, fs.drop_last()) + match fs.last() {
            Some(v) => seq![(header_token(schema(c)[fs.len() - 1].0), value_text(v))],
            None => seq![],
        }
    }
}

proof fn lemma_lines_append(esc: bool, a: Seq<(Seq<u8>, Seq<u8>)>, b: Seq<(Seq<u8>, Seq<u8>)>)
    ensures
        lines_of(esc, a + b) == lines_of(esc, a) + lines_of(esc, b),
    decreases a.len(),
{
    if a.len() == 0 {
        assert(a + b =~= b);
    } else {
        let r = a.subrange(1, a.len() as int);
        lemma_lines_append(esc, r, b);
        assert((a + b).subrange(1, (a + b).len() as int) =~= r + b);
        assert(lines_of(esc, a + b) =~= lines_of(esc, a) + lines_of(esc, b));
    }
}

proof fn lemma_lines_single(esc: bool, p: (Seq<u8>, Seq<u8>))
    ensures
        lines_of(esc, seq![p]) == header_line(esc, p.0, p.1),
{
    assert(seq![p].subrange(1, 1) =~= Seq::<(Seq<u8>, Seq<u8>)>::empty());
    assert(lines_of(esc, Seq::<(Seq<u8>, Seq<u8>)>::empty()) == Seq::<u8>::empty());
    assert(lines_of(esc, seq![p]) =~= header_line(esc, p.0, p.1));
}

proof fn lemma_fields_text_lines(c: Command, fs: Seq<Option<ValueView>>)
    ensures
        fields_text(c, fs) == lines_of(escapes(c), field_pairs(c, fs)),
    decreases fs.len(),
{
    if fs.len() > 0 {
        let d = fs.drop_last();
        lemma_fields_text_lines(c, d);
        match fs.last() {
            Some(v) => {
                let p = (header_token(schema(c)[fs.len() - 1].0), value_text(v));
                lemma_lines_append(escapes(c), field_pairs(c, d), seq![p]);
                lemma_lines_single(escapes(c), p);
            },
            None => {
                assert(field_pairs(c, d) + Seq::<(Seq<u8>, Seq<u8>)>::empty() =~= field_pairs(c, d));
                assert(fields_text(c, d) + Seq::<u8>::empty() =~= fields_text(c, d));
            },
        }
    }
}

proof fn lemma_custom_text_lines(esc: bool, cs: Seq<(Seq<u8>, Seq<u8>)>)
    ensures
        custom_text(esc, cs) == lines_of(esc, cs),
    decreases cs.len(),
{
    if cs.len() > 0 {
        let d = cs.drop_last();
        lemma_custom_text_lines(esc, d);
        lemma_lines_append(esc, d, seq![cs.last()]);
        lemma_lines_single(esc, cs.last());
        assert(d + seq![cs.last()] =~= cs);
    }
}

/// A rendered frame reads back its command and, in order, the header lines
/// of its present schema headers followed by its custom headers, provided
/// every one of them can be written on a line and read back.
#[verifier::rlimit(100)]
pub proof fn lemma_rendered_headers_read_back(f: FrameView)
    requires
        forall|j: int|
            0 <= j < (field_pairs(f.command, f.fields) + f.custom).len() ==> line_ok(
                escapes(f.command),
                (#[trigger] (field_pairs(f.command, f.fields) + f.custom)[j]).0,
                (field_pairs(f.command, f.fields) + f.custom)[j].1,
            ),
    ensures
        command_spec(render_spec(f)) == Ok::<(Command, int), ParseError>(
            (f.command, command_token(f.command).len() as int + 1),
        ),
        headers_spec(render_spec(f), command_token(f.command).len() as int + 1, escapes(f.command))
            is Ok,
        headers_spec(render_spec(f), command_token(f.command).len() as int + 1, escapes(f.command))->Ok_0.0
            == field_pairs(f.command, f.fields) + f.custom,
{
    let c = f.command;
    let esc = escapes(c);
    let s = render_spec(f);
    let tok = command_token(c);
    let ps = field_pairs(c, f.fields) + f.custom;
    lemma_fields_text_lines(c, f.fields);
    lemma_custom_text_lines(esc, f.custom);
    lemma_lines_append(esc, field_pairs(c, f.fields), f.custom);
    let l = lines_of(esc, ps);
    let body = match f.body {
        Some(b) => b,
        None => seq![],
    };
    assert(s =~= tok + seq![LF] + l + seq![LF] + body + seq![NUL]);
    assert forall|k: int| 0 <= k < tok.len() implies s[k] != LF && s[k] != CR by {
        assert(s[k] == tok[k]);
    }
    assert(s[tok.len() as int] == LF);
    lemma_first_index_is(s, LF, 0, tok.len() as int);
    assert(s.subrange(0, tok.len() as int) =~= tok);
    lemma_command_token_round_trip(c);
    let i = tok.len() as int + 1;
    assert(s.subrange(i, i + l.len() + 1) =~= l + seq![LF]);
    lemma_header_section_round_trip(s, i, esc, ps);
}

/// No two schema entries of a command share a name.
pub proof fn lemma_schema_names_distinct(c: Command)
    ensures
        forall|a: int, b: int|
            0 <= a < b < schema(c).len() ==> header_token(#[trigger] schema(c)[a].0) != header_token(
                #[trigger] schema(c)[b].0,
            ),
{
    match c {
        Command::Abort => {

        },
        Command::Ack => {
            assert(header_token(HeaderName::Id).len() != header_token(HeaderName::Transaction).len());
            assert(header_token(HeaderName::Id).len() != header_token(HeaderName::Receipt).len());
            assert(header_token(HeaderName::Transaction).len() != header_token(HeaderName::Receipt).len());
        },
        Command::Begin => {
            assert(header_token(HeaderName::Transaction).len() != header_token(HeaderName::Receipt).len());
        },
        Command::Commit => {
            assert(header_token(HeaderName::Transaction).len() != header_token(HeaderName::Receipt).len());
        },
        Command::Connect => {
            assert(header_token(HeaderName::Host).len() != header_token(HeaderName::AcceptVersion).len());
            assert(header_token(HeaderName::Host).len() != header_token(HeaderName::HeartBeat).len());
            assert(header_token(HeaderName::Host).len() != header_token(HeaderName::Login).len());
            assert(header_token(HeaderName::Host).len() != header_token(HeaderName::Passcode).len());
            assert(header_token(HeaderName::AcceptVersion).len() != header_token(HeaderName::HeartBeat).len());
            assert(header_token(HeaderName::AcceptVersion).len() != header_token(HeaderName::Login).len());
            assert(header_token(HeaderName::AcceptVersion).len() != header_token(HeaderName::Passcode).len());
            assert(header_token(HeaderName::HeartBeat).len() != header_token(HeaderName::Login).len());
            assert(header_token(HeaderName::HeartBeat).len() != header_token(HeaderName::Passcode).len());
            assert(header_token(HeaderName::Login).len() != header_token(HeaderName::Passcode).len());
        },
        Command::Disconnect => {

        },
        Command::Nack => {
            assert(header_token(HeaderName::Id).len() != header_token(HeaderName::Transaction).len());
            assert(header_token(HeaderName::Id).len() != header_token(HeaderName::Receipt).len());
            assert(header_token(HeaderName::Transaction).len() != header_token(HeaderName::Receipt).len());
        },
        Command::Send => {
            assert(header_token(HeaderName::Destination).len() != header_token(HeaderName::ContentType).len());
            assert(header_token(HeaderName::Destination).len() != header_token(HeaderName::ContentLength).len());
            assert(header_token(HeaderName::Destination)[0] != header_token(HeaderName::Transaction)[0]);
            assert(header_token(HeaderName::Destination).len() != header_token(HeaderName::Receipt).len());
            assert(header_token(HeaderName::ContentType).len() != header_token(HeaderName::ContentLength).len());
            assert(header_token(HeaderName::ContentType).len() != header_token(HeaderName::Transaction).len());
            assert(header_token(HeaderName::ContentType).len() != header_token(HeaderName::Receipt).len());
            assert(header_token(HeaderName::ContentLength).len() != header_token(HeaderName::Transaction).len());
            assert(header_token(HeaderName::ContentLength).len() != header_token(HeaderName::Receipt).len());
            assert(header_token(HeaderName::Transaction).len() != header_token(HeaderName::Receipt).len());
        },
        Command::Subscribe => {
            assert(header_token(HeaderName::Destination).len() != header_token(HeaderName::Id).len());
            assert(header_token(HeaderName::Destination).len() != header_token(HeaderName::Ack).len());
            assert(header_token(HeaderName::Destination).len() != header_token(HeaderName::Receipt).len());
            assert(header_token(HeaderName::Id).len() != header_token(HeaderName::Ack).len());
            assert(header_token(HeaderName::Id).len() != header_token(HeaderName::Receipt).len());
            assert(header_token(HeaderName::Ack).len() != header_token(HeaderName::Receipt).len());
        },
        Command::Unsubscribe => {
            assert(header_token(HeaderName::Id).len() != header_token(HeaderName::Receipt).len());
        },
        Command::Connected => {
            assert(header_token(HeaderName::Version).len() != header_token(HeaderName::HeartBeat).len());
            assert(header_token(HeaderName::Version)[0] != header_token(HeaderName::Session)[0]);
            assert(header_token(HeaderName::Version).len() != header_token(HeaderName::Server).len());
            assert(header_token(HeaderName::HeartBeat).len() != header_token(HeaderName::Session).len());
            assert(header_token(HeaderName::HeartBeat).len() != header_token(HeaderName::Server).len());
            assert(header_token(HeaderName::Session).len() != header_token(HeaderName::Server).len());
        },
        Command::Receipt => {

        },
        Command::Error => {

        },
        Command::Message => {
            assert(header_token(HeaderName::MessageId).len() != header_token(HeaderName::Destination).len());
            assert(header_token(HeaderName::MessageId).len() != header_token(HeaderName::Subscription).len());
            assert(header_token(HeaderName::MessageId).len() != header_token(HeaderName::ContentType).len());
            assert(header_token(HeaderName::MessageId).len() != header_token(HeaderName::ContentLength).len());
            assert(header_token(HeaderName::Destination).len() != header_token(HeaderName::Subscription).len());
            assert(header_token(HeaderName::Destination).len() != header_token(HeaderName::ContentType).len());
            assert(header_token(HeaderName::Destination).len() != header_token(HeaderName::ContentLength).len());
            assert(header_token(HeaderName::Subscription)[0] != header_token(HeaderName::ContentType)[0]);
            assert(header_token(HeaderName::Subscription).len() != header_token(HeaderName::ContentLength).len());
            assert(header_token(HeaderName::ContentType).len() != header_token(HeaderName::ContentLength).len());
        },
    }
}

proof fn lemma_first_named_append(a: Seq<(Seq<u8>, Seq<u8>)>, b: Seq<(Seq<u8>, Seq<u8>)>, x: Seq<u8>, k: int)
    requires
        0 <= k <= a.len(),
    ensures
        first_named(a + b, x, k) == if first_named(a, x, k) < a.len() {
            first_named(a, x, k)
        } else {
            a.len() + first_named(b, x, 0)
        },
    decreases a.len() - k,
{
    if k < a.len() {
        assert((a + b)[k] == a[k]);
        lemma_first_named_append(a, b, x, k + 1);
    } else {
        lemma_first_named_shift(a, b, x, 0);
    }
}

proof fn lemma_first_named_shift(a: Seq<(Seq<u8>, Seq<u8>)>, b: Seq<(Seq<u8>, Seq<u8>)>, x: Seq<u8>, k: int)
    requires
        0 <= k <= b.len(),
    ensures
        first_named(a + b, x, a.len() + k) == a.len() + first_named(b, x, k),
    decreases b.len() - k,
{
    if k < b.len() {
        assert((a + b)[a.len() + k] == b[k]);
        lemma_first_named_shift(a, b, x, k + 1);
    }
}

proof fn lemma_first_named_absent(b: Seq<(Seq<u8>, Seq<u8>)>, x: Seq<u8>, k: int)
    requires
        0 <= k <= b.len(),
        forall|j: int| 0 <= j < b.len() ==> (#[trigger] b[j]).0 != x,
    ensures
        first_named(b, x, k) == b.len(),
    decreases b.len() - k,
{
    if k < b.len() {
        lemma_first_named_absent(b, x, k + 1);
    }
}

/// Where the line of schema slot `i` stands among the lines of the present
/// slots below `n`.
proof fn lemma_field_pairs_lookup(c: Command, fs: Seq<Option<ValueView>>, n: int, i: int)
    requires
        fs.len() == schema(c).len(),
        0 <= n <= fs.len(),
        0 <= i < fs.len(),
    ensures
        ({
            let p = field_pairs(c, fs.subrange(0, n));
            let k = first_named(p, header_token(schema(c)[i].0), 0);
            if i < n && fs[i] is Some {
                0 <= k < p.len() && p[k].1 == value_text(fs[i]->Some_0)
            } else {
                k == p.len()
            }
        }),
    decreases n,
{
    let x = header_token(schema(c)[i].0);
    let p = field_pairs(c, fs.subrange(0, n));
    if n == 0 {
        assert(fs.subrange(0, 0) =~= Seq::<Option<ValueView>>::empty());
        assert(p =~= Seq::<(Seq<u8>, Seq<u8>)>::empty());
    } else {
        lemma_field_pairs_lookup(c, fs, n - 1, i);
        lemma_schema_names_distinct(c);
        let q = field_pairs(c, fs.subrange(0, n - 1));
        assert(fs.subrange(0, n).drop_last() =~= fs.subrange(0, n - 1));
        assert(fs.subrange(0, n).last() == fs[n - 1]);
        match fs[n - 1] {
            Some(v) => {
                let tail = seq![(header_token(schema(c)[n - 1].0), value_text(v))];
                assert(p == q + tail);
                lemma_first_named_append(q, tail, x, 0);
                if i != n - 1 {
                    lemma_first_named_absent(tail, x, 0);
                } else {
                    assert(first_named(tail, x, 0) == 0);
                }
            },
            None => {
                assert(p =~= q + Seq::<(Seq<u8>, Seq<u8>)>::empty());
                assert(p =~= q);
            },
        }
    }
}

/// What a frame needs for its rendering to read back as itself: its slots
/// fit the schema and their headers' shapes, a version list is not empty,
/// every header can be written on a line, custom headers bear no schema
/// name, a body is present exactly where the schema allows one, and a
/// declared length is the body's length.
pub open spec fn reads_back(f: FrameView) -> bool {
    let c = f.command;
    let fs = f.fields;
    &&& fs.len() == schema(c).len()
    &&& forall|i: int| 0 <= i < fs.len() && (#[trigger] schema(c)[i]).1 ==> fs[i] is Some
    &&& forall|i: int|
        0 <= i < fs.len() && (#[trigger] fs[i]) is Some ==> fits(schema(c)[i].0, fs[i]->Some_0) && (
        fs[i]->Some_0 matches ValueView::Versions(vs) ==> vs.len() >= 1)
    &&& forall|j: int|
        0 <= j < (field_pairs(c, fs) + f.custom).len() ==> line_ok(
            escapes(c),
            (#[trigger] (field_pairs(c, fs) + f.custom)[j]).0,
            (field_pairs(c, fs) + f.custom)[j].1,
        )
    &&& forall|j: int| 0 <= j < f.custom.len() ==> !is_known(c, (#[trigger] f.custom[j]).0)
    &&& (f.custom.len() > 0 ==> allows_custom(c))
    &&& (allows_body(c) <==> f.body is Some)
    &&& (content_length_of(c, fs) matches Some(n) ==> f.body->Some_0.len() == n)
}

proof fn lemma_field_read_back(f: FrameView, i: int)
    requires
        reads_back(f),
        0 <= i < f.fields.len(),
    ensures
        field_spec(f.command, field_pairs(f.command, f.fields) + f.custom, i)
            == Ok::<Option<ValueView>, ParseError>(f.fields[i]),
{
    let c = f.command;
    let fs = f.fields;
    let p = field_pairs(c, fs);
    let ps = p + f.custom;
    let x = header_token(schema(c)[i].0);
    lemma_field_pairs_lookup(c, fs, fs.len() as int, i);
    assert(fs.subrange(0, fs.len() as int) =~= fs);
    lemma_first_named_append(p, f.custom, x, 0);
    assert(is_known(c, x));
    assert forall|j: int| 0 <= j < f.custom.len() implies (#[trigger] f.custom[j]).0 != x by {
        assert(!is_known(c, f.custom[j].0));
    }
    lemma_first_named_absent(f.custom, x, 0);
    let k = first_named(ps, x, 0);
    match fs[i] {
        Some(v) => {
            assert(ps[k] == p[k]);
            lemma_value_round_trip(schema(c)[i].0, v);
        },
        None => {},
    }
}

proof fn lemma_fields_read_back(f: FrameView, k: int)
    requires
        reads_back(f),
        0 <= k <= f.fields.len(),
    ensures
        fields_from(f.command, field_pairs(f.command, f.fields) + f.custom, k)
            == Ok::<Seq<Option<ValueView>>, ParseError>(f.fields.subrange(k, f.fields.len() as int)),
    decreases f.fields.len() - k,
{
    if k < f.fields.len() {
        lemma_field_read_back(f, k);
        lemma_fields_read_back(f, k + 1);
        assert(seq![f.fields[k]] + f.fields.subrange(k + 1, f.fields.len() as int)
            =~= f.fields.subrange(k, f.fields.len() as int));
    } else {
        assert(f.fields.subrange(k, k) =~= Seq::<Option<ValueView>>::empty());
    }
}

proof fn lemma_custom_of_append(c: Command, a: Seq<(Seq<u8>, Seq<u8>)>, b: Seq<(Seq<u8>, Seq<u8>)>)
    ensures
        custom_of(c, a + b) == custom_of(c, a) + custom_of(c, b),
    decreases b.len(),
{
    if b.len() == 0 {
        assert(a + b =~= a);
        assert(custom_of(c, a) + custom_of(c, b) =~= custom_of(c, a));
    } else {
        lemma_custom_of_append(c, a, b.drop_last());
        assert((a + b).drop_last() =~= a + b.drop_last());
        assert((a + b).last() == b.last());
        if is_known(c, b.last().0) {
        } else {
            assert(custom_of(c, a) + custom_of(c, b.drop_last()).push(b.last())
                =~= (custom_of(c, a) + custom_of(c, b.drop_last())).push(b.last()));
        }
    }
}

proof fn lemma_custom_of_fields(c: Command, fs: Seq<Option<ValueView>>)
    requires
        fs.len() <= schema(c).len(),
    ensures
        custom_of(c, field_pairs(c, fs)) == Seq::<(Seq<u8>, Seq<u8>)>::empty(),
    decreases fs.len(),
{
    if fs.len() > 0 {
        let d = fs.drop_last();
        lemma_custom_of_fields(c, d);
        match fs.last() {
            Some(v) => {
                let pr = (header_token(schema(c)[fs.len() - 1].0), value_text(v));
                lemma_custom_of_append(c, field_pairs(c, d), seq![pr]);
                assert(seq![pr].drop_last() =~= Seq::<(Seq<u8>, Seq<u8>)>::empty());
                assert(is_known(c, pr.0));
                assert(seq![pr].last() == pr);
                assert(custom_of(c, Seq::<(Seq<u8>, Seq<u8>)>::empty()) == Seq::<(Seq<u8>, Seq<u8>)>::empty());
                assert(custom_of(c, seq![pr]) =~= Seq::<(Seq<u8>, Seq<u8>)>::empty());
            },
            None => {
                assert(field_pairs(c, fs) =~= field_pairs(c, d));
            },
        }
    }
}

proof fn lemma_custom_of_unknown(c: Command, cs: Seq<(Seq<u8>, Seq<u8>)>)
    requires
        forall|j: int| 0 <= j < cs.len() ==> !is_known(c, (#[trigger] cs[j]).0),
    ensures
        custom_of(c, cs) == cs,
    decreases cs.len(),
{
    if cs.len() > 0 {
        lemma_custom_of_unknown(c, cs.drop_last());
        assert(!is_known(c, cs[cs.len() - 1].0));
        assert(cs.drop_last().push(cs.last()) =~= cs);
    }
}

/// A frame that meets `reads_back` parses from its own rendering, in its
/// own direction, to itself.
#[verifier::rlimit(100)]
pub proof fn lemma_render_parse_round_trip(f: FrameView)
    requires
        reads_back(f),
    ensures
        parse_spec(render_spec(f), direction_of(f.command)) == Ok::<FrameView, ParseError>(f),
{
    let c = f.command;
    let esc = escapes(c);
    let s = render_spec(f);
    let ps = field_pairs(c, f.fields) + f.custom;
    lemma_rendered_headers_read_back(f);
    let i = command_token(c).len() as int + 1;
    lemma_fields_text_lines(c, f.fields);
    lemma_custom_text_lines(esc, f.custom);
    lemma_lines_append(esc, field_pairs(c, f.fields), f.custom);
    let l = lines_of(esc, ps);
    let body = match f.body {
        Some(x) => x,
        None => seq![],
    };
    assert(s =~= command_token(c) + seq![LF] + l + seq![LF] + body + seq![NUL]);
    assert(s.subrange(i, i + l.len() + 1) =~= l + seq![LF]);
    lemma_header_section_round_trip(s, i, esc, ps);
    let b = i + l.len() + 1;
    lemma_fields_read_back(f, 0);
    assert(f.fields.subrange(0, f.fields.len() as int) =~= f.fields);
    assert(s.subrange(b, b + body.len()) =~= body);
    assert(s[b + body.len()] == NUL);
    if allows_custom(c) {
        lemma_custom_of_append(c, field_pairs(c, f.fields), f.custom);
        lemma_custom_of_fields(c, f.fields);
        lemma_custom_of_unknown(c, f.custom);
        assert(Seq::<(Seq<u8>, Seq<u8>)>::empty() + f.custom =~= f.custom);
    } else {
        assert(f.custom =~= Seq::<(Seq<u8>, Seq<u8>)>::empty());
    }
}

/// `length_slot` is where `content-length` stands in a command's schema, and
/// a command without one has no such entry.
pub proof fn lemma_length_slot(c: Command)
    ensures
        0 <= length_slot(c) ==> length_slot(c) < schema(c).len() && schema(c)[length_slot(c)].0
            == HeaderName::ContentLength,
        length_slot(c) < 0 ==> forall|i: int|
            0 <= i < schema(c).len() ==> (#[trigger] schema(c)[i]).0 != HeaderName::ContentLength,
{
}

} // verus!
