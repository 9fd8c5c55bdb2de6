use vstd::prelude::*;

use vstd::utf8::{
    encode_utf8, encode_utf8_decode_utf8, encode_utf8_valid_utf8, is_continuation_byte,
    valid_utf8,
};

use crate::container::{PlacedBlock, SchematicBody};
use crate::cursor::{spec_read_string, spec_read_u16, spec_read_u8};
use crate::decoder::{
    lemma_names_err_persists, lemma_tags_err_persists, spec_parse_body, spec_read_names, spec_read_record, spec_read_records, spec_read_tag,
    spec_read_tags,
};
use crate::error::DecodeError;

verus! {

/// How a read from `pos` that succeeds on some bytes (`whole`) fares on their
/// first `t` bytes (`cut`): the same where the read ends within them, and
/// `UnexpectedEof` where it starts within them and ends past them.
pub open spec fn prefix_agrees<T>(
    whole: Result<(T, int), DecodeError>,
    cut: Result<(T, int), DecodeError>,
    pos: int,
    t: int,
) -> bool {
    whole matches Ok((_, q)) ==> {
        &&& pos <= q
        &&& q <= t ==> cut == whole
        &&& pos <= t < q ==> cut == Err::<(T, int), DecodeError>(DecodeError::UnexpectedEof)
    }
}

proof fn lemma_u8_prefix(b: Seq<u8>, t: int, pos: int)
    requires
        0 <= t <= b.len(),
    ensures
        prefix_agrees(spec_read_u8(b, pos), spec_read_u8(b.subrange(0, t), pos), pos, t),
{
}

proof fn lemma_u16_prefix(b: Seq<u8>, t: int, pos: int)
    requires
        0 <= t <= b.len(),
    ensures
        prefix_agrees(spec_read_u16(b, pos), spec_read_u16(b.subrange(0, t), pos), pos, t),
{
}

proof fn lemma_string_prefix(b: Seq<u8>, t: int, pos: int)
    requires
        0 <= t <= b.len(),
    ensures
        prefix_agrees(spec_read_string(b, pos), spec_read_string(b.subrange(0, t), pos), pos, t),
{
    let bt = b.subrange(0, t);
    lemma_u16_prefix(b, t, pos);
    if spec_read_string(b, pos) is Ok {
        let (n, p) = spec_read_u16(b, pos)->Ok_0;
        if p + n <= t {
            assert(bt.subrange(p, p + n) =~= b.subrange(p, p + n));
        }
    }
}

proof fn lemma_tag_prefix(b: Seq<u8>, t: int, pos: int)
    requires
        0 <= t <= b.len(),
    ensures
        prefix_agrees(spec_read_tag(b, pos), spec_read_tag(b.subrange(0, t), pos), pos, t),
{
    lemma_string_prefix(b, t, pos);
    if spec_read_string(b, pos) is Ok {
        lemma_string_prefix(b, t, spec_read_string(b, pos)->Ok_0.1);
    }
}

proof fn lemma_record_prefix(b: Seq<u8>, t: int, pos: int)
    requires
        0 <= t <= b.len(),
    ensures
        prefix_agrees(spec_read_record(b, pos), spec_read_record(b.subrange(0, t), pos), pos, t),
{
}

proof fn lemma_tags_prefix(b: Seq<u8>, t: int, pos: int, n: nat)
    requires
        0 <= t <= b.len(),
    ensures
        prefix_agrees(spec_read_tags(b, pos, n), spec_read_tags(b.subrange(0, t), pos, n), pos, t),
    decreases n,
{
    if n > 0 {
        lemma_tags_prefix(b, t, pos, (n - 1) as nat);
        if spec_read_tags(b, pos, (n - 1) as nat) is Ok {
            lemma_tag_prefix(b, t, spec_read_tags(b, pos, (n - 1) as nat)->Ok_0.1);
        }
    }
}

proof fn lemma_names_prefix(b: Seq<u8>, t: int, pos: int, n: nat)
    requires
        0 <= t <= b.len(),
    ensures
        prefix_agrees(spec_read_names(b, pos, n), spec_read_names(b.subrange(0, t), pos, n), pos, t),
    decreases n,
{
    if n > 0 {
        lemma_names_prefix(b, t, pos, (n - 1) as nat);
        if spec_read_names(b, pos, (n - 1) as nat) is Ok {
            lemma_string_prefix(b, t, spec_read_names(b, pos, (n - 1) as nat)->Ok_0.1);
        }
    }
}

proof fn lemma_records_prefix(b: Seq<u8>, t: int, pos: int, n: nat)
    requires
        0 <= t <= b.len(),
    ensures
        prefix_agrees(
            spec_read_records(b, pos, n),
            spec_read_records(b.subrange(0, t), pos, n),
            pos,
            t,
        ),
    decreases n,
{
    if n > 0 {
        lemma_records_prefix(b, t, pos, (n - 1) as nat);
        if spec_read_records(b, pos, (n - 1) as nat) is Ok {
            lemma_record_prefix(b, t, spec_read_records(b, pos, (n - 1) as nat)->Ok_0.1);
        }
    }
}

/// Cutting a payload that decodes anywhere before the end of its last
/// placed-block record makes it fail with `UnexpectedEof`: a cut payload never
/// decodes to a shorter container.
pub proof fn lemma_truncated_payload_is_eof(b: Seq<u8>, t: int)
    requires
        spec_parse_body(b) is Ok,
        0 <= t < spec_parse_body(b)->Ok_0.1,
    ensures
        spec_parse_body(b.subrange(0, t)) == Err::<(SchematicBody, int), DecodeError>(
            DecodeError::UnexpectedEof,
        ),
{
    let end = spec_parse_body(b)->Ok_0.1;
    let (_, p1) = spec_read_u16(b, 0)->Ok_0;
    let (_, p2) = spec_read_u16(b, p1)->Ok_0;
    let (tc, p3) = spec_read_u8(b, p2)->Ok_0;
    let (_, p4) = spec_read_tags(b, p3, tc as nat)->Ok_0;
    let (nc, p5) = spec_read_u8(b, p4)->Ok_0;
    let (_, p6) = spec_read_names(b, p5, nc as nat)->Ok_0;
    let (rc, p7) = spec_read_u8(b, p6)->Ok_0;
    assert(end <= b.len()) by {
        lemma_records_prefix(b, b.len() as int, p7, rc as nat);
        assert(b.subrange(0, b.len() as int) =~= b);
        lemma_records_len_bound(b, p7, rc as nat);
    }
    lemma_u16_prefix(b, t, 0);
    lemma_u16_prefix(b, t, p1);
    lemma_u8_prefix(b, t, p2);
    lemma_tags_prefix(b, t, p3, tc as nat);
    lemma_u8_prefix(b, t, p4);
    lemma_names_prefix(b, t, p5, nc as nat);
    lemma_u8_prefix(b, t, p6);
    lemma_records_prefix(b, t, p7, rc as nat);
}

proof fn lemma_records_len_bound(b: Seq<u8>, pos: int, n: nat)
    requires
        spec_read_records(b, pos, n) is Ok,
        0 <= pos <= b.len(),
    ensures
        spec_read_records(b, pos, n)->Ok_0.1 <= b.len(),
    decreases n,
{
    if n > 0 {
        lemma_records_len_bound(b, pos, (n - 1) as nat);
    }
}

/// The two big-endian bytes of a value below 65536.
pub open spec fn be_bytes(v: int) -> Seq<u8> {
    seq![(v / 256) as u8, (v % 256) as u8]
}

/// A string as the payload holds it: its UTF-8 length, then its UTF-8 bytes.
pub open spec fn encode_string(s: Seq<char>) -> Seq<u8> {
    be_bytes(encode_utf8(s).len() as int) + encode_utf8(s)
}

pub open spec fn encode_tags(ts: Seq<(Seq<char>, Seq<char>)>) -> Seq<u8>
    decreases ts.len(),
{
    if ts.len() == 0 {
        Seq::empty()
    } else {
        encode_tags(ts.drop_last()) + encode_string(ts.last().0) + encode_string(ts.last().1)
    }
}

pub open spec fn encode_names(ns: Seq<Seq<char>>) -> Seq<u8>
    decreases ns.len(),
{
    if ns.len() == 0 {
        Seq::empty()
    } else {
        encode_names(ns.drop_last()) + encode_string(ns.last())
    }
}

pub open spec fn encode_record(r: PlacedBlock) -> Seq<u8> {
    seq![r.name_index] + be_bytes(r.position as int) + be_bytes(r.config as int) + seq![
        r.rotation,
    ]
}

pub open spec fn encode_records(rs: Seq<PlacedBlock>) -> Seq<u8>
    decreases rs.len(),
{
    if rs.len() == 0 {
        Seq::empty()
    } else {
        encode_records(rs.drop_last()) + encode_record(rs.last())
    }
}

/// The payload that describes `body`.
pub open spec fn encode_body(body: SchematicBody) -> Seq<u8> {
    be_bytes(body.width) + be_bytes(body.height) + seq![body.tags.len() as u8] + encode_tags(
        body.tags,
    ) + seq![body.block_names.len() as u8] + encode_names(body.block_names) + seq![
        body.placed_blocks.len() as u8,
    ] + encode_records(body.placed_blocks)
}

pub open spec fn encodable_string(s: Seq<char>) -> bool {
    encode_utf8(s).len() < 65536
}

/// A body that the format can hold: sizes within their fields' widths.
pub open spec fn encodable(body: SchematicBody) -> bool {
    &&& 0 <= body.width < 65536
    &&& 0 <= body.height < 65536
    &&& body.tags.len() < 256
    &&& body.block_names.len() < 256
    &&& body.placed_blocks.len() < 256
    &&& forall|i: int|
        0 <= i < body.tags.len() ==> encodable_string(#[trigger] body.tags[i].0)
            && encodable_string(body.tags[i].1)
    &&& forall|i: int| 0 <= i < body.block_names.len() ==> encodable_string(#[trigger] body.block_names[i])
}

/// `x` stands in `b` at `pos`.
pub open spec fn stands_at(b: Seq<u8>, pos: int, x: Seq<u8>) -> bool {
    0 <= pos && pos + x.len() <= b.len() && b.subrange(pos, pos + x.len()) == x
}

proof fn lemma_stands_split(b: Seq<u8>, pos: int, x: Seq<u8>, y: Seq<u8>)
    requires
        stands_at(b, pos, x + y),
    ensures
        stands_at(b, pos, x),
        stands_at(b, pos + x.len(), y),
{
    assert(b.subrange(pos, pos + x.len()) =~= (x + y).subrange(0, x.len() as int));
    assert((x + y).subrange(0, x.len() as int) =~= x);
    assert(b.subrange(pos + x.len(), pos + x.len() + y.len()) =~= (x + y).subrange(
        x.len() as int,
        (x + y).len() as int,
    ));
    assert((x + y).subrange(x.len() as int, (x + y).len() as int) =~= y);
}

proof fn lemma_be_bytes(b: Seq<u8>, pos: int, v: int)
    requires
        0 <= v < 65536,
        stands_at(b, pos, be_bytes(v)),
    ensures
        spec_read_u16(b, pos) == Ok::<(u16, int), DecodeError>((v as u16, pos + 2)),
{
    assert(b[pos] == be_bytes(v)[0]);
    assert(b[pos + 1] == be_bytes(v)[1]);
}

proof fn lemma_read_encoded_string(b: Seq<u8>, pos: int, s: Seq<char>)
    requires
        encodable_string(s),
        stands_at(b, pos, encode_string(s)),
    ensures
        spec_read_string(b, pos) == Ok::<(Seq<char>, int), DecodeError>(
            (s, pos + encode_string(s).len()),
        ),
{
    let e = encode_utf8(s);
    lemma_stands_split(b, pos, be_bytes(e.len() as int), e);
    lemma_be_bytes(b, pos, e.len() as int);
    encode_utf8_valid_utf8(s);
    encode_utf8_decode_utf8(s);
}

proof fn lemma_read_encoded_tags(b: Seq<u8>, pos: int, ts: Seq<(Seq<char>, Seq<char>)>)
    requires
        forall|i: int|
            0 <= i < ts.len() ==> encodable_string(#[trigger] ts[i].0) && encodable_string(
                ts[i].1,
            ),
        stands_at(b, pos, encode_tags(ts)),
    ensures
        spec_read_tags(b, pos, ts.len()) == Ok::<(Seq<(Seq<char>, Seq<char>)>, int), DecodeError>(
            (ts, pos + encode_tags(ts).len()),
        ),
    decreases ts.len(),
{
    if ts.len() > 0 {
        let init = ts.drop_last();
        let (l, c) = ts.last();
        assert(ts[ts.len() - 1] == ts.last());
        lemma_stands_split(b, pos, encode_tags(init) + encode_string(l), encode_string(c));
        lemma_stands_split(b, pos, encode_tags(init), encode_string(l));
        assert forall|i: int| 0 <= i < init.len() implies encodable_string(#[trigger] init[i].0)
            && encodable_string(init[i].1) by {
            assert(init[i] == ts[i]);
        }
        lemma_read_encoded_tags(b, pos, init);
        let p = pos + encode_tags(init).len();
        lemma_read_encoded_string(b, p, l);
        lemma_read_encoded_string(b, p + encode_string(l).len(), c);
        assert(init.push((l, c)) =~= ts);
    } else {
        assert(ts =~= Seq::empty());
    }
}

proof fn lemma_read_encoded_names(b: Seq<u8>, pos: int, ns: Seq<Seq<char>>)
    requires
        forall|i: int| 0 <= i < ns.len() ==> encodable_string(#[trigger] ns[i]),
        stands_at(b, pos, encode_names(ns)),
    ensures
        spec_read_names(b, pos, ns.len()) == Ok::<(Seq<Seq<char>>, int), DecodeError>(
            (ns, pos + encode_names(ns).len()),
        ),
    decreases ns.len(),
{
    if ns.len() > 0 {
        let init = ns.drop_last();
        assert(ns[ns.len() - 1] == ns.last());
        lemma_stands_split(b, pos, encode_names(init), encode_string(ns.last()));
        assert forall|i: int| 0 <= i < init.len() implies encodable_string(#[trigger] init[i]) by {
            assert(init[i] == ns[i]);
        }
        lemma_read_encoded_names(b, pos, init);
        lemma_read_encoded_string(b, pos + encode_names(init).len(), ns.last());
        assert(init.push(ns.last()) =~= ns);
    } else {
        assert(ns =~= Seq::empty());
    }
}

proof fn lemma_read_encoded_records(b: Seq<u8>, pos: int, rs: Seq<PlacedBlock>)
    requires
        stands_at(b, pos, encode_records(rs)),
    ensures
        spec_read_records(b, pos, rs.len()) == Ok::<(Seq<PlacedBlock>, int), DecodeError>(
            (rs, pos + encode_records(rs).len()),
        ),
    decreases rs.len(),
{
    if rs.len() > 0 {
        let init = rs.drop_last();
        let r = rs.last();
        lemma_stands_split(b, pos, encode_records(init), encode_record(r));
        lemma_read_encoded_records(b, pos, init);
        let p = pos + encode_records(init).len();
        let e = encode_record(r);
        assert(b.subrange(p, p + 6) == e);
        assert(b[p] == e[0] && b[p + 1] == e[1] && b[p + 2] == e[2] && b[p + 3] == e[3] && b[p
            + 4] == e[4] && b[p + 5] == e[5]);
        assert(spec_read_record(b, p) == Ok::<(PlacedBlock, int), DecodeError>((r, p + 6)));
        assert(init.push(r) =~= rs);
    } else {
        assert(rs =~= Seq::empty());
    }
}

/// Decoding the payload that describes a body gives that body back, with
/// every string, integer and record in order, whatever bytes follow it.
pub proof fn lemma_round_trip(body: SchematicBody, rest: Seq<u8>)
    requires
        encodable(body),
    ensures
        spec_parse_body(encode_body(body) + rest) == Ok::<(SchematicBody, int), DecodeError>(
            (body, encode_body(body).len() as int),
        ),
{
    let b = encode_body(body) + rest;
    let w = be_bytes(body.width);
    let h = be_bytes(body.height);
    let tc = seq![body.tags.len() as u8];
    let tg = encode_tags(body.tags);
    let nc = seq![body.block_names.len() as u8];
    let nm = encode_names(body.block_names);
    let rc = seq![body.placed_blocks.len() as u8];
    let rr = encode_records(body.placed_blocks);
    assert(stands_at(b, 0, encode_body(body))) by {
        assert(b.subrange(0, encode_body(body).len() as int) =~= encode_body(body));
    }
    lemma_stands_split(b, 0, w + h + tc + tg + nc + nm + rc, rr);
    lemma_stands_split(b, 0, w + h + tc + tg + nc + nm, rc);
    lemma_stands_split(b, 0, w + h + tc + tg + nc, nm);
    lemma_stands_split(b, 0, w + h + tc + tg, nc);
    lemma_stands_split(b, 0, w + h + tc, tg);
    lemma_stands_split(b, 0, w + h, tc);
    lemma_stands_split(b, 0, w, h);
    lemma_be_bytes(b, 0, body.width);
    lemma_be_bytes(b, 2, body.height);
    assert(b[4] == tc[0]);
    lemma_read_encoded_tags(b, 5, body.tags);
    let p4: int = 5 + tg.len() as int;
    assert(b[p4] == nc[0]);
    lemma_read_encoded_names(b, p4 + 1, body.block_names);
    let p6: int = p4 + 1 + nm.len();
    assert(b[p6] == rc[0]);
    lemma_read_encoded_records(b, p6 + 1, body.placed_blocks);
    assert(body.tags.len() as u8 as nat == body.tags.len());
    assert(body.block_names.len() as u8 as nat == body.block_names.len());
    assert(body.placed_blocks.len() as u8 as nat == body.placed_blocks.len());
}

/// A string whose declared length is zero reads as the empty string, and the
/// read ends right after the two length bytes.
pub proof fn lemma_empty_string(b: Seq<u8>, pos: int)
    requires
        0 <= pos,
        pos + 2 <= b.len(),
        b[pos] == 0,
        b[pos + 1] == 0,
    ensures
        spec_read_string(b, pos) == Ok::<(Seq<char>, int), DecodeError>((Seq::empty(), pos + 2)),
{
    assert(b.subrange(pos + 2, pos + 2) =~= Seq::<u8>::empty());
}

/// A string whose declared bytes are all present but are not UTF-8 fails
/// with `InvalidEncoding`; one whose first byte is a continuation byte is such
/// a string.
pub proof fn lemma_invalid_string(b: Seq<u8>, pos: int)
    requires
        spec_read_u16(b, pos) is Ok,
        ({
            let (n, p) = spec_read_u16(b, pos)->Ok_0;
            &&& p + n <= b.len()
            &&& !valid_utf8(b.subrange(p, p + n)) || (n >= 1 && is_continuation_byte(b[p]))
        }),
    ensures
        spec_read_string(b, pos) == Err::<(Seq<char>, int), DecodeError>(
            DecodeError::InvalidEncoding,
        ),
{
    let (n, p) = spec_read_u16(b, pos)->Ok_0;
    let raw = b.subrange(p, p + n);
    if n >= 1 && is_continuation_byte(b[p]) {
        assert(raw[0] == b[p]);
        assert(!valid_utf8(raw));
    }
}

/// A tag string whose bytes are all present but are not UTF-8 makes the
/// whole payload fail with `InvalidEncoding`, whatever follows it, once every
/// field before it reads fine.
pub proof fn lemma_invalid_tag_fails_payload(b: Seq<u8>, k: nat)
    requires
        b.len() >= 5,
        k < b[4],
        spec_read_tags(b, 5, k) is Ok,
        spec_read_tag(b, spec_read_tags(b, 5, k)->Ok_0.1) == Err::<
            ((Seq<char>, Seq<char>), int),
            DecodeError,
        >(DecodeError::InvalidEncoding),
    ensures
        spec_parse_body(b) == Err::<(SchematicBody, int), DecodeError>(
            DecodeError::InvalidEncoding,
        ),
{
    assert(spec_read_tags(b, 5, k + 1) == Err::<(Seq<(Seq<char>, Seq<char>)>, int), DecodeError>(
        DecodeError::InvalidEncoding,
    ));
    lemma_tags_err_persists(b, 5, k + 1, b[4] as nat);
}

/// A block name whose bytes are all present but are not UTF-8 makes the
/// whole payload fail with `InvalidEncoding`, whatever follows it, once every
/// field before it reads fine.
pub proof fn lemma_invalid_name_fails_payload(b: Seq<u8>, pos: int, k: nat)
    requires
        b.len() >= 5,
        spec_read_tags(b, 5, b[4] as nat) == Ok::<(Seq<(Seq<char>, Seq<char>)>, int), DecodeError>(
            (spec_read_tags(b, 5, b[4] as nat)->Ok_0.0, pos),
        ),
        0 <= pos < b.len(),
        k < b[pos],
        spec_read_names(b, pos + 1, k) is Ok,
        spec_read_string(b, spec_read_names(b, pos + 1, k)->Ok_0.1) == Err::<(Seq<char>, int), DecodeError>(
            DecodeError::InvalidEncoding,
        ),
    ensures
        spec_parse_body(b) == Err::<(SchematicBody, int), DecodeError>(
            DecodeError::InvalidEncoding,
        ),
{
    assert(spec_read_names(b, pos + 1, k + 1) == Err::<(Seq<Seq<char>>, int), DecodeError>(
        DecodeError::InvalidEncoding,
    ));
    lemma_names_err_persists(b, pos + 1, k + 1, b[pos] as nat);
}

} // verus!
