use vstd::prelude::*;

use crate::container::{string_view, tag_view, Container, PlacedBlock, SchematicBody};
use crate::cursor::{
    be_u16, read_string, read_u16, read_u8, spec_read_string, spec_read_u16, spec_read_u8,
    ByteCursor,
};
use crate::error::DecodeError;
use crate::inflater::{
    lemma_prepend_empty, lemma_prepend_twice, prepend, spec_drain, spec_feed, StreamInflater,
};
use vstd::slice::{slice_subrange, slice_to_vec};

verus! {

/// Reading one tag at `pos`: a label string, then a content string.
pub open spec fn spec_read_tag(b: Seq<u8>, pos: int) -> Result<
    ((Seq<char>, Seq<char>), int),
    DecodeError,
> {
    match spec_read_string(b, pos) {
        Err(e) => Err(e),
        Ok((label, p)) => match spec_read_string(b, p) {
            Err(e) => Err(e),
            Ok((content, q)) => Ok(((label, content), q)),
        },
    }
}

/// Reading one six-byte placed-block record at `pos`.
pub open spec fn spec_read_record(b: Seq<u8>, pos: int) -> Result<(PlacedBlock, int), DecodeError> {
    if 0 <= pos && pos + 6 <= b.len() {
        Ok(
            (
                PlacedBlock {
                    name_index: b[pos],
                    position: be_u16(b[pos + 1], b[pos + 2]),
                    config: be_u16(b[pos + 3], b[pos + 4]),
                    rotation: b[pos + 5],
                },
                pos + 6,
            ),
        )
    } else {
        Err(DecodeError::UnexpectedEof)
    }
}

/// Reading `n` tags in a row from `pos`.
pub open spec fn spec_read_tags(b: Seq<u8>, pos: int, n: nat) -> Result<
    (Seq<(Seq<char>, Seq<char>)>, int),
    DecodeError,
>
    decreases n,
{
    if n == 0 {
        Ok((Seq::empty(), pos))
    } else {
        match spec_read_tags(b, pos, (n - 1) as nat) {
            Err(e) => Err(e),
            Ok((ts, p)) => match spec_read_tag(b, p) {
                Err(e) => Err(e),
                Ok((t, q)) => Ok((ts.push(t), q)),
            },
        }
    }
}

/// Reading `n` strings in a row from `pos`.
pub open spec fn spec_read_names(b: Seq<u8>, pos: int, n: nat) -> Result<
    (Seq<Seq<char>>, int),
    DecodeError,
>
    decreases n,
{
    if n == 0 {
        Ok((Seq::empty(), pos))
    } else {
        match spec_read_names(b, pos, (n - 1) as nat) {
            Err(e) => Err(e),
            Ok((ns, p)) => match spec_read_string(b, p) {
                Err(e) => Err(e),
                Ok((s, q)) => Ok((ns.push(s), q)),
            },
        }
    }
}

/// Reading `n` placed-block records in a row from `pos`.
pub open spec fn spec_read_records(b: Seq<u8>, pos: int, n: nat) -> Result<
    (Seq<PlacedBlock>, int),
    DecodeError,
>
    decreases n,
{
    if n == 0 {
        Ok((Seq::empty(), pos))
    } else {
        match spec_read_records(b, pos, (n - 1) as nat) {
            Err(e) => Err(e),
            Ok((rs, p)) => match spec_read_record(b, p) {
                Err(e) => Err(e),
                Ok((r, q)) => Ok((rs.push(r), q)),
            },
        }
    }
}

/// The whole inflated payload, read from its start: the body it describes
/// and the offset where the last record ends. Bytes after that are ignored.
pub open spec fn spec_parse_body(b: Seq<u8>) -> Result<(SchematicBody, int), DecodeError> {
    match spec_read_u16(b, 0) {
        Err(e) => Err(e),
        Ok((w, p1)) => match spec_read_u16(b, p1) {
            Err(e) => Err(e),
            Ok((h, p2)) => match spec_read_u8(b, p2) {
                Err(e) => Err(e),
                Ok((tc, p3)) => match spec_read_tags(b, p3, tc as nat) {
                    Err(e) => Err(e),
                    Ok((tags, p4)) => match spec_read_u8(b, p4) {
                        Err(e) => Err(e),
                        Ok((nc, p5)) => match spec_read_names(b, p5, nc as nat) {
                            Err(e) => Err(e),
                            Ok((names, p6)) => match spec_read_u8(b, p6) {
                                Err(e) => Err(e),
                                Ok((rc, p7)) => match spec_read_records(b, p7, rc as nat) {
                                    Err(e) => Err(e),
                                    Ok((records, p8)) => Ok(
                                        (
                                            SchematicBody {
                                                width: w as int,
                                                height: h as int,
                                                tags,
                                                block_names: names,
                                                placed_blocks: records,
                                            },
                                            p8,
                                        ),
                                    ),
                                },
                            },
                        },
                    },
                },
            },
        },
    }
}

pub(crate) proof fn lemma_tags_err_persists(b: Seq<u8>, pos: int, k: nat, n: nat)
    requires
        k <= n,
        spec_read_tags(b, pos, k) is Err,
    ensures
        spec_read_tags(b, pos, n) == spec_read_tags(b, pos, k),
    decreases n,
{
    if k < n {
        lemma_tags_err_persists(b, pos, k, (n - 1) as nat);
    }
}

pub(crate) proof fn lemma_names_err_persists(b: Seq<u8>, pos: int, k: nat, n: nat)
    requires
        k <= n,
        spec_read_names(b, pos, k) is Err,
    ensures
        spec_read_names(b, pos, n) == spec_read_names(b, pos, k),
    decreases n,
{
    if k < n {
        lemma_names_err_persists(b, pos, k, (n - 1) as nat);
    }
}

proof fn lemma_records_err_persists(b: Seq<u8>, pos: int, k: nat, n: nat)
    requires
        k <= n,
        spec_read_records(b, pos, k) is Err,
    ensures
        spec_read_records(b, pos, n) == spec_read_records(b, pos, k),
    decreases n,
{
    if k < n {
        lemma_records_err_persists(b, pos, k, (n - 1) as nat);
    }
}

/// Reads `n` tags. On error the cursor may have moved.
pub fn read_tags(cursor: &mut ByteCursor, n: u8) -> (r: Result<Vec<(String, String)>, DecodeError>)
    requires
        old(cursor).wf(),
    ensures
        final(cursor).wf(),
        final(cursor).bytes() == old(cursor).bytes(),
        match spec_read_tags(old(cursor).bytes(), old(cursor).position(), n as nat) {
            Ok((ts, p)) => r matches Ok(v) && v@.map_values(|t: (String, String)| tag_view(t))
                == ts && v@.len() == n && final(cursor).position() == p,
            Err(e) => r == Err::<Vec<(String, String)>, DecodeError>(e),
        },
{
    let ghost b = cursor.bytes();
    let ghost start = cursor.position();
    let mut tags: Vec<(String, String)> = Vec::new();
    let mut i: u8 = 0;
    proof {
        assert(tags@.map_values(|t: (String, String)| tag_view(t)) =~= Seq::empty());
    }
    while i < n
        invariant
            i <= n,
            b == old(cursor).bytes(),
            start == old(cursor).position(),
            cursor.wf(),
            cursor.bytes() == b,
            tags@.len() == i,
            spec_read_tags(b, start, i as nat) == Ok::<_, DecodeError>(
                (tags@.map_values(|t: (String, String)| tag_view(t)), cursor.position()),
            ),
        decreases n - i,
    {
        let label = match read_string(cursor) {
            Ok(s) => s,
            Err(e) => {
                proof {
                    lemma_tags_err_persists(b, start, (i + 1) as nat, n as nat);
                }
                return Err(e);
            },
        };
        let content = match read_string(cursor) {
            Ok(s) => s,
            Err(e) => {
                proof {
                    lemma_tags_err_persists(b, start, (i + 1) as nat, n as nat);
                }
                return Err(e);
            },
        };
        let ghost before = tags@;
        tags.push((label, content));
        proof {
            assert(tags@.map_values(|t: (String, String)| tag_view(t)) =~= before.map_values(
                |t: (String, String)| tag_view(t),
            ).push(tag_view(tags@[i as int])));
        }
        i = i + 1;
    }
    Ok(tags)
}

/// Reads `n` strings. On error the cursor may have moved.
pub fn read_names(cursor: &mut ByteCursor, n: u8) -> (r: Result<Vec<String>, DecodeError>)
    requires
        old(cursor).wf(),
    ensures
        final(cursor).wf(),
        final(cursor).bytes() == old(cursor).bytes(),
        match spec_read_names(old(cursor).bytes(), old(cursor).position(), n as nat) {
            Ok((ns, p)) => r matches Ok(v) && v@.map_values(|s: String| string_view(s)) == ns
                && v@.len() == n && final(cursor).position() == p,
            Err(e) => r == Err::<Vec<String>, DecodeError>(e),
        },
{
    let ghost b = cursor.bytes();
    let ghost start = cursor.position();
    let mut names: Vec<String> = Vec::new();
    let mut i: u8 = 0;
    proof {
        assert(names@.map_values(|s: String| string_view(s)) =~= Seq::empty());
    }
    while i < n
        invariant
            i <= n,
            b == old(cursor).bytes(),
            start == old(cursor).position(),
            cursor.wf(),
            cursor.bytes() == b,
            names@.len() == i,
            spec_read_names(b, start, i as nat) == Ok::<_, DecodeError>(
                (names@.map_values(|s: String| string_view(s)), cursor.position()),
            ),
        decreases n - i,
    {
        let name = match read_string(cursor) {
            Ok(s) => s,
            Err(e) => {
                proof {
                    lemma_names_err_persists(b, start, (i + 1) as nat, n as nat);
                }
                return Err(e);
            },
        };
        let ghost before = names@;
        names.push(name);
        proof {
            assert(names@.map_values(|s: String| string_view(s)) =~= before.map_values(
                |s: String| string_view(s),
            ).push(names@[i as int]@));
        }
        i = i + 1;
    }
    Ok(names)
}

/// Reads one placed-block record. On error the cursor may have moved.
pub fn read_record(cursor: &mut ByteCursor) -> (r: Result<PlacedBlock, DecodeError>)
    requires
        old(cursor).wf(),
    ensures
        final(cursor).wf(),
        final(cursor).bytes() == old(cursor).bytes(),
        match spec_read_record(old(cursor).bytes(), old(cursor).position()) {
            Ok((v, p)) => r == Ok::<PlacedBlock, DecodeError>(v) && final(cursor).position() == p,
            Err(e) => r == Err::<PlacedBlock, DecodeError>(e),
        },
{
    if cursor.remaining() < 6 {
        return Err(DecodeError::UnexpectedEof);
    }
    let name_index = match read_u8(cursor) {
        Ok(v) => v,
        Err(e) => return Err(e),
    };
    let position = match read_u16(cursor) {
        Ok(v) => v,
        Err(e) => return Err(e),
    };
    let config = match read_u16(cursor) {
        Ok(v) => v,
        Err(e) => return Err(e),
    };
    let rotation = match read_u8(cursor) {
        Ok(v) => v,
        Err(e) => return Err(e),
    };
    Ok(PlacedBlock { name_index, position, config, rotation })
}

/// Reads `n` placed-block records. On error the cursor may have moved.
pub fn read_records(cursor: &mut ByteCursor, n: u8) -> (r: Result<Vec<PlacedBlock>, DecodeError>)
    requires
        old(cursor).wf(),
    ensures
        final(cursor).wf(),
        final(cursor).bytes() == old(cursor).bytes(),
        match spec_read_records(old(cursor).bytes(), old(cursor).position(), n as nat) {
            Ok((rs, p)) => r matches Ok(v) && v@ == rs && v@.len() == n && final(cursor).position()
                == p,
            Err(e) => r == Err::<Vec<PlacedBlock>, DecodeError>(e),
        },
{
    let ghost b = cursor.bytes();
    let ghost start = cursor.position();
    let mut records: Vec<PlacedBlock> = Vec::new();
    let mut i: u8 = 0;
    proof {
        assert(records@ =~= Seq::empty());
    }
    while i < n
        invariant
            i <= n,
            b == old(cursor).bytes(),
            start == old(cursor).position(),
            cursor.wf(),
            cursor.bytes() == b,
            records@.len() == i,
            spec_read_records(b, start, i as nat) == Ok::<_, DecodeError>(
                (records@, cursor.position()),
            ),
        decreases n - i,
    {
        let record = match read_record(cursor) {
            Ok(v) => v,
            Err(e) => {
                proof {
                    lemma_records_err_persists(b, start, (i + 1) as nat, n as nat);
                }
                return Err(e);
            },
        };
        records.push(record);
        i = i + 1;
    }
    Ok(records)
}

/// The size of the pieces in which compressed input is fed to the inflater.
pub const CHUNK_SIZE: usize = 1024;

/// Feeding `c` after `calls` in chunks of `size` bytes (the last one
/// shorter), then draining: the calls made and the bytes handed out, or
/// `None` where the inflater fails.
pub open spec fn spec_inflate_chunks(calls: Seq<Seq<u8>>, c: Seq<u8>, size: nat) -> Option<
    (Seq<Seq<u8>>, Seq<u8>),
>
    decreases c.len(),
{
    if c.len() == 0 {
        spec_drain(calls, 0, 0)
    } else if size == 0 {
        None
    } else {
        let k = if c.len() > size {
            size
        } else {
            c.len()
        };
        match spec_feed(calls, c.subrange(0, k as int), 0) {
            None => None,
            Some((next, out)) => prepend(
                out,
                spec_inflate_chunks(next, c.subrange(k as int, c.len() as int), size),
            ),
        }
    }
}

/// What a fresh inflater hands out for `c` fed in chunks of `size` bytes and
/// drained, or `None` where it fails.
pub open spec fn inflate_run(c: Seq<u8>, size: nat) -> Option<Seq<u8>> {
    match spec_inflate_chunks(Seq::empty(), c, size) {
        Some((_, out)) => Some(out),
        None => None,
    }
}

/// Inflates a whole raw deflate stream, fed in chunks of `CHUNK_SIZE` bytes.
pub fn inflate_all(compressed: &[u8]) -> (r: Result<Vec<u8>, DecodeError>)
    ensures
        match inflate_run(compressed@, CHUNK_SIZE as nat) {
            Some(out) => r matches Ok(v) && v@ == out,
            None => r == Err::<Vec<u8>, DecodeError>(DecodeError::CorruptStream),
        },
{
    inflate_in_chunks(compressed, CHUNK_SIZE)
}

/// Inflates a whole raw deflate stream, fed to one inflater in chunks of
/// `chunk_size` bytes (the last one shorter) and then drained.
pub fn inflate_in_chunks(compressed: &[u8], chunk_size: usize) -> (r: Result<Vec<u8>, DecodeError>)
    ensures
        match inflate_run(compressed@, chunk_size as nat) {
            Some(out) => r matches Ok(v) && v@ == out,
            None => r == Err::<Vec<u8>, DecodeError>(DecodeError::CorruptStream),
        },
{
    if chunk_size == 0 && compressed.len() > 0 {
        return Err(DecodeError::CorruptStream);
    }
    let mut inflater = StreamInflater::new();
    let mut out: Vec<u8> = Vec::new();
    let mut start: usize = 0;
    let ghost whole = spec_inflate_chunks(Seq::empty(), compressed@, chunk_size as nat);
    proof {
        assert(compressed@.subrange(0, compressed@.len() as int) =~= compressed@);
        lemma_prepend_empty(whole);
        assert(out@ =~= Seq::<u8>::empty());
    }
    while start < compressed.len()
        invariant
            compressed@.len() > 0 ==> chunk_size > 0,
            start <= compressed@.len(),
            !inflater.failed(),
            whole == spec_inflate_chunks(Seq::empty(), compressed@, chunk_size as nat),
            whole == prepend(
                out@,
                spec_inflate_chunks(
                    inflater.calls(),
                    compressed@.subrange(start as int, compressed@.len() as int),
                    chunk_size as nat,
                ),
            ),
        decreases compressed@.len() - start,
    {
        let end = if compressed.len() - start > chunk_size {
            start + chunk_size
        } else {
            compressed.len()
        };
        let ghost rest = compressed@.subrange(start as int, compressed@.len() as int);
        let ghost before = out@;
        proof {
            assert(rest.subrange(0, (end - start) as int) =~= compressed@.subrange(
                start as int,
                end as int,
            ));
            assert(rest.subrange((end - start) as int, rest.len() as int) =~= compressed@.subrange(
                end as int,
                compressed@.len() as int,
            ));
        }
        let mut produced = match inflater.feed(slice_subrange(compressed, start, end)) {
            Ok(v) => v,
            Err(e) => return Err(e),
        };
        let ghost step_out = produced@;
        out.append(&mut produced);
        start = end;
        proof {
            lemma_prepend_twice(
                before,
                step_out,
                spec_inflate_chunks(
                    inflater.calls(),
                    compressed@.subrange(start as int, compressed@.len() as int),
                    chunk_size as nat,
                ),
            );
        }
    }
    let ghost before = out@;
    let mut rest = match inflater.finish() {
        Ok(v) => v,
        Err(e) => return Err(e),
    };
    let ghost step_out = rest@;
    out.append(&mut rest);
    proof {
        assert(compressed@.subrange(start as int, compressed@.len() as int) =~= Seq::<u8>::empty());
        assert(before + step_out =~= out@);
    }
    Ok(out)
}

/// Builds the container from its header fields and its inflated payload.
/// The result is exactly what `spec_parse_body` reads from the payload.
pub fn decode_payload(magic: Vec<u8>, version: Vec<u8>, payload: Vec<u8>) -> (r: Result<
    Container,
    DecodeError,
>)
    requires
        magic@.len() == 4,
        version@.len() == 3,
    ensures
        match spec_parse_body(payload@) {
            Ok((body, _)) => r matches Ok(c) && c.wf() && c.body() == body && c.magic@ == magic@
                && c.version@ == version@,
            Err(e) => r == Err::<Container, DecodeError>(e),
        },
{
    let ghost b = payload@;
    let mut cursor = ByteCursor::new(payload);
    let width = match read_u16(&mut cursor) {
        Ok(v) => v,
        Err(e) => return Err(e),
    };
    let height = match read_u16(&mut cursor) {
        Ok(v) => v,
        Err(e) => return Err(e),
    };
    let tag_count = match read_u8(&mut cursor) {
        Ok(v) => v,
        Err(e) => return Err(e),
    };
    let tags = match read_tags(&mut cursor, tag_count) {
        Ok(v) => v,
        Err(e) => return Err(e),
    };
    let block_name_count = match read_u8(&mut cursor) {
        Ok(v) => v,
        Err(e) => return Err(e),
    };
    let block_names = match read_names(&mut cursor, block_name_count) {
        Ok(v) => v,
        Err(e) => return Err(e),
    };
    let placed_block_count = match read_u8(&mut cursor) {
        Ok(v) => v,
        Err(e) => return Err(e),
    };
    let placed_blocks = match read_records(&mut cursor, placed_block_count) {
        Ok(v) => v,
        Err(e) => return Err(e),
    };
    let c = Container {
        magic,
        version,
        width: width as i32,
        height: height as i32,
        tag_count,
        tags,
        block_name_count,
        block_names,
        placed_block_count,
        placed_blocks,
    };
    proof {
        let body = spec_parse_body(b)->Ok_0.0;
        assert(c.body().tags == body.tags);
        assert(c.body().block_names == body.block_names);
        assert(c.body() == body);
    }
    Ok(c)
}

/// Decodes a whole schematic file: four bytes of magic (taken as they are),
/// three bytes of version, then a raw deflate stream whose inflated payload
/// `decode_payload` reads.
pub fn parse_data(input: &[u8]) -> (r: Result<Container, DecodeError>)
    ensures
        input@.len() < 7 ==> r == Err::<Container, DecodeError>(DecodeError::UnexpectedEof),
        input@.len() >= 7 ==> match inflate_run(
            input@.subrange(7, input@.len() as int),
            CHUNK_SIZE as nat,
        ) {
            None => r == Err::<Container, DecodeError>(DecodeError::CorruptStream),
            Some(p) => match spec_parse_body(p) {
                Ok((body, _)) => r matches Ok(c) && c.wf() && c.body() == body && c.magic@
                    == input@.subrange(0, 4) && c.version@ == input@.subrange(4, 7),
                Err(e) => r == Err::<Container, DecodeError>(e),
            },
        },
{
    if input.len() < 7 {
        return Err(DecodeError::UnexpectedEof);
    }
    let magic = slice_to_vec(slice_subrange(input, 0, 4));
    let version = slice_to_vec(slice_subrange(input, 4, 7));
    let payload = match inflate_all(slice_subrange(input, 7, input.len())) {
        Ok(v) => v,
        Err(e) => return Err(e),
    };
    decode_payload(magic, version, payload)
}

} // verus!
