use vstd::prelude::*;
use vstd::slice::slice_subrange;

use inflate::InflateStream;

use crate::error::DecodeError;

verus! {

#[verifier::external_type_specification]
#[verifier::external_body]
pub struct ExInflateStream(InflateStream);

/// What the last of a run of `InflateStream::update` calls returns, on a
/// fresh raw-deflate stream given these inputs in order: how many bytes of its
/// input it took and the bytes it handed out, or `None` where it reported an
/// error. The stream is a state machine over the inputs it was given, with a
/// window of a fixed size, so this depends on the inputs alone.
pub uninterp spec fn inflate_step(calls: Seq<Seq<u8>>) -> Option<(nat, Seq<u8>)>;

/// The inputs of the `update` calls made on a stream since it was created.
pub uninterp spec fn stream_calls(s: InflateStream) -> Seq<Seq<u8>>;

/// Relies on `inflate::InflateStream::new`: a raw-deflate decoder on which no
/// `update` call has been made.
pub assume_specification[ InflateStream::new ]() -> (r: InflateStream)
    ensures
        stream_calls(r) == Seq::<Seq<u8>>::empty(),
;

/// Relies on `inflate::InflateStream::update`: it takes a prefix of `data`,
/// never more than all of it, and hands out the bytes that this call
/// completed, which are copied out here. The stream moves in and comes back
/// only on success: a stream that failed is never updated again, since the
/// crate does not support that.
#[verifier::external_body]
fn inflate_update(stream: InflateStream, data: &[u8]) -> (r: Result<
    (InflateStream, usize, Vec<u8>),
    String,
>)
    ensures
        r matches Ok((s, n, out)) ==> {
            &&& n <= data@.len()
            &&& stream_calls(s) == stream_calls(stream).push(data@)
            &&& inflate_step(stream_calls(s)) == Some((n as nat, out@))
        },
        r is Err ==> inflate_step(stream_calls(stream).push(data@)) is None,
{
    let mut stream = stream;
    let step = stream.update(data).map(|(n, out)| (n, out.to_vec()));
    step.map(|(n, out)| (stream, n, out))
}

/// How many calls in a row may take none of a chunk before the stream is
/// taken to be stuck.
pub const MAX_IDLE_UPDATES: u64 = 65536;

/// How many calls on no input in a row must hand out nothing before the
/// stream counts as drained: one call on no input makes one decoding step,
/// and steps such as crossing a block boundary hand out nothing.
pub const QUIET_DRAIN_CALLS: u64 = 64;

/// How many calls on no input draining may make in all.
pub const MAX_DRAIN_CALLS: u64 = 65536;

/// `pre` put in front of the output of a run, if it succeeded.
pub open spec fn prepend(pre: Seq<u8>, run: Option<(Seq<Seq<u8>>, Seq<u8>)>) -> Option<
    (Seq<Seq<u8>>, Seq<u8>),
> {
    match run {
        None => None,
        Some((calls, out)) => Some((calls, pre + out)),
    }
}

/// Feeding `rest` after `calls`: each call gets what is left of the chunk,
/// until all of it is taken. The calls made and the bytes handed out, or
/// `None` on an error or after too many calls in a row that take nothing.
pub open spec fn spec_feed(calls: Seq<Seq<u8>>, rest: Seq<u8>, idle: nat) -> Option<
    (Seq<Seq<u8>>, Seq<u8>),
>
    decreases rest.len(), MAX_IDLE_UPDATES - idle,
{
    if rest.len() == 0 {
        Some((calls, Seq::empty()))
    } else {
        let next = calls.push(rest);
        match inflate_step(next) {
            None => None,
            Some((n, out)) => {
                if n == 0 {
                    if idle >= MAX_IDLE_UPDATES {
                        None
                    } else {
                        prepend(out, spec_feed(next, rest, idle + 1))
                    }
                } else if n <= rest.len() {
                    prepend(out, spec_feed(next, rest.subrange(n as int, rest.len() as int), 0))
                } else {
                    None
                }
            },
        }
    }
}

/// Draining after `calls`: calls on no input until `QUIET_DRAIN_CALLS` in a
/// row hand out nothing. The calls made and the bytes handed out, or `None`
/// on an error or after `MAX_DRAIN_CALLS` calls.
pub open spec fn spec_drain(calls: Seq<Seq<u8>>, count: nat, quiet: nat) -> Option<
    (Seq<Seq<u8>>, Seq<u8>),
>
    decreases MAX_DRAIN_CALLS - count,
{
    if count >= MAX_DRAIN_CALLS {
        None
    } else {
        let next = calls.push(Seq::empty());
        match inflate_step(next) {
            None => None,
            Some((_, out)) => {
                if out.len() == 0 {
                    if quiet + 1 >= QUIET_DRAIN_CALLS {
                        Some((next, Seq::empty()))
                    } else {
                        spec_drain(next, count + 1, quiet + 1)
                    }
                } else {
                    prepend(out, spec_drain(next, count + 1, 0))
                }
            },
        }
    }
}

pub proof fn lemma_prepend_empty(run: Option<(Seq<Seq<u8>>, Seq<u8>)>)
    ensures
        prepend(Seq::empty(), run) == run,
{
    if let Some((c, o)) = run {
        assert(Seq::<u8>::empty() + o =~= o);
    }
}

pub proof fn lemma_prepend_twice(a: Seq<u8>, b: Seq<u8>, run: Option<(Seq<Seq<u8>>, Seq<u8>)>)
    ensures
        prepend(a, prepend(b, run)) == prepend(a + b, run),
{
    if let Some((c, o)) = run {
        assert(a + (b + o) =~= (a + b) + o);
    }
}

/// An incremental deflate decoder: compressed bytes go in by chunks of any
/// size, and each chunk gives back the bytes that it completed.
pub struct StreamInflater {
    stream: Option<InflateStream>,
}

impl StreamInflater {
    /// Whether an earlier call has failed; a failed decoder refuses all input.
    pub closed spec fn failed(&self) -> bool {
        self.stream is None
    }

    /// The inputs of the `update` calls made so far.
    pub closed spec fn calls(&self) -> Seq<Seq<u8>> {
        stream_calls(self.stream->Some_0)
    }

    /// A decoder at the start of a raw deflate stream.
    pub fn new() -> (s: StreamInflater)
        ensures
            !s.failed(),
            s.calls() == Seq::<Seq<u8>>::empty(),
    {
        StreamInflater { stream: Some(InflateStream::new()) }
    }

    /// Feeds one chunk, all of it, and returns the bytes that it completed,
    /// as `spec_feed` describes. Any failure leaves the decoder failed.
    pub fn feed(&mut self, chunk: &[u8]) -> (r: Result<Vec<u8>, DecodeError>)
        ensures
            old(self).failed() ==> r == Err::<Vec<u8>, DecodeError>(DecodeError::CorruptStream)
                && final(self).failed(),
            !old(self).failed() ==> match spec_feed(old(self).calls(), chunk@, 0) {
                Some((calls, out)) => r matches Ok(v) && v@ == out && !final(self).failed()
                    && final(self).calls() == calls,
                None => r == Err::<Vec<u8>, DecodeError>(DecodeError::CorruptStream) 
                    && final(self).failed(),
            },
    {
        if self.stream.is_none() {
            return Err(DecodeError::CorruptStream);
        }
        let ghost c0 = self.calls();
        let mut out: Vec<u8> = Vec::new();
        let mut n: usize = 0;
        let mut idle: u64 = 0;
        proof {
            assert(chunk@.subrange(0, chunk@.len() as int) =~= chunk@);
            lemma_prepend_empty(spec_feed(c0, chunk@, 0));
            assert(out@ =~= Seq::<u8>::empty());
        }
        while n < chunk.len()
            invariant
                n <= chunk@.len(),
                idle <= MAX_IDLE_UPDATES,
                !self.failed(),
                c0 == old(self).calls(),
                spec_feed(c0, chunk@, 0) == prepend(
                    out@,
                    spec_feed(self.calls(), chunk@.subrange(n as int, chunk@.len() as int), idle as nat),
                ),
            decreases chunk@.len() - n, MAX_IDLE_UPDATES - idle,
        {
            let ghost calls = self.calls();
            let ghost rest = chunk@.subrange(n as int, chunk@.len() as int);
            let ghost before = out@;
            let stream = match self.stream.take() {
                Some(s) => s,
                None => return Err(DecodeError::CorruptStream),
            };
            match inflate_update(stream, slice_subrange(chunk, n, chunk.len())) {
                Err(_) => {
                    return Err(DecodeError::CorruptStream);
                },
                Ok((stream, taken, produced)) => {
                    self.stream = Some(stream);
                    let ghost step_out = produced@;
                    if taken == 0 {
                        if idle == MAX_IDLE_UPDATES {
                            self.stream = None;
                            return Err(DecodeError::CorruptStream);
                        }
                        idle = idle + 1;
                    } else {
                        n = n + taken;
                        idle = 0;
                        proof {
                            assert(rest.subrange(taken as int, rest.len() as int) =~= chunk@.subrange(
                                n as int,
                                chunk@.len() as int,
                            ));
                        }
                    }
                    let mut produced = produced;
                    out.append(&mut produced);
                    proof {
                        lemma_prepend_twice(
                            before,
                            step_out,
                            spec_feed(
                                self.calls(),
                                chunk@.subrange(n as int, chunk@.len() as int),
                                idle as nat,
                            ),
                        );
                    }
                },
            }
        }
        proof {
            assert(out@ + Seq::<u8>::empty() =~= out@);
        }
        Ok(out)
    }

    /// Drains what the decoder still holds once all input has been fed, as
    /// `spec_drain` describes. Any failure leaves the decoder failed.
    pub fn finish(&mut self) -> (r: Result<Vec<u8>, DecodeError>)
        ensures
            old(self).failed() ==> r == Err::<Vec<u8>, DecodeError>(DecodeError::CorruptStream)
                && final(self).failed(),
            !old(self).failed() ==> match spec_drain(old(self).calls(), 0, 0) {
                Some((calls, out)) => r matches Ok(v) && v@ == out && !final(self).failed()
                    && final(self).calls() == calls,
                None => r == Err::<Vec<u8>, DecodeError>(DecodeError::CorruptStream) 
                    && final(self).failed(),
            },
    {
        if self.stream.is_none() {
            return Err(DecodeError::CorruptStream);
        }
        let ghost c0 = self.calls();
        let mut out: Vec<u8> = Vec::new();
        let mut count: u64 = 0;
        let mut quiet: u64 = 0;
        let empty: [u8; 0] = [];
        proof {
            lemma_prepend_empty(spec_drain(c0, 0, 0));
            assert(out@ =~= Seq::<u8>::empty());
            assert(empty@ =~= Seq::<u8>::empty());
        }
        loop
            invariant
                count <= MAX_DRAIN_CALLS,
                quiet < QUIET_DRAIN_CALLS,
                !old(self).failed(),
                !self.failed(),
                c0 == old(self).calls(),
                empty@ == Seq::<u8>::empty(),
                spec_drain(c0, 0, 0) == prepend(
                    out@,
                    spec_drain(self.calls(), count as nat, quiet as nat),
                ),
            decreases MAX_DRAIN_CALLS - count,
        {
            if count == MAX_DRAIN_CALLS {
                self.stream = None;
                return Err(DecodeError::CorruptStream);
            }
            let ghost before = out@;
            let stream = match self.stream.take() {
                Some(s) => s,
                None => return Err(DecodeError::CorruptStream),
            };
            match inflate_update(stream, empty.as_slice()) {
                Err(_) => {
                    return Err(DecodeError::CorruptStream);
                },
                Ok((stream, _, produced)) => {
                    self.stream = Some(stream);
                    count = count + 1;
                    if produced.len() == 0 {
                        if quiet + 1 >= QUIET_DRAIN_CALLS {
                            proof {
                                assert(out@ + Seq::<u8>::empty() =~= out@);
                            }
                            return Ok(out);
                        }
                        quiet = quiet + 1;
                    } else {
                        let ghost step_out = produced@;
                        quiet = 0;
                        let mut produced = produced;
                        out.append(&mut produced);
                        proof {
                            lemma_prepend_twice(
                                before,
                                step_out,
                                spec_drain(self.calls(), count as nat, quiet as nat),
                            );
                        }
                    }
                },
            }
        }
    }
}

} // verus!
