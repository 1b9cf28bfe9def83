//! Streaming zstd frames.
use vstd::prelude::*;
use vstd::slice::slice_subrange;
use zstd_safe::{CCtx, CParameter, InBuffer, OutBuffer, ResetDirective};
use crate::compression::{zstd_decompressed, MAX_ZSTD_DECOMPRESS_BLOCK_SIZE};
use crate::error::{Error, Operation};
use crate::output::OutputFile;

verus! {

/// A compression context of `zstd_safe`.
#[verifier::external_type_specification]
#[verifier::external_body]
pub struct ExCCtx<'a>(CCtx<'a>);

/// The bytes that a context has taken in for the frame at hand.
pub uninterp spec fn taken_in(context: CCtx<'static>) -> Seq<u8>;

/// The bytes of the frame at hand that a context has handed out.
pub uninterp spec fn handed_out(context: CCtx<'static>) -> Seq<u8>;

/// The frame at hand may still take bytes in: nothing has failed, and its end has not been begun.
pub uninterp spec fn is_open(context: CCtx<'static>) -> bool;

/// The end of the frame at hand has been begun, and nothing has failed.
pub uninterp spec fn is_ending(context: CCtx<'static>) -> bool;

/// A context holds nothing back: the bytes of all that it has taken in have been handed out.
pub uninterp spec fn is_emptied(context: CCtx<'static>) -> bool;

/// The level that a context was last asked to compress at.
pub uninterp spec fn asked_level(context: CCtx<'static>) -> Option<i32>;

/// A context that no frame has been begun with, and that nothing was asked of but a level.
pub uninterp spec fn is_fresh(context: CCtx<'static>) -> bool;

/// The frame at hand is the first of its context, of which nothing was asked but a level. It has not
/// been begun, or it was begun at that level with bytes or with its end, and it was never flushed.
pub uninterp spec fn is_plain(context: CCtx<'static>) -> bool;

/// The frame that `CCtx::compress_stream` and `CCtx::end_stream` make of the bytes at a level, in a
/// new context that is not flushed on the way.
pub uninterp spec fn stream_frame(data: Seq<u8>, level: int) -> Seq<u8>;

/// The name of an error code, as `zstd_safe::get_error_name` gives it.
pub uninterp spec fn zstd_error_name(code: usize) -> Seq<char>;

/// A frame that `zstd::bulk::decompress` turns into `data` again when its capacity is the length
/// of `data`.
pub open spec fn is_frame_of(frame: Seq<u8>, data: Seq<u8>) -> bool {
    data.len() <= MAX_ZSTD_DECOMPRESS_BLOCK_SIZE ==> zstd_decompressed(frame, data.len()) == Some(data)
}

/// `CCtx::create` gives a new context with nothing in it.
#[verifier::external_body]
fn create_context() -> (context: CCtx<'static>)
    ensures
        is_open(context),
        is_fresh(context),
        taken_in(context) == Seq::<u8>::empty(),
        handed_out(context) == Seq::<u8>::empty(),
{
    CCtx::create()
}

/// `CCtx::set_parameter` with `CParameter::CompressionLevel` asks for a level and leaves the frame at
/// hand as it is. A fresh context stays one. It never fails: a level out of range is taken for the
/// nearest one.
#[verifier::external_body]
fn ask_level(context: &mut CCtx<'static>, level: i32) -> (result: Result<usize, usize>)
    ensures
        result is Ok,
        asked_level(*final(context)) == Some(level) && is_open(*final(context)) == is_open(*old(context)) && taken_in(
            *final(context),
        ) == taken_in(*old(context)) && handed_out(*final(context)) == handed_out(*old(context)),
        is_fresh(*old(context)) ==> is_fresh(*final(context)),
{
    context.set_parameter(CParameter::CompressionLevel(level))
}

/// `CCtx::reset` with `ResetDirective::SessionOnly` drops the frame at hand, starts a new one and
/// keeps the level. It never fails. Of the bytes of the new frame something is said for a fresh context
/// only: one that has made a frame before may find other matches, as it does not start its search with
/// the same hashes again.
#[verifier::external_body]
fn reset_session(context: &mut CCtx<'static>) -> (result: Result<usize, usize>)
    ensures
        result is Ok,
        asked_level(*final(context)) == asked_level(*old(context)) && is_open(*final(context)) && taken_in(
            *final(context),
        ) == Seq::<u8>::empty() && handed_out(*final(context)) == Seq::<u8>::empty(),
        is_fresh(*old(context)) ==> is_plain(*final(context)),
{
    context.reset(ResetDirective::SessionOnly)
}

/// The size of the buffer that a step hands its bytes out into. It decides where the blocks of a frame
/// end, and so which bytes the frame has.
pub const ROOM: usize = 131_591;

/// `CCtx::out_size` gives the bound on a compressed block of 128 KiB, and seven bytes for its
/// header and a checksum.
#[verifier::external_body]
fn out_size() -> (size: usize)
    ensures
        size == ROOM,
{
    CCtx::out_size()
}

/// `CCtx::compress_stream` takes in some of the bytes from `pos` on, hands some out into the front of
/// the buffer, and says where it stopped and how many it handed out. Which bytes it hands out, and
/// when, is left open; only the whole frame is told of, by `end_frame`. A block is compressed when a
/// whole one has been gathered, wherever the bytes were cut, so that a plain frame stays one. That
/// is said where there are bytes to take in: a frame may be begun by a call without any, and then it has
/// another header.
#[verifier::external_body]
fn feed(context: &mut CCtx<'static>, data: &[u8], pos: usize, buffer: &mut Vec<u8>) -> (result: Result<(usize, usize), usize>)
    requires
        pos <= data@.len(),
        old(buffer)@.len() == ROOM,
    ensures
        final(buffer)@.len() == ROOM,
        result matches Ok((end, written)) ==> pos <= end <= data@.len() && written <= final(buffer)@.len() && asked_level(*final(context))
            == asked_level(*old(context)) && (is_open(*old(context)) ==> is_open(*final(context)) && taken_in(*final(context)) == taken_in(
            *old(context),
        ) + data@.subrange(pos as int, end as int) && handed_out(*final(context)) == handed_out(*old(context)) + final(buffer)@.take(
            written as int,
        )),
        result is Ok && is_open(*old(context)) && is_plain(*old(context)) && pos < data@.len() ==> is_plain(*final(context)),
{
    let mut input = InBuffer::around(data);
    input.set_pos(pos);
    let mut output = OutBuffer::around(buffer.as_mut_slice());
    context.compress_stream(&mut output, &mut input)?;
    Ok((input.pos(), output.pos()))
}

/// `CCtx::flush_stream` hands out bytes into the front of the buffer, and says how many bytes are
/// left at least and how many it handed out. With none left, and only then, the context holds nothing
/// back of what it has taken in.
#[verifier::external_body]
fn flush_frame(context: &mut CCtx<'static>, buffer: &mut Vec<u8>) -> (result: Result<(usize, usize), usize>)
    requires
        old(buffer)@.len() == ROOM,
    ensures
        final(buffer)@.len() == ROOM,
        result matches Ok((remaining, written)) ==> written <= final(buffer)@.len() && asked_level(*final(context)) == asked_level(
            *old(context),
        ) && (is_open(*old(context)) ==> is_open(*final(context)) && taken_in(*final(context)) == taken_in(*old(context)) && handed_out(
            *final(context),
        ) == handed_out(*old(context)) + final(buffer)@.take(written as int) && is_emptied(*final(context)) == (remaining == 0)),
{
    let mut output = OutBuffer::around(buffer.as_mut_slice());
    let remaining = context.flush_stream(&mut output)?;
    Ok((remaining, output.pos()))
}

/// `CCtx::end_stream` hands out the end of the frame into the front of the buffer, and says how many
/// bytes are left at least and how many it handed out. With none left all that was handed out is a
/// frame of all that was taken in, and a new frame is at hand. The bytes of a plain frame are a matter
/// of the bytes that were taken in and of the level alone.
#[verifier::external_body]
fn end_frame(context: &mut CCtx<'static>, buffer: &mut Vec<u8>) -> (result: Result<(usize, usize), usize>)
    requires
        old(buffer)@.len() == ROOM,
    ensures
        final(buffer)@.len() == ROOM,
        result matches Ok((remaining, written)) ==> written <= final(buffer)@.len() && asked_level(*final(context)) == asked_level(
            *old(context),
        ) && (is_open(*old(context)) || is_ending(*old(context)) ==> (if remaining == 0 {
            is_frame_of(handed_out(*old(context)) + final(buffer)@.take(written as int), taken_in(*old(context))) && is_open(
                *final(context),
            ) && taken_in(*final(context)) == Seq::<u8>::empty() && handed_out(*final(context)) == Seq::<u8>::empty()
        } else {
            is_ending(*final(context)) && taken_in(*final(context)) == taken_in(*old(context)) && handed_out(*final(context))
                == handed_out(*old(context)) + final(buffer)@.take(written as int)
        })),
        result matches Ok((remaining, written)) ==> (is_open(*old(context)) || is_ending(*old(context))) && is_plain(*old(context))
            ==> (if remaining == 0 {
            asked_level(*old(context)) matches Some(level) ==> handed_out(*old(context)) + final(buffer)@.take(written as int)
                == stream_frame(taken_in(*old(context)), level as int)
        } else {
            is_plain(*final(context))
        }),
{
    let mut output = OutBuffer::around(buffer.as_mut_slice());
    let remaining = context.end_stream(&mut output)?;
    Ok((remaining, output.pos()))
}

/// `zstd_safe::get_error_name` gives the name of an error code.
#[verifier::external_body]
fn error_name(code: usize) -> (name: String)
    ensures
        name@ == zstd_error_name(code),
{
    zstd_safe::get_error_name(code).to_string()
}

/// An error of the compression.
pub open spec fn is_zstd_error(e: Error, code: usize) -> bool {
    e matches Error::ZstdStream { name } && name@ == zstd_error_name(code)
}

fn zstd_error(code: usize) -> (e: Error)
    ensures
        is_zstd_error(e, code),
{
    Error::ZstdStream { name: error_name(code) }
}

/// An operation that neither takes anything in nor hands anything out.
pub fn no_progress(operation: Operation) -> (e: Error)
    ensures
        e == (Error::NoProgress { operation }),
{
    Error::NoProgress { operation }
}

/// Whether an operation is done after a step of it; a step that moves nothing is refused unless it
/// is the last.
pub fn after_step(done: bool, moved: bool, operation: Operation) -> (result: Result<bool, Error>)
    ensures
        done ==> result == Ok::<bool, Error>(true),
        !done && moved ==> result == Ok::<bool, Error>(false),
        !done && !moved ==> result == Err::<bool, Error>(Error::NoProgress { operation }),
{
    if done {
        Ok(true)
    } else if moved {
        Ok(false)
    } else {
        Err(no_progress(operation))
    }
}

/// A step of an operation that could not be made, with an output that may fail or not.
pub open spec fn is_stream_error(e: Error, operation: Operation, may_fail: bool) -> bool {
    (e is Io && may_fail) || (exists|code: usize| #[trigger] is_zstd_error(e, code)) || e == (Error::NoProgress { operation })
}

/// A streaming encoder of one zstd frame. What it hands out is collected in a buffer of the size
/// that the compression recommends, which decides where the blocks of the frame end.
pub struct JavaCompatibleZstdEncoder<W: OutputFile> {
    context: CCtx<'static>,
    output: W,
    buffer: Vec<u8>,
    start: Ghost<Seq<u8>>,
}

impl<W: OutputFile> JavaCompatibleZstdEncoder<W> {
    /// All that has been handed out is in the output, behind what was there at the start.
    pub closed spec fn wf(&self) -> bool {
        &&& is_open(self.context)
        &&& self.output.written() == self.start@ + handed_out(self.context)
    }

    /// The bytes that were written to the encoder.
    pub closed spec fn data(&self) -> Seq<u8> {
        taken_in(self.context)
    }

    /// The bytes in the output when the encoder was made.
    pub closed spec fn front(&self) -> Seq<u8> {
        self.start@
    }

    /// Bytes can always be appended to the output.
    pub closed spec fn never_fails(&self) -> bool {
        self.output.never_fails()
    }

    /// The bytes of the frame that are in the output.
    pub closed spec fn sent(&self) -> Seq<u8> {
        handed_out(self.context)
    }

    /// All that was written to the encoder is in the output, and the output holds nothing back.
    pub closed spec fn is_flushed(&self) -> bool {
        is_emptied(self.context) && self.output.is_flushed()
    }

    /// The frame is the one that the bytes make at the level: it was not flushed on the way.
    pub closed spec fn is_plain(&self) -> bool {
        is_plain(self.context)
    }

    pub closed spec fn level(&self) -> Option<i32> {
        asked_level(self.context)
    }

    pub closed spec fn buffer_size(&self) -> nat {
        self.buffer@.len()
    }

    /// An encoder at a level, with a buffer of the recommended size.
    pub fn new(output: W, level: i32) -> (result: Result<Self, Error>)
        ensures
            result matches Ok(encoder) && encoder.wf() && encoder.data() == Seq::<u8>::empty() && encoder.front() == output.written()
                && encoder.is_plain() && encoder.level() == Some(level) && encoder.buffer_size() == ROOM && encoder.never_fails() == output.never_fails(),
    {
        let mut context: CCtx<'static> = create_context();
        match ask_level(&mut context, level) {
            Ok(_) => {},
            Err(code) => {
                return Err(zstd_error(code));
            },
        }
        match reset_session(&mut context) {
            Ok(_) => {},
            Err(code) => {
                return Err(zstd_error(code));
            },
        }
        let buffer: Vec<u8> = vec![0u8; out_size()];
        let start: Ghost<Seq<u8>> = Ghost(output.written());
        assert(start@ + Seq::<u8>::empty() =~= start@);
        Ok(JavaCompatibleZstdEncoder { context, output, buffer, start })
    }

    /// Compresses the bytes. A stream that takes more steps than can be counted is taken to make no
    /// progress.
    pub fn write(&mut self, data: &[u8]) -> (result: Result<usize, Error>)
        requires
            old(self).buffer_size() == ROOM,
        ensures
            data@.len() == 0 ==> result == Ok::<usize, Error>(0) && *final(self) == *old(self),
            final(self).buffer_size() == ROOM,
            result is Ok && old(self).wf() && old(self).is_plain() ==> final(self).is_plain(),
            result matches Ok(n) ==> n == data@.len() && final(self).level() == old(self).level() && (old(self).wf() ==> final(self).wf() && final(self).data() == old(self).data() + data@
                && final(self).front() == old(self).front()),
            result matches Err(e) ==> is_stream_error(e, Operation::Compression, !old(self).never_fails()),
            final(self).never_fails() == old(self).never_fails(),
    {
        let ghost before = *self;
        let mut pos: usize = 0;
        let mut steps: u64 = 0;
        proof {
            assert(data@.subrange(0, 0) =~= Seq::<u8>::empty());
            assert(before.data() + Seq::<u8>::empty() =~= before.data());
        }
        while pos < data.len()
            invariant
                pos <= data@.len(),
                before == *old(self),
                self.never_fails() == before.never_fails(),
                self.level() == before.level(),
                self.buffer_size() == ROOM,
                before.wf() ==> self.wf() && self.data() == before.data() + data@.subrange(0, pos as int) && self.front()
                    == before.front(),
                before.wf() && before.is_plain() ==> self.is_plain(),
                data@.len() == 0 ==> *self == before,
            decreases u64::MAX - steps,
        {
            let ghost prior = *self;
            let (end, written) = match feed(&mut self.context, data, pos, &mut self.buffer) {
                Ok(step) => step,
                Err(code) => {
                    return Err(zstd_error(code));
                },
            };
            if written > 0 {
                match self.output.write(slice_subrange(self.buffer.as_slice(), 0, written)) {
                    Ok(_) => {},
                    Err(e) => {
                        return Err(e);
                    },
                }
            }
            proof {
                assert(self.buffer@.subrange(0, written as int) =~= self.buffer@.take(written as int));
                assert(data@.subrange(0, pos as int) + data@.subrange(pos as int, end as int) =~= data@.subrange(0, end as int));
                assert((prior.start@ + handed_out(prior.context)) + self.buffer@.take(written as int) =~= prior.start@ + (handed_out(
                    prior.context,
                ) + self.buffer@.take(written as int)));
                assert((before.data() + data@.subrange(0, pos as int)) + data@.subrange(pos as int, end as int) =~= before.data()
                    + data@.subrange(0, end as int));
            }
            match after_step(end == data.len(), end != pos || written != 0, Operation::Compression) {
                Ok(_) => {},
                Err(e) => {
                    return Err(e);
                },
            }
            pos = end;
            if steps == u64::MAX {
                return Err(no_progress(Operation::Compression));
            }
            steps += 1;
        }
        assert(data@.subrange(0, pos as int) =~= data@);
        Ok(data.len())
    }

    /// Hands out what has been taken in so far, behind what is in the output, and flushes the output.
    pub fn flush(&mut self) -> (result: Result<(), Error>)
        requires
            old(self).buffer_size() == ROOM,
        ensures
            final(self).buffer_size() == ROOM,
            result is Ok ==> final(self).level() == old(self).level() && (old(self).wf() ==> final(self).wf() && final(self).data() == old(self).data() && final(self).front() == old(self).front()
                && final(self).is_flushed() && old(self).sent().is_prefix_of(final(self).sent())),
            result matches Err(e) ==> is_stream_error(e, Operation::Flush, !old(self).never_fails()),
            final(self).never_fails() == old(self).never_fails(),
    {
        let ghost before = *self;
        let mut done: bool = false;
        let mut steps: u64 = 0;
        while !done
            invariant
                before == *old(self),
                self.never_fails() == before.never_fails(),
                self.level() == before.level(),
                self.buffer_size() == ROOM,
                before.wf() ==> self.wf() && self.data() == before.data() && self.front() == before.front()
                    && before.sent().is_prefix_of(self.sent()) && (done ==> is_emptied(self.context)),
            decreases u64::MAX - steps,
        {
            let ghost prior = *self;
            let (remaining, written) = match flush_frame(&mut self.context, &mut self.buffer) {
                Ok(step) => step,
                Err(code) => {
                    return Err(zstd_error(code));
                },
            };
            if written > 0 {
                match self.output.write(slice_subrange(self.buffer.as_slice(), 0, written)) {
                    Ok(_) => {},
                    Err(e) => {
                        return Err(e);
                    },
                }
            }
            proof {
                assert(self.buffer@.subrange(0, written as int) =~= self.buffer@.take(written as int));
                assert((prior.start@ + handed_out(prior.context)) + self.buffer@.take(written as int) =~= prior.start@ + (handed_out(
                    prior.context,
                ) + self.buffer@.take(written as int)));
            }
            match after_step(remaining == 0, written != 0, Operation::Flush) {
                Ok(last) => {
                    done = last;
                },
                Err(e) => {
                    return Err(e);
                },
            }
            if steps == u64::MAX {
                return Err(no_progress(Operation::Flush));
            }
            steps += 1;
        }
        self.output.flush()
    }

    /// The output holds the frame that the bytes make at the level, behind what was there at the start.
    pub open spec fn is_ended_in(&self, output: &W) -> bool {
        self.level() matches Some(level) && output.written() == self.front() + stream_frame(self.data(), level as int)
    }

    /// Ends the frame and gives the output back: behind what was there at the start it holds a frame
    /// of all that was written. Which frame it is depends on the bytes and the level alone, unless the
    /// encoder was flushed on the way.
    pub fn finish(self) -> (result: Result<W, Error>)
        requires
            self.buffer_size() == ROOM,
        ensures
            result matches Ok(output) ==> self.wf() ==> exists|frame: Seq<u8>|
                output.written() == self.front() + frame && #[trigger] is_frame_of(frame, self.data()),
            result matches Ok(output) ==> self.wf() && self.is_plain() && self.level() is Some ==> self.is_ended_in(&output),
            result matches Err(e) ==> is_stream_error(e, Operation::Finish, !self.never_fails()),
            result matches Ok(output) ==> output.never_fails() == self.never_fails(),
    {
        let mut context: CCtx<'static> = self.context;
        let mut output: W = self.output;
        let mut buffer: Vec<u8> = self.buffer;
        let ghost start = self.start@;
        let ghost data = taken_in(self.context);
        let mut steps: u64 = 0;
        loop
            invariant
                buffer@.len() == ROOM,
                output.never_fails() == self.never_fails(),
                self.wf() ==> (is_open(context) || is_ending(context)) && taken_in(context) == data && output.written() == start
                    + handed_out(context),
                self.wf() && self.is_plain() ==> is_plain(context),
                asked_level(context) == self.level(),
                start == self.front(),
                data == self.data(),
            decreases u64::MAX - steps,
        {
            let ghost prior = handed_out(context);
            let (remaining, written) = match end_frame(&mut context, &mut buffer) {
                Ok(step) => step,
                Err(code) => {
                    return Err(zstd_error(code));
                },
            };
            if written > 0 {
                match output.write(slice_subrange(buffer.as_slice(), 0, written)) {
                    Ok(_) => {},
                    Err(e) => {
                        return Err(e);
                    },
                }
            }
            proof {
                assert(buffer@.subrange(0, written as int) =~= buffer@.take(written as int));
                assert((start + prior) + buffer@.take(written as int) =~= start + (prior + buffer@.take(written as int)));
            }
            match after_step(remaining == 0, written != 0, Operation::Finish) {
                Ok(last) => {
                    if last {
                        proof {
                            if self.wf() {
                                assert(is_frame_of(prior + buffer@.take(written as int), data));
                            }
                        }
                        return Ok(output);
                    }
                },
                Err(e) => {
                    return Err(e);
                },
            }
            if steps == u64::MAX {
                return Err(no_progress(Operation::Finish));
            }
            steps += 1;
        }
    }
}

/// What `write` leaves behind where it takes the bytes.
pub open spec fn wrote<W: OutputFile>(
    before: JavaCompatibleZstdEncoder<W>,
    after: JavaCompatibleZstdEncoder<W>,
    chunk: Seq<u8>,
) -> bool {
    &&& after.level() == before.level()
    &&& before.wf() ==> after.wf() && after.data() == before.data() + chunk && after.front() == before.front()
    &&& before.wf() && before.is_plain() ==> after.is_plain()
}

proof fn lemma_chunks_written<W: OutputFile>(states: Seq<JavaCompatibleZstdEncoder<W>>, chunks: Seq<Seq<u8>>)
    requires
        states.len() == chunks.len() + 1,
        states[0].wf(),
        states[0].is_plain(),
        forall|i: int| 0 <= i < chunks.len() ==> wrote(states[i], states[i + 1], #[trigger] chunks[i]),
    ensures
        states.last().wf(),
        states.last().is_plain(),
        states.last().level() == states[0].level(),
        states.last().front() == states[0].front(),
        states.last().data() == states[0].data() + chunks.flatten(),
    decreases chunks.len(),
{
    if chunks.len() == 0 {
        assert(chunks =~= Seq::empty());
        assert(states[0].data() + chunks.flatten() =~= states[0].data());
    } else {
        let n = chunks.len() - 1;
        lemma_chunks_written(states.drop_last(), chunks.drop_last());
        assert(wrote(states[n], states[n + 1], chunks[n]));
        chunks.lemma_flatten_and_flatten_alt_are_equivalent();
        chunks.drop_last().lemma_flatten_and_flatten_alt_are_equivalent();
        assert(states[0].data() + chunks.drop_last().flatten() + chunks[n] =~= states[0].data() + chunks.flatten());
    }
}

/// The bytes of a frame do not depend on how the input was cut: two new encoders at one level that
/// were written the same bytes, in whatever chunks, end in the same frame.
pub proof fn chunks_do_not_change_the_frame<V: OutputFile, W: OutputFile>(
    one: Seq<JavaCompatibleZstdEncoder<V>>,
    one_chunks: Seq<Seq<u8>>,
    one_output: V,
    other: Seq<JavaCompatibleZstdEncoder<W>>,
    other_chunks: Seq<Seq<u8>>,
    other_output: W,
)
    requires
        one.len() == one_chunks.len() + 1,
        one[0].wf(),
        one[0].is_plain(),
        one[0].data() == Seq::<u8>::empty(),
        forall|i: int| 0 <= i < one_chunks.len() ==> wrote(one[i], one[i + 1], #[trigger] one_chunks[i]),
        one.last().is_ended_in(&one_output),
        other.len() == other_chunks.len() + 1,
        other[0].wf(),
        other[0].is_plain(),
        other[0].data() == Seq::<u8>::empty(),
        forall|i: int| 0 <= i < other_chunks.len() ==> wrote(other[i], other[i + 1], #[trigger] other_chunks[i]),
        other.last().is_ended_in(&other_output),
        one[0].level() == other[0].level(),
        one_chunks.flatten() == other_chunks.flatten(),
    ensures
        exists|frame: Seq<u8>|
            one_output.written() == one[0].front() + frame && #[trigger] (other[0].front() + frame) == other_output.written(),
{
    lemma_chunks_written(one, one_chunks);
    lemma_chunks_written(other, other_chunks);
    let data = one_chunks.flatten();
    assert(Seq::<u8>::empty() + data =~= data);
    let frame = stream_frame(data, one[0].level()->0 as int);
    assert(other[0].front() + frame == other_output.written());
}

} // verus!
