//! zlib streams.

use flate2::{Compress, Compression, Decompress, FlushCompress, FlushDecompress};
use vstd::prelude::*;

use crate::bytes::push_all;

verus! {

/// `flate2::Compress`, a zlib stream that is being written.
#[verifier::external_type_specification]
#[verifier::external_body]
pub struct ExCompress(Compress);

/// Everything a zlib stream has read since it was opened.
pub uninterp spec fn consumed_of(c: Compress) -> Seq<u8>;

/// Everything a zlib stream has written since it was opened.
pub uninterp spec fn produced_of(c: Compress) -> Seq<u8>;

/// Whether a zlib stream returned an error when it was last used.
pub uninterp spec fn failed_of(c: Compress) -> bool;

/// Whether a zlib stream has compressed something that it has had no room to
/// write.
pub uninterp spec fn pending_of(c: Compress) -> bool;

/// What a new `Decompress` for a zlib stream writes in one call, when it is given
/// `z` and room for `max` bytes.
pub uninterp spec fn inflated(z: Seq<u8>, max: int) -> Seq<u8>;

/// Whether a decompressor makes `s` of `z`.
pub open spec fn decompresses_to(z: Seq<u8>, s: Seq<u8>) -> bool {
    forall|max: int| max >= s.len() ==> #[trigger] inflated(z, max) == s
}

/// Whether a zlib stream goes no further with `n` bytes: it returned an error, or
/// what it would read or write, in steps of at least 4096 bytes, is more than it
/// can count in 64 bits.
pub open spec fn stuck(c: Compress, n: int) -> bool {
    let step = if n < 4096 {
        4096
    } else {
        n
    };
    ||| failed_of(c)
    ||| consumed_of(c).len() + step > u64::MAX
    ||| produced_of(c).len() + step > u64::MAX
}

/// Whether `z` is what a zlib stream of its own wrote when it was given `data`:
/// all of it where `complete`, else as far as the stream went before it got
/// stuck.
pub open spec fn deflated(data: Seq<u8>, z: Seq<u8>, complete: bool) -> bool {
    exists|c: Compress|
        {
            &&& #[trigger] produced_of(c) == z
            &&& consumed_of(c).is_prefix_of(data)
            &&& if complete {
                !failed_of(c) && !pending_of(c) && consumed_of(c) == data
            } else {
                stuck(c, data.len() as int)
            }
        }
}

/// `Decompress::new` with a zlib header and one call of `Decompress::decompress`
/// with room for `max` bytes: as many bytes as `Decompress::total_out` counts.
/// They are there whether or not the call returned `Ok`.
#[verifier::external_body]
pub(crate) fn inflate(z: &[u8], max: usize) -> (v: Vec<u8>)
    ensures
        v@ == inflated(z@, max as int),
        v@.len() <= max,
{
    let mut v = vec![0; max];
    let mut d = Decompress::new(true);
    let _ = d.decompress(z, v.as_mut_slice(), FlushDecompress::None);
    v.truncate(d.total_out() as usize);
    v
}

/// `Compress::new` with `Compression::new(level)` and a zlib header: a stream
/// that has read and written nothing, has not failed and has nothing waiting.
#[verifier::external_body]
pub(crate) fn open_stream(level: u32) -> (c: Compress)
    requires
        1 <= level <= 9,
    ensures
        consumed_of(c) == Seq::<u8>::empty(),
        produced_of(c) == Seq::<u8>::empty(),
        !failed_of(c),
        !pending_of(c),
{
    Compress::new(Compression::new(level), true)
}

/// `Compress::total_in`: how many bytes the stream has read.
pub assume_specification[ Compress::total_in ](c: &Compress) -> (n: u64)
    ensures
        n == consumed_of(*c).len(),
;

/// `Compress::total_out`: how many bytes the stream has written.
pub assume_specification[ Compress::total_out ](c: &Compress) -> (n: u64)
    ensures
        n == produced_of(*c).len(),
;

/// `Compress::compress` with `FlushCompress::Sync`; `ok` is whether it
/// returned `Ok`, and the stream has failed if it did not. On which inputs it
/// fails is not said.
///
/// The stream reads some of the front of `input` and writes to the front of
/// `output`. Something stays waiting to be written only where `output` is full.
/// What was waiting before is written first, and where there is no input that is
/// all that happens. Else, when the call succeeds and leaves room in `output`, the
/// stream has read all of `input`, and because it was flushed, what it has
/// written so far decompresses to all that it has read. The stream counts its
/// bytes in 64 bits.
#[verifier::external_body]
fn compress_sync(c: &mut Compress, input: &[u8], output: &mut Vec<u8>) -> (ok: bool)
    requires
        consumed_of(*old(c)).len() + input@.len() <= u64::MAX,
        produced_of(*old(c)).len() + old(output)@.len() <= u64::MAX,
    ensures
        final(output)@.len() == old(output)@.len(),
        ok == !failed_of(*final(c)),
        consumed_of(*old(c)).len() <= consumed_of(*final(c)).len() <= consumed_of(*old(c)).len()
            + input@.len(),
        consumed_of(*final(c)) == consumed_of(*old(c)) + input@.take(
            consumed_of(*final(c)).len() - consumed_of(*old(c)).len(),
        ),
        produced_of(*old(c)).len() <= produced_of(*final(c)).len() <= produced_of(*old(c)).len()
            + final(output)@.len(),
        produced_of(*final(c)) == produced_of(*old(c)) + final(output)@.take(
            produced_of(*final(c)).len() - produced_of(*old(c)).len(),
        ),
        ok && produced_of(*final(c)).len() < produced_of(*old(c)).len() + final(output)@.len() ==> {
            &&& !pending_of(*final(c))
            &&& consumed_of(*final(c)) == consumed_of(*old(c)) + input@
            &&& !pending_of(*old(c)) || input@.len() > 0 ==> decompresses_to(
                produced_of(*final(c)),
                consumed_of(*final(c)),
            )
        },
{
    c.compress(input, output.as_mut_slice(), FlushCompress::Sync).is_ok()
}

/// Put bytes through a zlib stream and flush it; what the stream wrote is given
/// back.
///
/// The stream is used until it has taken everything, returns an error or has run
/// out of the 64 bits in which it counts; `r.1` says whether it took everything.
/// A call without input may only have written what was waiting, so it is followed
/// by another unless nothing was; `flushed` says that nothing is waiting yet.
pub(crate) fn compress_all(comp: &mut Compress, flushed: bool, raw: &[u8]) -> (r: (Vec<u8>, bool))
    requires
        flushed ==> !pending_of(*old(comp)),
    ensures
        produced_of(*final(comp)) == produced_of(*old(comp)) + r.0@,
        consumed_of(*old(comp)).is_prefix_of(consumed_of(*final(comp))),
        consumed_of(*final(comp)).skip(consumed_of(*old(comp)).len() as int).is_prefix_of(raw@),
        r.1 ==> consumed_of(*final(comp)) == consumed_of(*old(comp)) + raw@,
        r.1 ==> decompresses_to(produced_of(*final(comp)), consumed_of(*final(comp))),
        r.1 ==> !failed_of(*final(comp)) && !pending_of(*final(comp)),
        !r.1 ==> stuck(*final(comp), raw@.len() as int),
{
    let size: usize = if raw.len() < 4096 {
        4096
    } else {
        raw.len()
    };
    let mut chunk: Vec<u8> = vec![0; size];
    let mut zbuf: Vec<u8> = Vec::new();
    let mut done: usize = 0;
    let mut complete: bool = false;
    let mut stopped: bool = false;
    // Nothing waits to be written.
    let mut clear: bool = flushed;
    assert(consumed_of(*comp) =~= consumed_of(*old(comp)) + raw@.take(0));
    assert(produced_of(*comp) =~= produced_of(*old(comp)) + zbuf@);
    while !complete && !stopped
        invariant
            chunk@.len() == size,
            size == (if raw@.len() < 4096 {
                4096
            } else {
                raw@.len()
            }),
            done <= raw@.len(),
            consumed_of(*comp) == consumed_of(*old(comp)) + raw@.take(done as int),
            produced_of(*comp) == produced_of(*old(comp)) + zbuf@,
            complete ==> done == raw@.len(),
            complete ==> decompresses_to(produced_of(*comp), consumed_of(*comp)),
            complete ==> !failed_of(*comp) && !pending_of(*comp),
            clear ==> !pending_of(*comp),
            stopped ==> !complete && stuck(*comp, raw@.len() as int),
        decreases
                (if complete || stopped {
                    0
                } else {
                    1 + u64::MAX - produced_of(*comp).len()
                }),
                (if clear {
                    0int
                } else {
                    1
                }),
    {
        let in0: u64 = comp.total_in();
        let out0: u64 = comp.total_out();
        let left: usize = raw.len() - done;
        if left as u64 > u64::MAX - in0 || size as u64 > u64::MAX - out0 {
            stopped = true;
        } else {
            let ghost seen = zbuf@;
            let ghost was = done as int;
            let rest: &[u8] = &raw[done..raw.len()];
            let ok: bool = compress_sync(comp, rest, &mut chunk);
            let produced: usize = (comp.total_out() - out0) as usize;
            let consumed: usize = (comp.total_in() - in0) as usize;
            done = done + consumed;
            push_all(&mut zbuf, &chunk.as_slice()[0..produced]);
            proof {
                assert(zbuf@ =~= seen + chunk@.take(produced as int));
                assert(produced_of(*comp) =~= produced_of(*old(comp)) + zbuf@);
                assert(raw@.take(done as int) =~= raw@.take(was) + rest@.take(consumed as int));
                assert(consumed_of(*comp) =~= consumed_of(*old(comp)) + raw@.take(done as int));
            }
            let room: bool = ok && produced < size;
            complete = room && (clear || left > 0);
            clear = room;
            stopped = !ok;
        }
    }
    proof {
        assert(consumed_of(*comp).skip(consumed_of(*old(comp)).len() as int) =~= raw@.take(
            done as int,
        ));
        assert(raw@.take(raw@.len() as int) =~= raw@);
    }
    (zbuf, complete)
}

/// Bytes as a zlib stream of their own, and whether the compressor took all of
/// them.
pub(crate) fn deflate(data: &[u8]) -> (r: (Vec<u8>, bool))
    ensures
        r.1 ==> decompresses_to(r.0@, data@),
        deflated(data@, r.0@, r.1),
{
    let mut comp = open_stream(6);
    let r: (Vec<u8>, bool) = compress_all(&mut comp, true, data);
    assert(produced_of(comp) =~= r.0@);
    assert(consumed_of(comp).skip(0) =~= consumed_of(comp));
    assert(r.1 ==> consumed_of(comp) =~= data@);
    r
}

} // verus!
