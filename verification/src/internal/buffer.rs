//! A cache that hands out a generated block byte by byte.
use crate::bytes::{byte_of_word, seq_le_bytes};
use vstd::prelude::*;
use vstd::std_specs::cmp::PartialEqSpecImpl;

verus! {

/// A cache of one generated block of `SIZE` bytes with a read cursor.
///
/// The bytes before the cursor have been handed out; the bytes from the
/// cursor on are still available. A cursor equal to `SIZE` means that the
/// cache is empty and has to be refilled before the next read.
#[derive(Clone, Copy, Debug)]
pub struct EntropyBuffer<const SIZE: usize> {
    buffer: [u8; SIZE],
    cursor: usize,
}

/// How many fresh blocks of `size` bytes a read of `wanted` bytes pulls in
/// when `available` bytes are still cached.
pub open spec fn refills_needed(available: nat, wanted: nat, size: nat) -> nat {
    if wanted <= available || size == 0 {
        0
    } else {
        ((wanted - available + size - 1) / (size as int)) as nat
    }
}

/// Block `k` of a byte stream cut into blocks of `size` bytes.
pub open spec fn chunk(stream: Seq<u8>, k: int, size: int) -> Seq<u8> {
    stream.subrange(k * size, (k + 1) * size)
}

/// Whether `count` blocks of `size` bytes cover what a read of `wanted`
/// bytes is missing when `available` bytes are cached, with no block to
/// spare.
pub open spec fn is_refill_count(available: int, wanted: int, size: int, count: int) -> bool {
    if wanted <= available {
        count == 0
    } else {
        (count - 1) * size < wanted - available <= count * size
    }
}

/// The number of refills in closed form is the only number that covers
/// what a read is missing with nothing to spare.
pub proof fn lemma_refills_needed(available: nat, wanted: nat, size: nat, count: int)
    requires
        size > 0,
    ensures
        is_refill_count(available as int, wanted as int, size as int, count) <==> count
            == refills_needed(available, wanted, size),
{
    if wanted > available {
        let missing = wanted - available;
        let needed = (missing + size - 1) / (size as int);
        vstd::arithmetic::div_mod::lemma_fundamental_div_mod(missing + size - 1, size as int);
        assert(size * needed == needed * size) by (nonlinear_arith);
        assert((needed - 1) * size == needed * size - size) by (nonlinear_arith);
        if count < needed {
            assert(count * size <= (needed - 1) * size) by (nonlinear_arith)
                requires
                    count <= needed - 1,
                    size > 0,
            ;
        }
        if count > needed {
            assert((count - 1) * size >= needed * size) by (nonlinear_arith)
                requires
                    count - 1 >= needed,
                    size > 0,
            ;
        }
    }
}

/// Whether `stream` is `count` blocks in a row, each one a block that a
/// call of `source` may return.
pub open spec fn drawn_from<const SIZE: usize, S: Fn() -> [u8; SIZE]>(
    source: S,
    stream: Seq<u8>,
    count: int,
) -> bool {
    &&& count >= 0
    &&& stream.len() == count * SIZE
    &&& forall|k: int|
        0 <= k < count ==> exists|block: [u8; SIZE]|
            call_ensures(source, (), block) && block@ == #[trigger] chunk(stream, k, SIZE as int)
}

impl<const SIZE: usize> EntropyBuffer<SIZE> {
    #[verifier::type_invariant]
    spec fn cursor_in_range(self) -> bool {
        self.cursor <= SIZE
    }

    /// The cached block, consumed part included.
    pub closed spec fn bytes(self) -> Seq<u8> {
        self.buffer@
    }

    /// The number of bytes already handed out of the cached block.
    pub closed spec fn position(self) -> nat {
        self.cursor as nat
    }

    /// The bytes that have not been handed out yet.
    pub open spec fn available(self) -> Seq<u8> {
        self.bytes().subrange(self.position() as int, SIZE as int)
    }

    /// Whether a read that fills `output` takes this buffer to `after`,
    /// with `stream` being the fresh blocks that `source` gave on the way:
    /// as many blocks as the read needs, handed out behind what was cached,
    /// with the rest of the last block left in the cache.
    pub open spec fn reads<S: Fn() -> [u8; SIZE]>(
        self,
        after: Self,
        source: S,
        stream: Seq<u8>,
        output: Seq<u8>,
    ) -> bool {
        let count = refills_needed(self.available().len(), output.len(), SIZE as nat);
        &&& drawn_from(source, stream, count as int)
        &&& output == (self.available() + stream).take(output.len() as int)
        &&& after.available() == (self.available() + stream).skip(output.len() as int)
        &&& after.bytes() == if count == 0 {
            self.bytes()
        } else {
            chunk(stream, count - 1, SIZE as int)
        }
    }

    /// Restores a buffer from its parts.
    pub fn from_serde(buffer: [u8; SIZE], cursor: usize) -> (restored: Self)
        requires
            cursor <= SIZE,
        ensures
            restored.bytes() == buffer@,
            restored.position() == cursor,
    {
        Self { buffer, cursor }
    }

    /// Creates an empty buffer: its first read asks for a fresh block.
    pub fn new() -> (created: Self)
        ensures
            created.position() == SIZE,
            created.bytes() == Seq::new(SIZE as nat, |i: int| 0u8),
    {
        let created = Self { buffer: [0u8; SIZE], cursor: SIZE };
        assert(created.buffer@ =~= Seq::new(SIZE as nat, |i: int| 0u8));
        created
    }

    /// The number of bytes that the buffer can hold.
    pub fn total_bytes() -> (total: usize)
        ensures
            total == SIZE,
    {
        SIZE
    }

    /// The cached block.
    pub fn get_buffer(&self) -> (buffer: &[u8; SIZE])
        ensures
            buffer@ == self.bytes(),
    {
        &self.buffer
    }

    /// The position of the next byte to hand out.
    pub fn get_cursor(&self) -> (cursor: usize)
        ensures
            cursor == self.position(),
            cursor <= SIZE,
    {
        proof {
            use_type_invariant(self);
        }
        self.cursor
    }

    /// Whether every cached byte has been handed out.
    pub fn is_empty(&self) -> (empty: bool)
        ensures
            empty == (self.position() == SIZE),
            self.position() <= SIZE,
            self.available().len() == SIZE - self.position(),
    {
        proof {
            use_type_invariant(self);
        }
        SIZE == self.cursor
    }

    /// The number of bytes that can be read before a refill.
    pub fn remaining_buffer(&self) -> (remaining: usize)
        ensures
            remaining == SIZE - self.position(),
            remaining == self.available().len(),
    {
        proof {
            use_type_invariant(self);
        }
        SIZE - self.cursor
    }

    /// Replaces the cached block and moves the cursor to its start.
    pub fn update_entropy(&mut self, buffer: [u8; SIZE])
        ensures
            final(self).bytes() == buffer@,
            final(self).position() == 0,
    {
        *self = Self { buffer, cursor: 0 };
    }

    /// Replaces the cached block by the little-endian bytes of `words` and
    /// moves the cursor to its start.
    pub fn reset_buffer(&mut self, words: &[u32])
        requires
            words@.len() * 4 == SIZE,
        ensures
            final(self).bytes() == seq_le_bytes(words@),
            final(self).position() == 0,
    {
        let mut buffer = [0u8; SIZE];
        let mut i: usize = 0;
        while i < SIZE
            invariant
                i <= SIZE,
                words@.len() * 4 == SIZE,
                forall|k: int| 0 <= k < i ==> buffer@[k] == seq_le_bytes(words@)[k],
            decreases SIZE - i,
        {
            buffer[i] = byte_of_word(words[i / 4], i % 4);
            i += 1;
        }
        assert(buffer@ =~= seq_le_bytes(words@));
        *self = Self { buffer, cursor: 0 };
    }

    /// Copies cached bytes into `output` from index `start` on, as many as
    /// are cached and fit, and returns how many were copied.
    pub fn fill_from(&mut self, output: &mut [u8], start: usize) -> (length: usize)
        requires
            start <= old(output)@.len(),
        ensures
            length == vstd::math::min(
                old(output)@.len() - start,
                old(self).available().len() as int,
            ),
            final(output)@ == old(output)@.subrange(0, start as int) + old(self).available().take(
                length as int,
            ) + old(output)@.skip(start + length),
            final(self).bytes() == old(self).bytes(),
            final(self).position() == old(self).position() + length,
            final(self).available() == old(self).available().skip(length as int),
    {
        proof {
            use_type_invariant(&*self);
        }
        let room = output.len() - start;
        let remaining = SIZE - self.cursor;
        let length = if room < remaining {
            room
        } else {
            remaining
        };
        let cursor = self.cursor;
        let mut i: usize = 0;
        while i < length
            invariant
                i <= length,
                cursor + length <= SIZE,
                start + length <= output@.len() <= usize::MAX,
                output@.len() == old(output)@.len(),
                cursor == self.cursor,
                *self == *old(self),
                forall|k: int| 0 <= k < start ==> output@[k] == old(output)@[k],
                forall|k: int|
                    start <= k < start + i ==> #[trigger] output@[k] == self.buffer@[cursor + k
                        - start],
                forall|k: int| start + i <= k < output@.len() ==> output@[k] == old(output)@[k],
            decreases length - i,
        {
            output[start + i] = self.buffer[cursor + i];
            i += 1;
        }
        self.cursor = cursor + length;
        assert(output@ =~= old(output)@.subrange(0, start as int) + old(self).available().take(
            length as int,
        ) + old(output)@.skip(start + length));
        assert(self.available() =~= old(self).available().skip(length as int));
        length
    }

    /// Fills the front of `output` with cached bytes, as many as are cached
    /// and fit, and returns how many were copied.
    pub fn fill(&mut self, output: &mut [u8]) -> (length: usize)
        ensures
            length == vstd::math::min(
                old(output)@.len() as int,
                old(self).available().len() as int,
            ),
            final(output)@ == old(self).available().take(length as int) + old(output)@.skip(
                length as int,
            ),
            final(self).bytes() == old(self).bytes(),
            final(self).position() == old(self).position() + length,
            final(self).available() == old(self).available().skip(length as int),
    {
        let length = self.fill_from(output, 0);
        assert(old(output)@.subrange(0, 0) + old(self).available().take(length as int) =~= old(
            self,
        ).available().take(length as int));
        length
    }

    /// Fills `output` with entropy: first with what is cached, then with
    /// fresh blocks pulled from `source` each time the cache runs empty. A
    /// fresh block replaces the cache as a whole, and what the read leaves
    /// of the last block stays cached for the next one.
    pub fn fill_bytes_with_source<S: Fn() -> [u8; SIZE]>(&mut self, output: &mut [u8], source: S)
        requires
            SIZE > 0,
            call_requires(source, ()),
        ensures
            final(output)@.len() == old(output)@.len(),
            exists|stream: Seq<u8>|
                #[trigger] old(self).reads(*final(self), source, stream, final(output)@),
    {
        let total = output.len();
        let mut written: usize = 0;
        let ghost cached = self.available();
        let ghost mut stream: Seq<u8> = Seq::empty();
        let ghost mut count: int = 0;
        proof {
            use_type_invariant(&*self);
            assert(cached + stream =~= cached);
            assert(self.available() =~= (cached + stream).skip(0));
        }
        while written < total
            invariant
                SIZE > 0,
                call_requires(source, ()),
                written <= total,
                total == output@.len(),
                total == old(output)@.len(),
                cached == old(self).available(),
                cached.len() <= SIZE,
                drawn_from(source, stream, count),
                is_refill_count(cached.len() as int, written as int, SIZE as int, count),
                written <= cached.len() + stream.len(),
                output@.take(written as int) == (cached + stream).take(written as int),
                self.available() == (cached + stream).skip(written as int),
                self.bytes() == if count == 0 {
                    old(self).bytes()
                } else {
                    chunk(stream, count - 1, SIZE as int)
                },
            decreases total - written,
        {
            if self.is_empty() {
                proof {
                    assert(self.available().len() == 0);
                    assert((cached + stream).skip(written as int).len() == cached.len()
                        + stream.len() - written);
                }
                let block = source();
                self.update_entropy(block);
                proof {
                    let longer = stream + block@;
                    assert(written == cached.len() + stream.len());
                    assert(count * SIZE + SIZE == (count + 1) * SIZE) by (nonlinear_arith);
                    assert forall|k: int| 0 <= k < count + 1 implies exists|b: [u8; SIZE]|
                        call_ensures(source, (), b) && b@ == #[trigger] chunk(
                            longer,
                            k,
                            SIZE as int,
                        ) by {
                        if k < count {
                            assert(k * SIZE + SIZE <= count * SIZE) by (nonlinear_arith)
                                requires
                                    0 <= k < count,
                                    SIZE > 0,
                            ;
                            assert(k * SIZE + SIZE == (k + 1) * SIZE) by (nonlinear_arith);
                            assert(0 <= k * SIZE) by (nonlinear_arith)
                                requires
                                    0 <= k,
                                    SIZE > 0,
                            ;
                            assert(chunk(longer, k, SIZE as int) =~= chunk(stream, k, SIZE as int));
                            let b = choose|b: [u8; SIZE]|
                                call_ensures(source, (), b) && b@ == chunk(stream, k, SIZE as int);
                            assert(call_ensures(source, (), b) && b@ == chunk(
                                longer,
                                k,
                                SIZE as int,
                            ));
                        } else {
                            assert(chunk(longer, k, SIZE as int) =~= block@);
                        }
                    }
                    assert(chunk(longer, count, SIZE as int) =~= block@);
                    assert(self.available() =~= (cached + longer).skip(written as int));
                    assert((cached + longer).take(written as int) =~= (cached + stream).take(
                        written as int,
                    ));
                    stream = longer;
                    count = count + 1;
                }
            }
            let ghost before = output@;
            let ghost ready = self.available();
            let filled = self.fill_from(output, written);
            proof {
                let all = cached + stream;
                assert(filled >= 1);
                assert(output@.take(written + filled) =~= all.take(written + filled)) by {
                    assert(before.subrange(0, written as int) == before.take(written as int));
                    assert forall|i: int| 0 <= i < written + filled implies #[trigger] output@[i]
                        == all[i] by {
                        if i < written {
                            assert(output@[i] == before.take(written as int)[i]);
                            assert(all.take(written as int)[i] == all[i]);
                        } else {
                            assert(output@[i] == ready.take(filled as int)[i - written]);
                            assert(ready[i - written] == all.skip(written as int)[i - written]);
                        }
                    }
                }
                assert(self.available() =~= all.skip(written + filled));
                if count > 0 {
                    assert((count - 1) * SIZE + SIZE == count * SIZE) by (nonlinear_arith);
                }
            }
            written += filled;
        }
        proof {
            assert(output@.take(total as int) =~= output@);
            lemma_refills_needed(cached.len(), total as nat, SIZE as nat, count);
            assert(old(self).reads(*self, source, stream, output@));
        }
    }

    /// Drops whatever is cached: the block is zeroed and the next read asks
    /// for a fresh one.
    pub fn empty_buffer(&mut self)
        ensures
            final(self).position() == SIZE,
            final(self).bytes() == Seq::new(SIZE as nat, |i: int| 0u8),
    {
        *self = Self::new();
    }
}

/// Block `k` of two streams of whole blocks in a row is a block of the
/// first stream, or of the second behind it.
pub proof fn lemma_chunk_of_two(first: Seq<u8>, second: Seq<u8>, heads: int, tails: int, k: int, size: int)
    requires
        size > 0,
        heads >= 0,
        tails >= 0,
        first.len() == heads * size,
        second.len() == tails * size,
        0 <= k < heads + tails,
    ensures
        chunk(first + second, k, size) == if k < heads {
            chunk(first, k, size)
        } else {
            chunk(second, k - heads, size)
        },
{
    assert((heads + tails) * size == heads * size + tails * size) by (nonlinear_arith);
    assert((k + 1) * size == k * size + size) by (nonlinear_arith);
    assert(0 <= k * size) by (nonlinear_arith)
        requires
            k >= 0,
            size > 0,
    ;
    assert((k + 1) * size <= (heads + tails) * size) by (nonlinear_arith)
        requires
            k + 1 <= heads + tails,
            size > 0,
    ;
    if k < heads {
        assert((k + 1) * size <= heads * size) by (nonlinear_arith)
            requires
                k + 1 <= heads,
                size > 0,
        ;
        assert(chunk(first + second, k, size) =~= chunk(first, k, size));
    } else {
        assert(k * size >= heads * size) by (nonlinear_arith)
            requires
                k >= heads,
                size > 0,
        ;
        assert((k - heads) * size == k * size - heads * size) by (nonlinear_arith);
        assert((k - heads + 1) * size == (k + 1) * size - heads * size) by (nonlinear_arith);
        assert(chunk(first + second, k, size) =~= chunk(second, k - heads, size));
    }
}

/// Reads concatenate: where one read takes a buffer from `start` to
/// `middle` and a second one takes it on to `end`, one read of both
/// outputs in a row takes it from `start` to `end`, on the blocks of both
/// reads in a row. No byte is handed out twice and none is skipped,
/// however the reads fall on the blocks.
pub proof fn lemma_buffer_reads_concatenate<const SIZE: usize, S: Fn() -> [u8; SIZE]>(
    start: EntropyBuffer<SIZE>,
    middle: EntropyBuffer<SIZE>,
    end: EntropyBuffer<SIZE>,
    source: S,
    first_stream: Seq<u8>,
    second_stream: Seq<u8>,
    first: Seq<u8>,
    second: Seq<u8>,
)
    requires
        SIZE > 0,
        start.position() <= SIZE,
        start.reads(middle, source, first_stream, first),
        middle.reads(end, source, second_stream, second),
    ensures
        start.reads(end, source, first_stream + second_stream, first + second),
{
    let size = SIZE as int;
    let cached = start.available();
    let heads = refills_needed(cached.len(), first.len(), SIZE as nat) as int;
    lemma_refills_needed(cached.len(), first.len(), SIZE as nat, heads);
    let left = middle.available();
    assert(left.len() == cached.len() + heads * size - first.len());
    let tails = refills_needed(left.len(), second.len(), SIZE as nat) as int;
    lemma_refills_needed(left.len(), second.len(), SIZE as nat, tails);
    assert((heads + tails) * size == heads * size + tails * size) by (nonlinear_arith);
    assert((heads + tails - 1) * size == heads * size + tails * size - size) by (nonlinear_arith);
    assert((heads - 1) * size == heads * size - size) by (nonlinear_arith);
    assert((tails - 1) * size == tails * size - size) by (nonlinear_arith);
    assert(is_refill_count(
        cached.len() as int,
        (first.len() + second.len()) as int,
        size,
        heads + tails,
    ));
    lemma_refills_needed(cached.len(), first.len() + second.len(), SIZE as nat, heads + tails);
    let stream = first_stream + second_stream;
    assert forall|k: int| 0 <= k < heads + tails implies exists|block: [u8; SIZE]|
        call_ensures(source, (), block) && block@ == #[trigger] chunk(stream, k, size) by {
        lemma_chunk_of_two(first_stream, second_stream, heads, tails, k, size);
        if k < heads {
            let block = choose|block: [u8; SIZE]|
                call_ensures(source, (), block) && block@ == chunk(first_stream, k, size);
            assert(block@ == chunk(stream, k, size));
        } else {
            let block = choose|block: [u8; SIZE]|
                call_ensures(source, (), block) && block@ == chunk(
                    second_stream,
                    k - heads,
                    size,
                );
            assert(block@ == chunk(stream, k, size));
        }
    }
    assert(drawn_from(source, stream, heads + tails));
    let all = cached + stream;
    assert(all =~= first + (left + second_stream));
    assert((first + second) =~= all.take((first.len() + second.len()) as int));
    assert(end.available() =~= all.skip((first.len() + second.len()) as int));
    if tails > 0 {
        lemma_chunk_of_two(first_stream, second_stream, heads, tails, heads + tails - 1, size);
    } else if heads > 0 {
        lemma_chunk_of_two(first_stream, second_stream, heads, tails, heads - 1, size);
    }
}

impl<const SIZE: usize> Default for EntropyBuffer<SIZE> {
    /// Creates an empty buffer.
    fn default() -> (created: Self)
        ensures
            created.position() == SIZE,
            created.bytes() == Seq::new(SIZE as nat, |i: int| 0u8),
    {
        Self::new()
    }
}

impl<const SIZE: usize> PartialEq for EntropyBuffer<SIZE> {
    fn eq(&self, other: &Self) -> (equal: bool) {
        if self.cursor != other.cursor {
            return false;
        }
        let mut i: usize = 0;
        while i < SIZE
            invariant
                i <= SIZE,
                forall|k: int| 0 <= k < i ==> self.buffer@[k] == other.buffer@[k],
            decreases SIZE - i,
        {
            if self.buffer[i] != other.buffer[i] {
                return false;
            }
            i += 1;
        }
        assert(self.buffer@ =~= other.buffer@);
        true
    }
}

impl<const SIZE: usize> Eq for EntropyBuffer<SIZE> {

}

impl<const SIZE: usize> PartialEqSpecImpl for EntropyBuffer<SIZE> {
    open spec fn obeys_eq_spec() -> bool {
        true
    }

    open spec fn eq_spec(&self, other: &Self) -> bool {
        self.bytes() == other.bytes() && self.position() == other.position()
    }
}

} // verus!
