//! Memory transfers, cut into chunks that the core can serve.

use vstd::prelude::*;
use vstd::slice::{slice_subrange, slice_to_vec};

verus! {

/// The largest number of bytes in one request to the core.
pub const CHUNK: usize = 0x400;

/// One request to the core.
#[derive(Debug, Clone, Copy, PartialEq, Eq, Structural)]
pub struct Chunk {
    /// Address of the first byte.
    pub addr: u64,
    /// Number of bytes.
    pub len: usize,
}

/// The number of bytes in the request for what is left of a transfer.
pub open spec fn request_len(left: int) -> int {
    if left < CHUNK {
        left
    } else {
        CHUNK as int
    }
}

/// A transfer of consecutive bytes between a buffer and the memory of the core.
///
/// Whoever runs it makes the request that [`Transfer::next_chunk`] names, with the bytes
/// of [`Transfer::payload`] where it writes. It then reports what was read with
/// [`Transfer::store`], or what was written with [`Transfer::advance`], and goes on
/// until there is no next chunk.
#[derive(Debug)]
pub struct Transfer {
    start: u32,
    len: usize,
    done: usize,
}

impl Transfer {
    /// Address of the first byte of the transfer.
    pub closed spec fn start(self) -> u32 {
        self.start
    }

    /// Number of bytes of the whole transfer.
    pub closed spec fn len(self) -> usize {
        self.len
    }

    /// Number of bytes transferred so far.
    pub closed spec fn done(self) -> int {
        self.done as int
    }

    /// The addresses of the transfer fit in 64 bits, and it is not past its end.
    pub open spec fn wf(self) -> bool {
        &&& self.start() + self.len() <= u64::MAX
        &&& 0 <= self.done() <= self.len()
    }

    /// The number of bytes in the next request.
    pub open spec fn next_len(self) -> int {
        request_len(self.len() - self.done())
    }

    /// A transfer of `len` bytes from or to `start` on.
    pub fn new(start: u32, len: usize) -> (transfer: Self)
        requires
            start + len <= u64::MAX,
        ensures
            transfer.wf(),
            transfer.start() == start,
            transfer.len() == len,
            transfer.done() == 0,
    {
        Transfer { start, len, done: 0 }
    }

    /// The next request, or `None` at the end of the transfer.
    pub fn next_chunk(&self) -> (chunk: Option<Chunk>)
        requires
            self.wf(),
        ensures
            match chunk {
                Some(chunk) => self.done() < self.len() && chunk.addr == self.start() + self.done()
                    && chunk.len == self.next_len(),
                None => self.done() == self.len(),
            },
    {
        if self.done < self.len {
            let left: usize = self.len - self.done;
            let len: usize = if left < CHUNK {
                left
            } else {
                CHUNK
            };
            Some(Chunk { addr: self.start as u64 + self.done as u64, len })
        } else {
            None
        }
    }

    /// The bytes of the buffer that the next request writes.
    pub fn payload(&self, data: &[u8]) -> (bytes: Vec<u8>)
        requires
            self.wf(),
            data@.len() == self.len(),
        ensures
            bytes@ == data@.subrange(self.done(), self.done() + self.next_len()),
    {
        let left: usize = self.len - self.done;
        let len: usize = if left < CHUNK {
            left
        } else {
            CHUNK
        };
        slice_to_vec(slice_subrange(data, self.done, self.done + len))
    }

    /// Takes note that the next request was served.
    pub fn advance(&mut self)
        requires
            old(self).wf(),
        ensures
            final(self).wf(),
            final(self).start() == old(self).start(),
            final(self).len() == old(self).len(),
            final(self).done() == old(self).done() + old(self).next_len(),
    {
        let left: usize = self.len - self.done;
        if left < CHUNK {
            self.done = self.len;
        } else {
            self.done += CHUNK;
        }
    }

    /// Puts what the next request read into its place in the buffer, and takes note that
    /// it was served.
    pub fn store(&mut self, data: &mut [u8], bytes: &[u8])
        requires
            old(self).wf(),
            old(data)@.len() == old(self).len(),
            bytes@.len() == old(self).next_len(),
        ensures
            final(self).wf(),
            final(self).start() == old(self).start(),
            final(self).len() == old(self).len(),
            final(self).done() == old(self).done() + old(self).next_len(),
            final(data)@ == old(data)@.take(old(self).done()) + bytes@ + old(data)@.skip(
                final(self).done(),
            ),
    {
        let ghost given = data@;
        let from = self.done;
        let count = bytes.len();
        let mut i: usize = 0;
        while i < count
            invariant
                i <= count,
                count == bytes@.len(),
                from + count <= given.len() <= usize::MAX,
                data@.len() == given.len(),
                forall|k: int|
                    0 <= k < given.len() ==> #[trigger] data@[k] == if from <= k < from + i {
                        bytes@[k - from]
                    } else {
                        given[k]
                    },
            decreases count - i,
        {
            data[from + i] = bytes[i];
            i += 1;
        }
        self.advance();
        assert(data@ =~= given.take(from as int) + bytes@ + given.skip(from + count));
    }
}

/// The memory of the core after bytes were written from `addr` on.
pub open spec fn write_bytes(memory: Map<int, u8>, addr: int, bytes: Seq<u8>) -> Map<int, u8> {
    Map::new(
        |a: int| memory.contains_key(a) || addr <= a < addr + bytes.len(),
        |a: int|
            if addr <= a < addr + bytes.len() {
                bytes[a - addr]
            } else {
                memory[a]
            },
    )
}

/// The bytes that the memory of the core holds from `addr` on.
pub open spec fn read_bytes(memory: Map<int, u8>, addr: int, len: int) -> Seq<u8> {
    Seq::new(len as nat, |i: int| memory[addr + i])
}

/// The memory of the core after the requests that write a buffer, from the one at `done`
/// on.
pub open spec fn write_in_chunks(
    memory: Map<int, u8>,
    start: int,
    data: Seq<u8>,
    done: int,
) -> Map<int, u8>
    decreases data.len() - done,
{
    if 0 <= done < data.len() {
        let n = request_len(data.len() - done);
        write_in_chunks(
            write_bytes(memory, start + done, data.subrange(done, done + n)),
            start,
            data,
            done + n,
        )
    } else {
        memory
    }
}

/// A buffer after the requests that fill it from the memory of the core, from the one
/// at `done` on.
pub open spec fn read_in_chunks(
    memory: Map<int, u8>,
    start: int,
    data: Seq<u8>,
    done: int,
) -> Seq<u8>
    decreases data.len() - done,
{
    if 0 <= done < data.len() {
        let n = request_len(data.len() - done);
        let filled = data.take(done) + read_bytes(memory, start + done, n) + data.skip(done + n);
        read_in_chunks(memory, start, filled, done + n)
    } else {
        data
    }
}

proof fn lemma_write_rest(memory: Map<int, u8>, start: int, data: Seq<u8>, done: int)
    requires
        0 <= done <= data.len(),
    ensures
        write_in_chunks(memory, start, data, done) == write_bytes(
            memory,
            start + done,
            data.skip(done),
        ),
    decreases data.len() - done,
{
    let rest = data.skip(done);
    if done < data.len() {
        let n = request_len(data.len() - done);
        let next = write_bytes(memory, start + done, data.subrange(done, done + n));
        lemma_write_rest(next, start, data, done + n);
        assert(write_bytes(next, start + done + n, data.skip(done + n)) =~= write_bytes(
            memory,
            start + done,
            rest,
        ));
    } else {
        assert(write_bytes(memory, start + done, rest) =~= memory);
    }
}

proof fn lemma_read_rest(memory: Map<int, u8>, start: int, data: Seq<u8>, done: int)
    requires
        0 <= done <= data.len(),
    ensures
        read_in_chunks(memory, start, data, done) == data.take(done) + read_bytes(
            memory,
            start + done,
            data.len() - done,
        ),
    decreases data.len() - done,
{
    let whole = data.take(done) + read_bytes(memory, start + done, data.len() - done);
    if done < data.len() {
        let n = request_len(data.len() - done);
        let filled = data.take(done) + read_bytes(memory, start + done, n) + data.skip(done + n);
        assert(filled.len() == data.len());
        lemma_read_rest(memory, start, filled, done + n);
        assert(filled.take(done + n) + read_bytes(memory, start + (done + n), data.len() - (done
            + n)) =~= whole);
    } else {
        assert(whole =~= data);
    }
}

/// A buffer that is written in chunks is in memory as if it had been written at once.
pub proof fn law_chunks_write_the_whole_buffer(memory: Map<int, u8>, start: u32, data: Seq<u8>)
    ensures
        write_in_chunks(memory, start as int, data, 0) == write_bytes(memory, start as int, data),
{
    lemma_write_rest(memory, start as int, data, 0);
    assert(data.skip(0) =~= data);
}

/// A buffer that is filled in chunks holds what a single read of its size would give.
pub proof fn law_chunks_fill_the_whole_buffer(memory: Map<int, u8>, start: u32, data: Seq<u8>)
    ensures
        read_in_chunks(memory, start as int, data, 0) == read_bytes(
            memory,
            start as int,
            data.len() as int,
        ),
{
    lemma_read_rest(memory, start as int, data, 0);
    assert(data.take(0) + read_bytes(memory, start as int, data.len() as int) =~= read_bytes(
        memory,
        start as int,
        data.len() as int,
    ));
}

/// What was written in chunks is read back in chunks, from memory that keeps it.
pub proof fn law_written_bytes_are_read_back(
    memory: Map<int, u8>,
    start: u32,
    written: Seq<u8>,
    buffer: Seq<u8>,
)
    requires
        buffer.len() == written.len(),
    ensures
        read_in_chunks(
            write_in_chunks(memory, start as int, written, 0),
            start as int,
            buffer,
            0,
        ) == written,
{
    law_chunks_write_the_whole_buffer(memory, start, written);
    let after = write_bytes(memory, start as int, written);
    law_chunks_fill_the_whole_buffer(after, start, buffer);
    assert(read_bytes(after, start as int, written.len() as int) =~= written);
}

/// A request that was read and stored is one step of filling the buffer: what is left to
/// do for the new state of the transfer and of the buffer ends in the same buffer.
pub proof fn law_store_continues_the_read(
    memory: Map<int, u8>,
    before: Transfer,
    after: Transfer,
    data: Seq<u8>,
    bytes: Seq<u8>,
    stored: Seq<u8>,
)
    requires
        before.wf(),
        before.done() < before.len(),
        data.len() == before.len(),
        bytes == read_bytes(memory, before.start() + before.done(), before.next_len()),
        after.done() == before.done() + before.next_len(),
        stored == data.take(before.done()) + bytes + data.skip(after.done()),
    ensures
        read_in_chunks(memory, before.start() as int, data, before.done()) == read_in_chunks(
            memory,
            before.start() as int,
            stored,
            after.done(),
        ),
{
}

/// A request that was written is one step of writing the buffer: what is left to do for
/// the new state of the transfer and of the memory ends in the same memory.
pub proof fn law_advance_continues_the_write(
    memory: Map<int, u8>,
    before: Transfer,
    after: Transfer,
    data: Seq<u8>,
    payload: Seq<u8>,
)
    requires
        before.wf(),
        before.done() < before.len(),
        data.len() == before.len(),
        payload == data.subrange(before.done(), before.done() + before.next_len()),
        after.done() == before.done() + before.next_len(),
    ensures
        write_in_chunks(memory, before.start() as int, data, before.done()) == write_in_chunks(
            write_bytes(memory, before.start() + before.done(), payload),
            before.start() as int,
            data,
            after.done(),
        ),
{
}

/// Where a transfer has no next chunk, nothing is left to read or to write.
pub proof fn law_finished_transfer_has_nothing_left(
    memory: Map<int, u8>,
    transfer: Transfer,
    data: Seq<u8>,
)
    requires
        data.len() == transfer.len(),
        transfer.done() == transfer.len(),
    ensures
        read_in_chunks(memory, transfer.start() as int, data, transfer.done()) == data,
        write_in_chunks(memory, transfer.start() as int, data, transfer.done()) == memory,
{
}

/// No request is empty or larger than the core can serve, and none reaches past the end
/// of the transfer.
pub proof fn law_requests_are_bounded(transfer: Transfer)
    requires
        transfer.wf(),
        transfer.done() < transfer.len(),
    ensures
        0 < transfer.next_len() <= 0x400,
        transfer.done() + transfer.next_len() <= transfer.len(),
{
}

/// A request is cut short only by the end of the transfer: it covers 1 KiB, or all that is
/// left.
pub proof fn law_requests_are_as_large_as_possible(transfer: Transfer)
    requires
        transfer.wf(),
    ensures
        transfer.next_len() == 0x400 || transfer.done() + transfer.next_len() == transfer.len(),
        transfer.next_len() <= 0x400,
        transfer.done() <= transfer.done() + transfer.next_len() <= transfer.len(),
{
}

/// What is written in chunks holds every byte of the buffer at its address, counted from
/// the start of the transfer, and changes nothing else.
pub proof fn law_every_byte_is_written_at_its_address(
    memory: Map<int, u8>,
    start: u32,
    data: Seq<u8>,
    place: int,
)
    ensures
        ({
            let after = write_in_chunks(memory, start as int, data, 0);
            if start <= place < start + data.len() {
                after.contains_key(place) && after[place] == data[place - start]
            } else {
                after.contains_key(place) == memory.contains_key(place) && (memory.contains_key(
                    place,
                ) ==> after[place] == memory[place])
            }
        }),
{
    law_chunks_write_the_whole_buffer(memory, start, data);
}

/// What is read in chunks has every byte from its address, counted from the start of the
/// transfer, and fills the buffer exactly.
pub proof fn law_every_byte_is_read_from_its_address(
    memory: Map<int, u8>,
    start: u32,
    data: Seq<u8>,
    k: int,
)
    requires
        0 <= k < data.len(),
    ensures
        read_in_chunks(memory, start as int, data, 0).len() == data.len(),
        read_in_chunks(memory, start as int, data, 0)[k] == memory[start + k],
{
    law_chunks_fill_the_whole_buffer(memory, start, data);
}

} // verus!
