//! Collecting the header block of a request out of what a socket delivers.

use vstd::prelude::*;

use crate::bytes;
use crate::bytes::{ascii_bytes, contains_bytes, push_bytes};

verus! {

/// How many bytes of a request are read at most.
pub const REQUEST_BUFFER_SIZE: usize = 1024;

/// What ends a header block: the line break of the last header, and an empty line.
pub const END_OF_HTTP_HEADERS: &'static str = "\r\n\r\n";

/// What is known of a header block after a read.
#[derive(Clone, Copy, Debug, PartialEq, Eq, Structural)]
pub enum HeaderStatus {
    /// The end has not arrived and there is room: read on.
    Incomplete,
    /// The end of the header block has arrived.
    Complete,
    /// The header block cannot be had: the socket failed or was closed, or there is no room left.
    Failed,
}

/// The end of the header block is among these bytes.
pub open spec fn headers_end(received: Seq<u8>) -> bool {
    bytes::contains(received, bytes::ascii(END_OF_HTTP_HEADERS@))
}

/// What is known of a header block of which `received` has arrived, where there is room for
/// `capacity` bytes: it may fill the room to the last byte.
pub open spec fn status_of(received: Seq<u8>, capacity: nat) -> HeaderStatus {
    if headers_end(received) {
        HeaderStatus::Complete
    } else if received.len() < capacity {
        HeaderStatus::Incomplete
    } else {
        HeaderStatus::Failed
    }
}

/// What a read makes of the bytes received so far: `None` is a failed read, and a read of no
/// bytes is a closed connection.
pub open spec fn received_after(received: Seq<u8>, read: Option<Seq<u8>>) -> Seq<u8> {
    match read {
        Some(chunk) => received + chunk,
        None => received,
    }
}

/// What is known of the header block after a read.
pub open spec fn status_after(
    received: Seq<u8>,
    read: Option<Seq<u8>>,
    capacity: nat,
) -> HeaderStatus {
    match read {
        None => HeaderStatus::Failed,
        Some(chunk) => if chunk.len() == 0 {
            HeaderStatus::Failed
        } else {
            status_of(received + chunk, capacity)
        },
    }
}

/// What a read delivered, as a byte string.
pub open spec fn delivered(read: Option<&[u8]>) -> Option<Seq<u8>> {
    match read {
        Some(chunk) => Some(chunk@),
        None => None,
    }
}

/// The bytes of a request that were received so far, and how many there is room for.
pub struct HeaderBuffer {
    received: Vec<u8>,
    capacity: usize,
}

impl HeaderBuffer {
    /// The bytes received so far.
    pub closed spec fn received(self) -> Seq<u8> {
        self.received@
    }

    /// How many bytes there is room for.
    pub closed spec fn capacity(self) -> nat {
        self.capacity as nat
    }

    /// No more was received than there is room for.
    pub open spec fn wf(self) -> bool {
        self.received().len() <= self.capacity()
    }

    /// What a read makes of the buffer, and what is then known of the header block.
    pub open spec fn takes_in(self, read: Option<Seq<u8>>, after: Self, status: HeaderStatus) -> bool {
        &&& after.capacity() == self.capacity()
        &&& after.received() == received_after(self.received(), read)
        &&& status == status_after(self.received(), read, self.capacity())
    }

    /// Nothing was received yet, and there is room for a request of the usual size.
    pub fn new() -> (buffer: HeaderBuffer)
        ensures
            buffer.received() == Seq::<u8>::empty(),
            buffer.capacity() == REQUEST_BUFFER_SIZE,
            buffer.capacity() == 1024,
            buffer.wf(),
    {
        HeaderBuffer::with_capacity(REQUEST_BUFFER_SIZE)
    }

    /// Nothing was received yet, and there is room for `capacity` bytes.
    pub fn with_capacity(capacity: usize) -> (buffer: HeaderBuffer)
        ensures
            buffer.received() == Seq::<u8>::empty(),
            buffer.capacity() == capacity,
            buffer.wf(),
    {
        HeaderBuffer { received: Vec::new(), capacity }
    }

    /// How many bytes the next read may deliver.
    pub fn room(&self) -> (room: usize)
        requires
            self.wf(),
        ensures
            room == self.capacity() - self.received().len(),
    {
        self.capacity - self.received.len()
    }

    /// What is known of the header block by what was received so far. Before the first read it
    /// is incomplete, unless there is no room at all.
    pub fn status(&self) -> (status: HeaderStatus)
        ensures
            status == status_of(self.received(), self.capacity()),
    {
        proof {
            reveal_strlit("\r\n\r\n");
        }
        if contains_bytes(self.received.as_slice(), ascii_bytes(END_OF_HTTP_HEADERS)) {
            HeaderStatus::Complete
        } else if self.received.len() < self.capacity {
            HeaderStatus::Incomplete
        } else {
            HeaderStatus::Failed
        }
    }

    /// The bytes received so far.
    pub fn request(&self) -> (request: &[u8])
        ensures
            request@ == self.received(),
    {
        self.received.as_slice()
    }

    /// The request to serve, given what is known of its header block: there is one only where
    /// the block is complete. An incomplete, oversized or unreadable one counts as no request,
    /// whatever its first line says.
    pub fn complete_request(&self, status: HeaderStatus) -> (request: Option<&[u8]>)
        ensures
            match request {
                Some(request) => status == HeaderStatus::Complete && request@ == self.received(),
                None => status != HeaderStatus::Complete,
            },
    {
        match status {
            HeaderStatus::Complete => Some(self.request()),
            HeaderStatus::Incomplete | HeaderStatus::Failed => None,
        }
    }

    /// Take in what one read of the socket delivered.
    pub fn read_http_headers(&mut self, read: Option<&[u8]>) -> (status: HeaderStatus)
        requires
            old(self).wf(),
            read matches Some(chunk) ==> chunk.len() <= old(self).capacity() - old(
                self,
            ).received().len(),
        ensures
            final(self).wf(),
            old(self).takes_in(delivered(read), *final(self), status),
    {
        match read {
            None => HeaderStatus::Failed,
            Some(chunk) => {
                push_bytes(&mut self.received, chunk);
                if chunk.len() == 0 {
                    HeaderStatus::Failed
                } else {
                    self.status()
                }
            },
        }
    }
}

/// All that a number of reads delivered.
pub open spec fn joined(reads: Seq<Option<Seq<u8>>>) -> Seq<u8>
    decreases reads.len(),
{
    if reads.len() == 0 {
        Seq::empty()
    } else {
        received_after(joined(reads.drop_last()), reads.last())
    }
}

/// What was received, and what is known of the header block, after reading on as long as it is
/// incomplete.
pub open spec fn after_reads(capacity: nat, reads: Seq<Option<Seq<u8>>>) -> (Seq<u8>, HeaderStatus)
    decreases reads.len(),
{
    if reads.len() == 0 {
        (Seq::empty(), status_of(Seq::empty(), capacity))
    } else {
        let (received, status) = after_reads(capacity, reads.drop_last());
        if status == HeaderStatus::Incomplete {
            (
                received_after(received, reads.last()),
                status_after(received, reads.last(), capacity),
            )
        } else {
            (received, status)
        }
    }
}

/// Nothing ends before anything has arrived.
proof fn lemma_nothing_ends()
    ensures
        !headers_end(Seq::empty()),
{
    reveal_strlit("\r\n\r\n");
    let end = bytes::ascii(END_OF_HTTP_HEADERS@);
    assert forall|at: int| !bytes::occurs_at(Seq::empty(), end, at) by {}
}

/// Reading stops when the end of the header block has arrived and not before: what was received
/// by then are the first of the bytes that the reads delivered. While the block is incomplete
/// all of them were received, and there is room for more.
pub proof fn reading_stops_at_the_end(capacity: nat, reads: Seq<Option<Seq<u8>>>)
    ensures
        after_reads(capacity, reads).0.is_prefix_of(joined(reads)),
        after_reads(capacity, reads).1 == HeaderStatus::Complete ==> headers_end(
            after_reads(capacity, reads).0,
        ),
        after_reads(capacity, reads).1 == HeaderStatus::Incomplete ==> {
            &&& after_reads(capacity, reads).0 == joined(reads)
            &&& !headers_end(joined(reads))
            &&& joined(reads).len() < capacity
        },
    decreases reads.len(),
{
    if reads.len() == 0 {
        lemma_nothing_ends();
    } else {
        reading_stops_at_the_end(capacity, reads.drop_last());
    }
}

/// Without any room there is no header block, whatever the socket would deliver.
pub proof fn no_room_gives_no_request(reads: Seq<Option<Seq<u8>>>)
    ensures
        after_reads(0, reads).1 == HeaderStatus::Failed,
    decreases reads.len(),
{
    if reads.len() == 0 {
        lemma_nothing_ends();
    } else {
        no_room_gives_no_request(reads.drop_last());
    }
}

/// A header block that one read delivers whole is complete wherever it fits, even where it fills
/// the room to the last byte.
pub proof fn header_block_may_fill_the_room(capacity: nat, block: Seq<u8>)
    requires
        headers_end(block),
        block.len() <= capacity,
    ensures
        after_reads(capacity, seq![Some(block)]) == (block, HeaderStatus::Complete),
{
    lemma_nothing_ends();
    let reads = seq![Some(block)];
    assert(block.len() > 0) by {
        if block.len() == 0 {
            assert(block =~= Seq::empty());
        }
    }
    assert(reads.drop_last() =~= Seq::empty());
    assert(after_reads(capacity, reads.drop_last()) == (
        Seq::<u8>::empty(),
        HeaderStatus::Incomplete,
    ));
    assert(Seq::<u8>::empty() + block =~= block);
}

/// The reads are such as an open connection delivers: as long as there is need to read on, each
/// brings at least one byte, and no more than there is room for.
pub open spec fn fill_the_room(capacity: nat, reads: Seq<Option<Seq<u8>>>) -> bool
    decreases reads.len(),
{
    reads.len() > 0 ==> {
        let (received, status) = after_reads(capacity, reads.drop_last());
        &&& fill_the_room(capacity, reads.drop_last())
        &&& status == HeaderStatus::Incomplete ==> {
            &&& reads.last() matches Some(chunk)
            &&& 0 < chunk.len() <= capacity - received.len()
        }
    }
}

/// On an open connection nothing but a full buffer without the end of the header block makes
/// reading fail.
pub proof fn open_connection_fails_only_when_full(capacity: nat, reads: Seq<Option<Seq<u8>>>)
    requires
        fill_the_room(capacity, reads),
    ensures
        after_reads(capacity, reads).0.len() <= capacity,
        after_reads(capacity, reads).1 == HeaderStatus::Failed ==> {
            &&& after_reads(capacity, reads).0.len() == capacity
            &&& !headers_end(after_reads(capacity, reads).0)
        },
    decreases reads.len(),
{
    if reads.len() > 0 {
        open_connection_fails_only_when_full(capacity, reads.drop_last());
    }
}

/// The end of a header block stays among the bytes where more bytes follow.
proof fn lemma_end_stays(received: Seq<u8>, longer: Seq<u8>)
    requires
        headers_end(received),
        received.is_prefix_of(longer),
    ensures
        headers_end(longer),
{
    let end = bytes::ascii(END_OF_HTTP_HEADERS@);
    let at = choose|at: int| bytes::occurs_at(received, end, at);
    assert(longer.subrange(at, at + end.len()) =~= received.subrange(at, at + end.len()));
    assert(bytes::occurs_at(longer, end, at));
}

/// A reading that ended one way leaves no room for another reading of the same bytes to end
/// otherwise.
proof fn lemma_same_end(
    capacity: nat,
    one: Seq<Option<Seq<u8>>>,
    other: Seq<Option<Seq<u8>>>,
)
    requires
        joined(one) == joined(other),
        fill_the_room(capacity, one),
        fill_the_room(capacity, other),
    ensures
        after_reads(capacity, one).1 == HeaderStatus::Complete ==> after_reads(capacity, other).1
            == HeaderStatus::Complete,
        after_reads(capacity, one).1 == HeaderStatus::Incomplete ==> after_reads(capacity, other).1
            == HeaderStatus::Incomplete,
{
    reading_stops_at_the_end(capacity, one);
    reading_stops_at_the_end(capacity, other);
    open_connection_fails_only_when_full(capacity, one);
    open_connection_fails_only_when_full(capacity, other);
    let (received, status) = after_reads(capacity, one);
    let (received_other, status_other) = after_reads(capacity, other);
    if status == HeaderStatus::Complete {
        lemma_end_stays(received, joined(one));
        if status_other == HeaderStatus::Failed {
            assert(received.is_prefix_of(received_other));
            lemma_end_stays(received, received_other);
        }
    }
    if status == HeaderStatus::Incomplete && status_other == HeaderStatus::Complete {
        lemma_end_stays(received_other, joined(one));
    }
}

/// However an open connection splits what the peer sends, reading comes to the same end.
pub proof fn splitting_keeps_the_status(
    capacity: nat,
    one: Seq<Option<Seq<u8>>>,
    other: Seq<Option<Seq<u8>>>,
)
    requires
        joined(one) == joined(other),
        fill_the_room(capacity, one),
        fill_the_room(capacity, other),
    ensures
        after_reads(capacity, one).1 == after_reads(capacity, other).1,
{
    lemma_same_end(capacity, one, other);
    lemma_same_end(capacity, other, one);
}

/// Turn `i` of a reading took in what the socket delivered, because the block was incomplete.
pub open spec fn turn_follows(
    buffers: Seq<HeaderBuffer>,
    statuses: Seq<HeaderStatus>,
    reads: Seq<Option<Seq<u8>>>,
    i: int,
) -> bool {
    &&& statuses[i - 1] == HeaderStatus::Incomplete
    &&& buffers[i - 1].takes_in(reads[i - 1], buffers[i], statuses[i])
}

/// A whole reading: the buffer and what was known of the header block before the first read and
/// after each, up to the one after which there was no need to read on. `reads` are what the
/// socket delivers, of which the first so many were asked for.
pub open spec fn is_reading(
    buffers: Seq<HeaderBuffer>,
    statuses: Seq<HeaderStatus>,
    reads: Seq<Option<Seq<u8>>>,
) -> bool {
    &&& 0 < buffers.len() == statuses.len() <= reads.len() + 1
    &&& statuses[0] == status_of(buffers[0].received(), buffers[0].capacity())
    &&& forall|i: int|
        0 < i < buffers.len() ==> #[trigger] turn_follows(buffers, statuses, reads, i)
    &&& statuses.last() != HeaderStatus::Incomplete
}

/// As long as two readings of the same deliveries go on, they stand alike.
proof fn lemma_readings_stand_alike(
    one: Seq<HeaderBuffer>,
    one_statuses: Seq<HeaderStatus>,
    other: Seq<HeaderBuffer>,
    other_statuses: Seq<HeaderStatus>,
    reads: Seq<Option<Seq<u8>>>,
    i: int,
)
    requires
        is_reading(one, one_statuses, reads),
        is_reading(other, other_statuses, reads),
        one[0].received() == other[0].received(),
        one[0].capacity() == other[0].capacity(),
        0 <= i < one.len(),
        i < other.len(),
    ensures
        one[i].received() == other[i].received(),
        one[i].capacity() == other[i].capacity(),
        one_statuses[i] == other_statuses[i],
    decreases i,
{
    if i > 0 {
        lemma_readings_stand_alike(one, one_statuses, other, other_statuses, reads, i - 1);
        assert(turn_follows(one, one_statuses, reads, i));
        assert(turn_follows(other, other_statuses, reads, i));
    }
}

/// Two servers that start from equal buffers and whose sockets deliver the same, chunks or
/// failures, read alike: they make equally many reads, come to the same status, and hold the
/// same bytes.
pub proof fn servers_read_alike(
    one: Seq<HeaderBuffer>,
    one_statuses: Seq<HeaderStatus>,
    other: Seq<HeaderBuffer>,
    other_statuses: Seq<HeaderStatus>,
    reads: Seq<Option<Seq<u8>>>,
)
    requires
        is_reading(one, one_statuses, reads),
        is_reading(other, other_statuses, reads),
        one[0].received() == other[0].received(),
        one[0].capacity() == other[0].capacity(),
    ensures
        one.len() == other.len(),
        one_statuses.last() == other_statuses.last(),
        one.last().received() == other.last().received(),
{
    let shorter = if one.len() <= other.len() {
        one.len() - 1
    } else {
        other.len() - 1
    };
    lemma_readings_stand_alike(one, one_statuses, other, other_statuses, reads, shorter);
    if one.len() < other.len() {
        assert(turn_follows(other, other_statuses, reads, one.len() as int));
    }
    if other.len() < one.len() {
        assert(turn_follows(one, one_statuses, reads, other.len() as int));
    }
}

/// A whole reading into an empty buffer is what reading on as long as the block is incomplete
/// comes to, however much more the socket would deliver.
pub proof fn reading_is_after_reads(
    buffers: Seq<HeaderBuffer>,
    statuses: Seq<HeaderStatus>,
    reads: Seq<Option<Seq<u8>>>,
)
    requires
        is_reading(buffers, statuses, reads),
        buffers[0].received() == Seq::<u8>::empty(),
    ensures
        after_reads(buffers[0].capacity(), reads) == (
            buffers.last().received(),
            statuses.last(),
        ),
{
    let made = buffers.len() - 1;
    lemma_reading_so_far(buffers, statuses, reads, made);
    lemma_further_reads_are_ignored(buffers[0].capacity(), reads, made);
}

/// After `i` reads a reading into an empty buffer stands where those reads bring it.
proof fn lemma_reading_so_far(
    buffers: Seq<HeaderBuffer>,
    statuses: Seq<HeaderStatus>,
    reads: Seq<Option<Seq<u8>>>,
    i: int,
)
    requires
        is_reading(buffers, statuses, reads),
        buffers[0].received() == Seq::<u8>::empty(),
        0 <= i < buffers.len(),
    ensures
        after_reads(buffers[0].capacity(), reads.take(i)) == (buffers[i].received(), statuses[i]),
        buffers[i].capacity() == buffers[0].capacity(),
    decreases i,
{
    if i > 0 {
        lemma_reading_so_far(buffers, statuses, reads, i - 1);
        assert(turn_follows(buffers, statuses, reads, i));
        assert(reads.take(i).drop_last() =~= reads.take(i - 1));
    }
}

/// Once there is no need to read on, more reads change nothing.
proof fn lemma_further_reads_are_ignored(capacity: nat, reads: Seq<Option<Seq<u8>>>, made: int)
    requires
        0 <= made <= reads.len(),
        after_reads(capacity, reads.take(made)).1 != HeaderStatus::Incomplete,
    ensures
        after_reads(capacity, reads) == after_reads(capacity, reads.take(made)),
    decreases reads.len(),
{
    if made == reads.len() {
        assert(reads.take(made) =~= reads);
    } else {
        assert(reads.drop_last().take(made) =~= reads.take(made));
        lemma_further_reads_are_ignored(capacity, reads.drop_last(), made);
    }
}

/// Two line breaks in a row stand in `received` at `at`.
pub open spec fn empty_line_at(received: Seq<u8>, at: int) -> bool {
    &&& 0 <= at <= received.len() - 4
    &&& received[at] == 13
    &&& received[at + 1] == 10
    &&& received[at + 2] == 13
    &&& received[at + 3] == 10
}

/// A header block ends with two line breaks in a row, wherever they stand, and in no other way.
pub proof fn headers_end_with_an_empty_line(received: Seq<u8>)
    ensures
        headers_end(received) <==> exists|at: int| empty_line_at(received, at),
{
    reveal_strlit("\r\n\r\n");
    let end = bytes::ascii(END_OF_HTTP_HEADERS@);
    assert(end.len() == 4 && end[0] == 13 && end[1] == 10 && end[2] == 13 && end[3] == 10);
    if headers_end(received) {
        let at = choose|at: int| bytes::occurs_at(received, end, at);
        let found = received.subrange(at, at + 4);
        assert(found[0] == received[at] && found[1] == received[at + 1]);
        assert(found[2] == received[at + 2] && found[3] == received[at + 3]);
        assert(empty_line_at(received, at));
    }
    if exists|at: int| empty_line_at(received, at) {
        let at = choose|at: int| empty_line_at(received, at);
        assert(received.subrange(at, at + 4) =~= end);
        assert(bytes::occurs_at(received, end, at));
    }
}

/// A header block is complete exactly where its end has arrived, incomplete exactly where it has
/// not and there is room for more, and cannot be had exactly where it has not and there is none.
pub proof fn status_tells_the_end_and_the_room(received: Seq<u8>, capacity: nat)
    ensures
        status_of(received, capacity) == HeaderStatus::Complete <==> exists|at: int|
            empty_line_at(received, at),
        status_of(received, capacity) == HeaderStatus::Incomplete <==> received.len() < capacity
            && !(exists|at: int| empty_line_at(received, at)),
        status_of(received, capacity) == HeaderStatus::Failed <==> received.len() >= capacity && !(
        exists|at: int| empty_line_at(received, at)),
{
    headers_end_with_an_empty_line(received);
}

/// A read puts what it delivered behind what was received, and nothing else. Where it failed, or
/// delivered nothing, the header block cannot be had. Otherwise the bytes and the room tell.
pub proof fn read_is_put_behind_what_was_received(
    before: HeaderBuffer,
    read: Option<Seq<u8>>,
    after: HeaderBuffer,
    status: HeaderStatus,
)
    requires
        before.takes_in(read, after, status),
    ensures
        after.capacity() == before.capacity(),
        read is None ==> status == HeaderStatus::Failed && after.received() == before.received(),
        read matches Some(chunk) ==> {
            &&& after.received() == before.received() + chunk
            &&& chunk.len() == 0 ==> status == HeaderStatus::Failed
            &&& chunk.len() > 0 && (exists|at: int| empty_line_at(after.received(), at)) ==> status
                == HeaderStatus::Complete
            &&& chunk.len() > 0 && !(exists|at: int| empty_line_at(after.received(), at))
                && after.received().len() < before.capacity() ==> status == HeaderStatus::Incomplete
            &&& chunk.len() > 0 && !(exists|at: int| empty_line_at(after.received(), at))
                && after.received().len() >= before.capacity() ==> status == HeaderStatus::Failed
        },
{
    status_tells_the_end_and_the_room(after.received(), before.capacity());
}

/// A read delivered the bytes of its chunk, or failed.
pub proof fn chunk_is_delivered_whole(chunk: &[u8])
    ensures
        delivered(Some(chunk)) == Some(chunk@),
        delivered(None) is None,
{
}

/// What reads deliver one after another is joined in their order, and a failed read adds nothing.
pub proof fn reads_are_joined_in_order(
    one: Seq<Option<Seq<u8>>>,
    other: Seq<Option<Seq<u8>>>,
    chunk: Seq<u8>,
)
    ensures
        joined(one + other) == joined(one) + joined(other),
        joined(seq![Some(chunk)]) == chunk,
        joined(seq![None::<Seq<u8>>]) == Seq::<u8>::empty(),
    decreases other.len(),
{
    assert(seq![Some(chunk)].drop_last() =~= Seq::empty());
    assert(seq![None::<Seq<u8>>].drop_last() =~= Seq::empty());
    assert(joined(Seq::empty()) =~= Seq::<u8>::empty());
    assert(joined(seq![Some(chunk)]) =~= chunk);
    if other.len() == 0 {
        assert(one + other =~= one);
    } else {
        reads_are_joined_in_order(one, other.drop_last(), chunk);
        assert((one + other).drop_last() =~= one + other.drop_last());
    }
    assert(joined(one + other) =~= joined(one) + joined(other));
}

} // verus!
