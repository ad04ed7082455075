//! The content of HTTP responses.
use crate::http_server::range_conv::range_len;
use std::ops::Range;
use vstd::prelude::*;

verus! {

/// What the next step of sending content is.
#[derive(Clone, Copy, Debug, PartialEq, Eq, Structural)]
pub enum BodyStep {
    /// All content is sent.
    End,
    /// Start to read the slice, then wait for the result.
    StartRead,
    /// Wait for the result of the reading that was started before.
    ContinueRead,
}

/// Transfers torrent content in a slice of a torrent file.
/// Taking content reduces the slice.
#[derive(Debug)]
pub struct ContentBody {
    /// Whether there is an outstanding request to read the slice.
    pub is_reading: bool,
    /// The remaining size of the slice.
    pub rem_size: u64,
}

impl ContentBody {
    /// The content in the range `range_in_file` of a file.
    pub fn new(range_in_file: Range<u64>) -> (res: Self)
        ensures
            !res.is_reading,
            res.rem_size == if range_in_file.start < range_in_file.end {
                range_in_file.end - range_in_file.start
            } else {
                0
            },
    {
        ContentBody { is_reading: false, rem_size: range_len(range_in_file) }
    }

    /// Takes the next step of sending content.
    pub fn poll_frame(&mut self) -> (res: BodyStep)
        ensures
            res == if old(self).is_reading {
                BodyStep::ContinueRead
            } else if old(self).rem_size == 0 {
                BodyStep::End
            } else {
                BodyStep::StartRead
            },
            final(self).rem_size == old(self).rem_size,
            final(self).is_reading == (res != BodyStep::End),
    {
        if self.is_reading {
            BodyStep::ContinueRead
        } else if self.rem_size == 0 {
            BodyStep::End
        } else {
            self.is_reading = true;
            BodyStep::StartRead
        }
    }

    /// Handles the result of reading: the bytes of the result are what is to be sent.
    /// No more bytes than remain are sent.
    pub fn handle_resp(&mut self, chunk: Vec<u8>) -> (res: Vec<u8>)
        ensures
            !final(self).is_reading,
            res@ == sent(old(self).rem_size as nat, chunk@),
            res@.is_prefix_of(chunk@),
            chunk@.len() <= old(self).rem_size ==> res@ == chunk@,
            chunk@.len() > old(self).rem_size ==> res@ == chunk@.take(old(self).rem_size as int),
            res@.len() + final(self).rem_size == old(self).rem_size,
    {
        let ghost whole = chunk@;
        self.is_reading = false;
        let mut chunk = chunk;
        let size: u64 = chunk.len() as u64;
        match self.rem_size.checked_sub(size) {
            None => {
                // The block of content is larger than the remaining amount of content.
                chunk.truncate(self.rem_size as usize);
                self.rem_size = 0;
            },
            Some(new_rem_size) => {
                self.rem_size = new_rem_size;
            },
        }
        assert(whole.take(whole.len() as int) =~= whole);
        assert(chunk@ =~= whole.take(chunk@.len() as int));
        assert(chunk@ =~= sent(old(self).rem_size as nat, chunk@));
        chunk
    }

    /// Handles an error of reading.
    pub fn handle_error(&mut self)
        ensures
            !final(self).is_reading,
            final(self).rem_size == old(self).rem_size,
    {
        self.is_reading = false;
    }

    /// The size of the content that is still to be sent.
    pub fn size_hint(&self) -> (res: u64)
        ensures
            res == self.rem_size,
    {
        self.rem_size
    }
}

/// What is sent of the bytes `chunk` if `rem_size` bytes remain.
pub open spec fn sent(rem_size: nat, chunk: Seq<u8>) -> Seq<u8> {
    if chunk.len() <= rem_size {
        chunk
    } else {
        chunk.take(rem_size as int)
    }
}

/// What is sent of the chunks `chunks` if `rem_size` bytes remain before the first.
pub open spec fn all_sent(rem_size: nat, chunks: Seq<Seq<u8>>) -> Seq<u8>
    decreases chunks.len(),
{
    if chunks.len() == 0 {
        Seq::empty()
    } else {
        let before = all_sent(rem_size, chunks.drop_last());
        before + sent((rem_size - before.len()) as nat, chunks.last())
    }
}

/// The concatenation of `chunks`.
pub open spec fn content(chunks: Seq<Seq<u8>>) -> Seq<u8>
    decreases chunks.len(),
{
    if chunks.len() == 0 {
        Seq::empty()
    } else {
        content(chunks.drop_last()) + chunks.last()
    }
}

/// No more content is sent than was announced. What is sent is a prefix of what was read,
/// and all of it if it is not more than was announced.
pub proof fn sent_is_prefix(rem_size: nat, chunks: Seq<Seq<u8>>)
    ensures
        all_sent(rem_size, chunks) == sent(rem_size, content(chunks)),
        all_sent(rem_size, chunks).len() <= rem_size,
    decreases chunks.len(),
{
    if chunks.len() > 0 {
        let front = chunks.drop_last();
        sent_is_prefix(rem_size, front);
        let before = all_sent(rem_size, front);
        let rest = sent((rem_size - before.len()) as nat, chunks.last());
        assert(before + rest =~= sent(rem_size, content(front) + chunks.last()));
    }
}

/// What is sent is the beginning of all that was read, byte for byte:
/// as much of it as was announced.
pub proof fn sent_is_what_was_read(rem_size: nat, chunks: Seq<Seq<u8>>)
    ensures
        content(chunks) == chunks.flatten(),
        all_sent(rem_size, chunks).is_prefix_of(chunks.flatten()),
        all_sent(rem_size, chunks).len() == if chunks.flatten().len() <= rem_size {
            chunks.flatten().len()
        } else {
            rem_size
        },
    decreases chunks.len(),
{
    content_is_flat(chunks);
    sent_is_prefix(rem_size, chunks);
    let all = content(chunks);
    assert(all.take(all.len() as int) =~= all);
}

proof fn content_is_flat(chunks: Seq<Seq<u8>>)
    ensures
        content(chunks) == chunks.flatten(),
    decreases chunks.len(),
{
    chunks.lemma_flatten_and_flatten_alt_are_equivalent();
    if chunks.len() > 0 {
        let front = chunks.drop_last();
        content_is_flat(front);
        front.lemma_flatten_and_flatten_alt_are_equivalent();
    }
}

/// One chunk at a time: of a chunk its first bytes are sent, as many as remain,
/// and what was sent of the chunks before stays as it was.
pub proof fn next_chunk_is_cut(rem_size: nat, chunks: Seq<Seq<u8>>, chunk: Seq<u8>)
    ensures
        sent(rem_size, chunk).is_prefix_of(chunk),
        sent(rem_size, chunk).len() == if chunk.len() <= rem_size {
            chunk.len()
        } else {
            rem_size
        },
        all_sent(rem_size, Seq::empty()).len() == 0,
        all_sent(rem_size, chunks.push(chunk)) == all_sent(rem_size, chunks) + sent(
            (rem_size - all_sent(rem_size, chunks).len()) as nat,
            chunk,
        ),
{
    assert(chunk.take(chunk.len() as int) =~= chunk);
    assert(chunks.push(chunk).drop_last() =~= chunks);
}

} // verus!
