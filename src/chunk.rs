use vstd::prelude::*;
use vstd::utf8::{decode_utf8, valid_utf8};

verus! {

/// The text that `String::from_utf8_lossy` makes of a byte sequence.
pub uninterp spec fn lossy_text(bytes: Seq<u8>) -> Seq<char>;

/// Relies on `String::from_utf8_lossy`: invalid sequences become U+FFFD, and
/// valid UTF-8 is decoded unchanged.
#[verifier::external_body]
fn decode_lossy(bytes: &[u8]) -> (r: String)
    ensures
        r@ == lossy_text(bytes@),
        valid_utf8(bytes@) ==> r@ == decode_utf8(bytes@),
{
    String::from_utf8_lossy(bytes).into_owned()
}

/// `data` cut into consecutive pieces of `size` bytes, the last one possibly
/// shorter; no piece is empty.
pub open spec fn chunks_of(data: Seq<u8>, size: nat) -> Seq<Seq<u8>>
    decreases data.len(),
{
    if data.len() == 0 || size == 0 {
        Seq::empty()
    } else if data.len() <= size {
        seq![data]
    } else {
        seq![data.take(size as int)] + chunks_of(data.skip(size as int), size)
    }
}

/// One numbered piece of the input: its raw bytes and their text.
pub struct Chunk {
    /// Position in the sequence, starting at 1.
    pub number: usize,
    pub bytes: Vec<u8>,
    /// The bytes decoded as UTF-8, invalid sequences replaced by U+FFFD.
    pub text: String,
}

/// Why a split was refused.
#[derive(Debug, Clone, Copy, PartialEq, Eq, Structural)]
pub enum ChunkError {
    /// A chunk size of zero bytes.
    ZeroChunkSize,
}

/// The raw bytes of each chunk, in order.
pub open spec fn chunk_bytes(chunks: Seq<Chunk>) -> Seq<Seq<u8>> {
    chunks.map_values(|c: Chunk| c.bytes@)
}

/// `chunks` is the numbered, decoded form of the pieces `pieces`.
pub open spec fn numbered(chunks: Seq<Chunk>, pieces: Seq<Seq<u8>>) -> bool {
    &&& chunks.len() == pieces.len()
    &&& forall|i: int|
        0 <= i < chunks.len() ==> {
            &&& (#[trigger] chunks[i]).number == i + 1
            &&& chunks[i].bytes@ == pieces[i]
            &&& chunks[i].text@ == lossy_text(pieces[i])
        }
}

/// Splits a byte stream, fed block by block, into chunks of a fixed size.
pub struct Chunker {
    size: usize,
    pending: Vec<u8>,
    chunks: Vec<Chunk>,
    total: usize,
}

impl Chunker {
    /// The chunk size.
    pub closed spec fn size(&self) -> nat {
        self.size as nat
    }

    /// Every byte fed so far, in order.
    pub closed spec fn fed(&self) -> Seq<u8> {
        chunk_bytes(self.chunks@).flatten() + self.pending@
    }

    pub closed spec fn wf(&self) -> bool {
        &&& self.size > 0
        &&& self.pending@.len() < self.size
        &&& self.fed().len() == self.total
        &&& numbered(self.chunks@, chunk_bytes(self.chunks@))
        &&& forall|i: int|
            0 <= i < self.chunks@.len() ==> (#[trigger] self.chunks@[i]).bytes@.len() == self.size
    }

    /// A splitter into chunks of `size` bytes; a size of zero is refused.
    pub fn new(size: usize) -> (r: Result<Chunker, ChunkError>)
        ensures
            size == 0 <==> r is Err,
            r matches Err(e) ==> e == ChunkError::ZeroChunkSize,
            r matches Ok(c) ==> c.wf() && c.size() == size && c.fed() == Seq::<u8>::empty(),
    {
        if size == 0 {
            return Err(ChunkError::ZeroChunkSize);
        }
        let c = Chunker { size, pending: Vec::new(), chunks: Vec::new(), total: 0 };
        assert(chunk_bytes(c.chunks@) =~= Seq::<Seq<u8>>::empty());
        assert(c.fed() =~= Seq::<u8>::empty());
        Ok(c)
    }

    /// Turns the pending bytes into the next chunk.
    fn emit(&mut self)
        requires
            old(self).size > 0,
            old(self).pending@.len() > 0,
            old(self).pending@.len() <= old(self).size,
            old(self).fed().len() == old(self).total,
            numbered(old(self).chunks@, chunk_bytes(old(self).chunks@)),
            forall|i: int|
                0 <= i < old(self).chunks@.len() ==> (#[trigger] old(self).chunks@[i]).bytes@.len()
                    == old(self).size,
        ensures
            final(self).size == old(self).size,
            final(self).total == old(self).total,
            final(self).pending@.len() == 0,
            final(self).fed() == old(self).fed(),
            numbered(final(self).chunks@, chunk_bytes(final(self).chunks@)),
            chunk_bytes(final(self).chunks@) == chunk_bytes(old(self).chunks@).push(
                old(self).pending@,
            ),
    {
        let ghost old_chunks = self.chunks@;
        proof {
            lemma_flatten_len_ge(chunk_bytes(old_chunks), self.size as nat);
        }
        let mut bytes: Vec<u8> = Vec::new();
        std::mem::swap(&mut bytes, &mut self.pending);
        let text = decode_lossy(bytes.as_slice());
        let number = self.chunks.len() + 1;
        self.chunks.push(Chunk { number, bytes, text });
        proof {
            assert(chunk_bytes(self.chunks@) =~= chunk_bytes(old_chunks).push(bytes@));
            chunk_bytes(old_chunks).lemma_flatten_push(bytes@);
            assert(self.fed() =~= chunk_bytes(old_chunks).flatten() + bytes@);
        }
    }

    /// How many bytes have been fed.
    pub fn fed_len(&self) -> (r: usize)
        requires
            self.wf(),
        ensures
            r == self.fed().len(),
    {
        self.total
    }

    /// Feeds the next block of the stream.
    pub fn feed(&mut self, block: &[u8])
        requires
            old(self).wf(),
            old(self).fed().len() + block@.len() <= usize::MAX,
        ensures
            final(self).wf(),
            final(self).size() == old(self).size(),
            final(self).fed() == old(self).fed() + block@,
    {
        let mut i: usize = 0;
        while i < block.len()
            invariant
                self.wf(),
                self.size == old(self).size,
                i <= block@.len(),
                self.fed() == old(self).fed() + block@.subrange(0, i as int),
                old(self).fed().len() + block@.len() <= usize::MAX,
            decreases block@.len() - i,
        {
            let ghost before = self.fed();
            self.pending.push(block[i]);
            self.total = self.total + 1;
            assert(self.fed() =~= before.push(block@[i as int]));
            if self.pending.len() == self.size {
                self.emit();
            }
            assert(block@.subrange(0, i + 1) =~= block@.subrange(0, i as int).push(block@[i as int]));
            i = i + 1;
        }
        assert(block@.subrange(0, i as int) =~= block@);
    }

    /// Ends the stream: the chunks of everything fed, the remainder forming
    /// a last, shorter chunk.
    pub fn finish(self) -> (r: Vec<Chunk>)
        requires
            self.wf(),
        ensures
            numbered(r@, chunks_of(self.fed(), self.size())),
    {
        let mut s = self;
        let ghost full = chunk_bytes(s.chunks@);
        let ghost tail = s.pending@;
        proof {
            lemma_chunks_of_full(full, tail, s.size as nat);
        }
        if s.pending.len() > 0 {
            s.emit();
            assert(tail.len() <= s.size);
            assert(chunk_bytes(s.chunks@) =~= full + chunks_of(tail, s.size as nat));
        } else {
            assert(chunks_of(tail, s.size as nat) =~= Seq::<Seq<u8>>::empty());
            assert(full + chunks_of(tail, s.size as nat) =~= full);
        }
        s.chunks
    }
}

/// A flattened sequence of non-empty pieces is at least as long as the
/// number of pieces.
proof fn lemma_flatten_len_ge(pieces: Seq<Seq<u8>>, size: nat)
    requires
        size > 0,
        forall|i: int| 0 <= i < pieces.len() ==> (#[trigger] pieces[i]).len() == size,
    ensures
        pieces.flatten().len() >= pieces.len(),
    decreases pieces.len(),
{
    if pieces.len() > 0 {
        let rest = pieces.drop_first();
        assert forall|i: int| 0 <= i < rest.len() implies (#[trigger] rest[i]).len() == size by {
            assert(rest[i] == pieces[i + 1]);
        }
        lemma_flatten_len_ge(rest, size);
    }
}

/// Full-size pieces followed by a tail are cut back into those pieces
/// followed by the chunks of the tail.
proof fn lemma_chunks_of_full(full: Seq<Seq<u8>>, tail: Seq<u8>, size: nat)
    requires
        size > 0,
        forall|i: int| 0 <= i < full.len() ==> (#[trigger] full[i]).len() == size,
    ensures
        chunks_of(full.flatten() + tail, size) == full + chunks_of(tail, size),
    decreases full.len(),
{
    if full.len() == 0 {
        assert(full.flatten() + tail =~= tail);
        assert(full + chunks_of(tail, size) =~= chunks_of(tail, size));
    } else {
        let rest = full.drop_first();
        assert forall|i: int| 0 <= i < rest.len() implies (#[trigger] rest[i]).len() == size by {
            assert(rest[i] == full[i + 1]);
        }
        lemma_chunks_of_full(rest, tail, size);
        let data = full.flatten() + tail;
        let after = rest.flatten() + tail;
        assert(data =~= full[0] + after);
        assert(data.take(size as int) =~= full[0]);
        assert(data.skip(size as int) =~= after);
        if after.len() == 0 {
            assert(rest.len() == 0) by {
                if rest.len() > 0 {
                    lemma_flatten_len_ge(rest, size);
                }
            }
            assert(chunks_of(tail, size) =~= Seq::<Seq<u8>>::empty());
            assert(full + chunks_of(tail, size) =~= seq![full[0]]);
            assert(data =~= full[0]);
        } else {
            assert(full + chunks_of(tail, size) =~= seq![full[0]] + (rest + chunks_of(tail, size)));
        }
    }
}

/// Splits `data` into chunks of `size` bytes, numbered from 1; the last one
/// holds what is left and may be shorter. A size of zero is refused.
pub fn split_bytes(data: &[u8], size: usize) -> (r: Result<Vec<Chunk>, ChunkError>)
    ensures
        size == 0 <==> r is Err,
        r matches Err(e) ==> e == ChunkError::ZeroChunkSize,
        r matches Ok(chunks) ==> numbered(chunks@, chunks_of(data@, size as nat)),
        data@.len() == 0 && size > 0 ==> (r matches Ok(chunks) && chunks@.len() == 0),
{
    let mut c = match Chunker::new(size) {
        Ok(c) => c,
        Err(e) => return Err(e),
    };
    assert(data@.len() <= usize::MAX) by {
        assert(data.len() == data@.len());
    }
    c.feed(data);
    assert(Seq::<u8>::empty() + data@ =~= data@);
    let r = c.finish();
    proof {
        if data@.len() == 0 {
            assert(chunks_of(data@, size as nat).len() == 0);
        }
    }
    Ok(r)
}

/// Joining the chunks of any content in order gives back that content.
pub proof fn lemma_chunks_rejoin(data: Seq<u8>, size: nat)
    requires
        size > 0,
    ensures
        chunks_of(data, size).flatten() == data,
    decreases data.len(),
{
    let c = chunks_of(data, size);
    if data.len() == 0 {
        assert(c.flatten() =~= data);
    } else if data.len() <= size {
        c.lemma_flatten_singleton();
    } else {
        let rest = chunks_of(data.skip(size as int), size);
        lemma_chunks_rejoin(data.skip(size as int), size);
        assert(c.drop_first() =~= rest);
        assert(c.flatten() =~= data.take(size as int) + rest.flatten());
        assert(c.flatten() =~= data);
    }
}

/// Every chunk of non-empty content is non-empty and at most `size` bytes;
/// all but the last hold exactly `size` bytes.
pub proof fn lemma_chunk_sizes(data: Seq<u8>, size: nat)
    requires
        size > 0,
    ensures
        forall|i: int|
            0 <= i < chunks_of(data, size).len() ==> {
                &&& 0 < (#[trigger] chunks_of(data, size)[i]).len() <= size
                &&& i + 1 < chunks_of(data, size).len() ==> chunks_of(data, size)[i].len() == size
            },
    decreases data.len(),
{
    if data.len() > size {
        let rest = chunks_of(data.skip(size as int), size);
        lemma_chunk_sizes(data.skip(size as int), size);
        let c = chunks_of(data, size);
        assert forall|i: int| 0 < i < c.len() implies c[i] == rest[i - 1] by {}
    }
}

} // verus!
