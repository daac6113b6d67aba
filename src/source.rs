//! An in-memory byte source that hands out its data as a sequence of chunks,
//! one chunk (or the part of it that fits) per read call.
use vstd::prelude::*;

verus! {

/// The bytes of `chunks`, one chunk after another.
pub open spec fn joined(chunks: Seq<Seq<u8>>) -> Seq<u8>
    decreases chunks.len(),
{
    if chunks.len() == 0 {
        Seq::empty()
    } else {
        joined(chunks.drop_last()) + chunks.last()
    }
}

pub open spec fn chunks_view(chunks: Seq<Vec<u8>>) -> Seq<Seq<u8>> {
    chunks.map_values(|c: Vec<u8>| c@)
}

pub proof fn lemma_joined_concat(a: Seq<Seq<u8>>, b: Seq<Seq<u8>>)
    ensures
        joined(a + b) == joined(a) + joined(b),
    decreases b.len(),
{
    if b.len() == 0 {
        assert(a + b =~= a);
        assert(joined(a) + joined(b) =~= joined(a));
    } else {
        lemma_joined_concat(a, b.drop_last());
        assert((a + b).drop_last() =~= a + b.drop_last());
        assert(joined(a) + (joined(b.drop_last()) + b.last()) =~= (joined(a) + joined(
            b.drop_last(),
        )) + b.last());
    }
}

/// The data up to chunk `i`, chunk `i` itself, and the data after it.
proof fn lemma_joined_split(cs: Seq<Seq<u8>>, i: int)
    requires
        0 <= i < cs.len(),
    ensures
        joined(cs.take(i + 1)) == joined(cs.take(i)) + cs[i],
        joined(cs) == joined(cs.take(i + 1)) + joined(cs.skip(i + 1)),
{
    assert(cs.take(i + 1).drop_last() =~= cs.take(i));
    assert(cs =~= cs.take(i + 1) + cs.skip(i + 1));
    lemma_joined_concat(cs.take(i + 1), cs.skip(i + 1));
}

pub struct ChunkSource {
    chunks: Vec<Vec<u8>>,
    index: usize,
    pos: usize,
}

impl ChunkSource {
    /// All bytes this source holds.
    pub closed spec fn data(&self) -> Seq<u8> {
        joined(chunks_view(self.chunks@))
    }

    /// How many bytes have been handed out.
    pub closed spec fn taken(&self) -> int {
        joined(chunks_view(self.chunks@).take(self.index as int)).len() + self.pos
    }

    pub closed spec fn wf(&self) -> bool {
        &&& self.index <= self.chunks@.len()
        &&& self.index < self.chunks@.len() ==> self.pos <= self.chunks@[self.index as int]@.len()
        &&& self.index == self.chunks@.len() ==> self.pos == 0
    }

    proof fn lemma_taken_le(&self)
        requires
            self.wf(),
        ensures
            0 <= self.taken() <= self.data().len(),
    {
        let cs = chunks_view(self.chunks@);
        if self.index < cs.len() {
            lemma_joined_split(cs, self.index as int);
        } else {
            assert(cs.take(self.index as int) =~= cs);
        }
    }

    pub fn new(chunks: Vec<Vec<u8>>) -> (r: ChunkSource)
        ensures
            r.wf(),
            r.data() == joined(chunks_view(chunks@)),
            r.taken() == 0,
    {
        let r = ChunkSource { chunks, index: 0, pos: 0 };
        assert(chunks_view(r.chunks@).take(0) =~= Seq::<Seq<u8>>::empty());
        r
    }

    /// Hands out up to `max` bytes from the current chunk, moving past
    /// exhausted chunks first. Returns nothing only when `max` is zero or
    /// every byte has been handed out.
    pub fn read(&mut self, max: usize) -> (r: Vec<u8>)
        requires
            old(self).wf(),
        ensures
            final(self).wf(),
            final(self).data() == old(self).data(),
            0 <= old(self).taken() <= old(self).data().len(),
            final(self).taken() <= final(self).data().len(),
            r@.len() <= max,
            final(self).taken() == old(self).taken() + r@.len(),
            r@ == old(self).data().subrange(old(self).taken(), final(self).taken()),
            r@.len() == 0 <==> (max == 0 || old(self).taken() == old(self).data().len()),
    {
        proof {
            self.lemma_taken_le();
        }
        let ghost cs = chunks_view(self.chunks@);
        while self.index < self.chunks.len() && self.pos == self.chunks[self.index].len()
            invariant
                self.wf(),
                cs == chunks_view(self.chunks@),
                self.chunks@ == old(self).chunks@,
                self.taken() == old(self).taken(),
            decreases self.chunks@.len() - self.index,
        {
            proof {
                lemma_joined_split(cs, self.index as int);
            }
            self.index = self.index + 1;
            self.pos = 0;
        }
        if self.index == self.chunks.len() {
            assert(cs.take(self.index as int) =~= cs);
            return Vec::new();
        }
        let ghost i = self.index as int;
        proof {
            lemma_joined_split(cs, i);
        }
        let clen = self.chunks[self.index].len();
        let avail = clen - self.pos;
        let n = if max < avail {
            max
        } else {
            avail
        };
        let mut r: Vec<u8> = Vec::new();
        let mut j: usize = 0;
        while j < n
            invariant
                self.wf(),
                self.chunks@ == old(self).chunks@,
                cs == chunks_view(self.chunks@),
                i == self.index,
                i < cs.len(),
                self.pos + n <= clen,
                clen == cs[i].len(),
                j <= n,
                r@ == cs[i].subrange(self.pos as int, self.pos + j),
            decreases n - j,
        {
            let b = self.chunks[self.index][self.pos + j];
            r.push(b);
            j = j + 1;
            assert(r@ =~= cs[i].subrange(self.pos as int, self.pos + j));
        }
        let ghost start = self.pos as int;
        self.pos = self.pos + n;
        proof {
            let pre = joined(cs.take(i));
            assert(old(self).data() == pre + cs[i] + joined(cs.skip(i + 1)));
            assert(old(self).data().subrange(pre.len() + start, pre.len() + start + n) =~= cs[i].subrange(start, start + n));
            self.lemma_taken_le();
        }
        r
    }
}

} // verus!
