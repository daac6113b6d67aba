//! The streaming Base64 decoder.
use vstd::prelude::*;
use crate::source::{chunks_view, joined, ChunkSource};
use crate::model::{
    digit_of, first_byte, is_symbol, pending_ok, run_from, second_byte, lemma_skip_push, decode_stream, lemma_symbols_concat, lemma_run_concat, lemma_run_len, lemma_symbols_len, step, symbols, third_byte,
    PAD,
};

verus! {

/// Raised when a padding symbol stands where the quad does not allow it.
#[derive(Debug, Clone, Copy, PartialEq, Eq, Structural)]
pub enum Base64Error {
    InvalidPadding,
}

impl Base64Error {
    /// A human-readable description of the error.
    pub fn message(&self) -> (r: String)
        ensures
            r@ == "Invalid base64 padding."@,
    {
        String::from_str("Invalid base64 padding.")
    }
}

/// A symbol: a value from 0 to 63, or `PAD` for padding.
#[derive(Clone, Copy)]
struct Base64Digit {
    value: u8,
}

impl Base64Digit {
    /// Classifies one raw byte (ASCII codes: 65-90 `A`-`Z`, 97-122 `a`-`z`,
    /// 48-57 `0`-`9`, 43 `+`, 45 `-`, 47 `/`, 95 `_`, 61 `=`).
    fn from(byte: u8) -> (r: Option<Self>)
        ensures
            r is Some <==> digit_of(byte) is Some,
            r is Some ==> digit_of(byte) == Some(r.unwrap().value),
    {
        let i: u8 = if 65u8 <= byte && byte <= 90u8 {
            byte - 65u8
        } else if 97u8 <= byte && byte <= 122u8 {
            byte - 97u8 + 26
        } else if 48u8 <= byte && byte <= 57u8 {
            byte - 48u8 + 52
        } else if byte == 43u8 || byte == 45u8 {
            62
        } else if byte == 47u8 || byte == 95u8 {
            63
        } else if byte == 61u8 {
            PAD
        } else {
            return None;
        };
        Some(Base64Digit { value: i })
    }

    fn is_padding(self) -> (r: bool)
        requires
            is_symbol(self.value),
        ensures
            r <==> self.value == PAD,
    {
        self.value >= 64
    }
}

/// Up to three decoded bytes waiting to be handed out, first in front.
struct Decoded {
    vals: [u8; 3],
    len: u8,
}

impl View for Decoded {
    type V = Seq<u8>;

    closed spec fn view(&self) -> Seq<u8> {
        self.vals@.subrange(0, self.len as int)
    }
}

impl Decoded {
    spec fn wf(&self) -> bool {
        self.len <= 3
    }

    fn empty() -> (r: Self)
        ensures
            r.wf(),
            r@ == Seq::<u8>::empty(),
    {
        Self { vals: [0, 0, 0], len: 0 }
    }

    fn get(&mut self) -> (r: u8)
        requires
            old(self).wf(),
            old(self)@.len() > 0,
        ensures
            final(self).wf(),
            r == old(self)@[0],
            final(self)@ == old(self)@.drop_first(),
    {
        let res = self.vals[0];
        self.vals[0] = self.vals[1];
        self.vals[1] = self.vals[2];
        self.len = self.len - 1;
        assert(self@ =~= old(self)@.drop_first());
        res
    }
}

/// The symbols of the quad being read.
struct State {
    seen: [Base64Digit; 3],
    len: u8,
}

impl View for State {
    type V = Seq<u8>;

    closed spec fn view(&self) -> Seq<u8> {
        Seq::new(self.len as nat, |i: int| self.seen@[i].value)
    }
}

impl State {
    spec fn wf(&self) -> bool {
        &&& self.len <= 3
        &&& pending_ok(self@)
    }

    fn new() -> (r: State)
        ensures
            r.wf(),
            r@ == Seq::<u8>::empty(),
    {
        State {
            seen: [Base64Digit { value: 0 }, Base64Digit { value: 0 }, Base64Digit { value: 0 }],
            len: 0,
        }
    }

    fn add_state(&mut self, digit: Base64Digit) -> (r: Result<Decoded, Base64Error>)
        requires
            old(self).wf(),
            is_symbol(digit.value),
        ensures
            final(self).wf(),
            match step(old(self)@, digit.value) {
                Some((p, o)) => r is Ok && final(self)@ == p && r.unwrap().wf() && r.unwrap()@
                    == o,
                None => r is Err,
            },
    {
        if self.len == 0 {
            if digit.is_padding() {
                return Err(Base64Error::InvalidPadding);
            }
            self.len = 1;
            self.seen[0] = digit;
            assert(self@ =~= old(self)@.push(digit.value));
            Ok(Decoded::empty())
        } else if self.len == 1 {
            if digit.is_padding() {
                return Err(Base64Error::InvalidPadding);
            }
            self.len = 2;
            self.seen[1] = digit;
            assert(self@ =~= old(self)@.push(digit.value));
            Ok(Decoded::empty())
        } else if self.len == 2 {
            self.len = 3;
            self.seen[2] = digit;
            assert(self@ =~= old(self)@.push(digit.value));
            Ok(Decoded::empty())
        } else {
            self.len = 0;
            assert(self@ =~= Seq::<u8>::empty());
            let a = self.seen[0].value;
            let b = self.seen[1].value;
            let c = self.seen[2].value;
            assert(a == old(self)@[0] && b == old(self)@[1] && c == old(self)@[2]);
            if self.seen[2].is_padding() {
                if !digit.is_padding() {
                    return Err(Base64Error::InvalidPadding);
                }
                let byte = a << 2 | ((b >> 4) & 0b11);
                let r = Decoded { vals: [byte, 0, 0], len: 1 };
                assert(r@ =~= seq![first_byte(a, b)]);
                Ok(r)
            } else if digit.is_padding() {
                let byte1 = a << 2 | ((b >> 4) & 0b11);
                let byte2 = (b & 0b1111) << 4 | ((c >> 2) & 0b1111);
                let r = Decoded { vals: [byte1, byte2, 0], len: 2 };
                assert(r@ =~= seq![first_byte(a, b), second_byte(b, c)]);
                Ok(r)
            } else {
                let byte1 = a << 2 | ((b >> 4) & 0b11);
                let byte2 = (b & 0b1111) << 4 | ((c >> 2) & 0b1111);
                let byte3 = (c & 0b11) << 6 | digit.value;
                let r = Decoded { vals: [byte1, byte2, byte3], len: 3 };
                assert(r@ =~= seq![first_byte(a, b), second_byte(b, c), third_byte(c, digit.value)]);
                Ok(r)
            }
        }
    }
}


/// What a call of `Base64::decode_into` ended with.
#[derive(Debug, Clone, Copy, PartialEq, Eq, Structural)]
pub enum Progress {
    /// The output reached the requested length.
    Full,
    /// The staged input ran out first: the source should be asked for up to
    /// this many raw bytes, to be handed over with `Base64::refill`.
    NeedInput(usize),
}

/// A streaming Base64 decoder. Raw bytes are staged with `refill`; decoded
/// bytes are pulled with `decode_into`, which consumes staged bytes only as far
/// as the output asks for.
pub struct Base64 {
    state: State,
    decoded: Decoded,
    buffer: Vec<u8>,
    offset: usize,
}

impl Base64 {
    /// The symbols of the quad being read.
    pub closed spec fn pending(&self) -> Seq<u8> {
        self.state@
    }

    /// Decoded bytes not yet handed out.
    pub closed spec fn queued(&self) -> Seq<u8> {
        self.decoded@
    }

    /// Raw bytes staged and not yet consumed.
    pub closed spec fn staged(&self) -> Seq<u8> {
        self.buffer@.subrange(self.offset as int, self.buffer@.len() as int)
    }

    pub closed spec fn wf(&self) -> bool {
        &&& self.state.wf()
        &&& self.decoded.wf()
        &&& self.offset <= self.buffer@.len()
    }

    /// `next` is this decoder after consuming its first `k` staged bytes and
    /// handing out `out`.
    pub open spec fn advances_to(self, k: int, next: Base64, out: Seq<u8>) -> bool {
        &&& 0 <= k <= self.staged().len()
        &&& next.staged() == self.staged().skip(k)
        &&& match run_from(self.pending(), symbols(self.staged().take(k))) {
            Some((p, o)) => next.pending() == p && self.queued() + o == out + next.queued(),
            None => false,
        }
    }

    /// Consuming the first `k` staged bytes runs into misplaced padding.
    pub open spec fn fails_within(self, k: int) -> bool {
        &&& 0 <= k <= self.staged().len()
        &&& run_from(self.pending(), symbols(self.staged().take(k))) is None
    }

    pub fn new() -> (r: Base64)
        ensures
            r.wf(),
            r.pending() == Seq::<u8>::empty(),
            r.queued() == Seq::<u8>::empty(),
            r.staged() == Seq::<u8>::empty(),
    {
        Base64 { state: State::new(), decoded: Decoded::empty(), buffer: Vec::new(), offset: 0 }
    }

    /// Stages raw bytes read from the source behind those still staged.
    pub fn refill(&mut self, chunk: Vec<u8>)
        requires
            old(self).wf(),
        ensures
            final(self).wf(),
            final(self).pending() == old(self).pending(),
            final(self).queued() == old(self).queued(),
            final(self).staged() == old(self).staged() + chunk@,
    {
        let mut chunk = chunk;
        if self.offset == self.buffer.len() {
            self.buffer = chunk;
            self.offset = 0;
            assert(self.staged() =~= old(self).staged() + chunk@);
        } else {
            let ghost c = chunk@;
            self.buffer.append(&mut chunk);
            assert(self.staged() =~= old(self).staged() + c);
        }
    }

    /// Appends decoded bytes to `out` until it holds `want` bytes, consuming
    /// staged raw bytes only while no decoded byte is queued. Skipped bytes
    /// are consumed silently; misplaced padding is an error.
    pub fn decode_into(&mut self, out: &mut Vec<u8>, want: usize) -> (r: Result<
        Progress,
        Base64Error,
    >)
        requires
            old(self).wf(),
        ensures
            final(self).wf(),
            final(out)@ == old(out)@ + final(out)@.skip(old(out)@.len() as int),
            r is Ok ==> exists|k: int| #[trigger]
                old(self).advances_to(k, *final(self), final(out)@.skip(old(out)@.len() as int)),
            r is Err ==> exists|k: int| #[trigger] old(self).fails_within(k),
            r == Ok::<Progress, Base64Error>(Progress::Full) ==> final(out)@.len() == if old(
                out,
            )@.len() < want {
                want as int
            } else {
                old(out)@.len() as int
            },
            r matches Ok(Progress::NeedInput(n)) ==> {
                &&& final(self).staged().len() == 0
                &&& final(self).queued().len() == 0
                &&& final(out)@.len() < want
                &&& n == want - final(out)@.len()
            },
            // Once drained, a decoder stays as it is and asks for input again.
            old(self).staged().len() == 0 && old(self).queued().len() == 0 && old(out)@.len()
                < want ==> {
                &&& r == Ok::<Progress, Base64Error>(Progress::NeedInput((want - old(out)@.len()) as usize))
                &&& final(out)@ == old(out)@
                &&& final(self).pending() == old(self).pending()
            },
    {
        let ghost start = out@.len() as int;
        let ghost s0 = self.staged();
        let ghost p0 = self.pending();
        let ghost q0 = self.queued();
        let ghost off0 = self.offset as int;
        let ghost o: Seq<u8> = Seq::empty();
        assert(s0.take(0) =~= Seq::<u8>::empty());
        assert(out@.skip(start) =~= Seq::<u8>::empty());
        assert(q0 + o =~= q0);
        assert(s0.skip(0) =~= s0);
        assert(Seq::<u8>::empty() + q0 =~= q0);
        if out.len() >= want {
            assert(old(self).advances_to(0, *self, out@.skip(start)));
            return Ok(Progress::Full);
        }
        while out.len() < want
            invariant
                self.wf(),
                out@.len() <= want,
                0 <= start <= out@.len(),
                out@ == old(out)@ + out@.skip(start),
                self.buffer@ == old(self).buffer@,
                off0 <= self.offset,
                s0 == old(self).staged(),
                p0 == old(self).pending(),
                q0 == old(self).queued(),
                off0 == old(self).offset,
                self.staged() == s0.skip(self.offset - off0),
                run_from(p0, symbols(s0.take(self.offset - off0))) == Some((self.pending(), o)),
                q0 + o == out@.skip(start) + self.queued(),
                s0.len() == 0 && q0.len() == 0 ==> out@.len() == start && self.offset == off0,
            decreases want - out@.len(),
        {
            while self.decoded.len == 0
                invariant
                    self.wf(),
                    out@.len() < want,
                    0 <= start <= out@.len(),
                    out@ == old(out)@ + out@.skip(start),
                    self.buffer@ == old(self).buffer@,
                    off0 <= self.offset,
                    s0 == old(self).staged(),
                    p0 == old(self).pending(),
                    q0 == old(self).queued(),
                    off0 == old(self).offset,
                    self.staged() == s0.skip(self.offset - off0),
                    run_from(p0, symbols(s0.take(self.offset - off0))) == Some((self.pending(), o)),
                    q0 + o == out@.skip(start) + self.queued(),
                    s0.len() == 0 && q0.len() == 0 ==> out@.len() == start && self.offset == off0,
                decreases self.buffer@.len() - self.offset,
            {
                if self.offset >= self.buffer.len() {
                    assert(self.staged().len() == 0);
                    proof {
                        if s0.len() == 0 && q0.len() == 0 {
                            assert(out@ =~= old(out)@);
                        }
                    }
                    assert(old(self).advances_to(self.offset - off0, *self, out@.skip(start)));
                    return Ok(Progress::NeedInput(want - out.len()));
                }
                let ghost k = self.offset - off0;
                let byte = self.buffer[self.offset];
                self.offset = self.offset + 1;
                assert(s0[k] == byte);
                assert(s0.take(k + 1).drop_last() =~= s0.take(k));
                assert(s0.take(k + 1).last() == byte);
                assert(self.staged() =~= s0.skip(k + 1));
                let ghost syms = symbols(s0.take(k));
                match Base64Digit::from(byte) {
                    None => {},
                    Some(digit) => {
                        assert(syms.push(digit.value).drop_last() =~= syms);
                        let ghost before = self.pending();
                        match self.state.add_state(digit) {
                            Ok(d) => {
                                self.decoded = d;
                                proof {
                                    o = o + d@;
                                    assert(q0 + o =~= out@.skip(start) + self.queued());
                                }
                            },
                            Err(e) => {
                                assert(old(self).fails_within(k + 1));
                                return Err(e);
                            },
                        }
                    },
                }
            }
            let ghost before = out@;
            let b = self.decoded.get();
            out.push(b);
            assert(out@ == before.push(b));
            proof {
                lemma_skip_push(before, b, start);
            }
            assert(out@ =~= old(out)@ + out@.skip(start));
            assert(q0 + o =~= out@.skip(start) + self.queued());
        }
        assert(old(self).advances_to(self.offset - off0, *self, out@.skip(start)));
        Ok(Progress::Full)
    }
}

/// The decoder's staged bytes are the last ones the source handed out.
spec fn in_sync(dec: Base64, src: ChunkSource) -> bool {
    &&& dec.staged().len() <= src.taken() <= src.data().len()
    &&& dec.staged() == src.data().subrange(src.taken() - dec.staged().len(), src.taken())
}

/// The raw bytes the decoder has consumed.
spec fn consumed(dec: Base64, src: ChunkSource) -> Seq<u8> {
    src.data().take(src.taken() - dec.staged().len())
}

/// `h` has been handed out, and together with the queue it is what the
/// consumed bytes decode to.
spec fn history(dec: Base64, src: ChunkSource, h: Seq<u8>) -> bool {
    run_from(Seq::empty(), symbols(consumed(dec, src))) == Some((dec.pending(), h + dec.queued()))
}

proof fn lemma_advance(dec: Base64, next: Base64, src: ChunkSource, k: int, h: Seq<u8>, added: Seq<u8>)
    requires
        in_sync(dec, src),
        history(dec, src, h),
        dec.advances_to(k, next, added),
    ensures
        in_sync(next, src),
        history(next, src, h + added),
{
    let d = src.data();
    let c = src.taken() - dec.staged().len();
    let s = dec.staged();
    assert(d.take(c + k) =~= d.take(c) + s.take(k));
    assert(consumed(next, src) =~= d.take(c + k));
    lemma_symbols_concat(d.take(c), s.take(k));
    lemma_run_concat(Seq::empty(), symbols(d.take(c)), symbols(s.take(k)));
    assert(next.staged() =~= d.subrange(src.taken() - next.staged().len(), src.taken()));
    match run_from(dec.pending(), symbols(s.take(k))) {
        Some((p, o)) => {
            assert(h + dec.queued() + o =~= h + (dec.queued() + o));
            assert(h + added + next.queued() =~= h + (added + next.queued()));
        },
        None => {},
    }
}

proof fn lemma_fail(dec: Base64, src: ChunkSource, k: int, h: Seq<u8>)
    requires
        in_sync(dec, src),
        history(dec, src, h),
        dec.fails_within(k),
    ensures
        decode_stream(src.data()) is None,
{
    let d = src.data();
    let c = src.taken() - dec.staged().len();
    let s = dec.staged();
    assert(d.take(c + k) =~= d.take(c) + s.take(k));
    lemma_symbols_concat(d.take(c), s.take(k));
    lemma_run_concat(Seq::empty(), symbols(d.take(c)), symbols(s.take(k)));
    assert(d =~= d.take(c + k) + d.skip(c + k));
    lemma_symbols_concat(d.take(c + k), d.skip(c + k));
    lemma_run_concat(Seq::empty(), symbols(d.take(c + k)), symbols(d.skip(c + k)));
}

impl Base64 {
    /// One pull-read of up to `want` bytes, refilling from `src` whenever
    /// the staged bytes run out; fewer than `want` only at the end of `src`.
    fn read_from(&mut self, src: &mut ChunkSource, want: usize, Ghost(h): Ghost<Seq<u8>>) -> (r:
        Result<Vec<u8>, Base64Error>)
        requires
            old(self).wf(),
            old(src).wf(),
            in_sync(*old(self), *old(src)),
            history(*old(self), *old(src), h),
            want > 0,
        ensures
            final(self).wf(),
            final(src).wf(),
            final(src).data() == old(src).data(),
            match r {
                Ok(v) => {
                    &&& in_sync(*final(self), *final(src))
                    &&& history(*final(self), *final(src), h + v@)
                    &&& v@.len() <= want
                    &&& v@.len() < want ==> {
                        &&& final(src).taken() == final(src).data().len()
                        &&& final(self).staged().len() == 0
                        &&& final(self).queued().len() == 0
                    }
                },
                Err(_) => decode_stream(old(src).data()) is None,
            },
    {
        let mut out: Vec<u8> = Vec::new();
        assert(h + out@ =~= h);
        loop
            invariant
                self.wf(),
                src.wf(),
                src.data() == old(src).data(),
                in_sync(*self, *src),
                history(*self, *src, h + out@),
                out@.len() < want,
                want > 0,
            decreases src.data().len() - src.taken(),
        {
            let ghost before = *self;
            let ghost out0 = out@;
            let res = self.decode_into(&mut out, want);
            match res {
                Err(e) => {
                    proof {
                        let k = choose|k: int| before.fails_within(k);
                        lemma_fail(before, *src, k, h + out0);
                    }
                    return Err(e);
                },
                Ok(p) => {
                    proof {
                        let added = out@.skip(out0.len() as int);
                        let k = choose|k: int| #[trigger] before.advances_to(k, *self, added);
                        lemma_advance(before, *self, *src, k, h + out0, added);
                        assert(h + out0 + added =~= h + out@);
                    }
                    match p {
                        Progress::Full => {
                            return Ok(out);
                        },
                        Progress::NeedInput(n) => {
                            let ghost src0 = *src;
                            let piece = src.read(n);
                            if piece.len() == 0 {
                                return Ok(out);
                            }
                            let ghost pc = piece@;
                            let ghost mid = *self;
                            self.refill(piece);
                            proof {
                                assert(self.staged() =~= pc);
                                assert(consumed(*self, *src) =~= consumed(mid, src0));
                            }
                        },
                    }
                },
            }
        }
    }
}

/// Decodes the bytes of `chunks`, taken in order, as a source that hands out
/// at most one chunk per read call, pulling decoded bytes `read_size` at a
/// time until a read returns nothing. The result is the decoding of the
/// concatenated chunks, however they are cut and whatever the read size.
pub fn decode_chunks(chunks: Vec<Vec<u8>>, read_size: usize) -> (r: Result<Vec<u8>, Base64Error>)
    requires
        read_size > 0,
    ensures
        match r {
            Ok(v) => decode_stream(joined(chunks_view(chunks@))) == Some(v@),
            Err(_) => decode_stream(joined(chunks_view(chunks@))) is None,
        },
{
    let mut src = ChunkSource::new(chunks);
    let mut dec = Base64::new();
    let mut result: Vec<u8> = Vec::new();
    proof {
        assert(src.data().take(0) =~= Seq::<u8>::empty());
        assert(dec.staged().len() == 0);
        assert(consumed(dec, src) =~= Seq::<u8>::empty());
        assert(Seq::<u8>::empty() + dec.queued() =~= Seq::<u8>::empty());
        assert(in_sync(dec, src));
    }
    loop
        invariant
            dec.wf(),
            src.wf(),
            src.data() == joined(chunks_view(chunks@)),
            in_sync(dec, src),
            history(dec, src, result@),
            result@.len() <= src.data().len(),
            read_size > 0,
        decreases src.data().len() - result@.len(),
    {
        let mut piece = match dec.read_from(&mut src, read_size, Ghost(result@)) {
            Ok(v) => v,
            Err(e) => {
                return Err(e);
            },
        };
        let ghost before = result@;
        if piece.len() == 0 {
            proof {
                assert(consumed(dec, src) =~= src.data());
                assert(before + piece@ + dec.queued() =~= before);
            }
            return Ok(result);
        }
        result.append(&mut piece);
        proof {
            let c = consumed(dec, src);
            lemma_run_len(Seq::empty(), symbols(c));
            lemma_symbols_len(c);
            assert(result@.len() <= (result@ + dec.queued()).len());
        }
    }
}

} // verus!
