//! Mathematical model of Base64 decoding: how raw bytes become symbols, how
//! the four-symbol state machine turns symbols into bytes, and what a whole
//! stream decodes to.
use vstd::prelude::*;

verus! {

/// The symbol value that stands for the padding character `=`.
pub const PAD: u8 = 255;

/// The symbol a raw byte stands for, or `None` for a byte that is skipped.
/// Both the standard (`+`, `/`) and the URL-safe (`-`, `_`) alphabets are read.
/// Bytes are written as ASCII codes: 65-90 `A`-`Z`, 97-122 `a`-`z`, 48-57
/// `0`-`9`, 43 `+`, 45 `-`, 47 `/`, 95 `_`, 61 `=`.
pub open spec fn digit_of(b: u8) -> Option<u8> {
    if 65u8 <= b && b <= 90u8 {
        Some((b - 65u8) as u8)
    } else if 97u8 <= b && b <= 122u8 {
        Some((b - 97u8 + 26) as u8)
    } else if 48u8 <= b && b <= 57u8 {
        Some((b - 48u8 + 52) as u8)
    } else if b == 43u8 || b == 45u8 {
        Some(62u8)
    } else if b == 47u8 || b == 95u8 {
        Some(63u8)
    } else if b == 61u8 {
        Some(PAD)
    } else {
        None
    }
}

pub open spec fn is_symbol(v: u8) -> bool {
    v < 64 || v == PAD
}

/// The symbols of a raw byte sequence, in order, with skipped bytes left out.
pub open spec fn symbols(raw: Seq<u8>) -> Seq<u8>
    decreases raw.len(),
{
    if raw.len() == 0 {
        Seq::empty()
    } else {
        let rest = symbols(raw.drop_last());
        match digit_of(raw.last()) {
            Some(v) => rest.push(v),
            None => rest,
        }
    }
}

/// The symbols held while a quad is incomplete: at most three, padding only
/// in the third place.
pub open spec fn pending_ok(p: Seq<u8>) -> bool {
    &&& p.len() <= 3
    &&& forall|i: int| 0 <= i < p.len() ==> is_symbol(#[trigger] p[i])
    &&& p.len() > 0 ==> p[0] != PAD
    &&& p.len() > 1 ==> p[1] != PAD
}

pub open spec fn first_byte(a: u8, b: u8) -> u8 {
    (a << 2u8) | ((b >> 4u8) & 0b11u8)
}

pub open spec fn second_byte(b: u8, c: u8) -> u8 {
    ((b & 0b1111u8) << 4u8) | ((c >> 2u8) & 0b1111u8)
}

pub open spec fn third_byte(c: u8, d: u8) -> u8 {
    ((c & 0b11u8) << 6u8) | d
}

/// The bytes a complete quad `a b c d` decodes to, or `None` where its
/// padding is misplaced.
pub open spec fn quad_bytes(a: u8, b: u8, c: u8, d: u8) -> Option<Seq<u8>> {
    if c == PAD {
        if d == PAD {
            Some(seq![first_byte(a, b)])
        } else {
            None
        }
    } else if d == PAD {
        Some(seq![first_byte(a, b), second_byte(b, c)])
    } else {
        Some(seq![first_byte(a, b), second_byte(b, c), third_byte(c, d)])
    }
}

/// One transition of the state machine: from the pending symbols `p` and the
/// next symbol `s`, the new pending symbols and the bytes emitted, or `None`
/// for misplaced padding.
pub open spec fn step(p: Seq<u8>, s: u8) -> Option<(Seq<u8>, Seq<u8>)> {
    if p.len() < 2 {
        if s == PAD {
            None
        } else {
            Some((p.push(s), Seq::empty()))
        }
    } else if p.len() == 2 {
        Some((p.push(s), Seq::empty()))
    } else {
        match quad_bytes(p[0], p[1], p[2], s) {
            Some(o) => Some((Seq::empty(), o)),
            None => None,
        }
    }
}

/// Feeding the symbols `syms` one by one to the state machine that holds
/// `p`: the pending symbols at the end and every byte emitted, or `None` as
/// soon as a transition fails.
pub open spec fn run_from(p: Seq<u8>, syms: Seq<u8>) -> Option<(Seq<u8>, Seq<u8>)>
    decreases syms.len(),
{
    if syms.len() == 0 {
        Some((p, Seq::empty()))
    } else {
        match run_from(p, syms.drop_last()) {
            Some((q, o)) => match step(q, syms.last()) {
                Some((q2, o2)) => Some((q2, o + o2)),
                None => None,
            },
            None => None,
        }
    }
}

/// What a whole raw stream decodes to: the bytes of its complete quads, or
/// `None` where padding is misplaced. An incomplete trailing quad is dropped.
pub open spec fn decode_stream(raw: Seq<u8>) -> Option<Seq<u8>> {
    match run_from(Seq::empty(), symbols(raw)) {
        Some((_, o)) => Some(o),
        None => None,
    }
}

/// Symbols of a concatenation are the concatenated symbols.
pub proof fn lemma_symbols_concat(a: Seq<u8>, b: Seq<u8>)
    ensures
        symbols(a + b) == symbols(a) + symbols(b),
    decreases b.len(),
{
    if b.len() == 0 {
        assert(a + b =~= a);
        assert(symbols(a) + symbols(b) =~= symbols(a));
    } else {
        lemma_symbols_concat(a, b.drop_last());
        assert((a + b).drop_last() =~= a + b.drop_last());
        assert((a + b).last() == b.last());
        let t = symbols(b.drop_last());
        match digit_of(b.last()) {
            Some(v) => {
                assert(symbols(a) + t.push(v) =~= (symbols(a) + t).push(v));
            },
            None => {},
        }
    }
}

/// There are never more symbols than raw bytes.
pub proof fn lemma_symbols_len(raw: Seq<u8>)
    ensures
        symbols(raw).len() <= raw.len(),
    decreases raw.len(),
{
    if raw.len() > 0 {
        lemma_symbols_len(raw.drop_last());
    }
}

/// Running over a concatenation runs over the first part, then over the
/// second from where the first left off.
pub proof fn lemma_run_concat(p: Seq<u8>, a: Seq<u8>, b: Seq<u8>)
    ensures
        run_from(p, a + b) == match run_from(p, a) {
            Some((q, o)) => match run_from(q, b) {
                Some((q2, o2)) => Some((q2, o + o2)),
                None => None,
            },
            None => None,
        },
    decreases b.len(),
{
    if b.len() == 0 {
        assert(a + b =~= a);
        match run_from(p, a) {
            Some((q, o)) => {
                assert(o + Seq::<u8>::empty() =~= o);
            },
            None => {},
        }
    } else {
        lemma_run_concat(p, a, b.drop_last());
        assert((a + b).drop_last() =~= a + b.drop_last());
        assert((a + b).last() == b.last());
        match run_from(p, a) {
            Some((q, o)) => {
                match run_from(q, b.drop_last()) {
                    Some((q2, o2)) => {
                        match step(q2, b.last()) {
                            Some((q3, o3)) => {
                                assert(o + o2 + o3 =~= o + (o2 + o3));
                            },
                            None => {},
                        }
                    },
                    None => {},
                }
            },
            None => {},
        }
    }
}

/// Every emitted byte and every pending symbol was paid for by a symbol.
pub proof fn lemma_run_len(p: Seq<u8>, syms: Seq<u8>)
    ensures
        run_from(p, syms) matches Some((q, o)) ==> o.len() + q.len() <= p.len() + syms.len(),
    decreases syms.len(),
{
    if syms.len() > 0 {
        lemma_run_len(p, syms.drop_last());
    }
}

/// Bytes outside the alphabet, such as spaces and line breaks, give no symbols.
pub proof fn lemma_noise_symbols(noise: Seq<u8>)
    requires
        forall|i: int| 0 <= i < noise.len() ==> digit_of(#[trigger] noise[i]) is None,
    ensures
        symbols(noise) == Seq::<u8>::empty(),
    decreases noise.len(),
{
    if noise.len() > 0 {
        lemma_noise_symbols(noise.drop_last());
    }
}

/// Inserting bytes outside the alphabet (spaces, line breaks, ...) anywhere
/// in a stream does not change what it decodes to.
pub proof fn lemma_noise_ignored(a: Seq<u8>, noise: Seq<u8>, b: Seq<u8>)
    requires
        forall|i: int| 0 <= i < noise.len() ==> digit_of(#[trigger] noise[i]) is None,
    ensures
        decode_stream(a + noise + b) == decode_stream(a + b),
{
    lemma_noise_symbols(noise);
    lemma_symbols_concat(a, noise);
    lemma_symbols_concat(a + noise, b);
    lemma_symbols_concat(a, b);
    assert(symbols(a) + Seq::<u8>::empty() =~= symbols(a));
}

/// The standard-alphabet character for a URL-safe one: `-` becomes `+` and
/// `_` becomes `/`; any other byte stays.
pub open spec fn to_standard(b: u8) -> u8 {
    if b == 45u8 {
        43u8
    } else if b == 95u8 {
        47u8
    } else {
        b
    }
}

proof fn lemma_standard_symbols(raw: Seq<u8>)
    ensures
        symbols(raw.map_values(|b: u8| to_standard(b))) == symbols(raw),
    decreases raw.len(),
{
    if raw.len() > 0 {
        lemma_standard_symbols(raw.drop_last());
        assert(raw.map_values(|b: u8| to_standard(b)).drop_last() =~= raw.drop_last().map_values(
            |b: u8| to_standard(b),
        ));
    }
}

/// A stream written with the URL-safe characters `-` and `_` decodes as the
/// same stream written with `+` and `/`.
pub proof fn lemma_url_safe_alphabet(raw: Seq<u8>)
    ensures
        decode_stream(raw.map_values(|b: u8| to_standard(b))) == decode_stream(raw),
{
    lemma_standard_symbols(raw);
}

/// The standard-alphabet character of a six-bit value.
pub open spec fn alphabet(v: u8) -> u8 {
    if v < 26 {
        (v + 65) as u8
    } else if v < 52 {
        (v - 26 + 97) as u8
    } else if v < 62 {
        (v - 52 + 48) as u8
    } else if v == 62 {
        43u8
    } else {
        47u8
    }
}

/// Standard Base64 encoding with `=` padding (61 is `=`).
pub open spec fn encode(b: Seq<u8>) -> Seq<u8>
    decreases b.len(),
{
    if b.len() == 0 {
        Seq::empty()
    } else if b.len() == 1 {
        seq![alphabet(b[0] >> 2u8), alphabet((b[0] & 3u8) << 4u8), 61u8, 61u8]
    } else if b.len() == 2 {
        seq![
            alphabet(b[0] >> 2u8),
            alphabet(((b[0] & 3u8) << 4u8) | (b[1] >> 4u8)),
            alphabet((b[1] & 15u8) << 2u8),
            61u8,
        ]
    } else {
        seq![
            alphabet(b[0] >> 2u8),
            alphabet(((b[0] & 3u8) << 4u8) | (b[1] >> 4u8)),
            alphabet(((b[1] & 15u8) << 2u8) | (b[2] >> 6u8)),
            alphabet(b[2] & 63u8),
        ] + encode(b.skip(3))
    }
}

proof fn lemma_alphabet_digit(v: u8)
    requires
        v < 64,
    ensures
        digit_of(alphabet(v)) == Some(v),
{
}

proof fn lemma_symbols_quad(r: Seq<u8>, a: u8, b: u8, c: u8, d: u8)
    requires
        r.len() == 4,
        digit_of(r[0]) == Some(a),
        digit_of(r[1]) == Some(b),
        digit_of(r[2]) == Some(c),
        digit_of(r[3]) == Some(d),
    ensures
        symbols(r) == seq![a, b, c, d],
{
    reveal_with_fuel(symbols, 5);
    assert(r.drop_last().drop_last().drop_last().drop_last() =~= Seq::<u8>::empty());
    assert(seq![a].push(b).push(c).push(d) =~= seq![a, b, c, d]);
    assert(Seq::<u8>::empty().push(a) =~= seq![a]);
}

proof fn lemma_run_quad(a: u8, b: u8, c: u8, d: u8)
    requires
        a < 64,
        b < 64,
    ensures
        run_from(Seq::empty(), seq![a, b, c, d]) == match quad_bytes(a, b, c, d) {
            Some(o) => Some((Seq::<u8>::empty(), o)),
            None => None,
        },
{
    reveal_with_fuel(run_from, 5);
    let s = seq![a, b, c, d];
    assert(s.drop_last() =~= seq![a, b, c]);
    assert(seq![a, b, c].drop_last() =~= seq![a, b]);
    assert(seq![a, b].drop_last() =~= seq![a]);
    assert(seq![a].drop_last() =~= Seq::<u8>::empty());
    assert(Seq::<u8>::empty().push(a) =~= seq![a]);
    assert(seq![a].push(b) =~= seq![a, b]);
    assert(seq![a, b].push(c) =~= seq![a, b, c]);
    let e = Seq::<u8>::empty();
    assert(e + e =~= e);
    match quad_bytes(a, b, c, d) {
        Some(o) => {
            assert(e + o =~= o);
        },
        None => {},
    }
}

/// Decoding undoes standard Base64 encoding: every byte sequence comes back,
/// with no symbol left pending.
pub proof fn lemma_round_trip_run(b: Seq<u8>)
    ensures
        run_from(Seq::empty(), symbols(encode(b))) == Some((Seq::<u8>::empty(), b)),
    decreases b.len(),
{
    if b.len() > 0 {
        let x = b[0];
        assert(x >> 2u8 < 64) by (bit_vector);
        lemma_alphabet_digit(x >> 2u8);
        if b.len() == 1 {
            assert(((x & 3u8) << 4u8) < 64 && ((x >> 2u8) << 2u8) | ((((x & 3u8) << 4u8) >> 4u8)
                & 0b11u8) == x) by (bit_vector);
            let b1 = (x & 3u8) << 4u8;
            lemma_alphabet_digit(b1);
            lemma_symbols_quad(encode(b), x >> 2u8, b1, PAD, PAD);
            lemma_run_quad(x >> 2u8, b1, PAD, PAD);
            assert(seq![first_byte(x >> 2u8, b1)] =~= b);
        } else {
            let y = b[1];
            assert(((x & 3u8) << 4u8) | (y >> 4u8) < 64 && ((x >> 2u8) << 2u8) | (((((x & 3u8)
                << 4u8) | (y >> 4u8)) >> 4u8) & 0b11u8) == x) by (bit_vector);
            let b1 = ((x & 3u8) << 4u8) | (y >> 4u8);
            lemma_alphabet_digit(b1);
            if b.len() == 2 {
                assert(((y & 15u8) << 2u8) < 64 && ((((((x & 3u8) << 4u8) | (y >> 4u8))
                    & 0b1111u8) << 4u8) | ((((y & 15u8) << 2u8) >> 2u8) & 0b1111u8)) == y)
                    by (bit_vector);
                let c1 = (y & 15u8) << 2u8;
                lemma_alphabet_digit(c1);
                lemma_symbols_quad(encode(b), x >> 2u8, b1, c1, PAD);
                lemma_run_quad(x >> 2u8, b1, c1, PAD);
                assert(seq![first_byte(x >> 2u8, b1), second_byte(b1, c1)] =~= b);
            } else {
                let z = b[2];
                assert(((y & 15u8) << 2u8) | (z >> 6u8) < 64 && ((((((x & 3u8) << 4u8) | (y
                    >> 4u8)) & 0b1111u8) << 4u8) | (((((y & 15u8) << 2u8) | (z >> 6u8)) >> 2u8)
                    & 0b1111u8)) == y) by (bit_vector);
                assert((z & 63u8) < 64 && ((((((y & 15u8) << 2u8) | (z >> 6u8)) & 0b11u8) << 6u8)
                    | (z & 63u8)) == z) by (bit_vector);
                let c1 = ((y & 15u8) << 2u8) | (z >> 6u8);
                let d1 = z & 63u8;
                lemma_alphabet_digit(c1);
                lemma_alphabet_digit(d1);
                let q = seq![alphabet(x >> 2u8), alphabet(b1), alphabet(c1), alphabet(d1)];
                let rest = encode(b.skip(3));
                assert(encode(b) == q + rest);
                lemma_symbols_quad(q, x >> 2u8, b1, c1, d1);
                lemma_run_quad(x >> 2u8, b1, c1, d1);
                lemma_symbols_concat(q, rest);
                lemma_run_concat(Seq::empty(), symbols(q), symbols(rest));
                lemma_round_trip_run(b.skip(3));
                assert(seq![x, y, z] + b.skip(3) =~= b);
            }
        }
    }
}

/// Round trip: decoding the standard Base64 encoding of any byte sequence
/// gives that sequence back.
pub proof fn lemma_round_trip(b: Seq<u8>)
    ensures
        decode_stream(encode(b)) == Some(b),
{
    lemma_round_trip_run(b);
}

/// Pushing behind a sequence and then dropping its first `s` elements is the
/// same as dropping first and pushing after.
pub proof fn lemma_skip_push(a: Seq<u8>, x: u8, s: int)
    requires
        0 <= s <= a.len(),
    ensures
        a.push(x).skip(s) == a.skip(s).push(x),
{
    assert(a.push(x).skip(s) =~= a.skip(s).push(x));
}

} // verus!
