use vstd::prelude::*;
use vstd::arithmetic::div_mod::lemma_div_denominator;
use crate::bits::{bit_of, byte_bits, lemma_bit_halves, low_bits, padding, zero_bits};
use crate::huffman_lengths::{
    code_length_lengths, code_length_word_length, expand_step, extra_width, huffman_lengths_bits,
    lemma_code_length_lengths_feasible, lemma_rle_step, order_bits, rle_from, run_bits,
    run_symbol_bits, RunSymbol, HUFFMAN_LENGTH_ORDER,
};
use crate::huffman_table::{
    base_index, canonical_code, code_for, distance_extra, distance_index, feasible,
    fixed_distance_lengths, fixed_literal_lengths, length_extra, length_index, lemma_code_bits,
    lemma_fixed_distances_feasible, lemma_fixed_literals_feasible, lemma_kraft_gives_codes,
    lemma_pow2_mono, lemma_pow2_split, lemma_powers, lemma_prefix_free, lemma_preset_complete,
    pow2, preset_distance_lengths, preset_literal_lengths, valid_distance,
    valid_length, word_bits, DISTANCE_BASE, DISTANCE_EXTRA_BITS, END_OF_BLOCK_POSITION,
    LENGTH_BASE, LENGTH_CODE_START, LENGTH_EXTRA_BITS, POWERS,
};
use crate::lz77::{copy_back, decode, decode_step, lemma_decode_push, single_block, LDPair};
use crate::stored_block::{lemma_stored_round_trip, stored_contents, stored_stream};
use crate::{
    all_writable, block_header_bits, code_bits, dynamic_distance_lengths, dynamic_literal_lengths,
    dynamic_stream_bits, dynamic_symbols_bits, end_of_block_bits, fixed_distances, fixed_literals,
    fixed_stream_bits, packs, symbol_bits, symbols_bits, writable,
};

verus! {

/// The number that `bits` spell, lowest bit first.
pub open spec fn bits_value(bits: Seq<bool>) -> int
    decreases bits.len(),
{
    if bits.len() == 0 {
        0
    } else {
        (if bits[0] {
            1int
        } else {
            0int
        }) + 2 * bits_value(bits.skip(1))
    }
}

/// The bits of a value that fits them spell the value.
pub proof fn lemma_bits_value(v: u32, w: nat)
    requires
        w <= 16,
        v < pow2(w),
    ensures
        bits_value(low_bits(v, w)) == v,
    decreases w,
{
    if w > 0 {
        lemma_bit_halves(v, 0);
        assert forall|k: int| 0 <= k < w - 1 implies #[trigger] low_bits(v, w).skip(1)[k]
            == low_bits(v / 2, (w - 1) as nat)[k] by {
            lemma_bit_halves(v, k as u32);
        }
        assert(low_bits(v, w).skip(1) =~= low_bits(v / 2, (w - 1) as nat));
        lemma_bits_value(v / 2, (w - 1) as nat);
    }
}

/// Dividing by a power of two moves every bit down by the exponent.
proof fn lemma_bit_of_quotient(c: u32, d: nat, m: u32)
    requires
        d + m < 32,
        d <= 15,
    ensures
        pow2(d) <= 32768,
        bit_of((c as int / pow2(d) as int) as u32, m) == bit_of(c, (m + d) as u32),
    decreases d,
{
    lemma_powers();
    lemma_pow2_mono(d, 15);
    if d > 0 {
        let p = pow2((d - 1) as nat) as int;
        lemma_pow2_mono((d - 1) as nat, 15);
        lemma_bit_of_quotient(c, (d - 1) as nat, (m + 1) as u32);
        lemma_div_denominator(c as int, p, 2);
        assert(p * 2 == pow2(d));
        let q = (c as int / p) as u32;
        lemma_bit_halves(q, m);
    } else {
        assert(c as int / 1 == c);
    }
}

/// A code word cut down to its first `short` bits is the word of its
/// value without the bits that were cut.
#[verifier::rlimit(40)]
proof fn lemma_word_prefix(code: int, long: nat, short: nat)
    requires
        short <= long <= 15,
        0 <= code < pow2(long),
    ensures
        word_bits(code, long).take(short as int) == word_bits(
            code / (pow2((long - short) as nat) as int),
            short,
        ),
        0 <= code / (pow2((long - short) as nat) as int) < pow2(short),
{
    let d = (long - short) as nat;
    let p = pow2(d) as int;
    lemma_powers();
    lemma_pow2_mono(long, 15);
    lemma_pow2_mono(0, d);
    lemma_pow2_split(d, short);
    let q = code / p;
    assert(0 <= q < pow2(short)) by (nonlinear_arith)
        requires
            0 <= code < p * pow2(short),
            p >= 1,
            q == code / p,
    ;
    assert forall|k: int| 0 <= k < short implies #[trigger] word_bits(code, long).take(
        short as int,
    )[k] == word_bits(q, short)[k] by {
        lemma_bit_of_quotient(code as u32, d, (short - 1 - k) as u32);
    }
    assert(word_bits(code, long).take(short as int) =~= word_bits(q, short));
}

/// Two values of `n` bits with the same word are the same.
proof fn lemma_word_decides(x: int, y: int, n: nat)
    requires
        n <= 15,
        0 <= x < pow2(n),
        0 <= y < pow2(n),
        word_bits(x, n) == word_bits(y, n),
    ensures
        x == y,
{
    lemma_powers();
    lemma_pow2_mono(n, 15);
    assert forall|k: int| 0 <= k < n implies #[trigger] low_bits(x as u32, n)[k] == low_bits(
        y as u32,
        n,
    )[k] by {
        let at = n - 1 - k;
        assert(word_bits(x, n)[at] == bit_of(x as u32, (n - 1 - at) as u32));
        assert(word_bits(y, n)[at] == bit_of(y as u32, (n - 1 - at) as u32));
        assert((n - 1 - at) as u32 == k as u32);
    }
    assert(low_bits(x as u32, n) =~= low_bits(y as u32, n));
    lemma_bits_value(x as u32, n);
    lemma_bits_value(y as u32, n);
}

/// The bits that the code of `symbol` is sent as.
pub open spec fn symbol_word(lengths: Seq<u8>, symbol: int) -> Seq<bool> {
    low_bits(code_for(lengths, symbol).code as u32, code_for(lengths, symbol).length as nat)
}

/// `symbol` has a code, and its code stands at the front of `bits`.
pub open spec fn word_in_front(lengths: Seq<u8>, symbol: int, bits: Seq<bool>) -> bool {
    &&& 0 <= symbol < lengths.len()
    &&& lengths[symbol] > 0
    &&& symbol_word(lengths, symbol).is_prefix_of(bits)
}

/// The symbol that a decoder reads at the front of `bits`.
pub open spec fn symbol_at(lengths: Seq<u8>, bits: Seq<bool>) -> int {
    choose|s: int| word_in_front(lengths, s, bits)
}

/// At most one symbol has its code at the front of given bits.
#[verifier::rlimit(40)]
pub proof fn lemma_one_word_in_front(lengths: Seq<u8>, s: int, t: int, bits: Seq<bool>)
    requires
        feasible(lengths),
        word_in_front(lengths, s, bits),
        word_in_front(lengths, t, bits),
    ensures
        s == t,
{
    if s != t {
        let (i, j) = if lengths[s] <= lengths[t] {
            (s, t)
        } else {
            (t, s)
        };
        let a = lengths[i] as nat;
        let b = lengths[j] as nat;
        lemma_code_bits(lengths, i);
        lemma_code_bits(lengths, j);
        lemma_kraft_gives_codes(lengths, i);
        lemma_kraft_gives_codes(lengths, j);
        let ci = canonical_code(lengths, i);
        let cj = canonical_code(lengths, j);
        assert(symbol_word(lengths, j).take(a as int) =~= symbol_word(lengths, i)) by {
            assert(symbol_word(lengths, i) =~= bits.take(a as int));
            assert(symbol_word(lengths, j) =~= bits.take(b as int));
        }
        lemma_word_prefix(cj, b, a);
        lemma_word_decides(cj / (pow2((b - a) as nat) as int), ci, a);
        lemma_prefix_free(lengths, i, j);
    }
}

/// A decoder reads back the symbol whose code was written.
pub proof fn lemma_symbol_at(lengths: Seq<u8>, symbol: int, rest: Seq<bool>)
    requires
        feasible(lengths),
        0 <= symbol < lengths.len(),
        lengths[symbol] > 0,
    ensures
        symbol_at(lengths, symbol_word(lengths, symbol) + rest) == symbol,
{
    let bits = symbol_word(lengths, symbol) + rest;
    assert(bits.take(symbol_word(lengths, symbol).len() as int) =~= symbol_word(lengths, symbol));
    assert(word_in_front(lengths, symbol, bits));
    lemma_one_word_in_front(lengths, symbol, symbol_at(lengths, bits), bits);
}

/// The index that `base_index` finds holds the last base that is not
/// above `value`.
proof fn lemma_base_index(bases: Seq<u16>, value: int, n: nat)
    requires
        1 <= n <= bases.len(),
        bases[0] <= value,
    ensures
        0 <= base_index(bases, value, n) < n,
        bases[base_index(bases, value, n)] <= value,
        forall|k: int| base_index(bases, value, n) < k < n ==> value < #[trigger] bases[k],
    decreases n,
{
    if bases[n - 1] <= value {
    } else {
        lemma_base_index(bases, value, (n - 1) as nat);
    }
}

/// The extra bits of a length hold what the length is above its base.
proof fn lemma_length_extra_fits(length: int)
    requires
        valid_length(length),
    ensures
        0 <= length_index(length) < 29,
        0 <= length - LENGTH_BASE[length_index(length)] < pow2(
            LENGTH_EXTRA_BITS[length_index(length)] as nat,
        ),
        LENGTH_EXTRA_BITS[length_index(length)] <= 5,
{
    lemma_base_index(LENGTH_BASE@, length, 29);
    lemma_powers();
    let i = length_index(length);
    if i < 28 {
        assert(length < LENGTH_BASE@[i + 1]);
        assert(LENGTH_BASE[i + 1] - LENGTH_BASE[i] <= POWERS[LENGTH_EXTRA_BITS[i] as int]);
    }
    assert(pow2(LENGTH_EXTRA_BITS[i] as nat) == POWERS[LENGTH_EXTRA_BITS[i] as int]);
}

/// The extra bits of a distance hold what the distance is above its base.
proof fn lemma_distance_extra_fits(distance: int)
    requires
        valid_distance(distance),
    ensures
        0 <= distance_index(distance) < 30,
        0 <= distance - DISTANCE_BASE[distance_index(distance)] < pow2(
            DISTANCE_EXTRA_BITS[distance_index(distance)] as nat,
        ),
        DISTANCE_EXTRA_BITS[distance_index(distance)] <= 13,
{
    lemma_base_index(DISTANCE_BASE@, distance, 30);
    lemma_powers();
    let i = distance_index(distance);
    if i < 29 {
        assert(distance < DISTANCE_BASE@[i + 1]);
        assert(DISTANCE_BASE[i + 1] - DISTANCE_BASE[i] <= POWERS[DISTANCE_EXTRA_BITS[i] as int]);
    }
    assert(pow2(DISTANCE_EXTRA_BITS[i] as nat) == POWERS[DISTANCE_EXTRA_BITS[i] as int]);
}

/// What a decoder makes of the data of one block: it reads symbols with
/// the codes of the given lengths, puts literals out, follows matches, and
/// stops at the end-of-block symbol. `fuel` bounds the number of symbols.
pub open spec fn inflate_symbols(
    literals: Seq<u8>,
    distances: Seq<u8>,
    bits: Seq<bool>,
    out: Seq<u8>,
    fuel: nat,
) -> Seq<u8>
    decreases fuel,
{
    if fuel == 0 {
        out
    } else {
        let s = symbol_at(literals, bits);
        let rest = bits.skip(literals[s] as int);
        if s < END_OF_BLOCK_POSITION {
            inflate_symbols(literals, distances, rest, out.push(s as u8), (fuel - 1) as nat)
        } else if s == END_OF_BLOCK_POSITION {
            out
        } else {
            let li = s - LENGTH_CODE_START;
            let lw = LENGTH_EXTRA_BITS[li] as int;
            let length = LENGTH_BASE[li] + bits_value(rest.take(lw));
            let rest2 = rest.skip(lw);
            let d = symbol_at(distances, rest2);
            let rest3 = rest2.skip(distances[d] as int);
            let dw = DISTANCE_EXTRA_BITS[d] as int;
            let distance = DISTANCE_BASE[d] + bits_value(rest3.take(dw));
            inflate_symbols(
                literals,
                distances,
                rest3.skip(dw),
                copy_back(out, length as nat, distance),
                (fuel - 1) as nat,
            )
        }
    }
}

/// `symbol` has a code under the lengths.
pub open spec fn has_code(lengths: Seq<u8>, symbol: int) -> bool {
    0 <= symbol < lengths.len() && lengths[symbol] > 0
}

/// Every code that the writing of `symbol` takes is there.
pub open spec fn representable(literals: Seq<u8>, distances: Seq<u8>, symbol: LDPair) -> bool {
    match symbol {
        LDPair::Literal(b) => has_code(literals, b as int),
        LDPair::LengthDistance { length, distance } => {
            &&& valid_length(length as int)
            &&& valid_distance(distance as int)
            &&& has_code(literals, LENGTH_CODE_START + length_index(length as int))
            &&& has_code(distances, distance_index(distance as int))
        },
        LDPair::BlockStart { is_final } => true,
    }
}

/// A decoder that meets the bits of a literal or a match makes of them
/// what the symbol stands for, and goes on behind them.
#[verifier::rlimit(40)]
proof fn lemma_inflate_step(
    literals: Seq<u8>,
    distances: Seq<u8>,
    symbol: LDPair,
    rest: Seq<bool>,
    out: Seq<u8>,
    fuel: nat,
)
    requires
        feasible(literals),
        feasible(distances),
        representable(literals, distances, symbol),
        !(symbol is BlockStart),
        fuel > 0,
    ensures
        inflate_symbols(
            literals,
            distances,
            symbol_bits(literals, distances, symbol) + rest,
            out,
            fuel,
        ) == inflate_symbols(literals, distances, rest, decode_step(out, symbol), (fuel - 1) as nat),
        symbol_bits(literals, distances, symbol).len() >= 1,
{
    let bits = symbol_bits(literals, distances, symbol) + rest;
    match symbol {
        LDPair::Literal(b) => {
            lemma_symbol_at(literals, b as int, rest);
            assert(bits.skip(literals[b as int] as int) =~= rest);
        },
        LDPair::LengthDistance { length, distance } => {
            let ls = LENGTH_CODE_START + length_index(length as int);
            let ds = distance_index(distance as int);
            lemma_length_extra_fits(length as int);
            lemma_distance_extra_fits(distance as int);
            let w1 = symbol_word(literals, ls);
            let e1 = code_bits(length_extra(length as int));
            let w2 = symbol_word(distances, ds);
            let e2 = code_bits(distance_extra(distance as int));
            let after1 = e1 + (w2 + (e2 + rest));
            let after2 = w2 + (e2 + rest);
            let after3 = e2 + rest;
            assert(bits =~= w1 + after1);
            lemma_symbol_at(literals, ls, after1);
            assert(bits.skip(literals[ls] as int) =~= after1);
            assert(after1.take(e1.len() as int) =~= e1);
            assert(after1.skip(e1.len() as int) =~= after2);
            lemma_bits_value(length_extra(length as int).code as u32, e1.len());
            lemma_symbol_at(distances, ds, after3);
            assert(after2.skip(distances[ds] as int) =~= after3);
            assert(after3.take(e2.len() as int) =~= e2);
            assert(after3.skip(e2.len() as int) =~= rest);
            lemma_bits_value(distance_extra(distance as int).code as u32, e2.len());
        },
        LDPair::BlockStart { is_final } => {},
    }
}

/// The bits of the symbols from the `k`-th on.
pub open spec fn symbols_bits_from(
    literals: Seq<u8>,
    distances: Seq<u8>,
    symbols: Seq<LDPair>,
    k: int,
) -> Seq<bool>
    decreases symbols.len() - k,
{
    if k < 0 || k >= symbols.len() {
        Seq::empty()
    } else {
        symbol_bits(literals, distances, symbols[k]) + symbols_bits_from(
            literals,
            distances,
            symbols,
            k + 1,
        )
    }
}

/// The bits of all symbols are those of the first `k`, then those of the
/// others.
proof fn lemma_bits_split(literals: Seq<u8>, distances: Seq<u8>, symbols: Seq<LDPair>, k: int)
    requires
        0 <= k <= symbols.len(),
    ensures
        symbols_bits(literals, distances, symbols, k as nat) + symbols_bits_from(
            literals,
            distances,
            symbols,
            k,
        ) == symbols_bits(literals, distances, symbols, symbols.len()),
    decreases symbols.len() - k,
{
    if k < symbols.len() {
        lemma_bits_split(literals, distances, symbols, k + 1);
        assert(symbols_bits(literals, distances, symbols, k as nat) + symbols_bits_from(
            literals,
            distances,
            symbols,
            k,
        ) =~= symbols_bits(literals, distances, symbols, (k + 1) as nat) + symbols_bits_from(
            literals,
            distances,
            symbols,
            k + 1,
        ));
    } else {
        assert(symbols_bits(literals, distances, symbols, k as nat) + Seq::<bool>::empty()
            =~= symbols_bits(literals, distances, symbols, k as nat));
    }
}

/// Every one of the symbols has its codes.
pub open spec fn all_representable(
    literals: Seq<u8>,
    distances: Seq<u8>,
    symbols: Seq<LDPair>,
) -> bool {
    forall|i: int|
        0 <= i < symbols.len() ==> representable(literals, distances, #[trigger] symbols[i])
}

/// A decoder that has made the output of the first `k` symbols and meets
/// the bits of the others, then the end-of-block symbol, makes the output
/// of all of them, whatever follows.
#[verifier::rlimit(40)]
proof fn lemma_inflate_from(
    literals: Seq<u8>,
    distances: Seq<u8>,
    symbols: Seq<LDPair>,
    k: int,
    tail: Seq<bool>,
    fuel: nat,
)
    requires
        feasible(literals),
        feasible(distances),
        has_code(literals, END_OF_BLOCK_POSITION as int),
        all_representable(literals, distances, symbols),
        0 <= k <= symbols.len(),
        fuel > symbols_bits_from(literals, distances, symbols, k).len(),
    ensures
        inflate_symbols(
            literals,
            distances,
            symbols_bits_from(literals, distances, symbols, k) + (end_of_block_bits(literals)
                + tail),
            decode(symbols.take(k)),
            fuel,
        ) == decode(symbols),
    decreases symbols.len() - k,
{
    let after = end_of_block_bits(literals) + tail;
    let out = decode(symbols.take(k));
    if k == symbols.len() {
        assert(symbols.take(k) =~= symbols);
        assert(symbols_bits_from(literals, distances, symbols, k) + after =~= after);
        lemma_symbol_at(literals, END_OF_BLOCK_POSITION as int, tail);
    } else {
        let symbol = symbols[k];
        let later = symbols_bits_from(literals, distances, symbols, k + 1);
        assert(symbols.take(k + 1) =~= symbols.take(k).push(symbol));
        lemma_decode_push(symbols.take(k), symbol);
        assert(representable(literals, distances, symbol));
        if symbol is BlockStart {
            assert(symbols_bits_from(literals, distances, symbols, k) =~= later);
            lemma_inflate_from(literals, distances, symbols, k + 1, tail, fuel);
        } else {
            assert(symbols_bits_from(literals, distances, symbols, k) + after =~= symbol_bits(
                literals,
                distances,
                symbol,
            ) + (later + after));
            lemma_inflate_step(literals, distances, symbol, later + after, out, fuel);
            lemma_inflate_from(literals, distances, symbols, k + 1, tail, (fuel - 1) as nat);
        }
    }
}

/// A decoder that meets the bits of `symbols` and the end-of-block symbol
/// makes what the symbols decode to, whatever follows.
pub proof fn lemma_inflate_symbols(
    literals: Seq<u8>,
    distances: Seq<u8>,
    symbols: Seq<LDPair>,
    tail: Seq<bool>,
    fuel: nat,
)
    requires
        feasible(literals),
        feasible(distances),
        has_code(literals, END_OF_BLOCK_POSITION as int),
        all_representable(literals, distances, symbols),
        fuel > symbols_bits(literals, distances, symbols, symbols.len()).len(),
    ensures
        inflate_symbols(
            literals,
            distances,
            symbols_bits(literals, distances, symbols, symbols.len()) + end_of_block_bits(literals)
                + tail,
            Seq::empty(),
            fuel,
        ) == decode(symbols),
{
    lemma_bits_split(literals, distances, symbols, 0);
    let data = symbols_bits(literals, distances, symbols, symbols.len());
    assert(symbols_bits(literals, distances, symbols, 0) + symbols_bits_from(
        literals,
        distances,
        symbols,
        0,
    ) =~= symbols_bits_from(literals, distances, symbols, 0));
    assert(symbols.take(0) =~= Seq::<LDPair>::empty());
    assert(data + end_of_block_bits(literals) + tail =~= data + (end_of_block_bits(literals)
        + tail));
    lemma_inflate_from(literals, distances, symbols, 0, tail, fuel);
}

/// Symbols that can be written have their codes in the fixed code
/// lengths, cut to `total_literals` and `total_distances` symbols, where
/// these hold all length and distance codes.
pub proof fn lemma_fixed_codes_complete(
    total_literals: nat,
    total_distances: nat,
    symbols: Seq<LDPair>,
)
    requires
        286 <= total_literals <= 288,
        30 <= total_distances <= 32,
        all_writable(symbols),
    ensures
        feasible(fixed_literal_lengths(total_literals)),
        feasible(fixed_distance_lengths(total_distances)),
        has_code(fixed_literal_lengths(total_literals), END_OF_BLOCK_POSITION as int),
        all_representable(
            fixed_literal_lengths(total_literals),
            fixed_distance_lengths(total_distances),
            symbols,
        ),
{
    lemma_fixed_literals_feasible(total_literals);
    lemma_fixed_distances_feasible(total_distances);
    assert forall|i: int| 0 <= i < symbols.len() implies representable(
        fixed_literal_lengths(total_literals),
        fixed_distance_lengths(total_distances),
        #[trigger] symbols[i],
    ) by {
        assert(writable(symbols[i]));
        match symbols[i] {
            LDPair::LengthDistance { length, distance } => {
                lemma_length_extra_fits(length as int);
                lemma_distance_extra_fits(distance as int);
            },
            _ => {},
        }
    }
}

/// Symbols that can be written have their codes in the code lengths of
/// dynamic blocks.
pub proof fn lemma_preset_codes_complete(symbols: Seq<LDPair>)
    requires
        all_writable(symbols),
    ensures
        feasible(preset_literal_lengths()),
        feasible(preset_distance_lengths()),
        has_code(preset_literal_lengths(), END_OF_BLOCK_POSITION as int),
        all_representable(preset_literal_lengths(), preset_distance_lengths(), symbols),
{
    lemma_preset_complete();
    assert forall|i: int| 0 <= i < symbols.len() implies representable(
        preset_literal_lengths(),
        preset_distance_lengths(),
        #[trigger] symbols[i],
    ) by {
        assert(writable(symbols[i]));
        match symbols[i] {
            LDPair::LengthDistance { length, distance } => {
                lemma_length_extra_fits(length as int);
                lemma_distance_extra_fits(distance as int);
            },
            _ => {},
        }
    }
}

/// What a decoder makes of a stream that is one final block in the fixed
/// codes; nothing where the stream does not start as such a block.
pub open spec fn inflate_fixed(stream: Seq<bool>) -> Seq<u8> {
    if stream.len() >= 3 && stream.take(3) == block_header_bits(true, true) {
        inflate_symbols(
            fixed_literals(),
            fixed_distances(),
            stream.skip(3),
            Seq::empty(),
            stream.len(),
        )
    } else {
        Seq::empty()
    }
}

/// A decoder makes of a fixed block what its symbols decode to.
pub proof fn lemma_fixed_round_trip(symbols: Seq<LDPair>, out: Seq<u8>)
    requires
        all_writable(symbols),
        packs(out, fixed_stream_bits(symbols)),
    ensures
        inflate_fixed(byte_bits(out)) == decode(symbols),
{
    let stream = byte_bits(out);
    let header = block_header_bits(true, true);
    let data = symbols_bits(fixed_literals(), fixed_distances(), symbols, symbols.len());
    let tail = zero_bits(padding(fixed_stream_bits(symbols).len()));
    let after = data + end_of_block_bits(fixed_literals()) + tail;
    lemma_fixed_codes_complete(288, 32, symbols);
    assert(stream =~= header + after);
    assert(stream.take(3) =~= header);
    assert(stream.skip(3) =~= after);
    lemma_inflate_symbols(fixed_literals(), fixed_distances(), symbols, tail, stream.len());
}

/// Where each symbol of the code length alphabet stands in the list of
/// the header.
pub const ORDER_PLACE: [u8; 19] = [3, 17, 15, 13, 11, 9, 7, 5, 4, 6, 8, 10, 12, 14, 16, 18, 0, 1, 2];

/// The code lengths of the code length alphabet, as a decoder reads the
/// first `n` of them from their list: three bits each, in the order of the
/// list; what the list does not reach is zero.
pub open spec fn read_order(bits: Seq<bool>, n: nat) -> Seq<u8>
    decreases n,
{
    if n == 0 {
        Seq::new(19, |i: int| 0u8)
    } else {
        read_order(bits, (n - 1) as nat).update(
            HUFFMAN_LENGTH_ORDER[n - 1] as int,
            bits_value(bits.subrange(3 * (n - 1), 3 * (n - 1) + 3)) as u8,
        )
    }
}

/// The code lengths that a decoder reads from run-length coded bits, up
/// to `total` of them behind `out`, and the bits that are left.
pub open spec fn read_lengths(
    code_lengths: Seq<u8>,
    bits: Seq<bool>,
    out: Seq<u8>,
    total: int,
    fuel: nat,
) -> (Seq<u8>, Seq<bool>)
    decreases fuel,
{
    if fuel == 0 || out.len() >= total {
        (out, bits)
    } else {
        let s = symbol_at(code_lengths, bits);
        let rest = bits.skip(code_lengths[s] as int);
        let w = extra_width(s as u8) as int;
        let extra = bits_value(rest.take(w));
        read_lengths(
            code_lengths,
            rest.skip(w),
            expand_step(out, RunSymbol { symbol: s as u8, extra: extra as u8 }),
            total,
            (fuel - 1) as nat,
        )
    }
}

/// What a decoder makes of a stream that is one final block with the
/// description of its codes in front; nothing where the stream does not
/// start as such a block.
pub open spec fn inflate_dynamic(stream: Seq<bool>) -> Seq<u8> {
    if stream.len() < 17 || stream.take(3) != block_header_bits(false, true) {
        Seq::empty()
    } else {
        let s1 = stream.skip(3);
        let hlit = bits_value(s1.take(5));
        let s2 = s1.skip(5);
        let hdist = bits_value(s2.take(5));
        let s3 = s2.skip(5);
        let hclen = bits_value(s3.take(4));
        let s4 = s3.skip(4);
        let code_lengths = read_order(s4, (hclen + 4) as nat);
        let s5 = s4.skip(3 * (hclen + 4));
        let read = read_lengths(
            code_lengths,
            s5,
            Seq::empty(),
            hlit + 257 + hdist + 1,
            stream.len(),
        );
        inflate_symbols(
            read.0.take(hlit + 257),
            read.0.skip(hlit + 257),
            read.1,
            Seq::empty(),
            stream.len(),
        )
    }
}

/// The `i`-th three bits of the list are the length of the `i`-th code of
/// the order.
proof fn lemma_order_bits(n: nat, i: int)
    requires
        0 <= i < n <= 19,
    ensures
        order_bits(n).len() == 3 * n,
        order_bits(n).subrange(3 * i, 3 * i + 3) == low_bits(
            code_length_word_length(HUFFMAN_LENGTH_ORDER[i] as int) as u32,
            3,
        ),
    decreases n,
{
    if n > 1 {
        lemma_order_bits((n - 1) as nat, if i < n - 1 { i } else { 0 });
    }
    let item = low_bits(code_length_word_length(HUFFMAN_LENGTH_ORDER[n - 1] as int) as u32, 3);
    assert(order_bits(n) == order_bits((n - 1) as nat) + item);
    if i < n - 1 {
        assert(order_bits(n).subrange(3 * i, 3 * i + 3) =~= order_bits((n - 1) as nat).subrange(
            3 * i,
            3 * i + 3,
        ));
    } else {
        assert(order_bits(n).subrange(3 * i, 3 * i + 3) =~= item);
    }
}

/// A decoder reads the code lengths of the code length alphabet back from
/// their list.
#[verifier::rlimit(40)]
proof fn lemma_read_order(rest: Seq<bool>)
    ensures
        read_order(order_bits(19) + rest, 19) == code_length_lengths(),
        order_bits(19).len() == 57,
{
    let bits = order_bits(19) + rest;
    reveal_with_fuel(pow2, 4);
    assert forall|i: int| 0 <= i < 19 implies bits_value(#[trigger] bits.subrange(3 * i, 3 * i + 3))
        == code_length_word_length(HUFFMAN_LENGTH_ORDER[i] as int) by {
        lemma_order_bits(19, i);
        assert(bits.subrange(3 * i, 3 * i + 3) =~= order_bits(19).subrange(3 * i, 3 * i + 3));
        lemma_bits_value(code_length_word_length(HUFFMAN_LENGTH_ORDER[i] as int) as u32, 3);
    }
    lemma_order_bits(19, 0);
    lemma_read_order_prefix(bits, 19);
    assert forall|s: int| 0 <= s < 19 implies read_order(bits, 19)[s] == code_length_lengths()[s] by {
        let i = ORDER_PLACE[s] as int;
        assert(HUFFMAN_LENGTH_ORDER[i] == s);
    }
    assert(read_order(bits, 19) =~= code_length_lengths());
}

/// After `n` entries of the list, every symbol among the first `n` of the
/// order has its length.
#[verifier::rlimit(40)]
proof fn lemma_read_order_prefix(bits: Seq<bool>, n: nat)
    requires
        n <= 19,
        forall|i: int|
            0 <= i < 19 ==> bits_value(#[trigger] bits.subrange(3 * i, 3 * i + 3))
                == code_length_word_length(HUFFMAN_LENGTH_ORDER[i] as int),
    ensures
        read_order(bits, n).len() == 19,
        forall|i: int|
            0 <= i < n ==> read_order(bits, n)[#[trigger] HUFFMAN_LENGTH_ORDER[i] as int]
                == code_length_word_length(HUFFMAN_LENGTH_ORDER[i] as int),
    decreases n,
{
    if n > 0 {
        lemma_read_order_prefix(bits, (n - 1) as nat);
        let last = n - 1;
        assert forall|i: int| 0 <= i < n implies read_order(bits, n)[#[trigger] HUFFMAN_LENGTH_ORDER[i] as int]
            == code_length_word_length(HUFFMAN_LENGTH_ORDER[i] as int) by {
            if i < last {
                assert(HUFFMAN_LENGTH_ORDER[i] != HUFFMAN_LENGTH_ORDER[last]) by {
                    assert(ORDER_PLACE[HUFFMAN_LENGTH_ORDER[i] as int] == i);
                    assert(ORDER_PLACE[HUFFMAN_LENGTH_ORDER[last] as int] == last);
                }
            }
        }
    }
}

/// The bits of run-length symbols, one after another.
pub open spec fn flat_bits(symbols: Seq<RunSymbol>) -> Seq<bool>
    decreases symbols.len(),
{
    if symbols.len() == 0 {
        Seq::empty()
    } else {
        run_symbol_bits(symbols[0]) + flat_bits(symbols.skip(1))
    }
}

/// The bits of the first `n` symbols start with those of the first.
proof fn lemma_run_bits_front(symbols: Seq<RunSymbol>, n: nat)
    requires
        1 <= n <= symbols.len(),
    ensures
        run_bits(symbols, n) == run_symbol_bits(symbols[0]) + run_bits(
            symbols.skip(1),
            (n - 1) as nat,
        ),
    decreases n,
{
    reveal_with_fuel(run_bits, 2);
    if n > 1 {
        lemma_run_bits_front(symbols, (n - 1) as nat);
        assert(symbols.skip(1)[n - 2] == symbols[n - 1]);
        assert(run_bits(symbols, n) =~= run_symbol_bits(symbols[0]) + run_bits(
            symbols.skip(1),
            (n - 1) as nat,
        ));
    } else {
        assert(run_bits(symbols, 1) =~= run_symbol_bits(symbols[0]) + run_bits(symbols.skip(1), 0));
    }
}

/// The bits of run-length symbols are the same counted from either end.
proof fn lemma_flat_bits(symbols: Seq<RunSymbol>)
    ensures
        flat_bits(symbols) == run_bits(symbols, symbols.len()),
    decreases symbols.len(),
{
    if symbols.len() > 0 {
        lemma_flat_bits(symbols.skip(1));
        lemma_run_bits_front(symbols, symbols.len());
    }
}

/// A decoder that has the lengths before `at` and meets the run-length
/// coding of the others reads all the lengths, and leaves what follows.
#[verifier::rlimit(40)]
proof fn lemma_read_lengths(lengths: Seq<u8>, at: int, tail: Seq<bool>, fuel: nat)
    requires
        forall|i: int| 0 <= i < lengths.len() ==> #[trigger] lengths[i] <= 15,
        0 <= at <= lengths.len(),
        fuel > flat_bits(rle_from(lengths, at)).len(),
    ensures
        read_lengths(
            code_length_lengths(),
            flat_bits(rle_from(lengths, at)) + tail,
            lengths.take(at),
            lengths.len() as int,
            fuel,
        ) == (lengths, tail),
    decreases lengths.len() - at,
{
    let cl = code_length_lengths();
    let bits = flat_bits(rle_from(lengths, at)) + tail;
    if at == lengths.len() {
        assert(lengths.take(at) =~= lengths);
        assert(bits =~= tail);
    } else {
        let (item, next) = lemma_rle_step(lengths, at);
        let later = rle_from(lengths, next);
        assert((seq![item] + later).skip(1) =~= later);
        let word = symbol_word(cl, item.symbol as int);
        let extra = low_bits(item.extra as u32, extra_width(item.symbol));
        let after = flat_bits(later) + tail;
        assert(bits =~= word + (extra + after));
        lemma_code_length_lengths_feasible();
        lemma_symbol_at(cl, item.symbol as int, extra + after);
        assert(bits.skip(cl[item.symbol as int] as int) =~= extra + after);
        assert((extra + after).take(extra.len() as int) =~= extra);
        assert((extra + after).skip(extra.len() as int) =~= after);
        lemma_bits_value(item.extra as u32, extra_width(item.symbol));
        lemma_read_lengths(lengths, next, tail, (fuel - 1) as nat);
    }
}

/// A single dynamic block is its header, the description of the codes and
/// the bits of its data symbols.
proof fn lemma_dynamic_layout(symbols: Seq<LDPair>, n: nat)
    requires
        single_block(symbols),
        1 <= n <= symbols.len(),
    ensures
        dynamic_symbols_bits(symbols, n) == block_header_bits(false, true) + huffman_lengths_bits(
            dynamic_literal_lengths(),
            dynamic_distance_lengths(),
        ) + symbols_bits(dynamic_literal_lengths(), dynamic_distance_lengths(), symbols, n),
    decreases n,
{
    reveal_with_fuel(dynamic_symbols_bits, 2);
    reveal_with_fuel(symbols_bits, 2);
    let front = block_header_bits(false, true) + huffman_lengths_bits(
        dynamic_literal_lengths(),
        dynamic_distance_lengths(),
    );
    if n == 1 {
        assert(dynamic_symbols_bits(symbols, 1) =~= front + symbols_bits(
            dynamic_literal_lengths(),
            dynamic_distance_lengths(),
            symbols,
            1,
        ));
    } else {
        lemma_dynamic_layout(symbols, (n - 1) as nat);
        assert(!(symbols[n - 1] is BlockStart));
        assert(dynamic_symbols_bits(symbols, n) =~= front + symbols_bits(
            dynamic_literal_lengths(),
            dynamic_distance_lengths(),
            symbols,
            n,
        ));
    }
}

/// A decoder makes of a dynamic block what its symbols decode to.
#[verifier::rlimit(40)]
pub proof fn lemma_dynamic_round_trip(symbols: Seq<LDPair>, out: Seq<u8>)
    requires
        single_block(symbols),
        all_writable(symbols),
        packs(out, dynamic_stream_bits(symbols)),
    ensures
        inflate_dynamic(byte_bits(out)) == decode(symbols),
{
    let lit = dynamic_literal_lengths();
    let dist = dynamic_distance_lengths();
    let lengths = lit + dist;
    let stream = byte_bits(out);
    let header = block_header_bits(false, true);
    let a = low_bits(29u32, 5);
    let b = low_bits(29u32, 5);
    let c = low_bits(15u32, 4);
    let o = order_bits(19);
    let rle = rle_from(lengths, 0);
    let r = run_bits(rle, rle.len());
    let data = symbols_bits(lit, dist, symbols, symbols.len());
    let tail = zero_bits(padding(dynamic_stream_bits(symbols).len()));
    let t6 = data + end_of_block_bits(lit) + tail;
    let t5 = r + t6;
    let t4 = o + t5;
    let t3 = c + t4;
    let t2 = b + t3;
    let t1 = a + t2;
    lemma_dynamic_layout(symbols, symbols.len());
    lemma_read_order(t5);
    assert(huffman_lengths_bits(lit, dist) =~= a + b + c + o + r);
    assert(stream =~= header + t1);
    assert(stream.take(3) =~= header);
    let s1 = stream.skip(3);
    assert(s1 =~= t1);
    assert(s1.take(5) =~= a);
    let s2 = s1.skip(5);
    assert(s2 =~= t2);
    assert(s2.take(5) =~= b);
    let s3 = s2.skip(5);
    assert(s3 =~= t3);
    assert(s3.take(4) =~= c);
    let s4 = s3.skip(4);
    assert(s4 =~= t4);
    reveal_with_fuel(pow2, 6);
    lemma_bits_value(29u32, 5);
    lemma_bits_value(15u32, 4);
    let s5 = s4.skip(57);
    assert(s5 =~= t5);
    lemma_flat_bits(rle);
    assert(lengths.take(0) =~= Seq::<u8>::empty());
    lemma_read_lengths(lengths, 0, t6, stream.len());
    assert(lengths.take(286) =~= lit);
    assert(lengths.skip(286) =~= dist);
    lemma_preset_codes_complete(symbols);
    lemma_inflate_symbols(lit, dist, symbols, tail, stream.len());
}

/// What a decoder makes of a stream: it tells by the type bits of the
/// first block header whether the stream is made of stored blocks, or is
/// one block in the fixed codes, or one with the description of its codes.
pub open spec fn inflate(stream: Seq<u8>) -> Seq<u8> {
    let bits = byte_bits(stream);
    if bits.len() < 3 {
        Seq::empty()
    } else if !bits[1] && !bits[2] {
        stored_contents(stream)
    } else if bits[1] && !bits[2] {
        inflate_fixed(bits)
    } else if !bits[1] && bits[2] {
        inflate_dynamic(bits)
    } else {
        Seq::empty()
    }
}

/// The type bits of the first bytes that streams begin with.
proof fn lemma_header_values()
    ensures
        !bit_of(0, 1) && !bit_of(0, 2),
        !bit_of(1, 1) && !bit_of(1, 2),
        bit_of(3, 1) && !bit_of(3, 2),
        !bit_of(5, 1) && bit_of(5, 2),
{
    assert((0u32 >> 1u32) & 1 == 0 && (0u32 >> 2u32) & 1 == 0) by (bit_vector);
    assert((1u32 >> 1u32) & 1 == 0 && (1u32 >> 2u32) & 1 == 0) by (bit_vector);
    assert((3u32 >> 1u32) & 1 == 1 && (3u32 >> 2u32) & 1 == 0) by (bit_vector);
    assert((5u32 >> 1u32) & 1 == 0 && (5u32 >> 2u32) & 1 == 1) by (bit_vector);
}

/// A decoder reads a stream of stored blocks as such.
pub proof fn lemma_inflate_stored(data: Seq<u8>)
    ensures
        inflate(stored_stream(data)) == data,
{
    let stream = stored_stream(data);
    lemma_stored_round_trip(data);
    lemma_header_values();
    assert(stream.len() >= 5);
    assert(stream[0] == 0 || stream[0] == 1);
    let bits = byte_bits(stream);
    assert(bits[1] == bit_of(stream[0] as u32, 1));
    assert(bits[2] == bit_of(stream[0] as u32, 2));
}

/// A decoder reads a fixed block as such.
pub proof fn lemma_inflate_fixed(symbols: Seq<LDPair>, out: Seq<u8>)
    requires
        all_writable(symbols),
        packs(out, fixed_stream_bits(symbols)),
    ensures
        inflate(out) == decode(symbols),
{
    lemma_fixed_round_trip(symbols, out);
    lemma_header_values();
    let bits = byte_bits(out);
    let header = block_header_bits(true, true);
    assert(bits.len() >= 3);
    assert(bits[1] == header[1]);
    assert(bits[2] == header[2]);
}

/// A decoder reads a dynamic block as such.
pub proof fn lemma_inflate_dynamic(symbols: Seq<LDPair>, out: Seq<u8>)
    requires
        single_block(symbols),
        all_writable(symbols),
        packs(out, dynamic_stream_bits(symbols)),
    ensures
        inflate(out) == decode(symbols),
{
    lemma_dynamic_round_trip(symbols, out);
    lemma_dynamic_layout(symbols, symbols.len());
    lemma_header_values();
    let bits = byte_bits(out);
    let header = block_header_bits(false, true);
    assert(bits.len() >= 3);
    assert(bits[1] == header[1]);
    assert(bits[2] == header[2]);
}

} // verus!
