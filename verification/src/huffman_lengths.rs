use vstd::prelude::*;
use crate::bits::low_bits;
use crate::huffman_table::{
    code_for, create_codes, feasible, kraft_sum, pow2, MAX_CODE_LENGTH,
};
use crate::BitWriter;

verus! {

/// Fewest literal/length code lengths that a block header can describe.
pub const MIN_NUM_LITERALS_AND_LENGTHS: usize = 257;

/// Most literal/length code lengths that a block header can describe.
pub const MAX_NUM_LITERALS_AND_LENGTHS: usize = 286;

/// Most distance code lengths that a block header can describe.
pub const MAX_NUM_DISTANCES: usize = 30;

/// Size of the alphabet that code lengths are written in.
pub const NUM_HUFFMAN_LENGTHS: usize = 19;

/// The order in which a header lists the lengths of the code length codes.
pub const HUFFMAN_LENGTH_ORDER: [u8; 19] = [
    16, 17, 18, 0, 8, 7, 9, 6, 10, 5, 11, 4, 12, 3, 13, 2, 14, 1, 15,
];

/// Width of the count of literal/length codes.
pub const HLIT_BITS: u8 = 5;

/// Width of the count of distance codes.
pub const HDIST_BITS: u8 = 5;

/// Width of the count of code length codes.
pub const HCLEN_BITS: u8 = 4;

/// Width of one length of a code length code in the header.
pub const CODE_LENGTH_BITS: u8 = 3;

/// The symbol that repeats the length before it, 3 to 6 times.
pub const REPEAT_PREVIOUS: u8 = 16;

/// The symbol that stands for 3 to 10 zeros.
pub const REPEAT_ZERO_SHORT: u8 = 17;

/// The symbol that stands for 11 to 138 zeros.
pub const REPEAT_ZERO_LONG: u8 = 18;

/// The length of the code word of each symbol of the code length alphabet:
/// five bits for a length of 0 to 15, two for the repeat of the length
/// before, three for each of the two runs of zeros. The Kraft sum of these
/// is one.
pub open spec fn code_length_word_length(symbol: int) -> u8 {
    if symbol < 16 {
        5
    } else if symbol == 16 {
        2
    } else {
        3
    }
}

/// The code lengths of the whole code length alphabet.
pub open spec fn code_length_lengths() -> Seq<u8> {
    Seq::new(NUM_HUFFMAN_LENGTHS as nat, |i: int| code_length_word_length(i))
}

/// The first `n` entries of the list of code length code lengths, three
/// bits each.
pub open spec fn order_bits(n: nat) -> Seq<bool>
    decreases n,
{
    if n == 0 {
        Seq::empty()
    } else {
        order_bits((n - 1) as nat) + low_bits(
            code_length_word_length(HUFFMAN_LENGTH_ORDER[n - 1] as int) as u32,
            CODE_LENGTH_BITS as nat,
        )
    }
}

/// One symbol of a run-length coded list of code lengths, with the value
/// of the extra bits that follow it.
pub struct RunSymbol {
    pub symbol: u8,
    pub extra: u8,
}

/// Number of extra bits behind a symbol of the code length alphabet.
pub open spec fn extra_width(symbol: u8) -> nat {
    if symbol == REPEAT_PREVIOUS {
        2
    } else if symbol == REPEAT_ZERO_SHORT {
        3
    } else if symbol == REPEAT_ZERO_LONG {
        7
    } else {
        0
    }
}

/// Number of entries from `at` on that are `value`, at most `max`.
pub open spec fn run_length(lengths: Seq<u8>, at: int, value: u8, max: nat) -> nat
    decreases max,
{
    if max == 0 || at >= lengths.len() || lengths[at] != value {
        0
    } else {
        1 + run_length(lengths, at + 1, value, (max - 1) as nat)
    }
}

/// The run-length coding of the code lengths from `at` on. Zeros go out as
/// the longest run that one symbol can hold, three or more at a time, else
/// one by one. Another length goes out as itself; where the length before
/// it is the same, three to six of it go out as one repeat. (A run never
/// passes the end of the list; the first case is there for termination.)
pub open spec fn rle_from(lengths: Seq<u8>, at: int) -> Seq<RunSymbol>
    decreases lengths.len() - at,
{
    if at < 0 || at >= lengths.len() {
        Seq::empty()
    } else {
        let v = lengths[at];
        let zeros = run_length(lengths, at, 0, 138);
        let same = run_length(lengths, at, v, 6);
        if at + zeros > lengths.len() || at + same > lengths.len() {
            Seq::empty()
        } else if v == 0 && zeros >= 11 {
            seq![RunSymbol { symbol: REPEAT_ZERO_LONG, extra: (zeros - 11) as u8 }] + rle_from(
                lengths,
                at + zeros,
            )
        } else if v == 0 && zeros >= 3 {
            seq![RunSymbol { symbol: REPEAT_ZERO_SHORT, extra: (zeros - 3) as u8 }] + rle_from(
                lengths,
                at + zeros,
            )
        } else if v != 0 && at > 0 && lengths[at - 1] == v && same >= 3 {
            seq![RunSymbol { symbol: REPEAT_PREVIOUS, extra: (same - 3) as u8 }] + rle_from(
                lengths,
                at + same,
            )
        } else {
            seq![RunSymbol { symbol: v, extra: 0 }] + rle_from(lengths, at + 1)
        }
    }
}

/// The code lengths that a decoder has after one more symbol.
pub open spec fn expand_step(out: Seq<u8>, s: RunSymbol) -> Seq<u8> {
    if s.symbol == REPEAT_ZERO_LONG {
        out + Seq::new((11 + s.extra) as nat, |i: int| 0u8)
    } else if s.symbol == REPEAT_ZERO_SHORT {
        out + Seq::new((3 + s.extra) as nat, |i: int| 0u8)
    } else if s.symbol == REPEAT_PREVIOUS {
        out + Seq::new((3 + s.extra) as nat, |i: int| out.last())
    } else {
        out.push(s.symbol)
    }
}

/// The code lengths that a decoder makes of `symbols`, behind `out`.
pub open spec fn expand_onto(out: Seq<u8>, symbols: Seq<RunSymbol>) -> Seq<u8>
    decreases symbols.len(),
{
    if symbols.len() == 0 {
        out
    } else {
        expand_onto(expand_step(out, symbols[0]), symbols.skip(1))
    }
}

/// A run is no longer than its bound, ends inside the list, and holds
/// nothing but its value.
proof fn lemma_run(lengths: Seq<u8>, at: int, value: u8, max: nat)
    requires
        0 <= at,
    ensures
        run_length(lengths, at, value, max) <= max,
        at + run_length(lengths, at, value, max) <= lengths.len() || run_length(
            lengths,
            at,
            value,
            max,
        ) == 0,
        forall|k: int|
            at <= k < at + run_length(lengths, at, value, max) ==> #[trigger] lengths[k] == value,
    decreases max,
{
    if max == 0 || at >= lengths.len() || lengths[at] != value {
    } else {
        lemma_run(lengths, at + 1, value, (max - 1) as nat);
    }
}

/// A decoder that has the lengths before `at` makes all the lengths of the
/// run-length coding from `at` on.
#[verifier::rlimit(40)]
pub proof fn lemma_rle_expands(lengths: Seq<u8>, at: int)
    requires
        0 <= at <= lengths.len(),
        forall|i: int| 0 <= i < lengths.len() ==> #[trigger] lengths[i] <= MAX_CODE_LENGTH,
    ensures
        expand_onto(lengths.take(at), rle_from(lengths, at)) == lengths,
    decreases lengths.len() - at,
{
    if at >= lengths.len() {
        assert(lengths.take(at) =~= lengths);
    } else {
        let v = lengths[at];
        let zeros = run_length(lengths, at, 0, 138);
        let same = run_length(lengths, at, v, 6);
        lemma_run(lengths, at, 0, 138);
        lemma_run(lengths, at, v, 6);
        let symbols = rle_from(lengths, at);
        let out = lengths.take(at);
        let next: int = if v == 0 && zeros >= 3 {
            at + zeros
        } else if v != 0 && at > 0 && lengths[at - 1] == v && same >= 3 {
            at + same
        } else {
            at + 1
        };
        assert(symbols.skip(1) =~= rle_from(lengths, next));
        assert(expand_step(out, symbols[0]) =~= lengths.take(next));
        lemma_rle_expands(lengths, next);
    }
}

/// The first symbol of the run-length coding from `at` on, and where the
/// coding goes on: the symbol stands for the lengths between the two, and
/// its extra bits hold its count.
pub proof fn lemma_rle_step(lengths: Seq<u8>, at: int) -> (r: (RunSymbol, int))
    requires
        0 <= at < lengths.len(),
        forall|i: int| 0 <= i < lengths.len() ==> #[trigger] lengths[i] <= MAX_CODE_LENGTH,
    ensures
        at < r.1 <= lengths.len(),
        rle_from(lengths, at) == seq![r.0] + rle_from(lengths, r.1),
        expand_step(lengths.take(at), r.0) == lengths.take(r.1),
        r.0.symbol <= REPEAT_ZERO_LONG,
        r.0.extra < pow2(extra_width(r.0.symbol)),
{
    let v = lengths[at];
    let zeros = run_length(lengths, at, 0, 138);
    let same = run_length(lengths, at, v, 6);
    lemma_run(lengths, at, 0, 138);
    lemma_run(lengths, at, v, 6);
    reveal_with_fuel(pow2, 8);
    let symbols = rle_from(lengths, at);
    let next: int = if v == 0 && zeros >= 3 {
        at + zeros
    } else if v != 0 && at > 0 && lengths[at - 1] == v && same >= 3 {
        at + same
    } else {
        at + 1
    };
    assert(symbols =~= seq![symbols[0]] + rle_from(lengths, next));
    assert(expand_step(lengths.take(at), symbols[0]) =~= lengths.take(next));
    (symbols[0], next)
}

/// The bits of one symbol: its code word, then its extra bits.
pub open spec fn run_symbol_bits(s: RunSymbol) -> Seq<bool> {
    low_bits(
        code_for(code_length_lengths(), s.symbol as int).code as u32,
        code_for(code_length_lengths(), s.symbol as int).length as nat,
    ) + low_bits(s.extra as u32, extra_width(s.symbol))
}

/// The bits of the first `n` symbols.
pub open spec fn run_bits(symbols: Seq<RunSymbol>, n: nat) -> Seq<bool>
    decreases n,
{
    if n == 0 {
        Seq::empty()
    } else {
        run_bits(symbols, (n - 1) as nat) + run_symbol_bits(symbols[n - 1])
    }
}

/// The description of the two codes in front of a dynamic block: the three
/// counts, the lengths of the code length codes in their fixed order, and
/// the code lengths of the two alphabets, run-length coded as one list.
pub open spec fn huffman_lengths_bits(literals: Seq<u8>, distances: Seq<u8>) -> Seq<bool> {
    low_bits((literals.len() - MIN_NUM_LITERALS_AND_LENGTHS) as u32, HLIT_BITS as nat) + low_bits(
        (distances.len() - 1) as u32,
        HDIST_BITS as nat,
    ) + low_bits((NUM_HUFFMAN_LENGTHS - 4) as u32, HCLEN_BITS as nat) + order_bits(
        NUM_HUFFMAN_LENGTHS as nat,
    ) + run_bits(
        rle_from(literals + distances, 0),
        rle_from(literals + distances, 0).len(),
    )
}

/// Code lengths that a header can describe.
pub open spec fn describable(literals: Seq<u8>, distances: Seq<u8>) -> bool {
    &&& MIN_NUM_LITERALS_AND_LENGTHS <= literals.len() <= MAX_NUM_LITERALS_AND_LENGTHS
    &&& 1 <= distances.len() <= MAX_NUM_DISTANCES
    &&& forall|i: int| 0 <= i < literals.len() ==> #[trigger] literals[i] <= MAX_CODE_LENGTH
    &&& forall|i: int| 0 <= i < distances.len() ==> #[trigger] distances[i] <= MAX_CODE_LENGTH
}

/// The code lengths of the code length alphabet admit a code.
pub proof fn lemma_code_length_lengths_feasible()
    ensures
        feasible(code_length_lengths()),
{
    reveal_with_fuel(kraft_sum, 20);
    reveal_with_fuel(pow2, 14);
    assert(kraft_sum(code_length_lengths(), 19) == 32768);
}

/// The length of the code word of a symbol of the code length alphabet.
fn word_length(symbol: u8) -> (l: u8)
    ensures
        l == code_length_word_length(symbol as int),
{
    if symbol < 16 {
        5
    } else if symbol == 16 {
        2
    } else {
        3
    }
}

/// The code words of the code length alphabet, and their lengths.
fn code_length_codes() -> (r: (Vec<u16>, Vec<u8>))
    ensures
        r.1@ == code_length_lengths(),
        r.0@.len() == NUM_HUFFMAN_LENGTHS,
        forall|i: int|
            0 <= i < NUM_HUFFMAN_LENGTHS ==> #[trigger] r.0@[i] == code_for(
                code_length_lengths(),
                i,
            ).code,
{
    let mut lengths: Vec<u8> = Vec::new();
    let mut i: u8 = 0;
    while i < 19
        invariant
            i <= 19,
            lengths@ == Seq::new(i as nat, |k: int| code_length_word_length(k)),
        decreases 19 - i,
    {
        lengths.push(word_length(i));
        i = i + 1;
        assert(lengths@ =~= Seq::new(i as nat, |k: int| code_length_word_length(k)));
    }
    proof {
        lemma_code_length_lengths_feasible();
    }
    let codes = create_codes(lengths.as_slice()).unwrap();
    (codes, lengths)
}

/// `first` followed by `second`.
fn joined(first: &[u8], second: &[u8]) -> (v: Vec<u8>)
    ensures
        v@ == first@ + second@,
{
    let mut v: Vec<u8> = Vec::new();
    let mut i: usize = 0;
    while i < first.len()
        invariant
            i <= first@.len(),
            v@ == first@.take(i as int),
        decreases first@.len() - i,
    {
        v.push(first[i]);
        i = i + 1;
        assert(v@ =~= first@.take(i as int));
    }
    let mut j: usize = 0;
    assert(first@.take(first@.len() as int) =~= first@);
    assert(v@ =~= first@ + second@.take(0));
    while j < second.len()
        invariant
            j <= second@.len(),
            v@ == first@ + second@.take(j as int),
        decreases second@.len() - j,
    {
        v.push(second[j]);
        j = j + 1;
        assert(v@ =~= first@ + second@.take(j as int));
    }
    assert(second@.take(second@.len() as int) =~= second@);
    v
}

/// Number of entries of `lengths` from `at` on that are `value`, at most
/// `max`.
fn count_run(lengths: &Vec<u8>, at: usize, value: u8, max: usize) -> (run: usize)
    requires
        at <= lengths@.len(),
    ensures
        run == run_length(lengths@, at as int, value, max as nat),
        run <= max,
        at + run <= lengths@.len(),
{
    let n = lengths.len();
    let mut run: usize = 0;
    while run < max && run < n - at && lengths[at + run] == value
        invariant
            n == lengths@.len(),
            at <= n,
            run <= max,
            at + run <= n,
            run + run_length(lengths@, at + run, value, (max - run) as nat) == run_length(
                lengths@,
                at as int,
                value,
                max as nat,
            ),
        decreases max - run,
    {
        run = run + 1;
    }
    run
}

/// Writes the description of the two codes that a dynamic block starts
/// with.
#[verifier::rlimit(40)]
pub fn write_huffman_lengths(
    literal_len_lengths: &[u8],
    distance_lengths: &[u8],
    writer: &mut BitWriter,
)
    requires
        old(writer).wf(),
        describable(literal_len_lengths@, distance_lengths@),
    ensures
        final(writer).wf(),
        final(writer).bits() == old(writer).bits() + huffman_lengths_bits(
            literal_len_lengths@,
            distance_lengths@,
        ),
{
    let hlit = (literal_len_lengths.len() - MIN_NUM_LITERALS_AND_LENGTHS) as u16;
    let hdist = (distance_lengths.len() - 1) as u16;
    let hclen = (NUM_HUFFMAN_LENGTHS - 4) as u16;
    writer.write_bits(hlit, HLIT_BITS);
    writer.write_bits(hdist, HDIST_BITS);
    writer.write_bits(hclen, HCLEN_BITS);
    let ghost counts = writer.bits();
    let mut i: usize = 0;
    assert(counts + order_bits(0) =~= counts);
    while i < NUM_HUFFMAN_LENGTHS
        invariant
            i <= NUM_HUFFMAN_LENGTHS,
            writer.wf(),
            writer.bits() == counts + order_bits(i as nat),
        decreases NUM_HUFFMAN_LENGTHS - i,
    {
        let l = word_length(HUFFMAN_LENGTH_ORDER[i]);
        writer.write_bits(l as u16, CODE_LENGTH_BITS);
        i = i + 1;
        assert(writer.bits() =~= counts + order_bits(i as nat));
    }
    let (codes, widths) = code_length_codes();
    let all = joined(literal_len_lengths, distance_lengths);
    let n = all.len();
    let ghost base = writer.bits();
    let ghost mut emitted: Seq<RunSymbol> = Seq::empty();
    let mut at: usize = 0;
    assert(base + run_bits(emitted, 0) =~= base);
    assert(emitted + rle_from(all@, 0) =~= rle_from(all@, 0));
    while at < n
        invariant
            at <= n,
            n == all@.len(),
            writer.wf(),
            forall|k: int| 0 <= k < n ==> #[trigger] all@[k] <= MAX_CODE_LENGTH,
            widths@ == code_length_lengths(),
            codes@.len() == NUM_HUFFMAN_LENGTHS,
            forall|k: int|
                0 <= k < NUM_HUFFMAN_LENGTHS ==> #[trigger] codes@[k] == code_for(
                    code_length_lengths(),
                    k,
                ).code,
            emitted + rle_from(all@, at as int) == rle_from(all@, 0),
            writer.bits() == base + run_bits(emitted, emitted.len()),
        decreases n - at,
    {
        let v = all[at];
        let zeros = count_run(&all, at, 0, 138);
        let same = count_run(&all, at, v, 6);
        let symbol: u8;
        let extra: u8;
        let width: u8;
        let step: usize;
        if v == 0 && zeros >= 11 {
            symbol = REPEAT_ZERO_LONG;
            extra = (zeros - 11) as u8;
            width = 7;
            step = zeros;
        } else if v == 0 && zeros >= 3 {
            symbol = REPEAT_ZERO_SHORT;
            extra = (zeros - 3) as u8;
            width = 3;
            step = zeros;
        } else if v != 0 && at > 0 && all[at - 1] == v && same >= 3 {
            symbol = REPEAT_PREVIOUS;
            extra = (same - 3) as u8;
            width = 2;
            step = same;
        } else {
            symbol = v;
            extra = 0;
            width = 0;
            step = 1;
        }
        let ghost item = RunSymbol { symbol, extra };
        let ghost before = writer.bits();
        writer.write_bits(codes[symbol as usize], widths[symbol as usize]);
        writer.write_bits(extra as u16, width);
        proof {
            let longer = emitted.push(item);
            assert(rle_from(all@, at as int) =~= seq![item] + rle_from(all@, at + step));
            assert(longer + rle_from(all@, at + step) =~= emitted + rle_from(all@, at as int));
            assert(longer.drop_last() =~= emitted);
            assert(run_bits(longer, (longer.len() - 1) as nat) == run_bits(emitted, emitted.len())) by {
                lemma_run_bits_prefix(emitted, item, emitted.len());
            }
            assert(writer.bits() =~= base + run_bits(longer, longer.len()));
            emitted = longer;
        }
        at = at + step;
    }
    assert(emitted =~= rle_from(all@, 0));
    assert(writer.bits() =~= old(writer).bits() + huffman_lengths_bits(
        literal_len_lengths@,
        distance_lengths@,
    ));
}

/// The bits of the first `n` symbols do not depend on what follows them.
proof fn lemma_run_bits_prefix(symbols: Seq<RunSymbol>, item: RunSymbol, n: nat)
    requires
        n <= symbols.len(),
    ensures
        run_bits(symbols.push(item), n) == run_bits(symbols, n),
    decreases n,
{
    if n > 0 {
        lemma_run_bits_prefix(symbols, item, (n - 1) as nat);
    }
}

} // verus!
