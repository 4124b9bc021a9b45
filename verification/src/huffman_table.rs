use vstd::prelude::*;
use crate::bits::{bit_of, lemma_bit_doubles, lemma_bit_halves, low_bits};
use crate::errors::DeflateError;
use crate::huffman_lengths::{describable, huffman_lengths_bits, write_huffman_lengths};
use crate::BitWriter;

verus! {

/// Size of the literal/length alphabet.
pub const NUM_LITERALS_AND_LENGTHS: usize = 288;

/// Size of the distance alphabet.
pub const NUM_DISTANCE_CODES: usize = 32;

/// Longest code, in bits.
pub const MAX_CODE_LENGTH: u8 = 15;

/// The end-of-block symbol.
pub const END_OF_BLOCK_POSITION: usize = 256;

/// The symbol of the first length code.
pub const LENGTH_CODE_START: usize = 257;

/// Shortest match.
pub const MIN_LENGTH: u16 = 3;

/// Longest match.
pub const MAX_LENGTH: u16 = 258;

/// Nearest match.
pub const MIN_DISTANCE: u16 = 1;

/// Farthest match.
pub const MAX_DISTANCE: u16 = 32768;

/// First match length of each length code, `257 + i` being the symbol.
pub const LENGTH_BASE: [u16; 29] = [
    3, 4, 5, 6, 7, 8, 9, 10, 11, 13, 15, 17, 19, 23, 27, 31, 35, 43, 51, 59, 67, 83, 99, 115, 131,
    163, 195, 227, 258,
];

/// Number of extra bits that follow each length code.
pub const LENGTH_EXTRA_BITS: [u8; 29] = [
    0, 0, 0, 0, 0, 0, 0, 0, 1, 1, 1, 1, 2, 2, 2, 2, 3, 3, 3, 3, 4, 4, 4, 4, 5, 5, 5, 5, 0,
];

/// First distance of each distance code.
pub const DISTANCE_BASE: [u16; 30] = [
    1, 2, 3, 4, 5, 7, 9, 13, 17, 25, 33, 49, 65, 97, 129, 193, 257, 385, 513, 769, 1025, 1537,
    2049, 3073, 4097, 6145, 8193, 12289, 16385, 24577,
];

/// Number of extra bits that follow each distance code.
pub const DISTANCE_EXTRA_BITS: [u8; 30] = [
    0, 0, 0, 0, 1, 1, 2, 2, 3, 3, 4, 4, 5, 5, 6, 6, 7, 7, 8, 8, 9, 9, 10, 10, 11, 11, 12, 12, 13,
    13,
];

/// Powers of two up to the longest code.
pub const POWERS: [u32; 16] = [
    1, 2, 4, 8, 16, 32, 64, 128, 256, 512, 1024, 2048, 4096, 8192, 16384, 32768,
];

/// A prefix code word, or the bits that follow one. `length` 0 stands for
/// a symbol that the table cannot express.
#[derive(Clone, Copy, Debug, PartialEq, Eq, Structural)]
pub struct Code {
    pub code: u16,
    pub length: u8,
}

/// The four parts that a match is written as, in the order of writing.
#[derive(Clone, Copy, Debug, PartialEq, Eq, Structural)]
pub struct LengthAndDistanceBits {
    pub length_code: Code,
    pub length_extra_bits: Code,
    pub distance_code: Code,
    pub distance_extra_bits: Code,
}

/// Two to the power of `n`.
pub open spec fn pow2(n: nat) -> nat
    decreases n,
{
    if n == 0 {
        1
    } else {
        2 * pow2((n - 1) as nat)
    }
}

/// Powers of two grow with the exponent, from one on.
pub proof fn lemma_pow2_mono(a: nat, b: nat)
    requires
        a <= b,
    ensures
        pow2(a) <= pow2(b),
        pow2(a) >= 1,
    decreases b,
{
    if a < b {
        lemma_pow2_mono(a, (b - 1) as nat);
    } else if a > 0 {
        lemma_pow2_mono((a - 1) as nat, (a - 1) as nat);
    }
}

/// The table of powers holds the powers of two.
pub proof fn lemma_powers()
    ensures
        forall|k: int| 0 <= k <= 15 ==> #[trigger] POWERS[k] == pow2(k as nat),
        pow2(15) == 32768,
{
    reveal_with_fuel(pow2, 17);
    assert(POWERS[0] == pow2(0) && POWERS[1] == pow2(1) && POWERS[2] == pow2(2) && POWERS[3]
        == pow2(3));
    assert(POWERS[4] == pow2(4) && POWERS[5] == pow2(5) && POWERS[6] == pow2(6) && POWERS[7]
        == pow2(7));
    assert(POWERS[8] == pow2(8) && POWERS[9] == pow2(9) && POWERS[10] == pow2(10) && POWERS[11]
        == pow2(11));
    assert(POWERS[12] == pow2(12) && POWERS[13] == pow2(13) && POWERS[14] == pow2(14)
        && POWERS[15] == pow2(15));
}

/// Number of the first `n` symbols whose code length is `l`.
pub open spec fn count_of(lengths: Seq<u8>, n: int, l: int) -> int
    decreases n,
{
    if n <= 0 {
        0
    } else {
        count_of(lengths, n - 1, l) + (if lengths[n - 1] == l {
            1int
        } else {
            0int
        })
    }
}

/// The smallest code word of length `l` in the canonical code: twice the
/// first word of the length below, moved past the words of that length.
pub open spec fn first_code(lengths: Seq<u8>, l: nat) -> int
    decreases l,
{
    if l == 0 {
        0
    } else {
        2 * (first_code(lengths, (l - 1) as nat) + (if l == 1 {
            0
        } else {
            count_of(lengths, lengths.len() as int, l - 1)
        }))
    }
}

/// The canonical code word of `symbol`: words of one length are consecutive,
/// in the order of their symbols.
pub open spec fn canonical_code(lengths: Seq<u8>, symbol: int) -> int {
    first_code(lengths, lengths[symbol] as nat) + count_of(
        lengths,
        symbol,
        lengths[symbol] as int,
    )
}

/// What one symbol of code length `l` takes of the code space, in units of
/// `2^-15`.
pub open spec fn weight(l: u8) -> int {
    if 1 <= l <= 15 {
        pow2((15 - l) as nat) as int
    } else {
        0
    }
}

/// The Kraft sum of the first `n` code lengths, in units of `2^-15`.
pub open spec fn kraft_sum(lengths: Seq<u8>, n: int) -> int
    decreases n,
{
    if n <= 0 {
        0
    } else {
        kraft_sum(lengths, n - 1) + weight(lengths[n - 1])
    }
}

/// The code lengths admit a prefix code: none is above 15, and their Kraft
/// sum is at most one.
pub open spec fn feasible(lengths: Seq<u8>) -> bool {
    &&& forall|i: int| 0 <= i < lengths.len() ==> #[trigger] lengths[i] <= MAX_CODE_LENGTH
    &&& kraft_sum(lengths, lengths.len() as int) <= 32768
}

/// The Kraft sum of the first `n` symbols, taken length by length up to
/// the length `upto`.
pub open spec fn kraft_by_length(lengths: Seq<u8>, n: int, upto: nat) -> int
    decreases upto,
{
    if upto == 0 {
        0
    } else {
        kraft_by_length(lengths, n, (upto - 1) as nat) + count_of(lengths, n, upto as int) * pow2(
            (15 - upto) as nat,
        )
    }
}

/// A count is not negative and does not shrink as more symbols are taken.
proof fn lemma_count_mono(lengths: Seq<u8>, i: int, n: int, l: int)
    requires
        i <= n,
    ensures
        0 <= count_of(lengths, i, l) <= count_of(lengths, n, l),
    decreases n - i, i,
{
    if i < n {
        lemma_count_mono(lengths, i, n - 1, l);
    } else if i > 0 {
        lemma_count_mono(lengths, i - 1, i - 1, l);
    }
}

/// One more symbol adds its weight to the sum taken length by length.
proof fn lemma_by_length_step(lengths: Seq<u8>, n: int, upto: nat)
    requires
        0 < n,
        upto <= 15,
    ensures
        kraft_by_length(lengths, n, upto) == kraft_by_length(lengths, n - 1, upto) + (if 1
            <= lengths[n - 1] <= upto {
            pow2((15 - lengths[n - 1]) as nat) as int
        } else {
            0
        }),
    decreases upto,
{
    if upto > 0 {
        lemma_by_length_step(lengths, n, (upto - 1) as nat);
        let p = pow2((15 - upto) as nat) as int;
        let c = count_of(lengths, n - 1, upto as int);
        assert((c + 1) * p == c * p + p) by (nonlinear_arith);
    }
}

/// The sum over no symbols is zero.
proof fn lemma_by_length_zero(lengths: Seq<u8>, upto: nat)
    ensures
        kraft_by_length(lengths, 0, upto) == 0,
    decreases upto,
{
    if upto > 0 {
        lemma_by_length_zero(lengths, (upto - 1) as nat);
    }
}

/// The Kraft sum is the same taken symbol by symbol and length by length.
proof fn lemma_kraft_by_length(lengths: Seq<u8>, n: int)
    requires
        0 <= n,
    ensures
        kraft_sum(lengths, n) == kraft_by_length(lengths, n, 15),
    decreases n,
{
    if n > 0 {
        lemma_kraft_by_length(lengths, n - 1);
        lemma_by_length_step(lengths, n, 15);
    } else {
        lemma_by_length_zero(lengths, 15);
    }
}

/// The sum taken length by length grows with the lengths it covers.
proof fn lemma_by_length_mono(lengths: Seq<u8>, n: int, a: nat, b: nat)
    requires
        a <= b <= 15,
    ensures
        kraft_by_length(lengths, n, a) <= kraft_by_length(lengths, n, b),
    decreases b,
{
    if a < b {
        lemma_by_length_mono(lengths, n, a, (b - 1) as nat);
        lemma_count_mono(lengths, n, n, b as int);
        let p = pow2((15 - b) as nat) as int;
        let c = count_of(lengths, n, b as int);
        assert(c * p >= 0) by (nonlinear_arith)
            requires
                c >= 0,
                p >= 0,
        ;
    }
}

/// The first code word of a length, in units of `2^-15`, is the Kraft sum
/// of the shorter lengths.
proof fn lemma_first_code(lengths: Seq<u8>, l: nat)
    requires
        1 <= l <= 15,
    ensures
        first_code(lengths, l) * pow2((15 - l) as nat) == kraft_by_length(
            lengths,
            lengths.len() as int,
            (l - 1) as nat,
        ),
    decreases l,
{
    reveal_with_fuel(first_code, 2);
    let p = pow2((15 - l) as nat) as int;
    if l == 1 {
        assert(first_code(lengths, 1) == 0);
        assert(0 * p == 0);
    } else {
        lemma_first_code(lengths, (l - 1) as nat);
        let f = first_code(lengths, (l - 1) as nat);
        let c = count_of(lengths, lengths.len() as int, l - 1);
        assert(pow2((15 - (l - 1)) as nat) == 2 * p);
        assert(first_code(lengths, l) == 2 * (f + c));
        assert((2 * (f + c)) * p == f * (2 * p) + c * (2 * p)) by (nonlinear_arith);
    }
}

/// The product of two powers of two is the power of the sum.
pub proof fn lemma_pow2_split(a: nat, b: nat)
    ensures
        pow2(a) * pow2(b) == pow2(a + b),
    decreases a,
{
    if a > 0 {
        lemma_pow2_split((a - 1) as nat, b);
        let x = pow2((a - 1) as nat) as int;
        let y = pow2(b) as int;
        assert((2 * x) * y == 2 * (x * y)) by (nonlinear_arith);
    } else {
        assert(1 * pow2(b) == pow2(b));
    }
}

/// Where the Kraft sum of the lengths is at most one, the canonical code
/// word of every symbol fits the length of the symbol.
#[verifier::rlimit(40)]
pub proof fn lemma_kraft_gives_codes(lengths: Seq<u8>, i: int)
    requires
        feasible(lengths),
        0 <= i < lengths.len(),
        lengths[i] > 0,
    ensures
        0 <= canonical_code(lengths, i) < pow2(lengths[i] as nat),
{
    let l = lengths[i] as nat;
    let n = lengths.len() as int;
    let p = pow2((15 - l) as nat) as int;
    let f = first_code(lengths, l);
    let c = count_of(lengths, n, l as int);
    lemma_first_code(lengths, l);
    lemma_kraft_by_length(lengths, n);
    lemma_by_length_mono(lengths, n, l, 15);
    lemma_by_length_mono(lengths, n, 0, (l - 1) as nat);
    lemma_count_mono(lengths, i + 1, n, l as int);
    lemma_count_mono(lengths, i, i, l as int);
    lemma_pow2_split(l, (15 - l) as nat);
    lemma_powers();
    lemma_pow2_mono(0, (15 - l) as nat);
    assert(kraft_by_length(lengths, n, l) == f * p + c * p);
    assert((f + c) * p == f * p + c * p) by (nonlinear_arith);
    let top = pow2(l) as int;
    assert(f + c <= top) by (nonlinear_arith)
        requires
            (f + c) * p <= top * p,
            p >= 1,
    ;
    assert(f >= 0) by (nonlinear_arith)
        requires
            f * p >= 0,
            p >= 1,
    ;
}

/// The low `n` bits of `code` in reverse order, in front of `acc`.
pub open spec fn reverse_onto(code: int, n: nat, acc: int) -> int
    decreases n,
{
    if n == 0 {
        acc
    } else {
        reverse_onto(code / 2, (n - 1) as nat, acc * 2 + code % 2)
    }
}

/// The `n`-bit word `code` with its bits in reverse order. A writer that
/// emits the lowest bit first sends the result as `code`, highest bit first.
pub open spec fn reverse_bits(code: int, n: nat) -> int {
    reverse_onto(code, n, 0)
}

/// The first word of a longer length lies above every word of a shorter
/// one, extended to that length.
proof fn lemma_first_code_grows(lengths: Seq<u8>, a: nat, b: nat)
    requires
        1 <= a < b,
    ensures
        first_code(lengths, b) >= (first_code(lengths, a) + count_of(
            lengths,
            lengths.len() as int,
            a as int,
        )) * pow2((b - a) as nat),
    decreases b,
{
    reveal_with_fuel(first_code, 2);
    reveal_with_fuel(pow2, 2);
    let x = first_code(lengths, a) + count_of(lengths, lengths.len() as int, a as int);
    let before = first_code(lengths, (b - 1) as nat);
    let c = count_of(lengths, lengths.len() as int, b - 1);
    assert(first_code(lengths, b) == 2 * (before + c));
    if b - 1 == a {
        assert(x * 2 == 2 * x);
    } else {
        lemma_first_code_grows(lengths, a, (b - 1) as nat);
        lemma_count_mono(lengths, lengths.len() as int, lengths.len() as int, b - 1);
        let p = pow2((b - 1 - a) as nat) as int;
        assert(pow2((b - a) as nat) == 2 * p);
        assert(2 * (x * p) == x * (2 * p)) by (nonlinear_arith);
    }
}

/// No code word of a canonical code is the beginning of another: a word
/// cut down to the length of a shorter or equally long one differs from it.
pub proof fn lemma_prefix_free(lengths: Seq<u8>, i: int, j: int)
    requires
        0 <= i < lengths.len(),
        0 <= j < lengths.len(),
        i != j,
        0 < lengths[i] <= lengths[j],
    ensures
        canonical_code(lengths, j) / (pow2((lengths[j] - lengths[i]) as nat) as int)
            != canonical_code(lengths, i),
{
    let n = lengths.len() as int;
    let a = lengths[i] as nat;
    let b = lengths[j] as nat;
    let p = pow2((b - a) as nat) as int;
    lemma_count_mono(lengths, i, i, a as int);
    lemma_count_mono(lengths, j, j, b as int);
    if a == b {
        assert(p == 1);
        if i < j {
            lemma_count_mono(lengths, i + 1, j, a as int);
        } else {
            lemma_count_mono(lengths, j + 1, i, a as int);
        }
    } else {
        lemma_first_code_grows(lengths, a, b);
        lemma_count_mono(lengths, i + 1, n, a as int);
        lemma_pow2_mono(0, (b - a) as nat);
        let x = first_code(lengths, a) + count_of(lengths, n, a as int);
        let cj = canonical_code(lengths, j);
        assert(cj >= x * p);
        assert(cj / p >= x) by (nonlinear_arith)
            requires
                cj >= x * p,
                p >= 1,
        ;
    }
}

/// Powers of two up to the thirtieth, as numbers.
proof fn lemma_pow2_30(k: nat)
    requires
        k <= 30,
    ensures
        pow2(k) <= 0x4000_0000,
        k <= 29 ==> pow2(k) <= 0x2000_0000,
{
    lemma_powers();
    lemma_pow2_split(15, 15);
    assert(pow2(30) == 0x4000_0000);
    assert(pow2(30) == 2 * pow2(29));
    lemma_pow2_mono(k, 30);
    if k <= 29 {
        lemma_pow2_mono(k, 29);
    }
}

/// Bit by bit, what reversing `n` bits of `code` in front of `acc` gives.
#[verifier::rlimit(40)]
proof fn lemma_reverse_onto_bits(code: int, n: nat, acc: int, k: nat, i: int)
    requires
        0 <= code < 0x8000_0000,
        0 <= acc < pow2(k),
        k + n <= 30,
        0 <= i < n + k,
    ensures
        0 <= reverse_onto(code, n, acc) < pow2(k + n),
        pow2(k + n) <= 0x4000_0000,
        bit_of(reverse_onto(code, n, acc) as u32, i as u32) == (if i < n {
            bit_of(code as u32, (n - 1 - i) as u32)
        } else {
            bit_of(acc as u32, (i - n) as u32)
        }),
    decreases n,
{
    lemma_pow2_30(k + n);
    if n > 0 {
        let bit = code % 2;
        let half = code / 2;
        let acc2 = acc * 2 + bit;
        lemma_pow2_30(k);
        assert(pow2(k + 1) == 2 * pow2(k));
        assert(0 <= acc2 < pow2(k + 1));
        lemma_reverse_onto_bits(half, (n - 1) as nat, acc2, k + 1, i);
        let r = reverse_onto(code, n, acc);
        assert(r == reverse_onto(half, (n - 1) as nat, acc2));
        let c32 = code as u32;
        let a32 = acc as u32;
        let b32 = bit as u32;
        assert(half as u32 == c32 / 2);
        assert(acc2 as u32 == (2 * a32 + b32) as u32);
        if i < n - 1 {
            lemma_bit_halves(c32, (n - 2 - i) as u32);
            assert(bit_of(r as u32, i as u32) == bit_of(c32, (n - 1 - i) as u32));
        } else if i == n - 1 {
            lemma_bit_doubles(a32, b32, 0);
            lemma_bit_halves(c32, 0);
            assert(bit_of(r as u32, i as u32) == bit_of(c32, 0));
        } else {
            lemma_bit_doubles(a32, b32, (i - n) as u32);
            assert(bit_of(r as u32, i as u32) == bit_of(a32, (i - n) as u32));
        }
    }
}

/// The bits of a code word in the order in which they are sent: the
/// highest of its `n` bits first.
pub open spec fn word_bits(code: int, n: nat) -> Seq<bool> {
    Seq::new(n, |i: int| bit_of(code as u32, (n - 1 - i) as u32))
}

/// A writer that sends the lowest bit first sends the reversed word as the
/// word itself, highest bit first.
pub proof fn lemma_reversed_word(code: int, n: nat)
    requires
        0 <= code < 0x8000_0000,
        n <= 16,
    ensures
        0 <= reverse_bits(code, n) < pow2(n),
        low_bits(reverse_bits(code, n) as u32, n) == word_bits(code, n),
{
    if n > 0 {
        lemma_reverse_onto_bits(code, n, 0, 0, 0);
    }
    assert forall|i: int| 0 <= i < n implies low_bits(reverse_bits(code, n) as u32, n)[i]
        == word_bits(code, n)[i] by {
        lemma_reverse_onto_bits(code, n, 0, 0, i);
    }
    assert(low_bits(reverse_bits(code, n) as u32, n) =~= word_bits(code, n));
}

/// The bits that the code of `symbol` is sent as: its canonical code word,
/// highest bit first.
pub proof fn lemma_code_bits(lengths: Seq<u8>, symbol: int)
    requires
        feasible(lengths),
        0 <= symbol < lengths.len(),
        lengths[symbol] > 0,
    ensures
        low_bits(code_for(lengths, symbol).code as u32, code_for(lengths, symbol).length as nat)
            == word_bits(canonical_code(lengths, symbol), lengths[symbol] as nat),
{
    lemma_kraft_gives_codes(lengths, symbol);
    lemma_pow2_mono(lengths[symbol] as nat, 15);
    lemma_powers();
    lemma_reversed_word(canonical_code(lengths, symbol), lengths[symbol] as nat);
}

/// The code of `symbol` as the table stores it: the canonical word,
/// reversed, with its length; all zero where the symbol has no code.
pub open spec fn code_for(lengths: Seq<u8>, symbol: int) -> Code {
    if 0 <= symbol < lengths.len() && lengths[symbol] > 0 {
        Code {
            code: reverse_bits(canonical_code(lengths, symbol), lengths[symbol] as nat) as u16,
            length: lengths[symbol],
        }
    } else {
        Code { code: 0, length: 0 }
    }
}

/// Index of the last entry of `bases[..n]` that is not above `value`, 0
/// where there is none.
pub open spec fn base_index(bases: Seq<u16>, value: int, n: nat) -> int
    decreases n,
{
    if n == 0 {
        0
    } else if bases[n - 1] <= value {
        n - 1
    } else {
        base_index(bases, value, (n - 1) as nat)
    }
}

/// Index of the length code that covers `length`.
pub open spec fn length_index(length: int) -> int {
    base_index(LENGTH_BASE@, length, 29)
}

/// Index of the distance code that covers `distance`.
pub open spec fn distance_index(distance: int) -> int {
    base_index(DISTANCE_BASE@, distance, 30)
}

/// A match length that the format can express.
pub open spec fn valid_length(length: int) -> bool {
    MIN_LENGTH <= length <= MAX_LENGTH
}

/// A match distance that the format can express.
pub open spec fn valid_distance(distance: int) -> bool {
    MIN_DISTANCE <= distance <= MAX_DISTANCE
}

/// The extra bits that follow the code of a length.
pub open spec fn length_extra(length: int) -> Code {
    Code {
        code: (length - LENGTH_BASE[length_index(length)]) as u16,
        length: LENGTH_EXTRA_BITS[length_index(length)],
    }
}

/// The extra bits that follow the code of a distance.
pub open spec fn distance_extra(distance: int) -> Code {
    Code {
        code: (distance - DISTANCE_BASE[distance_index(distance)]) as u16,
        length: DISTANCE_EXTRA_BITS[distance_index(distance)],
    }
}

/// The length code that covers `length`.
pub fn find_length_index(length: u16) -> (i: usize)
    requires
        valid_length(length as int),
    ensures
        i == length_index(length as int),
        i < 29,
        LENGTH_BASE[i as int] <= length,
        i < 28 ==> length < LENGTH_BASE[i + 1],
{
    let mut n: usize = 29;
    while n > 1 && LENGTH_BASE[n - 1] > length
        invariant
            1 <= n <= 29,
            valid_length(length as int),
            length_index(length as int) == base_index(LENGTH_BASE@, length as int, n as nat),
            n < 29 ==> length < LENGTH_BASE[n as int],
        decreases n,
    {
        n = n - 1;
    }
    assert(base_index(LENGTH_BASE@, length as int, 0) == 0);
    n - 1
}

/// The distance code that covers `distance`.
pub fn find_distance_index(distance: u16) -> (i: usize)
    requires
        valid_distance(distance as int),
    ensures
        i == distance_index(distance as int),
        i < 30,
        DISTANCE_BASE[i as int] <= distance,
        i < 29 ==> distance < DISTANCE_BASE[i + 1],
{
    let mut n: usize = 30;
    while n > 1 && DISTANCE_BASE[n - 1] > distance
        invariant
            1 <= n <= 30,
            valid_distance(distance as int),
            distance_index(distance as int) == base_index(
                DISTANCE_BASE@,
                distance as int,
                n as nat,
            ),
            n < 30 ==> distance < DISTANCE_BASE[n as int],
        decreases n,
    {
        n = n - 1;
    }
    assert(base_index(DISTANCE_BASE@, distance as int, 0) == 0);
    n - 1
}

/// Reverses the low `length` bits of `code`.
pub fn reverse(code: u32, length: u8) -> (r: u16)
    requires
        length <= MAX_CODE_LENGTH,
    ensures
        r == reverse_bits(code as int, length as nat),
        r < pow2(length as nat),
{
    let mut r: u32 = 0;
    let mut c: u32 = code;
    let mut k: u8 = 0;
    proof {
        lemma_powers();
    }
    while k < length
        invariant
            k <= length <= 15,
            r < pow2(k as nat),
            pow2(k as nat) <= 32768,
            reverse_onto(c as int, (length - k) as nat, r as int) == reverse_bits(
                code as int,
                length as nat,
            ),
        decreases length - k,
    {
        r = r * 2 + c % 2;
        c = c / 2;
        k = k + 1;
        proof {
            lemma_pow2_mono(k as nat, 15);
            lemma_powers();
        }
    }
    r as u16
}

/// `n` zeros.
fn zeros(n: usize) -> (v: Vec<u32>)
    ensures
        v@.len() == n,
        forall|i: int| 0 <= i < n ==> v@[i] == 0,
{
    let mut v: Vec<u32> = Vec::new();
    let mut i: usize = 0;
    while i < n
        invariant
            i <= n,
            v@.len() == i,
            forall|k: int| 0 <= k < i ==> v@[k] == 0,
        decreases n - i,
    {
        v.push(0);
        i = i + 1;
    }
    v
}

/// The canonical code words of `lengths`, each reversed for the writer, or
/// `None` where the lengths admit no code.
#[verifier::rlimit(40)]
pub fn create_codes(lengths: &[u8]) -> (r: Option<Vec<u16>>)
    requires
        lengths@.len() <= NUM_LITERALS_AND_LENGTHS,
    ensures
        r.is_some() <==> feasible(lengths@),
        r matches Some(codes) ==> {
            &&& codes@.len() == lengths@.len()
            &&& forall|i: int|
                0 <= i < codes@.len() ==> #[trigger] codes@[i] == code_for(lengths@, i).code
        },
{
    let n = lengths.len();
    let mut counts = zeros(16);
    let mut kraft: u32 = 0;
    let mut i: usize = 0;
    proof {
        lemma_powers();
    }
    while i < n
        invariant
            i <= n,
            n == lengths@.len(),
            n <= 288,
            counts@.len() == 16,
            forall|l: int| 0 <= l < 16 ==> #[trigger] counts@[l] == count_of(lengths@, i as int, l),
            forall|l: int| 0 <= l < 16 ==> 0 <= #[trigger] counts@[l] <= i,
            forall|j: int| 0 <= j < i ==> #[trigger] lengths@[j] <= MAX_CODE_LENGTH,
            kraft == kraft_sum(lengths@, i as int),
            kraft <= i * 16384,
            forall|k: int| 0 <= k <= 15 ==> #[trigger] POWERS[k] == pow2(k as nat),
        decreases n - i,
    {
        let l = lengths[i];
        if l > MAX_CODE_LENGTH {
            return None;
        }
        if l > 0 {
            kraft = kraft + POWERS[(15 - l) as usize];
        }
        let c = counts[l as usize];
        counts.set(l as usize, c + 1);
        i = i + 1;
    }
    if kraft > 32768 {
        return None;
    }
    let mut next = zeros(16);
    let mut code: u32 = 0;
    let mut bits: usize = 1;
    while bits <= 15
        invariant
            1 <= bits <= 16,
            n == lengths@.len(),
            next@.len() == 16,
            counts@.len() == 16,
            forall|l: int| 0 <= l < 16 ==> #[trigger] counts@[l] == count_of(lengths@, n as int, l),
            forall|l: int| 0 <= l < 16 ==> 0 <= #[trigger] counts@[l] <= 288,
            code == first_code(lengths@, (bits - 1) as nat),
            forall|b: int| 0 <= b < bits ==> #[trigger] next@[b] == first_code(lengths@, b as nat),
            forall|b: int| 0 <= b < 16 ==> #[trigger] next@[b] <= 576 * 32767,
            code <= 576 * (pow2((bits - 1) as nat) - 1),
            pow2((bits - 1) as nat) <= 32768,
        decreases 16 - bits,
    {
        let c: u32 = if bits == 1 {
            0
        } else {
            counts[bits - 1]
        };
        proof {
            lemma_pow2_mono(bits as nat, 15);
            lemma_powers();
        }
        code = 2 * (code + c);
        next.set(bits, code);
        bits = bits + 1;
    }
    let mut codes: Vec<u16> = Vec::new();
    let mut i: usize = 0;
    proof {
        lemma_powers();
    }
    while i < n
        invariant
            i <= n,
            n == lengths@.len(),
            n <= 288,
            next@.len() == 16,
            codes@.len() == i,
            forall|j: int| 0 <= j < n ==> #[trigger] lengths@[j] <= MAX_CODE_LENGTH,
            kraft_sum(lengths@, n as int) <= 32768,
            forall|l: int|
                1 <= l < 16 ==> #[trigger] next@[l] == first_code(lengths@, l as nat) + count_of(
                    lengths@,
                    i as int,
                    l,
                ),
            forall|l: int| 0 <= l < 16 ==> #[trigger] next@[l] <= 576 * 32767 + i,
            forall|j: int| 0 <= j < i ==> #[trigger] codes@[j] == code_for(lengths@, j).code,
        decreases n - i,
    {
        let l = lengths[i];
        if l == 0 {
            codes.push(0);
        } else {
            let c = next[l as usize];
            let word = reverse(c, l);
            codes.push(word);
            next.set(l as usize, c + 1);
        }
        i = i + 1;
    }
    Some(codes)
}

/// The bytes of `source` in a vector.
fn copy_of(source: &[u8]) -> (v: Vec<u8>)
    ensures
        v@ == source@,
{
    let mut v: Vec<u8> = Vec::new();
    let mut i: usize = 0;
    while i < source.len()
        invariant
            i <= source@.len(),
            v@ == source@.take(i as int),
        decreases source@.len() - i,
    {
        v.push(source[i]);
        i = i + 1;
        assert(v@ =~= source@.take(i as int));
    }
    assert(source@.take(source@.len() as int) =~= source@);
    v
}

/// The code length of literal/length symbol `i` in the fixed code.
pub open spec fn fixed_literal_length(i: int) -> u8 {
    if i < 144 {
        8
    } else if i < 256 {
        9
    } else if i < 280 {
        7
    } else {
        8
    }
}

/// The fixed code lengths of the first `n` literal/length symbols.
pub open spec fn fixed_literal_lengths(n: nat) -> Seq<u8> {
    Seq::new(n, |i: int| fixed_literal_length(i))
}

/// The fixed code lengths of the first `n` distance symbols: 5 each.
pub open spec fn fixed_distance_lengths(n: nat) -> Seq<u8> {
    Seq::new(n, |i: int| 5u8)
}

/// The fixed code lengths of the first `n` literal/length symbols.
pub fn fixed_code_lengths(n: usize) -> (v: Vec<u8>)
    ensures
        v@ == fixed_literal_lengths(n as nat),
{
    let mut v: Vec<u8> = Vec::new();
    let mut i: usize = 0;
    while i < n
        invariant
            i <= n,
            v@ == fixed_literal_lengths(i as nat),
        decreases n - i,
    {
        let l: u8 = if i < 144 {
            8
        } else if i < 256 {
            9
        } else if i < 280 {
            7
        } else {
            8
        };
        v.push(l);
        i = i + 1;
        assert(v@ =~= fixed_literal_lengths(i as nat));
    }
    v
}

/// The fixed code lengths of the first `n` distance symbols.
pub fn fixed_code_lengths_distance(n: usize) -> (v: Vec<u8>)
    ensures
        v@ == fixed_distance_lengths(n as nat),
{
    let mut v: Vec<u8> = Vec::new();
    let mut i: usize = 0;
    while i < n
        invariant
            i <= n,
            v@ == fixed_distance_lengths(i as nat),
        decreases n - i,
    {
        v.push(5);
        i = i + 1;
        assert(v@ =~= fixed_distance_lengths(i as nat));
    }
    v
}

/// `x`, held between 0 and `hi`.
spec fn clamp(x: int, hi: int) -> int {
    if x < 0 {
        0
    } else if x > hi {
        hi
    } else {
        x
    }
}

/// The Kraft sum of the first `n` fixed literal/length code lengths.
proof fn lemma_fixed_literal_sums(total: nat, n: int)
    requires
        0 <= n <= total <= 288,
    ensures
        kraft_sum(fixed_literal_lengths(total), n) == 128 * clamp(n, 144) + 64 * clamp(n - 144, 112)
            + 256 * clamp(n - 256, 24) + 128 * clamp(n - 280, 8),
    decreases n,
{
    reveal_with_fuel(pow2, 9);
    if n > 0 {
        lemma_fixed_literal_sums(total, n - 1);
    }
}

/// The Kraft sum of the first `n` fixed distance code lengths.
proof fn lemma_fixed_distance_sums(total: nat, n: int)
    requires
        0 <= n <= total <= 32,
    ensures
        kraft_sum(fixed_distance_lengths(total), n) == 1024 * n,
    decreases n,
{
    reveal_with_fuel(pow2, 11);
    if n > 0 {
        lemma_fixed_distance_sums(total, n - 1);
    }
}

/// The fixed literal/length code lengths admit a code, whatever the number
/// of symbols they are cut to.
pub proof fn lemma_fixed_literals_feasible(total: nat)
    requires
        total <= 288,
    ensures
        feasible(fixed_literal_lengths(total)),
{
    lemma_fixed_literal_sums(total, total as int);
}

/// Up to 32 distance code lengths of 5 admit a code.
pub proof fn lemma_fixed_distances_feasible(total: nat)
    requires
        total <= 32,
    ensures
        feasible(fixed_distance_lengths(total)),
{
    lemma_fixed_distance_sums(total, total as int);
}

/// The code length of literal/length symbol `i` in the code that dynamic
/// blocks are written with: the fixed lengths, but for four symbols that
/// are a bit shorter, so that the 286 symbols that a block header can
/// describe make up a complete code.
pub open spec fn preset_literal_length(i: int) -> u8 {
    if i < 148 {
        8
    } else if i < 256 {
        9
    } else if i < 280 {
        7
    } else {
        8
    }
}

/// The code length of distance symbol `i` in the code that dynamic blocks
/// are written with: 5 as in the fixed code, but for two symbols of 4, so
/// that the 30 symbols that exist make up a complete code.
pub open spec fn preset_distance_length(i: int) -> u8 {
    if i < 2 {
        4
    } else {
        5
    }
}

/// The literal/length code lengths that dynamic blocks are written with.
pub open spec fn preset_literal_lengths() -> Seq<u8> {
    Seq::new(286, |i: int| preset_literal_length(i))
}

/// The distance code lengths that dynamic blocks are written with.
pub open spec fn preset_distance_lengths() -> Seq<u8> {
    Seq::new(30, |i: int| preset_distance_length(i))
}

/// The Kraft sum of the first `n` literal/length code lengths of dynamic
/// blocks.
proof fn lemma_preset_literal_sums(n: int)
    requires
        0 <= n <= 286,
    ensures
        kraft_sum(preset_literal_lengths(), n) == 128 * clamp(n, 148) + 64 * clamp(n - 148, 108)
            + 256 * clamp(n - 256, 24) + 128 * clamp(n - 280, 6),
    decreases n,
{
    reveal_with_fuel(pow2, 9);
    if n > 0 {
        lemma_preset_literal_sums(n - 1);
    }
}

/// The Kraft sum of the first `n` distance code lengths of dynamic blocks.
proof fn lemma_preset_distance_sums(n: int)
    requires
        0 <= n <= 30,
    ensures
        kraft_sum(preset_distance_lengths(), n) == 2048 * clamp(n, 2) + 1024 * clamp(n - 2, 28),
    decreases n,
{
    reveal_with_fuel(pow2, 12);
    if n > 0 {
        lemma_preset_distance_sums(n - 1);
    }
}

/// The code lengths of dynamic blocks make up complete codes: their Kraft
/// sums are one.
pub proof fn lemma_preset_complete()
    ensures
        feasible(preset_literal_lengths()),
        feasible(preset_distance_lengths()),
        kraft_sum(preset_literal_lengths(), 286) == 32768,
        kraft_sum(preset_distance_lengths(), 30) == 32768,
{
    lemma_preset_literal_sums(286);
    lemma_preset_distance_sums(30);
}

/// The literal/length code lengths that dynamic blocks are written with.
pub fn preset_code_lengths() -> (v: Vec<u8>)
    ensures
        v@ == preset_literal_lengths(),
{
    let mut v: Vec<u8> = Vec::new();
    let mut i: usize = 0;
    while i < 286
        invariant
            i <= 286,
            v@ == Seq::new(i as nat, |k: int| preset_literal_length(k)),
        decreases 286 - i,
    {
        let l: u8 = if i < 148 {
            8
        } else if i < 256 {
            9
        } else if i < 280 {
            7
        } else {
            8
        };
        v.push(l);
        i = i + 1;
        assert(v@ =~= Seq::new(i as nat, |k: int| preset_literal_length(k)));
    }
    v
}

/// The distance code lengths that dynamic blocks are written with.
pub fn preset_code_lengths_distance() -> (v: Vec<u8>)
    ensures
        v@ == preset_distance_lengths(),
{
    let mut v: Vec<u8> = Vec::new();
    let mut i: usize = 0;
    while i < 30
        invariant
            i <= 30,
            v@ == Seq::new(i as nat, |k: int| preset_distance_length(k)),
        decreases 30 - i,
    {
        let l: u8 = if i < 2 {
            4
        } else {
            5
        };
        v.push(l);
        i = i + 1;
        assert(v@ =~= Seq::new(i as nat, |k: int| preset_distance_length(k)));
    }
    v
}

/// The codes of the literal/length and of the distance alphabet.
pub struct HuffmanTable {
    codes: Vec<u16>,
    code_lengths: Vec<u8>,
    distance_codes: Vec<u16>,
    distance_code_lengths: Vec<u8>,
}

impl HuffmanTable {
    /// The code lengths of the literal/length alphabet.
    pub closed spec fn literal_lengths(&self) -> Seq<u8> {
        self.code_lengths@
    }

    /// The code lengths of the distance alphabet.
    pub closed spec fn distance_lengths(&self) -> Seq<u8> {
        self.distance_code_lengths@
    }

    /// Both alphabets hold the canonical codes of their lengths.
    pub closed spec fn wf(&self) -> bool {
        &&& self.code_lengths@.len() <= NUM_LITERALS_AND_LENGTHS
        &&& self.distance_code_lengths@.len() <= NUM_DISTANCE_CODES
        &&& feasible(self.code_lengths@)
        &&& feasible(self.distance_code_lengths@)
        &&& self.codes@.len() == self.code_lengths@.len()
        &&& self.distance_codes@.len() == self.distance_code_lengths@.len()
        &&& forall|i: int|
            0 <= i < self.codes@.len() ==> #[trigger] self.codes@[i] == code_for(
                self.code_lengths@,
                i,
            ).code
        &&& forall|i: int|
            0 <= i < self.distance_codes@.len() ==> #[trigger] self.distance_codes@[i] == code_for(
                self.distance_code_lengths@,
                i,
            ).code
    }

    /// The code of a literal/length symbol.
    pub open spec fn literal_code(&self, symbol: int) -> Code {
        code_for(self.literal_lengths(), symbol)
    }

    /// The code of a distance symbol.
    pub open spec fn distance_code(&self, symbol: int) -> Code {
        code_for(self.distance_lengths(), symbol)
    }

    /// The four parts of a match, as this table writes them.
    pub open spec fn length_distance_bits(&self, length: int, distance: int) -> LengthAndDistanceBits {
        LengthAndDistanceBits {
            length_code: self.literal_code(LENGTH_CODE_START + length_index(length)),
            length_extra_bits: length_extra(length),
            distance_code: self.distance_code(distance_index(distance)),
            distance_extra_bits: distance_extra(distance),
        }
    }

    /// No code of a well-formed table is longer than 15 bits.
    pub proof fn lemma_code_lengths(&self)
        requires
            self.wf(),
        ensures
            forall|symbol: int| (#[trigger] self.literal_code(symbol)).length <= MAX_CODE_LENGTH,
            forall|symbol: int| (#[trigger] self.distance_code(symbol)).length <= MAX_CODE_LENGTH,
            forall|i: int|
                0 <= i < self.literal_lengths().len() ==> #[trigger] self.literal_lengths()[i]
                    <= MAX_CODE_LENGTH,
            forall|i: int|
                0 <= i < self.distance_lengths().len() ==> #[trigger] self.distance_lengths()[i]
                    <= MAX_CODE_LENGTH,
    {
    }

    /// Writes the description of the two codes of this table, as a dynamic
    /// block carries it.
    pub fn write_lengths(&self, writer: &mut BitWriter)
        requires
            self.wf(),
            old(writer).wf(),
            describable(self.literal_lengths(), self.distance_lengths()),
        ensures
            final(writer).wf(),
            final(writer).bits() == old(writer).bits() + huffman_lengths_bits(
                self.literal_lengths(),
                self.distance_lengths(),
            ),
    {
        write_huffman_lengths(
            self.code_lengths.as_slice(),
            self.distance_code_lengths.as_slice(),
            writer,
        );
    }

    /// Builds the canonical codes of the two alphabets from their code
    /// lengths. Fails where an alphabet is larger than the format allows or
    /// its lengths admit no code.
    pub fn from_length_tables(literals_and_lengths: &[u8], distances: &[u8]) -> (r: Result<
        HuffmanTable,
        DeflateError,
    >)
        ensures
            r.is_ok() <==> {
                &&& literals_and_lengths@.len() <= NUM_LITERALS_AND_LENGTHS
                &&& distances@.len() <= NUM_DISTANCE_CODES
                &&& feasible(literals_and_lengths@)
                &&& feasible(distances@)
            },
            r matches Ok(t) ==> {
                &&& t.wf()
                &&& t.literal_lengths() == literals_and_lengths@
                &&& t.distance_lengths() == distances@
            },
            r matches Err(e) ==> e == DeflateError::HuffmanConstruction,
    {
        if literals_and_lengths.len() > NUM_LITERALS_AND_LENGTHS || distances.len()
            > NUM_DISTANCE_CODES {
            return Err(DeflateError::HuffmanConstruction);
        }
        let codes = match create_codes(literals_and_lengths) {
            Some(c) => c,
            None => {
                return Err(DeflateError::HuffmanConstruction);
            },
        };
        let distance_codes = match create_codes(distances) {
            Some(c) => c,
            None => {
                return Err(DeflateError::HuffmanConstruction);
            },
        };
        Ok(
            HuffmanTable {
                codes,
                code_lengths: copy_of(literals_and_lengths),
                distance_codes,
                distance_code_lengths: copy_of(distances),
            },
        )
    }

    /// The table of the fixed code lengths, cut to the first `literals`
    /// literal/length symbols and the first `distances` distance symbols.
    pub fn fixed_table(literals: usize, distances: usize) -> (t: HuffmanTable)
        requires
            literals <= NUM_LITERALS_AND_LENGTHS,
            distances <= NUM_DISTANCE_CODES,
        ensures
            t.wf(),
            t.literal_lengths() == fixed_literal_lengths(literals as nat),
            t.distance_lengths() == fixed_distance_lengths(distances as nat),
    {
        let l = fixed_code_lengths(literals);
        let d = fixed_code_lengths_distance(distances);
        proof {
            lemma_fixed_literals_feasible(literals as nat);
            lemma_fixed_distances_feasible(distances as nat);
        }
        let r = HuffmanTable::from_length_tables(l.as_slice(), d.as_slice());
        r.unwrap()
    }

    /// The table that dynamic blocks are written with.
    pub fn preset_table() -> (t: HuffmanTable)
        ensures
            t.wf(),
            t.literal_lengths() == preset_literal_lengths(),
            t.distance_lengths() == preset_distance_lengths(),
    {
        let l = preset_code_lengths();
        let d = preset_code_lengths_distance();
        proof {
            lemma_preset_complete();
        }
        let r = HuffmanTable::from_length_tables(l.as_slice(), d.as_slice());
        r.unwrap()
    }

    /// The code of `symbol` out of the stored words and lengths.
    fn lookup(codes: &Vec<u16>, lengths: &Vec<u8>, symbol: usize) -> (c: Code)
        requires
            codes@.len() == lengths@.len(),
            forall|i: int| 0 <= i < codes@.len() ==> #[trigger] codes@[i] == code_for(lengths@, i).code,
        ensures
            c == code_for(lengths@, symbol as int),
    {
        if symbol < lengths.len() && lengths[symbol] > 0 {
            Code { code: codes[symbol], length: lengths[symbol] }
        } else {
            Code { code: 0, length: 0 }
        }
    }

    /// The code of the literal `value`.
    pub fn get_literal(&self, value: u8) -> (c: Code)
        requires
            self.wf(),
        ensures
            c == self.literal_code(value as int),
    {
        Self::lookup(&self.codes, &self.code_lengths, value as usize)
    }

    /// The code of the end-of-block symbol.
    pub fn get_end_of_block(&self) -> (c: Code)
        requires
            self.wf(),
        ensures
            c == self.literal_code(END_OF_BLOCK_POSITION as int),
    {
        Self::lookup(&self.codes, &self.code_lengths, END_OF_BLOCK_POSITION)
    }

    /// The codes and extra bits of a match, or an error where the length or
    /// the distance is outside what the format can express.
    pub fn get_length_distance_code(&self, length: u16, distance: u16) -> (r: Result<
        LengthAndDistanceBits,
        DeflateError,
    >)
        requires
            self.wf(),
        ensures
            r.is_ok() <==> valid_length(length as int) && valid_distance(distance as int),
            r matches Ok(bits) ==> {
                &&& bits == self.length_distance_bits(length as int, distance as int)
                &&& bits.length_extra_bits.length <= 5
                &&& bits.distance_extra_bits.length <= 13
            },
            r matches Err(e) ==> e == DeflateError::InvalidLengthOrDistance,
    {
        if length < MIN_LENGTH || length > MAX_LENGTH || distance < MIN_DISTANCE || distance
            > MAX_DISTANCE {
            return Err(DeflateError::InvalidLengthOrDistance);
        }
        let li = find_length_index(length);
        let di = find_distance_index(distance);
        Ok(
            LengthAndDistanceBits {
                length_code: Self::lookup(&self.codes, &self.code_lengths, LENGTH_CODE_START + li),
                length_extra_bits: Code {
                    code: length - LENGTH_BASE[li],
                    length: LENGTH_EXTRA_BITS[li],
                },
                distance_code: Self::lookup(&self.distance_codes, &self.distance_code_lengths, di),
                distance_extra_bits: Code {
                    code: distance - DISTANCE_BASE[di],
                    length: DISTANCE_EXTRA_BITS[di],
                },
            },
        )
    }
}

} // verus!
