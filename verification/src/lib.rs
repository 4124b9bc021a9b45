pub mod bits;
pub mod chained_hash_table;
pub mod compression_options;
pub mod decoding;
pub mod errors;
pub mod huffman_lengths;
pub mod huffman_table;
pub mod lz77;
pub mod matching;
pub mod stored_block;

use vstd::prelude::*;
use crate::chained_hash_table::WINDOW_SIZE;
use crate::decoding::{inflate, lemma_inflate_dynamic, lemma_inflate_fixed, lemma_inflate_stored};
use crate::errors::DeflateError;
use crate::huffman_lengths::{describable, huffman_lengths_bits};
use crate::huffman_table::{
    code_for, distance_extra, distance_index, fixed_distance_lengths, fixed_literal_lengths,
    length_extra, length_index, preset_distance_lengths, preset_literal_lengths, valid_distance,
    valid_length, Code, HuffmanTable,
    END_OF_BLOCK_POSITION, LENGTH_CODE_START, NUM_DISTANCE_CODES, NUM_LITERALS_AND_LENGTHS,
};
use crate::lz77::{decode, lz77_compress, lz77_symbols, single_block, symbols_ok, LDPair};
use crate::stored_block::{compress_data_stored, stored_stream};
use crate::bits::{
    byte_bits, lemma_low_byte, lemma_merge, lemma_merge_bound, lemma_pending_top,
    lemma_shift_byte, low_bits, padding, zero_bits,
};

verus! {

/// Header of a fixed block that is not the last: type 01 above the final bit.
pub const FIXED_FIRST_BYTE: u16 = 2;

/// Header of the last block, fixed.
pub const FIXED_FIRST_BYTE_FINAL: u16 = 3;

/// Header of a dynamic block that is not the last: type 10 above the final bit.
pub const DYNAMIC_FIRST_BYTE: u16 = 4;

/// Header of the last block, dynamic.
pub const DYNAMIC_FIRST_BYTE_FINAL: u16 = 5;

/// Number of bits of a block header.
pub const BLOCK_HEADER_BITS: u8 = 3;

/// How a block holds its data.
#[derive(Clone, Copy, Debug, PartialEq, Eq, Structural)]
pub enum BType {
    NoCompression,
    FixedHuffman,
    DynamicHuffman,
}

/// A sink that packs variable-width values into bytes, least significant
/// bit first.
pub struct BitWriter {
    bit_position: u8,
    accumulator: u32,
    pub buffer: Vec<u8>,
}

impl BitWriter {
    /// At most seven bits are pending, and the accumulator holds nothing
    /// above them.
    pub closed spec fn wf(&self) -> bool {
        self.bit_position <= 7 && self.accumulator < (1u32 << (self.bit_position as u32))
    }

    /// The bits that were written and have not reached `buffer` yet.
    pub closed spec fn pending(&self) -> Seq<bool> {
        low_bits(self.accumulator, self.bit_position as nat)
    }

    /// Every bit written so far, in the order of writing.
    pub open spec fn bits(&self) -> Seq<bool> {
        byte_bits(self.bytes()) + self.pending()
    }

    /// The bytes that are complete.
    pub closed spec fn bytes(&self) -> Seq<u8> {
        self.buffer@
    }

    /// A writer that holds nothing.
    pub fn new() -> (w: BitWriter)
        ensures
            w.wf(),
            w.bytes().len() == 0,
            w.pending().len() == 0,
            w.bits() =~= Seq::<bool>::empty(),
    {
        assert(0u32 < (1u32 << 0u32)) by (bit_vector);
        BitWriter { bit_position: 0, accumulator: 0, buffer: Vec::new() }
    }

    /// Appends the low `size` bits of `bits`, lowest first. Whole bytes move
    /// to `buffer` as soon as they are complete.
    #[verifier::rlimit(40)]
    pub fn write_bits(&mut self, bits: u16, size: u8)
        requires
            old(self).wf(),
            size <= 16,
        ensures
            final(self).wf(),
            final(self).bits() == old(self).bits() + low_bits(bits as u32, size as nat),
            final(self).pending().len() == (old(self).pending().len() + size) % 8,
    {
        if size == 0 {
            assert(self.bits() + low_bits(bits as u32, 0) =~= self.bits());
            return ;
        }
        let ghost target = self.bits() + low_bits(bits as u32, size as nat);
        let ghost acc0 = self.accumulator;
        let ghost bp0 = self.bit_position;
        let sz: u32 = size as u32;
        let bp: u32 = self.bit_position as u32;
        let value: u32 = bits as u32;
        assert(sz <= 16 ==> (1u32 << sz) >= 1) by (bit_vector);
        let mask: u32 = (1u32 << sz) - 1;
        proof {
            lemma_merge_bound(acc0, value, bp, sz);
        }
        self.accumulator = self.accumulator | ((value & mask) << bp);
        self.bit_position = self.bit_position + size;
        proof {
            let acc1 = self.accumulator;
            assert forall|j: int| 0 <= j < bp0 + size implies #[trigger] low_bits(
                acc1,
                (bp0 + size) as nat,
            )[j] == (low_bits(acc0, bp0 as nat) + low_bits(value, size as nat))[j] by {
                lemma_merge(acc0, value, bp, sz, j as u32);
            }
            assert(low_bits(acc1, (bp0 + size) as nat) =~= low_bits(acc0, bp0 as nat) + low_bits(
                value,
                size as nat,
            ));
            assert(byte_bits(self.buffer@) + low_bits(acc1, (bp0 + size) as nat) =~= target);
        }
        while self.bit_position >= 8
            invariant
                self.bit_position <= 23,
                self.bit_position as int % 8 == (bp0 + size) % 8,
                self.accumulator < (1u32 << (self.bit_position as u32)),
                byte_bits(self.buffer@) + low_bits(self.accumulator, self.bit_position as nat)
                    == target,
            decreases self.bit_position,
        {
            let ghost acc = self.accumulator;
            let ghost pos = self.bit_position;
            let ghost buf = self.buffer@;
            proof {
                lemma_low_byte(acc, 0);
            }
            let byte: u8 = (self.accumulator & 0xff) as u8;
            self.buffer.push(byte);
            self.bit_position = self.bit_position - 8;
            proof {
                lemma_shift_byte(acc, pos as u32, 0);
            }
            self.accumulator = self.accumulator >> 8;
            proof {
                let acc2 = self.accumulator;
                let lhs = byte_bits(self.buffer@) + low_bits(acc2, (pos - 8) as nat);
                let rhs = byte_bits(buf) + low_bits(acc, pos as nat);
                assert(lhs.len() == rhs.len());
                assert forall|k: int| 0 <= k < lhs.len() implies lhs[k] == rhs[k] by {
                    let n = 8 * buf.len();
                    if k < n {
                        assert(self.buffer@[k / 8] == buf[k / 8]);
                    } else if k < n + 8 {
                        assert(k / 8 == buf.len());
                        assert(k % 8 == k - n);
                        lemma_low_byte(acc, (k - n) as u32);
                    } else {
                        lemma_shift_byte(acc, pos as u32, (k - n - 8) as u32);
                    }
                }
                assert(lhs =~= rhs);
            }
        }
    }

    /// Pads the pending bits with zeros up to a whole byte and moves that
    /// byte to `buffer`. With nothing pending it changes nothing.
    pub fn finish(&mut self)
        requires
            old(self).wf(),
        ensures
            final(self).wf(),
            final(self).pending().len() == 0,
            byte_bits(final(self).bytes()) == old(self).bits() + zero_bits(
                padding(old(self).bits().len()),
            ),
            final(self).bits() == byte_bits(final(self).bytes()),
    {
        let ghost acc = self.accumulator;
        let ghost pos = self.bit_position;
        let ghost buf = self.buffer@;
        if self.bit_position != 0 {
            proof {
                lemma_low_byte(acc, 0);
            }
            let byte: u8 = (self.accumulator & 0xff) as u8;
            self.buffer.push(byte);
            proof {
                let lhs = byte_bits(self.buffer@);
                let rhs = byte_bits(buf) + low_bits(acc, pos as nat) + zero_bits(
                    padding((8 * buf.len() + pos) as nat),
                );
                assert(padding((8 * buf.len() + pos) as nat) == 8 - pos);
                assert forall|k: int| 0 <= k < lhs.len() implies lhs[k] == rhs[k] by {
                    let n = 8 * buf.len();
                    if k < n {
                        assert(self.buffer@[k / 8] == buf[k / 8]);
                    } else {
                        assert(k / 8 == buf.len());
                        assert(k % 8 == k - n);
                        lemma_low_byte(acc, (k - n) as u32);
                        if k - n >= pos {
                            lemma_pending_top(acc, pos as u32, (k - n) as u32);
                        }
                    }
                }
                assert(lhs =~= rhs);
            }
        } else {
            assert(byte_bits(buf) + low_bits(acc, 0) + zero_bits(padding((8 * buf.len()) as nat))
                =~= byte_bits(buf));
        }
        self.accumulator = 0;
        self.bit_position = 0;
        assert(0u32 < (1u32 << 0u32)) by (bit_vector);
        assert(byte_bits(self.buffer@) + low_bits(0, 0) =~= byte_bits(self.buffer@));
    }
}

/// The bits that a code or a run of extra bits is written as.
pub open spec fn code_bits(c: Code) -> Seq<bool> {
    low_bits(c.code as u32, c.length as nat)
}

/// The three bits in front of a block: the final bit, then the type.
pub open spec fn block_header_bits(fixed: bool, final_block: bool) -> Seq<bool> {
    low_bits(
        if fixed {
            if final_block {
                FIXED_FIRST_BYTE_FINAL as u32
            } else {
                FIXED_FIRST_BYTE as u32
            }
        } else {
            if final_block {
                DYNAMIC_FIRST_BYTE_FINAL as u32
            } else {
                DYNAMIC_FIRST_BYTE as u32
            }
        },
        BLOCK_HEADER_BITS as nat,
    )
}

/// The bits of the end-of-block symbol under the given code lengths.
pub open spec fn end_of_block_bits(literals: Seq<u8>) -> Seq<bool> {
    code_bits(code_for(literals, END_OF_BLOCK_POSITION as int))
}

/// The bits of one data symbol under the given code lengths: a literal is
/// its code; a match is its length code, the extra bits of the length, its
/// distance code and the extra bits of the distance. A block start has none.
pub open spec fn symbol_bits(literals: Seq<u8>, distances: Seq<u8>, symbol: LDPair) -> Seq<bool> {
    match symbol {
        LDPair::Literal(b) => code_bits(code_for(literals, b as int)),
        LDPair::LengthDistance { length, distance } => code_bits(
            code_for(literals, LENGTH_CODE_START + length_index(length as int)),
        ) + code_bits(length_extra(length as int)) + code_bits(
            code_for(distances, distance_index(distance as int)),
        ) + code_bits(distance_extra(distance as int)),
        LDPair::BlockStart { is_final } => Seq::empty(),
    }
}

/// A symbol that a table can write: any but a match whose length or
/// distance is out of range.
pub open spec fn writable(symbol: LDPair) -> bool {
    match symbol {
        LDPair::LengthDistance { length, distance } => valid_length(length as int)
            && valid_distance(distance as int),
        _ => true,
    }
}

/// Every one of the symbols is writable.
pub open spec fn all_writable(symbols: Seq<LDPair>) -> bool {
    forall|i: int| 0 <= i < symbols.len() ==> writable(#[trigger] symbols[i])
}

/// The bits of the first `n` symbols under the given code lengths; block
/// starts among them leave no trace.
pub open spec fn symbols_bits(
    literals: Seq<u8>,
    distances: Seq<u8>,
    symbols: Seq<LDPair>,
    n: nat,
) -> Seq<bool>
    decreases n,
{
    if n == 0 {
        Seq::empty()
    } else {
        symbols_bits(literals, distances, symbols, (n - 1) as nat) + symbol_bits(
            literals,
            distances,
            symbols[n - 1],
        )
    }
}

/// The code lengths of the literal/length alphabet in a fixed block.
pub open spec fn fixed_literals() -> Seq<u8> {
    fixed_literal_lengths(NUM_LITERALS_AND_LENGTHS as nat)
}

/// The code lengths of the distance alphabet in a fixed block.
pub open spec fn fixed_distances() -> Seq<u8> {
    fixed_distance_lengths(NUM_DISTANCE_CODES as nat)
}

/// The bits of a whole stream of one final fixed block.
pub open spec fn fixed_stream_bits(symbols: Seq<LDPair>) -> Seq<bool> {
    block_header_bits(true, true) + symbols_bits(
        fixed_literals(),
        fixed_distances(),
        symbols,
        symbols.len(),
    ) + end_of_block_bits(fixed_literals())
}

/// The literal/length code lengths that a dynamic block is written with.
pub open spec fn dynamic_literal_lengths() -> Seq<u8> {
    preset_literal_lengths()
}

/// The distance code lengths that a dynamic block is written with.
pub open spec fn dynamic_distance_lengths() -> Seq<u8> {
    preset_distance_lengths()
}

/// The bits of the first `n` symbols in dynamic blocks: a block start ends
/// the block before it, if there is one, and writes a header with the
/// description of the codes; any other symbol is written with those codes.
pub open spec fn dynamic_symbols_bits(symbols: Seq<LDPair>, n: nat) -> Seq<bool>
    decreases n,
{
    if n == 0 {
        Seq::empty()
    } else {
        dynamic_symbols_bits(symbols, (n - 1) as nat) + (match symbols[n - 1] {
            LDPair::BlockStart { is_final } => (if n > 1 {
                end_of_block_bits(dynamic_literal_lengths())
            } else {
                Seq::empty()
            }) + block_header_bits(false, is_final) + huffman_lengths_bits(
                dynamic_literal_lengths(),
                dynamic_distance_lengths(),
            ),
            other => symbol_bits(dynamic_literal_lengths(), dynamic_distance_lengths(), other),
        })
    }
}

/// The bits of a whole stream of dynamic blocks.
pub open spec fn dynamic_stream_bits(symbols: Seq<LDPair>) -> Seq<bool> {
    dynamic_symbols_bits(symbols, symbols.len()) + end_of_block_bits(dynamic_literal_lengths())
}

/// `bytes` holds `bits`, filled up with zeros to a whole byte.
pub open spec fn packs(bytes: Seq<u8>, bits: Seq<bool>) -> bool {
    byte_bits(bytes) == bits + zero_bits(padding(bits.len()))
}

/// `out` is `input` as one final fixed block: the symbols that lazy
/// matching makes of `input`, in the fixed codes, packed into bytes.
pub open spec fn fixed_output(input: Seq<u8>, out: Seq<u8>) -> bool {
    packs(out, fixed_stream_bits(lz77_symbols(input)))
}

/// `out` is `input` as one final dynamic block: the description of the
/// codes, then the symbols that lazy matching makes of `input`, packed
/// into bytes.
pub open spec fn dynamic_output(input: Seq<u8>, out: Seq<u8>) -> bool {
    packs(out, dynamic_stream_bits(lz77_symbols(input)))
}

/// The symbols that are written for `input` make up one block and decode
/// to `input` again, every match being in range and inside the output.
pub open spec fn symbols_give_back(input: Seq<u8>) -> bool {
    &&& single_block(lz77_symbols(input))
    &&& symbols_ok(lz77_symbols(input))
    &&& decode(lz77_symbols(input)) == input
}

/// Empty input is one final block without data: a stored block of length
/// zero, or a block header followed by the end-of-block symbol, with the
/// description of the codes between them in a dynamic block.
pub proof fn lemma_empty_input()
    ensures
        stored_stream(Seq::<u8>::empty()) == seq![1u8, 0u8, 0u8, 255u8, 255u8],
        lz77_symbols(Seq::<u8>::empty()) == seq![LDPair::BlockStart { is_final: true }],
        fixed_stream_bits(lz77_symbols(Seq::<u8>::empty())) == block_header_bits(true, true)
            + end_of_block_bits(fixed_literals()),
        dynamic_stream_bits(lz77_symbols(Seq::<u8>::empty())) == block_header_bits(false, true)
            + huffman_lengths_bits(dynamic_literal_lengths(), dynamic_distance_lengths())
            + end_of_block_bits(dynamic_literal_lengths()),
{
    let start = seq![LDPair::BlockStart { is_final: true }];
    assert(stored_stream(Seq::<u8>::empty()) =~= seq![1u8, 0u8, 0u8, 255u8, 255u8]);
    reveal_with_fuel(symbols_bits, 2);
    reveal_with_fuel(dynamic_symbols_bits, 2);
    assert(fixed_stream_bits(start) =~= block_header_bits(true, true) + end_of_block_bits(
        fixed_literals(),
    ));
    assert(dynamic_stream_bits(start) =~= block_header_bits(false, true) + huffman_lengths_bits(
        dynamic_literal_lengths(),
        dynamic_distance_lengths(),
    ) + end_of_block_bits(dynamic_literal_lengths()));
}

/// Symbols that a decoder can follow are writable.
pub proof fn lemma_symbols_ok_writable(symbols: Seq<LDPair>)
    requires
        symbols_ok(symbols),
    ensures
        all_writable(symbols),
    decreases symbols.len(),
{
    if symbols.len() > 0 {
        lemma_symbols_ok_writable(symbols.drop_last());
        assert forall|i: int| 0 <= i < symbols.len() implies writable(#[trigger] symbols[i]) by {
            if i < symbols.len() - 1 {
                assert(symbols[i] == symbols.drop_last()[i]);
            }
        }
    }
}

/// A Huffman table and the bit writer that its codes go to.
pub struct EncoderState {
    huffman_table: HuffmanTable,
    writer: BitWriter,
    fixed: bool,
}

impl EncoderState {
    /// Table and writer are well formed.
    pub closed spec fn wf(&self) -> bool {
        self.huffman_table.wf() && self.writer.wf()
    }

    /// Every bit written so far.
    pub closed spec fn bits(&self) -> Seq<bool> {
        self.writer.bits()
    }

    /// The bytes that are complete and were not taken yet.
    pub closed spec fn bytes(&self) -> Seq<u8> {
        self.writer.bytes()
    }

    /// The bits that wait for a byte to be complete.
    pub closed spec fn pending(&self) -> Seq<bool> {
        self.writer.pending()
    }

    /// The code lengths of the literal/length alphabet in use.
    pub closed spec fn literals(&self) -> Seq<u8> {
        self.huffman_table.literal_lengths()
    }

    /// The code lengths of the distance alphabet in use.
    pub closed spec fn distances(&self) -> Seq<u8> {
        self.huffman_table.distance_lengths()
    }

    /// Whether block headers announce the fixed codes.
    pub closed spec fn is_fixed(&self) -> bool {
        self.fixed
    }

    /// The table and the mode stay as they are.
    pub open spec fn same_codes(&self, other: &EncoderState) -> bool {
        &&& self.literals() == other.literals()
        &&& self.distances() == other.distances()
        &&& self.is_fixed() == other.is_fixed()
    }

    /// A state that writes dynamic blocks with the codes of `huffman_table`.
    pub fn new(huffman_table: HuffmanTable) -> (s: EncoderState)
        requires
            huffman_table.wf(),
        ensures
            s.wf(),
            s.bits() == Seq::<bool>::empty(),
            s.literals() == huffman_table.literal_lengths(),
            s.distances() == huffman_table.distance_lengths(),
            !s.is_fixed(),
    {
        EncoderState { huffman_table, writer: BitWriter::new(), fixed: false }
    }

    /// A state that writes fixed blocks.
    pub fn default() -> (s: EncoderState)
        ensures
            s.wf(),
            s.bits() == Seq::<bool>::empty(),
            s.literals() == fixed_literals(),
            s.distances() == fixed_distances(),
            s.is_fixed(),
    {
        let mut ret = EncoderState::new(
            HuffmanTable::fixed_table(NUM_LITERALS_AND_LENGTHS, NUM_DISTANCE_CODES),
        );
        ret.fixed = true;
        ret
    }

    /// Writes one code word or one run of extra bits.
    fn write_code(&mut self, code: Code)
        requires
            old(self).wf(),
            code.length <= 16,
        ensures
            final(self).wf(),
            final(self).same_codes(old(self)),
            final(self).bits() == old(self).bits() + code_bits(code),
    {
        self.writer.write_bits(code.code, code.length);
    }

    /// Writes the code of the literal `value`.
    pub fn write_literal(&mut self, value: u8)
        requires
            old(self).wf(),
        ensures
            final(self).wf(),
            final(self).same_codes(old(self)),
            final(self).bits() == old(self).bits() + symbol_bits(
                old(self).literals(),
                old(self).distances(),
                LDPair::Literal(value),
            ),
    {
        let code = self.huffman_table.get_literal(value);
        proof {
            self.huffman_table.lemma_code_lengths();
        }
        self.write_code(code);
    }

    /// Writes a literal or a match. A match out of range and a block start
    /// are refused, and then nothing is written.
    pub fn write_ldpair(&mut self, value: LDPair) -> (r: Result<(), DeflateError>)
        requires
            old(self).wf(),
        ensures
            final(self).wf(),
            final(self).same_codes(old(self)),
            r == (if value is BlockStart {
                Err::<(), DeflateError>(DeflateError::InternalInvariant)
            } else if !writable(value) {
                Err::<(), DeflateError>(DeflateError::InvalidLengthOrDistance)
            } else {
                Ok::<(), DeflateError>(())
            }),
            final(self).bits() == old(self).bits() + (if r.is_ok() {
                symbol_bits(old(self).literals(), old(self).distances(), value)
            } else {
                Seq::<bool>::empty()
            }),
    {
        proof {
            self.huffman_table.lemma_code_lengths();
            assert(self.bits() + Seq::<bool>::empty() =~= self.bits());
        }
        match value {
            LDPair::Literal(l) => {
                self.write_literal(l);
                Ok(())
            },
            LDPair::LengthDistance { length, distance } => {
                match self.huffman_table.get_length_distance_code(length, distance) {
                    Ok(ldencoded) => {
                        self.write_code(ldencoded.length_code);
                        self.write_code(ldencoded.length_extra_bits);
                        self.write_code(ldencoded.distance_code);
                        self.write_code(ldencoded.distance_extra_bits);
                        assert(self.bits() =~= old(self).bits() + symbol_bits(
                            old(self).literals(),
                            old(self).distances(),
                            value,
                        ));
                        Ok(())
                    },
                    Err(e) => Err(e),
                }
            },
            LDPair::BlockStart { is_final } => Err(DeflateError::InternalInvariant),
        }
    }

    /// Writes the header of a block.
    pub fn write_start_of_block(&mut self, final_block: bool)
        requires
            old(self).wf(),
        ensures
            final(self).wf(),
            final(self).same_codes(old(self)),
            final(self).bits() == old(self).bits() + block_header_bits(
                old(self).is_fixed(),
                final_block,
            ),
    {
        if final_block {
            if self.fixed {
                self.writer.write_bits(FIXED_FIRST_BYTE_FINAL, BLOCK_HEADER_BITS);
            } else {
                self.writer.write_bits(DYNAMIC_FIRST_BYTE_FINAL, BLOCK_HEADER_BITS);
            }
        } else {
            if self.fixed {
                self.writer.write_bits(FIXED_FIRST_BYTE, BLOCK_HEADER_BITS);
            } else {
                self.writer.write_bits(DYNAMIC_FIRST_BYTE, BLOCK_HEADER_BITS);
            }
        }
    }

    /// Writes the end-of-block symbol.
    pub fn write_end_of_block(&mut self)
        requires
            old(self).wf(),
        ensures
            final(self).wf(),
            final(self).same_codes(old(self)),
            final(self).bits() == old(self).bits() + end_of_block_bits(old(self).literals()),
    {
        let code = self.huffman_table.get_end_of_block();
        proof {
            self.huffman_table.lemma_code_lengths();
        }
        self.write_code(code);
    }

    /// Writes the description of the codes in use, as a dynamic block
    /// carries it behind its header.
    pub fn write_code_lengths(&mut self)
        requires
            old(self).wf(),
            describable(old(self).literals(), old(self).distances()),
        ensures
            final(self).wf(),
            final(self).same_codes(old(self)),
            final(self).bits() == old(self).bits() + huffman_lengths_bits(
                old(self).literals(),
                old(self).distances(),
            ),
    {
        self.huffman_table.write_lengths(&mut self.writer);
    }

    /// Moves the complete bytes out; pending bits stay.
    pub fn take_buffer(&mut self) -> (buffer: Vec<u8>)
        requires
            old(self).wf(),
        ensures
            final(self).wf(),
            final(self).same_codes(old(self)),
            buffer@ == old(self).bytes(),
            final(self).bytes() == Seq::<u8>::empty(),
            final(self).pending() == old(self).pending(),
    {
        let mut taken: Vec<u8> = Vec::new();
        std::mem::swap(&mut self.writer.buffer, &mut taken);
        taken
    }

    /// Pads the pending bits with zeros to a whole byte.
    pub fn flush(&mut self)
        requires
            old(self).wf(),
        ensures
            final(self).wf(),
            final(self).same_codes(old(self)),
            final(self).pending().len() == 0,
            packs(final(self).bytes(), old(self).bits()),
            final(self).bits() == byte_bits(final(self).bytes()),
    {
        self.writer.finish();
    }
}

/// Writes the data symbols of `symbols` as one final fixed block. Fails,
/// with nothing returned, where a match is out of range.
pub fn encode_fixed(symbols: &Vec<LDPair>) -> (r: Result<Vec<u8>, DeflateError>)
    ensures
        r.is_ok() <==> all_writable(symbols@),
        r matches Ok(out) ==> packs(out@, fixed_stream_bits(symbols@)) && inflate(out@) == decode(
            symbols@,
        ),
        r matches Err(e) ==> e == DeflateError::InvalidLengthOrDistance,
{
    let mut state = EncoderState::default();
    state.write_start_of_block(true);
    let ghost base = state.bits();
    let mut i: usize = 0;
    assert(base + symbols_bits(fixed_literals(), fixed_distances(), symbols@, 0) =~= base);
    while i < symbols.len()
        invariant
            i <= symbols@.len(),
            state.wf(),
            state.literals() == fixed_literals(),
            state.distances() == fixed_distances(),
            state.bits() == base + symbols_bits(fixed_literals(), fixed_distances(), symbols@, i as nat),
            forall|j: int| 0 <= j < i ==> writable(#[trigger] symbols@[j]),
        decreases symbols@.len() - i,
    {
        let ld = symbols[i];
        let ghost before = state.bits();
        match ld {
            LDPair::BlockStart { is_final } => {
                assert(before + Seq::<bool>::empty() =~= before);
            },
            _ => {
                match state.write_ldpair(ld) {
                    Ok(()) => {},
                    Err(e) => {
                        return Err(e);
                    },
                }
            },
        }
        i = i + 1;
        assert(state.bits() =~= base + symbols_bits(fixed_literals(), fixed_distances(), symbols@, i as nat));
    }
    state.write_end_of_block();
    state.flush();
    let out = state.take_buffer();
    assert(base + symbols_bits(fixed_literals(), fixed_distances(), symbols@, symbols@.len()) + end_of_block_bits(
        fixed_literals(),
    ) =~= fixed_stream_bits(symbols@)) by {
        assert(base =~= block_header_bits(true, true));
    }
    proof {
        lemma_inflate_fixed(symbols@, out@);
    }
    Ok(out)
}

/// Writes `symbols` as dynamic blocks, one for each block start. Fails,
/// with nothing returned, where the first symbol is no block start or a
/// match is out of range.
#[verifier::rlimit(40)]
pub fn encode_dynamic(symbols: &Vec<LDPair>) -> (r: Result<Vec<u8>, DeflateError>)
    ensures
        r.is_ok() <==> symbols@.len() > 0 && symbols@[0] is BlockStart && all_writable(symbols@),
        r matches Ok(out) ==> packs(out@, dynamic_stream_bits(symbols@)) && (single_block(
            symbols@,
        ) ==> inflate(out@) == decode(symbols@)),
        r matches Err(e) ==> e == (if symbols@.len() > 0 && symbols@[0] is BlockStart {
            DeflateError::InvalidLengthOrDistance
        } else {
            DeflateError::InternalInvariant
        }),
{
    if symbols.len() == 0 {
        return Err(DeflateError::InternalInvariant);
    }
    match symbols[0] {
        LDPair::BlockStart { is_final } => {},
        _ => {
            return Err(DeflateError::InternalInvariant);
        },
    }
    let mut state = EncoderState::new(HuffmanTable::preset_table());
    let mut i: usize = 0;
    assert(state.bits() =~= dynamic_symbols_bits(symbols@, 0));
    while i < symbols.len()
        invariant
            i <= symbols@.len(),
            state.wf(),
            !state.is_fixed(),
            symbols@.len() > 0,
            symbols@[0] is BlockStart,
            state.literals() == dynamic_literal_lengths(),
            state.distances() == dynamic_distance_lengths(),
            state.bits() == dynamic_symbols_bits(symbols@, i as nat),
            forall|j: int| 0 <= j < i ==> writable(#[trigger] symbols@[j]),
        decreases symbols@.len() - i,
    {
        let ld = symbols[i];
        let ghost before = state.bits();
        match ld {
            LDPair::BlockStart { is_final } => {
                if i > 0 {
                    state.write_end_of_block();
                }
                state.write_start_of_block(is_final);
                state.write_code_lengths();
                assert(state.bits() =~= before + ((if i > 0 {
                    end_of_block_bits(dynamic_literal_lengths())
                } else {
                    Seq::<bool>::empty()
                }) + block_header_bits(false, is_final) + huffman_lengths_bits(
                    dynamic_literal_lengths(),
                    dynamic_distance_lengths(),
                )));
            },
            _ => {
                match state.write_ldpair(ld) {
                    Ok(()) => {},
                    Err(e) => {
                        return Err(e);
                    },
                }
            },
        }
        i = i + 1;
    }
    state.write_end_of_block();
    state.flush();
    let out = state.take_buffer();
    proof {
        if single_block(symbols@) {
            lemma_inflate_dynamic(symbols@, out@);
        }
    }
    Ok(out)
}

/// Compresses `input` into one final block with the fixed codes.
pub fn compress_data_fixed(input: &[u8]) -> (out: Vec<u8>)
    ensures
        fixed_output(input@, out@),
        symbols_give_back(input@),
        inflate(out@) == input@,
{
    let compressed = lz77_compress(input, WINDOW_SIZE).unwrap();
    proof {
        lemma_symbols_ok_writable(compressed@);
    }
    encode_fixed(&compressed).unwrap()
}

/// Compresses `input` into one final block that carries the description
/// of its codes.
pub fn compress_data_dynamic(input: &[u8]) -> (out: Vec<u8>)
    ensures
        dynamic_output(input@, out@),
        symbols_give_back(input@),
        inflate(out@) == input@,
{
    let compressed = lz77_compress(input, WINDOW_SIZE).unwrap();
    proof {
        lemma_symbols_ok_writable(compressed@);
    }
    encode_dynamic(&compressed).unwrap()
}

/// Compresses `input` into a raw stream of blocks of the given kind. A
/// decoder makes `input` of the stream again.
pub fn compress_data(input: &[u8], btype: BType) -> (out: Vec<u8>)
    ensures
        inflate(out@) == input@,
        match btype {
            BType::NoCompression => out@ == stored_stream(input@),
            BType::FixedHuffman => fixed_output(input@, out@) && symbols_give_back(input@),
            BType::DynamicHuffman => dynamic_output(input@, out@) && symbols_give_back(input@),
        },
{
    match btype {
        BType::NoCompression => {
            proof {
                lemma_inflate_stored(input@);
            }
            compress_data_stored(input)
        },
        BType::FixedHuffman => compress_data_fixed(input),
        BType::DynamicHuffman => compress_data_dynamic(input),
    }
}

} // verus!
