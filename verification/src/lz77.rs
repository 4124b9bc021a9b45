use vstd::prelude::*;
use crate::chained_hash_table::{
    empty_table, start_hash, table_insert, ChainedHashTable, TableState, WINDOW_SIZE,
};
use crate::compression_options::MAX_HASH_CHECKS;
use crate::huffman_table::{valid_distance, valid_length};
use crate::matching::{
    lemma_match_length, longest_match, longest_match_spec, usable_match, MAX_MATCH,
};

verus! {

/// One symbol of the stream that the match stage hands to the coder.
#[derive(Clone, Copy, Debug, PartialEq, Eq, Structural)]
pub enum LDPair {
    /// A byte that passes through.
    Literal(u8),
    /// Copy `length` bytes that start `distance` bytes back in the output.
    LengthDistance { length: u16, distance: u16 },
    /// The start of a block; it stands for no data.
    BlockStart { is_final: bool },
}

/// `out` after `length` bytes were copied, one by one, from `distance`
/// bytes before its end. A copy may run into the bytes it has just made.
pub open spec fn copy_back(out: Seq<u8>, length: nat, distance: int) -> Seq<u8>
    decreases length,
{
    if length == 0 || distance < 1 || distance > out.len() {
        out
    } else {
        copy_back(out.push(out[out.len() - distance]), (length - 1) as nat, distance)
    }
}

/// The output after one more symbol.
pub open spec fn decode_step(out: Seq<u8>, symbol: LDPair) -> Seq<u8> {
    match symbol {
        LDPair::Literal(b) => out.push(b),
        LDPair::LengthDistance { length, distance } => copy_back(
            out,
            length as nat,
            distance as int,
        ),
        LDPair::BlockStart { is_final } => out,
    }
}

/// The bytes that a decoder makes of a symbol sequence.
pub open spec fn decode(symbols: Seq<LDPair>) -> Seq<u8>
    decreases symbols.len(),
{
    if symbols.len() == 0 {
        Seq::empty()
    } else {
        decode_step(decode(symbols.drop_last()), symbols.last())
    }
}

/// A symbol that a decoder can follow after `out`: a match has a length in
/// 3..=258 and a distance in 1..=32768 that stays inside `out`.
pub open spec fn symbol_ok(out: Seq<u8>, symbol: LDPair) -> bool {
    match symbol {
        LDPair::LengthDistance { length, distance } => {
            &&& valid_length(length as int)
            &&& valid_distance(distance as int)
            &&& distance <= out.len()
        },
        _ => true,
    }
}

/// Every symbol of the sequence can be followed where it stands.
pub open spec fn symbols_ok(symbols: Seq<LDPair>) -> bool
    decreases symbols.len(),
{
    symbols.len() == 0 || (symbols_ok(symbols.drop_last()) && symbol_ok(
        decode(symbols.drop_last()),
        symbols.last(),
    ))
}

/// The sequence is one block: a final block start, then data symbols only.
pub open spec fn single_block(symbols: Seq<LDPair>) -> bool {
    &&& symbols.len() >= 1
    &&& symbols[0] == LDPair::BlockStart { is_final: true }
    &&& forall|i: int| 1 <= i < symbols.len() ==> !(#[trigger] symbols[i] is BlockStart)
}

/// A copy of bytes that repeat what lies `distance` back extends a prefix
/// of the data by those bytes.
pub proof fn lemma_copy_back(data: Seq<u8>, at: int, length: nat, distance: int)
    requires
        1 <= distance <= at,
        at + length <= data.len(),
        forall|k: int| at <= k < at + length ==> #[trigger] data[k] == data[k - distance],
    ensures
        copy_back(data.take(at), length, distance) == data.take(at + length),
    decreases length,
{
    if length > 0 {
        let out = data.take(at);
        assert(out.push(out[out.len() - distance]) =~= data.take(at + 1));
        lemma_copy_back(data, at + 1, (length - 1) as nat, distance);
    }
}

/// Adding a symbol to a sequence adds one step to what it decodes to.
pub proof fn lemma_decode_push(symbols: Seq<LDPair>, symbol: LDPair)
    ensures
        decode(symbols.push(symbol)) == decode_step(decode(symbols), symbol),
        symbols_ok(symbols.push(symbol)) == (symbols_ok(symbols) && symbol_ok(
            decode(symbols),
            symbol,
        )),
{
    assert(symbols.push(symbol).drop_last() =~= symbols);
}

/// The table after the positions `from .. to` were inserted in order, each
/// with the byte two places after it; a position that has no such byte is
/// left out.
pub open spec fn insert_positions(data: Seq<u8>, t: TableState, from: int, to: int) -> TableState
    decreases to - from,
{
    if from >= to {
        t
    } else {
        let before = insert_positions(data, t, from, to - 1);
        if data.len() - (to - 1) > 2 {
            table_insert(before, to - 1, data[to + 1])
        } else {
            before
        }
    }
}

/// Lazy matching from position `p` on. `out` holds the symbols of the data
/// before `p`, but for the byte at `p - 1` where `pending` says so; `held`
/// is the match found at `p - 1`, `(0, 0)` for none. At each position the
/// table takes the position in, and a match longer than the held one (or
/// than 2) is searched. A held match that is not beaten goes out, and the
/// positions it covers are taken into the table without a search; one that
/// is beaten gives way to a literal for its first byte.
pub open spec fn lz77_from(
    data: Seq<u8>,
    t: TableState,
    p: int,
    pending: bool,
    held: (int, int),
    out: Seq<LDPair>,
) -> Seq<LDPair>
    decreases data.len() - p,
{
    if p >= data.len() {
        if pending {
            out.push(LDPair::Literal(data[p - 1]))
        } else {
            out
        }
    } else {
        let t1 = if data.len() - p > 2 {
            table_insert(t, p, data[p + 2])
        } else {
            t
        };
        let wanted = if held.0 > 0 {
            held.0
        } else {
            2
        };
        let found = longest_match_spec(data, t1.links, p, wanted, MAX_HASH_CHECKS as nat);
        if held.0 > 0 {
            if found.0 > held.0 {
                lz77_from(data, t1, p + 1, true, found, out.push(LDPair::Literal(data[p - 1])))
            } else {
                let end = p - 1 + held.0;
                let symbol = LDPair::LengthDistance {
                    length: held.0 as u16,
                    distance: held.1 as u16,
                };
                if end <= p || end > data.len() {
                    out
                } else {
                    lz77_from(
                        data,
                        insert_positions(data, t1, p + 1, end),
                        end,
                        false,
                        (0, 0),
                        out.push(symbol),
                    )
                }
            }
        } else {
            lz77_from(
                data,
                t1,
                p + 1,
                true,
                found,
                if pending {
                    out.push(LDPair::Literal(data[p - 1]))
                } else {
                    out
                },
            )
        }
    }
}

/// The symbols that `data` is turned into: the start of one final block,
/// then literals and matches as lazy matching picks them.
pub open spec fn lz77_symbols(data: Seq<u8>) -> Seq<LDPair> {
    let start = seq![LDPair::BlockStart { is_final: true }];
    if data.len() == 0 {
        start
    } else {
        lz77_from(
            data,
            empty_table(
                start_hash(
                    data[0],
                    if data.len() > 1 {
                        data[1]
                    } else {
                        0
                    },
                ),
            ),
            0,
            false,
            (0, 0),
            start,
        )
    }
}

/// Turns `data` into literals and matches by lazy matching over hash
/// chains. Only the full window of 32768 bytes is offered.
#[verifier::rlimit(40)]
pub fn lz77_compress(data: &[u8], window_size: usize) -> (r: Option<Vec<LDPair>>)
    ensures
        r.is_some() <==> window_size == WINDOW_SIZE,
        r matches Some(symbols) ==> {
            &&& symbols@ == lz77_symbols(data@)
            &&& single_block(symbols@)
            &&& symbols_ok(symbols@)
            &&& decode(symbols@) == data@
        },
{
    if window_size != WINDOW_SIZE {
        return None;
    }
    let n = data.len();
    let mut out: Vec<LDPair> = Vec::new();
    out.push(LDPair::BlockStart { is_final: true });
    proof {
        lemma_decode_push(Seq::empty(), LDPair::BlockStart { is_final: true });
        assert(out@ =~= Seq::<LDPair>::empty().push(LDPair::BlockStart { is_final: true }));
        assert(out@ =~= seq![LDPair::BlockStart { is_final: true }]);
        assert(decode(out@) =~= data@.take(0));
    }
    if n == 0 {
        assert(data@.take(0) =~= data@);
        return Some(out);
    }
    let second: u8 = if n > 1 {
        data[1]
    } else {
        0
    };
    let mut table = ChainedHashTable::from_starting_values(data[0], second);
    let mut p: usize = 0;
    let mut pending = false;
    let mut held_length: usize = 0;
    let mut held_distance: usize = 0;
    let ghost goal = lz77_symbols(data@);
    while p < n
        invariant
            p <= n,
            goal == lz77_from(
                data@,
                table@,
                p as int,
                pending,
                (held_length as int, held_distance as int),
                out@,
            ),
            n == data@.len(),
            table.wf(),
            pending ==> p >= 1,
            !pending ==> held_length == 0,
            held_length > 0 ==> usable_match(
                data@,
                p - 1,
                2,
                (held_length as int, held_distance as int),
            ),
            single_block(out@),
            symbols_ok(out@),
            decode(out@) == data@.take(if pending {
                p - 1
            } else {
                p as int
            }),
        decreases n - p,
    {
        if n - p > 2 {
            table.add_hash_value(p, data[p + 2]);
        }
        let wanted: usize = if held_length > 0 {
            held_length
        } else {
            2
        };
        let (found_length, found_distance) = longest_match(data, &table, p, wanted, MAX_HASH_CHECKS);
        if held_length > 0 {
            if found_length > held_length {
                proof {
                    lemma_decode_push(out@, LDPair::Literal(data@[p - 1]));
                    assert(data@.take(p - 1).push(data@[p - 1]) =~= data@.take(p as int));
                }
                out.push(LDPair::Literal(data[p - 1]));
                held_length = found_length;
                held_distance = found_distance;
                p = p + 1;
            } else {
                let symbol = LDPair::LengthDistance {
                    length: held_length as u16,
                    distance: held_distance as u16,
                };
                proof {
                    lemma_match_length(data@, p - 1, p - 1 - held_distance, MAX_MATCH as nat);
                    lemma_copy_back(data@, p - 1, held_length as nat, held_distance as int);
                    lemma_decode_push(out@, symbol);
                }
                out.push(symbol);
                let end = p - 1 + held_length;
                let mut q: usize = p + 1;
                let ghost t1 = table@;
                while q < end
                    invariant
                        p + 1 <= q <= end <= n,
                        n == data@.len(),
                        table.wf(),
                        table@ == insert_positions(data@, t1, p + 1, q as int),
                    decreases end - q,
                {
                    if n - q > 2 {
                        table.add_hash_value(q, data[q + 2]);
                    }
                    q = q + 1;
                }
                p = end;
                pending = false;
                held_length = 0;
                held_distance = 0;
            }
        } else {
            if pending {
                proof {
                    lemma_decode_push(out@, LDPair::Literal(data@[p - 1]));
                    assert(data@.take(p - 1).push(data@[p - 1]) =~= data@.take(p as int));
                }
                out.push(LDPair::Literal(data[p - 1]));
            }
            held_length = found_length;
            held_distance = found_distance;
            pending = true;
            p = p + 1;
        }
    }
    if pending {
        proof {
            lemma_decode_push(out@, LDPair::Literal(data@[p - 1]));
            assert(data@.take(p - 1).push(data@[p - 1]) =~= data@.take(p as int));
        }
        out.push(LDPair::Literal(data[p - 1]));
    }
    assert(data@.take(n as int) =~= data@);
    Some(out)
}

} // verus!
