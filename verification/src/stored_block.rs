use vstd::prelude::*;

verus! {

/// The most bytes that one stored block holds.
pub const MAX_STORED_BLOCK_LENGTH: usize = 65535;

/// The five bytes in front of a stored block of `len` bytes: the block
/// header padded to a byte, the length, and its complement, low byte first.
pub open spec fn stored_header(len: int, is_final: bool) -> Seq<u8> {
    seq![
        if is_final { 1u8 } else { 0u8 },
        (len % 256) as u8,
        (len / 256) as u8,
        ((65535 - len) % 256) as u8,
        ((65535 - len) / 256) as u8,
    ]
}

/// `data` as stored blocks: full blocks of 65535 bytes while more than
/// that is left, then one final block, which may be empty.
pub open spec fn stored_stream(data: Seq<u8>) -> Seq<u8>
    decreases data.len(),
{
    if data.len() <= MAX_STORED_BLOCK_LENGTH {
        stored_header(data.len() as int, true) + data
    } else {
        stored_header(MAX_STORED_BLOCK_LENGTH as int, false) + data.take(
            MAX_STORED_BLOCK_LENGTH as int,
        ) + stored_stream(data.skip(MAX_STORED_BLOCK_LENGTH as int))
    }
}

/// What a decoder reads back from a stream of stored blocks; the empty
/// sequence where the stream is cut short.
pub open spec fn stored_contents(stream: Seq<u8>) -> Seq<u8>
    decreases stream.len(),
{
    if stream.len() < 5 {
        Seq::empty()
    } else {
        let len = stream[1] as int + 256 * (stream[2] as int);
        if stream.len() < 5 + len {
            Seq::empty()
        } else if stream[0] == 1 {
            stream.subrange(5, 5 + len)
        } else {
            stream.subrange(5, 5 + len) + stored_contents(stream.skip(5 + len))
        }
    }
}

/// Reading a stream of stored blocks back gives the data they were made of.
pub proof fn lemma_stored_round_trip(data: Seq<u8>)
    ensures
        stored_contents(stored_stream(data)) == data,
    decreases data.len(),
{
    let stream = stored_stream(data);
    if data.len() <= MAX_STORED_BLOCK_LENGTH {
        assert(stream.subrange(5, 5 + data.len() as int) =~= data);
    } else {
        let rest = data.skip(MAX_STORED_BLOCK_LENGTH as int);
        lemma_stored_round_trip(rest);
        assert(stream.subrange(5, 65540) =~= data.take(65535));
        assert(stream.skip(65540) =~= stored_stream(rest));
        assert(data.take(65535) + rest =~= data);
    }
}

/// Appends the five bytes in front of a stored block.
fn write_stored_header(out: &mut Vec<u8>, len: usize, is_final: bool)
    requires
        len <= MAX_STORED_BLOCK_LENGTH,
    ensures
        final(out)@ == old(out)@ + stored_header(len as int, is_final),
{
    let complement = MAX_STORED_BLOCK_LENGTH - len;
    out.push(if is_final { 1 } else { 0 });
    out.push((len % 256) as u8);
    out.push((len / 256) as u8);
    out.push((complement % 256) as u8);
    out.push((complement / 256) as u8);
    assert(out@ =~= old(out)@ + stored_header(len as int, is_final));
}

/// Appends `data[from..to]`.
fn write_bytes(out: &mut Vec<u8>, data: &[u8], from: usize, to: usize)
    requires
        from <= to <= data@.len(),
    ensures
        final(out)@ == old(out)@ + data@.subrange(from as int, to as int),
{
    let mut i = from;
    while i < to
        invariant
            from <= i <= to <= data@.len(),
            out@ == old(out)@ + data@.subrange(from as int, i as int),
        decreases to - i,
    {
        out.push(data[i]);
        i = i + 1;
        assert(out@ =~= old(out)@ + data@.subrange(from as int, i as int));
    }
}

/// Wraps `input` in stored blocks, without compressing it.
pub fn compress_data_stored(input: &[u8]) -> (out: Vec<u8>)
    ensures
        out@ == stored_stream(input@),
        stored_contents(out@) == input@,
{
    let n = input.len();
    let mut out: Vec<u8> = Vec::new();
    let mut pos: usize = 0;
    assert(input@.skip(0) =~= input@);
    while n - pos > MAX_STORED_BLOCK_LENGTH
        invariant
            pos <= n,
            n == input@.len(),
            out@ + stored_stream(input@.skip(pos as int)) == stored_stream(input@),
        decreases n - pos,
    {
        let ghost rest = input@.skip(pos as int);
        let ghost before = out@;
        write_stored_header(&mut out, MAX_STORED_BLOCK_LENGTH, false);
        write_bytes(&mut out, input, pos, pos + MAX_STORED_BLOCK_LENGTH);
        proof {
            assert(rest.take(65535) =~= input@.subrange(pos as int, pos + 65535));
            assert(rest.skip(65535) =~= input@.skip(pos + 65535));
            assert(out@ + stored_stream(input@.skip(pos + 65535)) =~= before + stored_stream(rest));
        }
        pos = pos + MAX_STORED_BLOCK_LENGTH;
    }
    let ghost before = out@;
    write_stored_header(&mut out, n - pos, true);
    write_bytes(&mut out, input, pos, n);
    proof {
        assert(input@.skip(pos as int) =~= input@.subrange(pos as int, n as int));
        assert(out@ =~= before + stored_stream(input@.skip(pos as int)));
        lemma_stored_round_trip(input@);
    }
    out
}

} // verus!
