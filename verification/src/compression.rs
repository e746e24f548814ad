//! The client's LZ-style compression: a 3- or 9-byte header, then either the
//! raw payload or groups of literal words and back-references steered by
//! 32-bit flag words.
use vstd::prelude::*;
use crate::bytes::{u32_at, read_u32_le};

verus! {

/// Bytes taken by a literal word, by the low four bits `i` of the flag
/// word: the table 4, 0, 1, 0, 2, 0, 1, 0, 3, 0, 1, 0, 2, 0, 1, 0.
pub open spec fn data_length_spec(i: int) -> int {
    if i == 0 {
        4
    } else if i == 8 {
        3
    } else if i == 4 || i == 12 {
        2
    } else if i == 2 || i == 6 || i == 10 || i == 14 {
        1
    } else {
        0
    }
}

/// The number of consecutive clear bits of `x` counted from its lowest bit,
/// looking at no more than `n` bits: how many literal flags lead a flag word.
pub open spec fn low_clear_bits(x: int, n: nat) -> int
    decreases n,
{
    if n == 0 || x % 2 == 1 {
        0
    } else {
        1 + low_clear_bits(x / 2, (n - 1) as nat)
    }
}

/// A literal word is as long as the run of clear flag bits that leads the
/// flag word, up to four: for every value of the low four bits.
pub proof fn law_literal_length_is_clear_flag_run(i: int)
    requires
        0 <= i < 16,
    ensures
        data_length_spec(i) == low_clear_bits(i, 4),
{
    reveal_with_fuel(low_clear_bits, 5);
    assert(i == 0 || i == 1 || i == 2 || i == 3 || i == 4 || i == 5 || i == 6 || i == 7 || i == 8
        || i == 9 || i == 10 || i == 11 || i == 12 || i == 13 || i == 14 || i == 15);
}

fn data_length(i: u32) -> (r: usize)
    requires
        i < 16,
    ensures
        r == data_length_spec(i as int),
        r == low_clear_bits(i as int, 4),
{
    proof {
        law_literal_length_is_clear_flag_run(i as int);
    }
    if i == 0 {
        4
    } else if i == 8 {
        3
    } else if i == 4 || i == 12 {
        2
    } else if i == 2 || i == 6 || i == 10 || i == 14 {
        1
    } else {
        0
    }
}

/// `a - b`, or zero below zero.
pub open spec fn sat_sub(a: int, b: int) -> int {
    if a >= b {
        a - b
    } else {
        0
    }
}

/// `buf` with the four little-endian bytes of `v` written at `o`.
pub open spec fn write_le(buf: Seq<u8>, o: int, v: u32) -> Seq<u8> {
    buf.update(o, v as u8).update(o + 1, (v >> 8u32) as u8).update(o + 2, (v >> 16u32) as u8).update(
        o + 3,
        (v >> 24u32) as u8,
    )
}

/// `buf` with the four bytes at `ptr - ri` copied, as one word, to `ptr`.
pub open spec fn copy_word(buf: Seq<u8>, ptr: int, ri: int) -> Seq<u8> {
    buf.update(ptr, buf[ptr - ri]).update(ptr + 1, buf[ptr - ri + 1]).update(ptr + 2, buf[ptr - ri + 2]).update(
        ptr + 3,
        buf[ptr - ri + 3],
    )
}

/// `n` word copies from `ptr` on, three bytes apart.
pub open spec fn copy_words(buf: Seq<u8>, ptr: int, ri: int, n: nat) -> Seq<u8>
    decreases n,
{
    if n == 0 {
        buf
    } else {
        copy_words(copy_word(buf, ptr, ri), ptr + 3, ri, (n - 1) as nat)
    }
}

/// A back-reference header: its distance, its length, and its own size.
pub open spec fn block_fields(bh: u32) -> (int, int, int) {
    if bh & 3 == 3 {
        if bh & 0x7f == 3 {
            ((bh >> 15u32) as int, (((bh >> 7u32) & 0xff) + 3) as int, 4)
        } else {
            (((bh >> 7u32) & 0x1ffff) as int, (((bh >> 2u32) & 0x1f) + 2) as int, 3)
        }
    } else if bh & 3 == 2 {
        (((bh as u16) >> 6u16) as int, (((bh >> 2u32) & 0xf) + 3) as int, 2)
    } else if bh & 3 == 1 {
        (((bh as u16) >> 2u16) as int, 3, 2)
    } else {
        (((bh as u8) >> 2u8) as int, 3, 1)
    }
}

/// The main decoding phase from input position `inp`, output position
/// `out`, flag word `bgh` and output `buf` of length `len`, reading no
/// further than input position `last_in`. `None` where the stream is
/// malformed; otherwise the state in which the phase stops, which is when a
/// literal would start within the last eleven output bytes.
pub open spec fn unpack_main(
    input: Seq<u8>,
    last_in: int,
    len: int,
    inp: int,
    out: int,
    bgh: u32,
    buf: Seq<u8>,
) -> Option<(int, int, u32, Seq<u8>)>
    decreases len - out,
{
    if !(0 <= out <= len && 0 <= inp && buf.len() == len && last_in < input.len()) {
        None
    } else if bgh == 1 && inp + 3 > last_in {
        None
    } else {
        let inp1 = if bgh == 1 { inp + 4 } else { inp };
        let bgh1 = if bgh == 1 { u32_at(input, inp) } else { bgh };
        if inp1 + 3 > last_in {
            None
        } else {
            let bh = u32_at(input, inp1);
            if bgh1 & 1 == 0 {
                if out >= sat_sub(len - 1, 10) {
                    Some((inp1, out, bgh1, buf))
                } else {
                    let vl = data_length_spec((bgh1 & 0xf) as int);
                    if out + 4 > len || vl == 0 {
                        None
                    } else {
                        unpack_main(
                            input,
                            last_in,
                            len,
                            inp1 + vl,
                            out + vl,
                            bgh1 >> (vl as u32),
                            write_le(buf, out, bh),
                        )
                    }
                }
            } else {
                let f = block_fields(bh);
                let ri = f.0;
                let bl = f.1;
                if ri < 3 || out < ri || bl > sat_sub(len, out + 4) || bl <= 0 {
                    None
                } else {
                    unpack_main(
                        input,
                        last_in,
                        len,
                        inp1 + f.2,
                        out + bl,
                        bgh1 >> 1u32,
                        copy_words(buf, out, ri, ((bl + 2) / 3) as nat),
                    )
                }
            }
        }
    }
}

/// The closing phase: single literal bytes under the flag word until the
/// output is full. `None` if the input ends first.
pub open spec fn unpack_tail(
    input: Seq<u8>,
    end_in: int,
    len: int,
    inp: int,
    out: int,
    bgh: u32,
    buf: Seq<u8>,
) -> Option<(int, Seq<u8>)>
    decreases end_in + 8 - inp,
{
    if !(0 <= out < len && 0 <= inp && buf.len() == len && end_in <= input.len()) {
        None
    } else {
        let inp1 = if bgh == 1 { inp + 4 } else { inp };
        let bgh1: u32 = if bgh == 1 { 0x8000_0000 } else { bgh };
        if inp1 >= end_in {
            None
        } else {
            let buf2 = buf.update(out, input[inp1]);
            if out + 1 > len - 1 {
                Some((out + 1, buf2))
            } else {
                unpack_tail(input, end_in, len, inp1 + 1, out + 1, bgh1 >> 1u32, buf2)
            }
        }
    }
}

/// The closing phase after the main phase stopped in state `main`, if the
/// output is not yet full.
pub open spec fn unpack_finish(
    input: Seq<u8>,
    clen: int,
    len: int,
    main: Option<(int, int, u32, Seq<u8>)>,
) -> Option<(int, Seq<u8>)> {
    match main {
        None => None,
        Some(st) => if st.1 <= len - 1 {
            unpack_tail(input, clen, len, st.0, st.1, st.2, st.3)
        } else {
            Some((st.1, st.3))
        },
    }
}

/// Decoding a compressed payload into the buffer `buf`, whatever it holds
/// before: the number of bytes written and the buffer after, or `None`
/// where the stream is malformed.
pub open spec fn unpack_from(input: Seq<u8>, buf: Seq<u8>) -> Option<(int, Seq<u8>)> {
    let len = buf.len() as int;
    let wide = input[0] & 2 != 0;
    if wide && input.len() < 5 {
        None
    } else {
        let clen: int = if wide { u32_at(input, 1) as int } else { input[1] as int };
        let inp0: int = if wide { 9 } else { 3 };
        if clen == 0 || clen > input.len() {
            None
        } else if len == 0 {
            Some((0, buf))
        } else {
            unpack_finish(input, clen, len, unpack_main(input, clen - 1, len, inp0, 0, 1, buf))
        }
    }
}

/// Decoding a compressed payload into `len` zero bytes.
pub open spec fn unpack_spec(input: Seq<u8>, len: int) -> Option<(int, Seq<u8>)> {
    unpack_from(input, Seq::new(len as nat, |i: int| 0u8))
}

proof fn lemma_main_bounds(input: Seq<u8>, last_in: int, len: int, inp: int, out: int, bgh: u32, buf: Seq<u8>)
    ensures
        unpack_main(input, last_in, len, inp, out, bgh, buf) matches Some(st) ==> 0 <= st.1 <= len && st.3.len() == len,
    decreases len - out,
{
    if 0 <= out <= len && 0 <= inp && buf.len() == len && last_in < input.len() && !(bgh == 1 && inp + 3 > last_in) {
        let inp1 = if bgh == 1 { inp + 4 } else { inp };
        let bgh1 = if bgh == 1 { u32_at(input, inp) } else { bgh };
        if inp1 + 3 <= last_in {
            let bh = u32_at(input, inp1);
            if bgh1 & 1 == 0 {
                if out < sat_sub(len - 1, 10) {
                    let vl = data_length_spec((bgh1 & 0xf) as int);
                    if !(out + 4 > len || vl == 0) {
                        lemma_main_bounds(input, last_in, len, inp1 + vl, out + vl, bgh1 >> (vl as u32), write_le(buf, out, bh));
                    }
                }
            } else {
                let f = block_fields(bh);
                if !(f.0 < 3 || out < f.0 || f.1 > sat_sub(len, out + 4) || f.1 <= 0) {
                    lemma_main_bounds(input, last_in, len, inp1 + f.2, out + f.1, bgh1 >> 1u32, copy_words(buf, out, f.0, ((f.1 + 2) / 3) as nat));
                }
            }
        }
    }
}

proof fn lemma_tail_fills(input: Seq<u8>, end_in: int, len: int, inp: int, out: int, bgh: u32, buf: Seq<u8>)
    ensures
        unpack_tail(input, end_in, len, inp, out, bgh, buf) matches Some(r) ==> r.0 == len && r.1.len() == len,
    decreases end_in + 8 - inp,
{
    if 0 <= out < len && 0 <= inp && buf.len() == len && end_in <= input.len() {
        let inp1 = if bgh == 1 { inp + 4 } else { inp };
        let bgh1: u32 = if bgh == 1 { 0x8000_0000 } else { bgh };
        if inp1 < end_in && out + 1 <= len - 1 {
            lemma_tail_fills(input, end_in, len, inp1 + 1, out + 1, bgh1 >> 1u32, buf.update(out, input[inp1]));
        }
    }
}

/// A compressed stream that decodes fills the whole output, whatever it
/// held before: the number of bytes written is the buffer's length.
pub proof fn lemma_unpack_fills_buffer(input: Seq<u8>, buf: Seq<u8>)
    requires
        input.len() >= 3,
    ensures
        unpack_from(input, buf) matches Some(r) ==> r.0 == buf.len() && r.1.len() == buf.len(),
{
    let len = buf.len() as int;
    let wide = input[0] & 2 != 0;
    if !(wide && input.len() < 5) {
        let clen: int = if wide { u32_at(input, 1) as int } else { input[1] as int };
        let inp0: int = if wide { 9 } else { 3 };
        if !(clen == 0 || clen > input.len()) && len != 0 {
            let z = buf;
            lemma_main_bounds(input, clen - 1, len, inp0, 0, 1, z);
            if let Some(st) = unpack_main(input, clen - 1, len, inp0, 0, 1, z) {
                lemma_tail_fills(input, clen, len, st.0, st.1, st.2, st.3);
            }
        }
    }
}

/// The length of the output that the header of `input` declares.
pub open spec fn declared_len(input: Seq<u8>) -> int {
    if input[0] & 2 != 0 { u32_at(input, 5) as int } else { input[2] as int }
}

/// Whatever decodes, raw or compressed, is exactly as long as its header
/// declares.
pub proof fn law_decoded_length_is_declared(input: Seq<u8>)
    ensures
        decompress_spec(input) matches Some(out) ==> out.len() == declared_len(input),
{
    if input.len() >= 3 && !(input[0] & 2 != 0 && input.len() < 9) {
        let output_len: int = declared_len(input);
        if input[0] & 1 != 0 {
            lemma_unpack_fills_buffer(input, Seq::new(output_len as nat, |i: int| 0u8));
        }
    }
}

/// The payload a compressed buffer decodes to, or `None` where it is
/// malformed.
pub open spec fn decompress_spec(input: Seq<u8>) -> Option<Seq<u8>> {
    if input.len() < 3 {
        None
    } else {
        let wide = input[0] & 2 != 0;
        if wide && input.len() < 9 {
            None
        } else {
            let output_len: int = if wide { u32_at(input, 5) as int } else { input[2] as int };
            if input[0] & 1 != 0 {
                match unpack_spec(input, output_len) {
                    None => None,
                    Some(r) => if r.0 < output_len {
                        Some(r.1.subrange(0, r.0))
                    } else {
                        Some(r.1)
                    },
                }
            } else {
                let header_len: int = if wide { 9 } else { 3 };
                if input.len() < header_len + output_len {
                    None
                } else {
                    Some(input.subrange(header_len, header_len + output_len))
                }
            }
        }
    }
}

/// Errors of decompression.
#[derive(Debug, Clone, Copy, PartialEq, Eq)]
pub enum DecompressError {
    /// Fewer than three bytes.
    TooShort,
    /// A length field or the raw payload reaches past the end.
    Truncated,
    /// The stream does not decode.
    Corrupted,
    /// The input ends before the declared output is complete.
    OutputTooLarge,
}

/// Reads a little-endian `u32` at `offset`.
fn read_u32(buffer: &[u8], offset: usize) -> (r: Result<u32, DecompressError>)
    ensures
        r is Ok <==> offset + 4 <= buffer@.len(),
        r matches Ok(v) ==> v == u32_at(buffer@, offset as int),
{
    match read_u32_le(buffer, offset) {
        Some(v) => Ok(v),
        None => Err(DecompressError::Truncated),
    }
}

proof fn lemma_even_flags_have_length(bgh: u32)
    requires
        bgh & 1 == 0,
    ensures
        1 <= data_length_spec((bgh & 0xf) as int) <= 4,
{
    assert(bgh & 1 == 0 ==> ((bgh & 0xf) == 0 || (bgh & 0xf) == 2 || (bgh & 0xf) == 4 || (bgh
        & 0xf) == 6 || (bgh & 0xf) == 8 || (bgh & 0xf) == 10 || (bgh & 0xf) == 12 || (bgh & 0xf)
        == 14)) by (bit_vector);
}

proof fn lemma_copy_words_step(buf: Seq<u8>, ptr: int, ri: int, n: nat)
    ensures
        copy_words(buf, ptr, ri, n + 1) == copy_word(copy_words(buf, ptr, ri, n), ptr + 3 * n, ri),
    decreases n,
{
    let cw = copy_word(buf, ptr, ri);
    assert(copy_words(buf, ptr, ri, n + 1) == copy_words(cw, ptr + 3, ri, n));
    if n > 0 {
        lemma_copy_words_step(cw, ptr + 3, ri, (n - 1) as nat);
        assert(copy_words(buf, ptr, ri, n) == copy_words(cw, ptr + 3, ri, (n - 1) as nat));
        assert(ptr + 3 + 3 * (n - 1) == ptr + 3 * n);
    } else {
        assert(copy_words(cw, ptr + 3, ri, 0) == cw);
        assert(copy_words(buf, ptr, ri, 0) == buf);
    }
}

/// Decodes a compressed stream into `output`, whose length is the declared
/// size; returns the number of bytes written.
fn blackdesert_unpack_core(input: &[u8], output: &mut Vec<u8>) -> (r: Result<usize, DecompressError>)
    requires
        input@.len() >= 3,
        input@.len() < usize::MAX - 16,
    ensures
        final(output)@.len() == old(output)@.len(),
        match unpack_from(input@, old(output)@) {
            None => r is Err,
            Some(res) => r == Ok::<usize, DecompressError>(res.0 as usize) && final(output)@ == res.1
                && 0 <= res.0 <= old(output)@.len(),
        },
        r matches Ok(k) ==> k == old(output)@.len(),
{
    proof {
        lemma_unpack_fills_buffer(input@, output@);
    }
    let len = output.len();
    let ghost zeros = output@;
    let wide = input[0] & 2 != 0;
    let compressed_length: usize;
    let mut in_idx: usize;
    if wide {
        compressed_length = read_u32(input, 1)? as usize;
        in_idx = 9;
    } else {
        compressed_length = input[1] as usize;
        in_idx = 3;
    }
    if compressed_length == 0 || compressed_length > input.len() {
        return Err(DecompressError::Corrupted);
    }
    let last_input_idx = compressed_length - 1;
    if len == 0 {
        assert(output@ =~= Seq::new(0, |i: int| 0u8));
        return Ok(0);
    }
    let last_output_idx = len - 1;
    let limit = if last_output_idx >= 10 {
        last_output_idx - 10
    } else {
        0
    };
    let mut out_idx: usize = 0;
    let mut block_group_header: u32 = 1;
    let ghost start = unpack_main(
        input@,
        last_input_idx as int,
        len as int,
        in_idx as int,
        0,
        1,
        zeros,
    );

    loop
        invariant_except_break
            in_idx <= input@.len() + 9,
            input@.len() < usize::MAX - 16,
            len == old(output)@.len(),
            zeros == old(output)@,
            out_idx <= len,
            output@.len() == len,
            last_input_idx < input@.len(),
            limit as int == sat_sub(len - 1, 10),
            len > 0,
            compressed_length == last_input_idx + 1,
            unpack_from(input@, zeros) == unpack_finish(input@, compressed_length as int, len as int, start),
            unpack_main(
                input@,
                last_input_idx as int,
                len as int,
                in_idx as int,
                out_idx as int,
                block_group_header,
                output@,
            ) == start,
        ensures
            start == Some((in_idx as int, out_idx as int, block_group_header, output@)),
            compressed_length == last_input_idx + 1,
            unpack_from(input@, zeros) == unpack_finish(input@, compressed_length as int, len as int, start),
            in_idx <= input@.len(),
            input@.len() < usize::MAX - 16,
            len == old(output)@.len(),
            zeros == old(output)@,
            out_idx <= len,
            output@.len() == len,
        decreases len - out_idx,
    {
        if block_group_header == 1 {
            if in_idx + 3 > last_input_idx {
                return Err(DecompressError::Truncated);
            }
            block_group_header = read_u32(input, in_idx)?;
            in_idx = in_idx + 4;
        }
        if in_idx + 3 > last_input_idx {
            return Err(DecompressError::Truncated);
        }
        let block_header = read_u32(input, in_idx)?;
        if block_group_header & 1 == 0 {
            if out_idx >= limit {
                break;
            }
            proof {
                lemma_even_flags_have_length(block_group_header);
            }
            let valid_data_length = data_length(block_group_header & 0xf);
            if len - out_idx < 4 {
                return Err(DecompressError::Corrupted);
            }
            let ghost before = output@;
            output.set(out_idx, block_header as u8);
            output.set(out_idx + 1, (block_header >> 8u32) as u8);
            output.set(out_idx + 2, (block_header >> 16u32) as u8);
            output.set(out_idx + 3, (block_header >> 24u32) as u8);
            assert(output@ == write_le(before, out_idx as int, block_header));
            block_group_header = block_group_header >> (valid_data_length as u32);
            out_idx = out_idx + valid_data_length;
            in_idx = in_idx + valid_data_length;
            continue;
        }
        proof {
            assert((((block_header >> 7u32) & 0xff) + 3) < 300) by (bit_vector);
            assert((((block_header >> 2u32) & 0x1f) + 2) < 300) by (bit_vector);
            assert((((block_header >> 2u32) & 0xf) + 3) < 300) by (bit_vector);
        }
        let repeat_index: usize;
        let block_length: usize;
        let header_len: usize;
        if block_header & 3 == 3 {
            if block_header & 0x7f == 3 {
                repeat_index = (block_header >> 15u32) as usize;
                block_length = (((block_header >> 7u32) & 0xff) + 3) as usize;
                header_len = 4;
            } else {
                repeat_index = ((block_header >> 7u32) & 0x1ffff) as usize;
                block_length = (((block_header >> 2u32) & 0x1f) + 2) as usize;
                header_len = 3;
            }
        } else if block_header & 3 == 2 {
            repeat_index = ((block_header as u16) >> 6u16) as usize;
            block_length = (((block_header >> 2u32) & 0xf) + 3) as usize;
            header_len = 2;
        } else if block_header & 3 == 1 {
            repeat_index = ((block_header as u16) >> 2u16) as usize;
            block_length = 3;
            header_len = 2;
        } else {
            repeat_index = ((block_header as u8) >> 2u8) as usize;
            block_length = 3;
            header_len = 1;
        }
        assert(block_fields(block_header) == (repeat_index as int, block_length as int, header_len as int));
        in_idx = in_idx + header_len;
        if repeat_index < 3 || out_idx < repeat_index {
            return Err(DecompressError::Corrupted);
        }
        let available = if len - out_idx >= 4 {
            len - out_idx - 4
        } else {
            0
        };
        if block_length > available {
            return Err(DecompressError::Corrupted);
        }
        let ghost before = output@;
        let mut ptr = out_idx;
        let mut copied: usize = 0;
        while copied < block_length
            invariant
                output@.len() == len,
                out_idx + block_length + 4 <= len,
                repeat_index <= out_idx,
                ptr == out_idx + copied,
                copied % 3 == 0,
                copied < block_length + 3,
                output@ == copy_words(before, out_idx as int, repeat_index as int, (copied / 3) as nat),
            decreases block_length + 3 - copied,
        {
            let src = ptr - repeat_index;
            let w0 = output[src];
            let w1 = output[src + 1];
            let w2 = output[src + 2];
            let w3 = output[src + 3];
            let ghost prev = output@;
            proof {
                lemma_copy_words_step(before, out_idx as int, repeat_index as int, (copied / 3) as nat);
            }
            output.set(ptr, w0);
            output.set(ptr + 1, w1);
            output.set(ptr + 2, w2);
            output.set(ptr + 3, w3);
            proof {
                assert(output@ == copy_word(prev, ptr as int, repeat_index as int));
                assert((copied + 3) / 3 == copied / 3 + 1);
            }
            ptr = ptr + 3;
            copied = copied + 3;
        }
        proof {
            assert(copied / 3 == (block_length + 2) / 3);
        }
        block_group_header = block_group_header >> 1u32;
        out_idx = out_idx + block_length;
    }

    if out_idx <= last_output_idx {
        let end_input = last_input_idx + 1;
        let ghost tail_start = unpack_tail(
            input@,
            end_input as int,
            len as int,
            in_idx as int,
            out_idx as int,
            block_group_header,
            output@,
        );
        loop
            invariant_except_break
                in_idx <= input@.len(),
                input@.len() < usize::MAX - 16,
                len == old(output)@.len(),
                zeros == old(output)@,
                out_idx <= last_output_idx,
                last_output_idx + 1 == len,
                end_input <= input@.len(),
                unpack_from(input@, zeros) == tail_start,
                output@.len() == len,
                unpack_tail(
                    input@,
                    end_input as int,
                    len as int,
                    in_idx as int,
                    out_idx as int,
                    block_group_header,
                    output@,
                ) == tail_start,
            ensures
                tail_start is None,
                output@.len() == len,
                len == old(output)@.len(),
                zeros == old(output)@,
                unpack_from(input@, zeros) == tail_start,
            decreases end_input + 8 - in_idx,
        {
            if block_group_header == 1 {
                in_idx = in_idx + 4;
                block_group_header = 0x8000_0000;
            }
            if in_idx >= end_input {
                break;
            }
            output.set(out_idx, input[in_idx]);
            out_idx = out_idx + 1;
            in_idx = in_idx + 1;
            block_group_header = block_group_header >> 1u32;
            if out_idx > last_output_idx {
                return Ok(out_idx);
            }
        }
        return Err(DecompressError::OutputTooLarge);
    }
    Ok(out_idx)
}

/// Decodes a payload of the client's compression format.
pub fn decompress_bdo(input: &[u8]) -> (r: Result<Vec<u8>, DecompressError>)
    requires
        input@.len() < usize::MAX - 16,
    ensures
        match decompress_spec(input@) {
            None => r is Err,
            Some(out) => r matches Ok(v) && v@ == out,
        },
        r matches Ok(v) ==> v@.len() == declared_len(input@),
{
    proof {
        law_decoded_length_is_declared(input@);
    }
    if input.len() < 3 {
        return Err(DecompressError::TooShort);
    }
    let wide = input[0] & 2 != 0;
    let output_len: usize = if wide {
        read_u32(input, 5)? as usize
    } else {
        input[2] as usize
    };
    let mut output: Vec<u8> = vec![0u8; output_len];
    assert(output@ =~= Seq::new(output_len as nat, |i: int| 0u8));
    if input[0] & 1 != 0 {
        let written = blackdesert_unpack_core(input, &mut output)?;
        if written != output_len {
            output.truncate(written);
        }
        assert(decompress_spec(input@) == Some(output@));
        Ok(output)
    } else {
        let header_len: usize = if wide {
            9
        } else {
            3
        };
        if input.len() - header_len < output_len {
            return Err(DecompressError::Truncated);
        }
        let end = header_len + output_len;
        assert(decompress_spec(input@) == Some(input@.subrange(header_len as int, end as int)));
        Ok(vstd::slice::slice_to_vec(vstd::slice::slice_subrange(input, header_len, end)))
    }
}


/// The four little-endian bytes of `v`.
pub open spec fn le_bytes(v: u32) -> Seq<u8> {
    seq![v as u8, (v >> 8u32) as u8, (v >> 16u32) as u8, (v >> 24u32) as u8]
}

proof fn lemma_le_bytes_read(v: u32)
    ensures
        crate::bytes::le_u32_spec(v as u8, (v >> 8u32) as u8, (v >> 16u32) as u8, (v >> 24u32) as u8) == v,
{
    assert(((v as u8) as u32 | ((v >> 8u32) as u8 as u32) << 8u32 | ((v >> 16u32) as u8 as u32) << 16u32
        | ((v >> 24u32) as u8 as u32) << 24u32) == v) by (bit_vector);
}

/// A payload stored without compression, behind a header with the
/// uncompressed flag and a 32-bit length, decompresses to itself.
pub proof fn lemma_stored_payload_round_trips(flag: u8, stored_len: u32, data: Seq<u8>)
    requires
        flag & 1 == 0,
        flag & 2 != 0,
        data.len() <= u32::MAX,
    ensures
        decompress_spec(seq![flag] + le_bytes(stored_len) + le_bytes(data.len() as u32) + data) == Some(data),
{
    let n = data.len() as u32;
    let input = seq![flag] + le_bytes(stored_len) + le_bytes(n) + data;
    lemma_le_bytes_read(n);
    assert(input[5] == n as u8 && input[6] == (n >> 8u32) as u8 && input[7] == (n >> 16u32) as u8
        && input[8] == (n >> 24u32) as u8);
    assert(u32_at(input, 5) == n);
    assert(input.subrange(9, 9 + n as int) =~= data);
}

} // verus!
