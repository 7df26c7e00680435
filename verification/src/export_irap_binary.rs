use vstd::prelude::*;
use crate::ieee::spec_encode_sentinel_binary;
use crate::ieee::encode_sentinel_binary;
use crate::irap::IRAP_HEADER_ID_WORD;
use crate::irap::Irap;
use crate::irap::IrapError;
use crate::irap::IrapHeader;
use crate::utils::cm_to_rm;
use crate::utils::column_major_to_row_major_index;
use crate::words::word_bytes;
use crate::words::words_bytes;
use crate::words::push_word;

verus! {

/// Values per guarded chunk in the binary value payload.
pub const PER_LINE_BINARY: usize = 8;

/// The 25 words of the fixed 100-byte binary header: three guarded records
/// holding magic and row count with the x/y geometry, then the column count
/// with the rotation fields, then seven reserved zero words.
pub open spec fn spec_header_words(h: IrapHeader) -> Seq<u32> {
    seq![
        32u32,
        IRAP_HEADER_ID_WORD,
        h.nrow,
        h.xori,
        h.xmax,
        h.yori,
        h.ymax,
        h.xinc,
        h.yinc,
        32u32,
        16u32,
        h.ncol,
        h.rot,
        h.xrot,
        h.yrot,
        16u32,
        28u32,
        0u32,
        0u32,
        0u32,
        0u32,
        0u32,
        0u32,
        0u32,
        28u32,
    ]
}

/// The 100 header bytes of the binary encoding.
pub open spec fn spec_header_bytes(h: IrapHeader) -> Seq<u8> {
    words_bytes(spec_header_words(h))
}

/// The values of a surface in disk (column-major) order, with NaN replaced
/// by the binary sentinel.
pub open spec fn spec_disk_values(v: Seq<u32>, ncol: int, nrow: int) -> Seq<u32> {
    Seq::new((ncol * nrow) as nat, |j: int| spec_encode_sentinel_binary(v[cm_to_rm(j, ncol, nrow)]))
}

/// One guarded chunk: its byte length as leading and trailing word around
/// the big-endian values.
pub open spec fn spec_chunk(vals: Seq<u32>) -> Seq<u8> {
    word_bytes((4 * vals.len()) as u32) + words_bytes(vals) + word_bytes((4 * vals.len()) as u32)
}

/// The chunked value payload: eight values per chunk, the final chunk
/// holding the remainder.
pub open spec fn spec_chunks(vals: Seq<u32>) -> Seq<u8>
    decreases vals.len(),
{
    if vals.len() == 0 {
        Seq::empty()
    } else if vals.len() >= 8 {
        spec_chunk(vals.take(8)) + spec_chunks(vals.skip(8))
    } else {
        spec_chunk(vals)
    }
}

/// The complete binary encoding of a surface.
pub open spec fn spec_encode_binary(irap: Irap) -> Seq<u8> {
    spec_header_bytes(irap.header) + spec_chunks(
        spec_disk_values(irap.values@, irap.header.ncol as int, irap.header.nrow as int),
    )
}

/// The binary encoding with a value buffer that is already in disk order.
pub open spec fn spec_encode_binary_fortran(h: IrapHeader, vals: Seq<u32>) -> Seq<u8> {
    spec_header_bytes(h) + spec_chunks(vals.map(|i, v| spec_encode_sentinel_binary(v)))
}

/// Writes the fixed 100-byte binary header.
pub fn write_header(header: &IrapHeader, out: &mut Vec<u8>)
    ensures
        final(out)@ == old(out)@ + spec_header_bytes(*header),
{
    let mut words: Vec<u32> = Vec::new();
    words.push(32);
    words.push(IRAP_HEADER_ID_WORD);
    words.push(header.nrow);
    words.push(header.xori);
    words.push(header.xmax);
    words.push(header.yori);
    words.push(header.ymax);
    words.push(header.xinc);
    words.push(header.yinc);
    words.push(32);
    words.push(16);
    words.push(header.ncol);
    words.push(header.rot);
    words.push(header.xrot);
    words.push(header.yrot);
    words.push(16);
    words.push(28);
    let mut k: usize = 0;
    while k < 7
        invariant
            k <= 7,
            words@ =~= spec_header_words(*header).take(17 + k),
        decreases 7 - k,
    {
        words.push(0);
        k = k + 1;
    }
    words.push(28);
    proof {
        assert(words@ =~= spec_header_words(*header));
    }
    let n = words.len();
    let mut i: usize = 0;
    while i < n
        invariant
            i <= n == words@.len(),
            words@ == spec_header_words(*header),
            out@ == old(out)@ + words_bytes(words@.take(i as int)),
        decreases n - i,
    {
        proof {
            lemma_words_snoc(words@.take(i as int), words@[i as int]);
            assert(words@.take(i as int).push(words@[i as int]) =~= words@.take(i as int + 1));
        }
        push_word(out, words[i]);
        i = i + 1;
    }
    proof {
        assert(words@.take(words@.len() as int) =~= words@);
    }
}

/// Flattening words one more value at the end appends its bytes.
pub proof fn lemma_words_snoc(s: Seq<u32>, w: u32)
    ensures
        words_bytes(s.push(w)) == words_bytes(s) + word_bytes(w),
    decreases s.len(),
{
    if s.len() == 0 {
        assert(s.push(w)[0] == w);
        assert(s.push(w).drop_first() =~= Seq::<u32>::empty());
        assert(words_bytes(s.push(w)) == word_bytes(w) + words_bytes(Seq::<u32>::empty()));
        assert(words_bytes(s.push(w)) =~= words_bytes(s) + word_bytes(w));
    } else {
        assert(s.push(w).drop_first() =~= s.drop_first().push(w));
        lemma_words_snoc(s.drop_first(), w);
        assert(words_bytes(s.push(w)) =~= words_bytes(s) + word_bytes(w));
    }
}

/// Writes one guarded chunk for the given values.
fn write_chunk(vals: &[u32], from: usize, to: usize, out: &mut Vec<u8>)
    requires
        from <= to <= vals@.len(),
        1 <= to - from <= 8,
    ensures
        final(out)@ == old(out)@ + spec_chunk(vals@.subrange(from as int, to as int)),
{
    let cnt = to - from;
    let decl = (4 * cnt) as u32;
    push_word(out, decl);
    let mut c: usize = from;
    while c < to
        invariant
            from <= c <= to <= vals@.len(),
            to - from <= 8,
            decl == 4 * (to - from),
            out@ == old(out)@ + word_bytes(decl) + words_bytes(
                vals@.subrange(from as int, c as int),
            ),
        decreases to - c,
    {
        proof {
            lemma_words_snoc(vals@.subrange(from as int, c as int), vals@[c as int]);
            assert(vals@.subrange(from as int, c as int).push(vals@[c as int]) =~= vals@.subrange(
                from as int,
                c as int + 1,
            ));
        }
        push_word(out, vals[c]);
        proof {
            assert(out@ =~= old(out)@ + word_bytes(decl) + words_bytes(
                vals@.subrange(from as int, c as int + 1),
            ));
        }
        c = c + 1;
    }
    push_word(out, decl);
    assert(out@ =~= old(out)@ + spec_chunk(vals@.subrange(from as int, to as int)));
}

/// Writes the chunked value payload for values already in disk order.
fn write_disk_values(vals: &Vec<u32>, out: &mut Vec<u8>)
    ensures
        final(out)@ == old(out)@ + spec_chunks(vals@),
{
    let n = vals.len();
    let mut j: usize = 0;
    proof {
        assert(vals@.skip(0) =~= vals@);
    }
    while j < n && n - j >= PER_LINE_BINARY
        invariant
            j <= n == vals@.len(),
            out@ + spec_chunks(vals@.skip(j as int)) == old(out)@ + spec_chunks(vals@),
        decreases n - j,
    {
        let ghost pre = out@;
        write_chunk(vals.as_slice(), j, j + PER_LINE_BINARY, out);
        proof {
            let rem = vals@.skip(j as int);
            assert(rem.take(8) =~= vals@.subrange(j as int, j as int + 8));
            assert(rem.skip(8) =~= vals@.skip(j as int + 8));
            assert(spec_chunks(rem) == spec_chunk(rem.take(8)) + spec_chunks(rem.skip(8)));
            assert(out@ == pre + spec_chunk(rem.take(8)));
            assert(out@ + spec_chunks(vals@.skip(j as int + 8)) =~= pre + spec_chunks(
                vals@.skip(j as int),
            ));
        }
        j = j + PER_LINE_BINARY;
    }
    if j < n {
        write_chunk(vals.as_slice(), j, n, out);
        proof {
            let rem = vals@.skip(j as int);
            assert(rem =~= vals@.subrange(j as int, n as int));
            assert(out@ =~= old(out)@ + spec_chunks(vals@));
        }
    } else {
        proof {
            assert(vals@.skip(j as int) =~= Seq::<u32>::empty());
            assert(out@ =~= old(out)@ + spec_chunks(vals@));
        }
    }
}

/// Writes the value payload of a surface: iterates disk order, applying the
/// transposition and the NaN sentinel substitution, eight values per chunk.
pub fn write_values(header: &IrapHeader, values: &[u32], out: &mut Vec<u8>)
    requires
        1 <= header.ncol,
        1 <= header.nrow,
        values@.len() == header.ncol * header.nrow,
    ensures
        final(out)@ == old(out)@ + spec_chunks(
            spec_disk_values(values@, header.ncol as int, header.nrow as int),
        ),
{
    let ncol = header.ncol as usize;
    let nrow = header.nrow as usize;
    let n = values.len();
    let ghost disk = spec_disk_values(values@, header.ncol as int, header.nrow as int);
    let mut diskv: Vec<u32> = Vec::new();
    let mut j: usize = 0;
    while j < n
        invariant
            j <= n == values@.len(),
            n == ncol * nrow,
            1 <= ncol,
            1 <= nrow,
            disk == spec_disk_values(values@, ncol as int, nrow as int),
            diskv@ =~= disk.take(j as int),
        decreases n - j,
    {
        let s_idx = column_major_to_row_major_index(j, ncol, nrow);
        let v = encode_sentinel_binary(values[s_idx]);
        diskv.push(v);
        proof {
            assert(diskv@ =~= disk.take(j as int + 1));
        }
        j = j + 1;
    }
    proof {
        assert(diskv@ =~= disk);
    }
    write_disk_values(&diskv, out);
}

/// Writes the value payload for a buffer already in disk order, applying
/// only the NaN sentinel substitution.
pub fn write_values_fortran(values: &[u32], out: &mut Vec<u8>)
    ensures
        final(out)@ == old(out)@ + spec_chunks(
            values@.map(|i, v| spec_encode_sentinel_binary(v)),
        ),
{
    let n = values.len();
    let ghost disk = values@.map(|i, v| spec_encode_sentinel_binary(v));
    let mut diskv: Vec<u32> = Vec::new();
    let mut j: usize = 0;
    while j < n
        invariant
            j <= n == values@.len(),
            disk == values@.map(|i, v| spec_encode_sentinel_binary(v)),
            diskv@ =~= disk.take(j as int),
        decreases n - j,
    {
        let v = encode_sentinel_binary(values[j]);
        diskv.push(v);
        proof {
            assert(diskv@ =~= disk.take(j as int + 1));
        }
        j = j + 1;
    }
    proof {
        assert(diskv@ =~= disk);
    }
    write_disk_values(&diskv, out);
}

/// Encodes a surface in the guarded-record binary format.
pub fn to_binary_buffer(data: &Irap) -> (r: Result<Vec<u8>, IrapError>)
    requires
        data.wf(),
    ensures
        r is Ok,
        r matches Ok(b) ==> b@ == spec_encode_binary(*data),
{
    let mut buffer: Vec<u8> = Vec::new();
    write_header(&data.header, &mut buffer);
    write_values(&data.header, data.values.as_slice(), &mut buffer);
    Ok(buffer)
}

/// Encodes a header and a value buffer already in disk (column-major) order.
pub fn to_binary_buffer_fortran(header: &IrapHeader, values: &[u32]) -> (r: Result<
    Vec<u8>,
    IrapError,
>)
    ensures
        r is Ok,
        r matches Ok(b) ==> b@ == spec_encode_binary_fortran(*header, values@),
{
    let mut buffer: Vec<u8> = Vec::new();
    write_header(header, &mut buffer);
    write_values_fortran(values, &mut buffer);
    Ok(buffer)
}

} // verus!
