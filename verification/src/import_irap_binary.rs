use vstd::prelude::*;
use crate::ieee::spec_decode_sentinel_binary;
use crate::ieee::decode_sentinel_binary;
use crate::ieee::spec_is_nan32;
use crate::ieee::spec_rot_plus_360;
use crate::ieee::is_nan32;
use crate::ieee::rot_plus_360;
use crate::irap::IRAP_HEADER_ID_WORD;
use crate::irap::Irap;
use crate::irap::IrapError;
use crate::irap::IrapHeader;
use crate::utils::cm_to_rm;
use crate::utils::lemma_cm_to_rm_inverse;
use crate::utils::column_major_to_row_major_index;
use crate::words::word_at;
use crate::words::read_word;

verus! {

/// What the fixed 100-byte binary header decodes to: each guarded record's
/// declared length and trailing guard must match its fixed size, the magic
/// number must open the stream, and a negative rotation is normalized by
/// adding 360.
pub open spec fn spec_read_header(b: Seq<u8>) -> Result<IrapHeader, IrapError> {
    if b.len() < 4 {
        Err(IrapError::UnexpectedEnd)
    } else if word_at(b, 0) != 32 {
        Err(IrapError::BadRecordSize { record: 1, expected: 32, actual: word_at(b, 0) })
    } else if b.len() < 40 {
        Err(IrapError::UnexpectedEnd)
    } else if word_at(b, 4) != IRAP_HEADER_ID_WORD {
        Err(IrapError::BadMagic { actual: word_at(b, 4) })
    } else if word_at(b, 36) != 32 {
        Err(IrapError::GuardMismatch { record: 1, leading: 32, trailing: word_at(b, 36) })
    } else if b.len() < 44 {
        Err(IrapError::UnexpectedEnd)
    } else if word_at(b, 40) != 16 {
        Err(IrapError::BadRecordSize { record: 2, expected: 16, actual: word_at(b, 40) })
    } else if b.len() < 64 {
        Err(IrapError::UnexpectedEnd)
    } else if word_at(b, 60) != 16 {
        Err(IrapError::GuardMismatch { record: 2, leading: 16, trailing: word_at(b, 60) })
    } else if b.len() < 68 {
        Err(IrapError::UnexpectedEnd)
    } else if word_at(b, 64) != 28 {
        Err(IrapError::BadRecordSize { record: 3, expected: 28, actual: word_at(b, 64) })
    } else if b.len() < 100 {
        Err(IrapError::UnexpectedEnd)
    } else if word_at(b, 96) != 28 {
        Err(IrapError::GuardMismatch { record: 3, leading: 28, trailing: word_at(b, 96) })
    } else {
        Ok(
            IrapHeader {
                ncol: word_at(b, 44),
                nrow: word_at(b, 8),
                xori: word_at(b, 12),
                yori: word_at(b, 20),
                xmax: word_at(b, 16),
                ymax: word_at(b, 24),
                xinc: word_at(b, 28),
                yinc: word_at(b, 32),
                rot: spec_normalize_rot(word_at(b, 48)),
                xrot: word_at(b, 52),
                yrot: word_at(b, 56),
            },
        )
    }
}

/// Rotation normalization on read: a strictly negative angle has 360 added.
pub open spec fn spec_normalize_rot(rot: u32) -> u32 {
    if rot > 0x8000_0000 && !spec_is_nan32(rot) {
        spec_rot_plus_360(rot)
    } else {
        rot
    }
}

pub fn normalize_rot(rot: u32) -> (r: u32)
    ensures
        r == spec_normalize_rot(rot),
{
    if rot > 0x8000_0000 && !is_nan32(rot) {
        rot_plus_360(rot)
    } else {
        rot
    }
}

/// The words read big-endian at consecutive 4-byte offsets from `pos`.
pub open spec fn word_seq_at(b: Seq<u8>, pos: int, cnt: nat) -> Seq<u32> {
    Seq::new(cnt, |i: int| word_at(b, pos + 4 * i))
}

/// What the guarded value chunks starting at `pos` decode to, until `need`
/// values have been consumed: each chunk's declared byte length gives its
/// value count and its trailing guard word must equal the leading one. A
/// declared length that is zero, not a multiple of four, or more than the
/// values still owed is refused.
pub open spec fn spec_read_chunks(b: Seq<u8>, pos: int, need: nat) -> Result<Seq<u32>, IrapError>
    decreases need,
{
    if need == 0 {
        Ok(Seq::empty())
    } else if pos + 4 > b.len() {
        Err(IrapError::UnexpectedEnd)
    } else {
        let decl = word_at(b, pos);
        if decl < 4 || decl % 4 != 0 || decl / 4 > need {
            Err(IrapError::BadChunkSize { declared: decl })
        } else {
            let cnt = (decl / 4) as nat;
            if pos + 8 + decl > b.len() {
                Err(IrapError::UnexpectedEnd)
            } else {
                let trail = word_at(b, pos + 4 + decl);
                if trail != decl {
                    Err(IrapError::ChunkGuardMismatch { leading: decl, trailing: trail })
                } else {
                    match spec_read_chunks(b, pos + 8 + decl, (need - cnt) as nat) {
                        Ok(rest) => Ok(word_seq_at(b, pos + 4, cnt) + rest),
                        Err(e) => Err(e),
                    }
                }
            }
        }
    }
}

/// The row-major storage buffer rebuilt from disk-order values, each mapped
/// through the binary sentinel rule.
pub open spec fn spec_storage_values(disk: Seq<u32>, ncol: int, nrow: int) -> Seq<u32> {
    Seq::new(
        (ncol * nrow) as nat,
        |s: int| spec_decode_sentinel_binary(disk[cm_to_rm(s, nrow, ncol)]),
    )
}

/// What a whole binary stream decodes to: the header, then exactly
/// `ncol * nrow` chunked values placed in row-major order. Trailing bytes
/// after the last chunk are ignored.
pub open spec fn spec_decode_binary(b: Seq<u8>) -> Result<(IrapHeader, Seq<u32>), IrapError> {
    match spec_read_header(b) {
        Err(e) => Err(e),
        Ok(h) => match spec_read_chunks(b, 100, (h.ncol * h.nrow) as nat) {
            Err(e) => Err(e),
            Ok(disk) => Ok((h, spec_storage_values(disk, h.ncol as int, h.nrow as int))),
        },
    }
}

/// Reads and validates the fixed 100-byte binary header.
pub fn read_header(b: &[u8]) -> (r: Result<IrapHeader, IrapError>)
    ensures
        r == spec_read_header(b@),
{
    if b.len() < 4 {
        return Err(IrapError::UnexpectedEnd);
    }
    let c1 = read_word(b, 0);
    if c1 != 32 {
        return Err(IrapError::BadRecordSize { record: 1, expected: 32, actual: c1 });
    }
    if b.len() < 40 {
        return Err(IrapError::UnexpectedEnd);
    }
    let id = read_word(b, 4);
    if id != IRAP_HEADER_ID_WORD {
        return Err(IrapError::BadMagic { actual: id });
    }
    let g1 = read_word(b, 36);
    if g1 != 32 {
        return Err(IrapError::GuardMismatch { record: 1, leading: 32, trailing: g1 });
    }
    if b.len() < 44 {
        return Err(IrapError::UnexpectedEnd);
    }
    let c2 = read_word(b, 40);
    if c2 != 16 {
        return Err(IrapError::BadRecordSize { record: 2, expected: 16, actual: c2 });
    }
    if b.len() < 64 {
        return Err(IrapError::UnexpectedEnd);
    }
    let g2 = read_word(b, 60);
    if g2 != 16 {
        return Err(IrapError::GuardMismatch { record: 2, leading: 16, trailing: g2 });
    }
    if b.len() < 68 {
        return Err(IrapError::UnexpectedEnd);
    }
    let c3 = read_word(b, 64);
    if c3 != 28 {
        return Err(IrapError::BadRecordSize { record: 3, expected: 28, actual: c3 });
    }
    if b.len() < 100 {
        return Err(IrapError::UnexpectedEnd);
    }
    let g3 = read_word(b, 96);
    if g3 != 28 {
        return Err(IrapError::GuardMismatch { record: 3, leading: 28, trailing: g3 });
    }
    Ok(
        IrapHeader {
            ncol: read_word(b, 44),
            nrow: read_word(b, 8),
            xori: read_word(b, 12),
            yori: read_word(b, 20),
            xmax: read_word(b, 16),
            ymax: read_word(b, 24),
            xinc: read_word(b, 28),
            yinc: read_word(b, 32),
            rot: normalize_rot(read_word(b, 48)),
            xrot: read_word(b, 52),
            yrot: read_word(b, 56),
        },
    )
}

/// The outcome of continuing a chunk read with `acc` values already in hand.
pub open spec fn spec_chunks_continued(b: Seq<u8>, pos: int, need: nat, acc: Seq<u32>) -> Result<
    Seq<u32>,
    IrapError,
> {
    match spec_read_chunks(b, pos, need) {
        Ok(rest) => Ok(acc + rest),
        Err(e) => Err(e),
    }
}

/// Reads the chunked value payload starting at `start` and places the values
/// into row-major storage via the index transposition and the binary
/// sentinel rule.
pub fn read_values(b: &[u8], start: usize, ncol: u32, nrow: u32) -> (r: Result<Vec<u32>, IrapError>)
    requires
        start <= b@.len(),
    ensures
        match r {
            Ok(v) => match spec_read_chunks(b@, start as int, (ncol * nrow) as nat) {
                Ok(disk) => v@ == spec_storage_values(disk, ncol as int, nrow as int),
                Err(_) => false,
            },
            Err(e) => spec_read_chunks(b@, start as int, (ncol * nrow) as nat) == Err::<
                Seq<u32>,
                IrapError,
            >(e),
        },
        r matches Ok(v) ==> v@.len() == ncol * nrow,
{
    proof {
        assert(ncol as int * nrow as int <= 0xFFFF_FFFFint * 0xFFFF_FFFFint) by (nonlinear_arith)
            requires
                ncol <= 0xFFFF_FFFFu32,
                nrow <= 0xFFFF_FFFFu32,
        ;
    }
    let nvalues: u64 = ncol as u64 * nrow as u64;
    let ghost needed: nat = (ncol * nrow) as nat;
    let mut disk: Vec<u32> = Vec::new();
    let mut pos: usize = start;
    let blen: usize = b.len();
    proof {
        assert(b@.len() <= usize::MAX);
    }
    proof {
        assert(disk@ + spec_read_chunks(b@, pos as int, needed)->Ok_0 =~= spec_read_chunks(
            b@,
            pos as int,
            needed,
        )->Ok_0);
    }
    while (disk.len() as u64) < nvalues
        invariant
            nvalues == ncol * nrow,
            needed == nvalues,
            disk@.len() <= nvalues,
            start <= pos <= b@.len(),
            b@.len() <= usize::MAX,
            spec_chunks_continued(b@, pos as int, (nvalues - disk@.len()) as nat, disk@)
                == spec_read_chunks(b@, start as int, needed),
        decreases nvalues - disk@.len(),
    {
        let ghost rem: nat = (nvalues - disk@.len()) as nat;
        if b.len() - pos < 4 {
            return Err(IrapError::UnexpectedEnd);
        }
        let decl = read_word(b, pos);
        let remaining: u64 = nvalues - disk.len() as u64;
        if decl < 4 || decl % 4 != 0 || (decl / 4) as u64 > remaining {
            return Err(IrapError::BadChunkSize { declared: decl });
        }
        let cnt = (decl / 4) as usize;
        if ((b.len() - pos - 4) as u64) < decl as u64 + 4 {
            return Err(IrapError::UnexpectedEnd);
        }
        let trail = read_word(b, pos + 4 + decl as usize);
        if trail != decl {
            return Err(IrapError::ChunkGuardMismatch { leading: decl, trailing: trail });
        }
        let ghost disk_pre = disk@;
        let mut c: usize = 0;
        while c < cnt
            invariant
                c <= cnt,
                pos + 8 + decl <= b@.len(),
                b@.len() <= usize::MAX,
                decl == 4 * cnt,
                disk@ =~= disk_pre + word_seq_at(b@, pos as int + 4, c as nat),
            decreases cnt - c,
        {
            proof {
                assert(4 * (c as int) + 4 <= 4 * (cnt as int));
            }
            let w = read_word(b, pos + 4 + 4 * c);
            disk.push(w);
            proof {
                assert(disk@ =~= disk_pre + word_seq_at(b@, pos as int + 4, c as nat + 1));
            }
            c = c + 1;
        }
        proof {
            let inner = spec_read_chunks(b@, pos as int + 8 + decl, (rem - cnt) as nat);
            assert(spec_read_chunks(b@, pos as int, rem) == match inner {
                Ok(rest) => Ok::<Seq<u32>, IrapError>(word_seq_at(b@, pos as int + 4, cnt as nat) + rest),
                Err(e) => Err::<Seq<u32>, IrapError>(e),
            });
            if inner is Ok {
                assert((disk_pre + word_seq_at(b@, pos as int + 4, cnt as nat)) + inner->Ok_0
                    =~= disk_pre + (word_seq_at(b@, pos as int + 4, cnt as nat) + inner->Ok_0));
            }
        }
        pos = pos + 8 + decl as usize;
    }
    proof {
        assert(spec_read_chunks(b@, pos as int, (nvalues - disk@.len()) as nat) == Ok::<
            Seq<u32>,
            IrapError,
        >(Seq::empty()));
        assert(disk@ + Seq::<u32>::empty() =~= disk@);
        assert(spec_read_chunks(b@, start as int, needed) == Ok::<Seq<u32>, IrapError>(disk@));
    }
    // All values are in hand in disk order; place them in row-major storage.
    let n = disk.len();
    let mut storage: Vec<u32> = vec![0u32; n];
    let mut j: usize = 0;
    while j < n
        invariant
            j <= n == disk@.len(),
            n == ncol * nrow,
            storage@.len() == n,
            forall|jj: int|
                0 <= jj < j ==> storage@[cm_to_rm(jj, ncol as int, nrow as int)]
                    == spec_decode_sentinel_binary(disk@[jj]),
        decreases n - j,
    {
        proof {
            assert(1 <= ncol && 1 <= nrow) by (nonlinear_arith)
                requires
                    0 <= j < n,
                    n == ncol * nrow,
            ;
            lemma_cm_to_rm_inverse(j as int, ncol as int, nrow as int);
        }
        let ic = column_major_to_row_major_index(j, ncol as usize, nrow as usize);
        let v = decode_sentinel_binary(disk[j]);
        storage[ic] = v;
        proof {
            assert forall|jj: int| 0 <= jj < j + 1 implies storage@[cm_to_rm(
                jj,
                ncol as int,
                nrow as int,
            )] == spec_decode_sentinel_binary(disk@[jj]) by {
                assert(1 <= ncol && 1 <= nrow) by (nonlinear_arith)
                    requires
                        0 <= j < n,
                        n == ncol * nrow,
                ;
                lemma_cm_to_rm_inverse(jj, ncol as int, nrow as int);
                lemma_cm_to_rm_inverse(j as int, ncol as int, nrow as int);
            }
        }
        j = j + 1;
    }
    proof {
        let stor = spec_storage_values(disk@, ncol as int, nrow as int);
        assert forall|s: int| 0 <= s < n implies storage@[s] == stor[s] by {
            assert(1 <= ncol && 1 <= nrow) by (nonlinear_arith)
                requires
                    0 <= s < n,
                    n == ncol * nrow,
            ;
            lemma_cm_to_rm_inverse(s, nrow as int, ncol as int);
        }
        assert(storage@ =~= stor);
    }
    Ok(storage)
}

/// Decodes a surface from a guarded-record binary stream.
pub fn read_buffer(buffer: &[u8]) -> (r: Result<Irap, IrapError>)
    ensures
        match r {
            Ok(ir) => spec_decode_binary(buffer@) == Ok::<(IrapHeader, Seq<u32>), IrapError>(
                (ir.header, ir.values@),
            ),
            Err(e) => spec_decode_binary(buffer@) == Err::<(IrapHeader, Seq<u32>), IrapError>(e),
        },
        r matches Ok(ir) ==> ir.values@.len() == ir.header.ncol * ir.header.nrow,
{
    let header = match read_header(buffer) {
        Ok(h) => h,
        Err(e) => {
            return Err(e);
        },
    };
    let values = match read_values(buffer, 100, header.ncol, header.nrow) {
        Ok(v) => v,
        Err(e) => {
            return Err(e);
        },
    };
    Ok(Irap { header, values })
}

} // verus!
