use vstd::prelude::*;
use crate::export_irap_binary::spec_chunk;
use crate::export_irap_binary::spec_chunks;
use crate::export_irap_binary::spec_disk_values;
use crate::export_irap_binary::spec_encode_binary;
use crate::export_irap_binary::spec_header_bytes;
use crate::export_irap_binary::spec_header_words;
use crate::ieee::spec_decode_sentinel_binary;
use crate::ieee::spec_encode_sentinel_binary;
use crate::ieee::spec_is_nan32;
use crate::import_irap_ascii::nth_token;
use crate::import_irap_ascii::spec_digits_val;
use crate::import_irap_ascii::spec_is_ws;
use crate::import_irap_ascii::spec_skip_ws;
use crate::export_irap_ascii::spec_value_token;
use crate::export_irap_ascii::spec_values_text;
use crate::import_irap_binary::spec_decode_binary;
use crate::import_irap_binary::spec_normalize_rot;
use crate::import_irap_binary::spec_read_chunks;
use crate::import_irap_binary::spec_read_header;
use crate::import_irap_binary::spec_storage_values;
use crate::import_irap_binary::word_seq_at;
use crate::irap::Irap;
use crate::irap::IrapError;
use crate::irap::IrapHeader;
use crate::irap::NAN_BITS;
use crate::utils::lemma_cm_to_rm_inverse;
use crate::words::lemma_word_at_bytes;
use crate::words::lemma_word_at_words;
use crate::words::lemma_words_bytes_len;
use crate::words::word_bytes;
use crate::words::words_bytes;

verus! {

/// A binary header re-read from its own 100 encoded bytes (with anything
/// after them) yields the header back, up to rotation normalization.
pub proof fn lemma_header_round_trip(h: IrapHeader, b: Seq<u8>)
    requires
        b.subrange(0, 100) == spec_header_bytes(h),
        b.len() >= 100,
    ensures
        spec_read_header(b) == Ok::<IrapHeader, IrapError>(
            IrapHeader { rot: spec_normalize_rot(h.rot), ..h },
        ),
{
    let hw = spec_header_words(h);
    lemma_words_bytes_len(hw);
    assert forall|k: int| 0 <= k < 25 implies crate::words::word_at(b, 4 * k) == hw[k] by {
        lemma_word_at_words(hw, b, 0, k);
    }
    assert(crate::words::word_at(b, 0) == hw[0]);
    assert(crate::words::word_at(b, 4) == hw[1]);
    assert(crate::words::word_at(b, 8) == hw[2]);
    assert(crate::words::word_at(b, 12) == hw[3]);
    assert(crate::words::word_at(b, 16) == hw[4]);
    assert(crate::words::word_at(b, 20) == hw[5]);
    assert(crate::words::word_at(b, 24) == hw[6]);
    assert(crate::words::word_at(b, 28) == hw[7]);
    assert(crate::words::word_at(b, 32) == hw[8]);
    assert(crate::words::word_at(b, 36) == hw[9]);
    assert(crate::words::word_at(b, 40) == hw[10]);
    assert(crate::words::word_at(b, 44) == hw[11]);
    assert(crate::words::word_at(b, 48) == hw[12]);
    assert(crate::words::word_at(b, 52) == hw[13]);
    assert(crate::words::word_at(b, 56) == hw[14]);
    assert(crate::words::word_at(b, 60) == hw[15]);
    assert(crate::words::word_at(b, 64) == hw[16]);
    assert(crate::words::word_at(b, 96) == hw[24]);
}

/// The chunked encoding of a value sequence, re-read while exactly that many
/// values are owed, yields the sequence back.
pub proof fn lemma_chunks_round_trip(vals: Seq<u32>, b: Seq<u8>, pos: int)
    requires
        0 <= pos,
        pos + spec_chunks(vals).len() <= b.len(),
        b.subrange(pos, pos + spec_chunks(vals).len()) == spec_chunks(vals),
    ensures
        spec_read_chunks(b, pos, vals.len()) == Ok::<Seq<u32>, IrapError>(vals),
    decreases vals.len(),
{
    if vals.len() == 0 {
        assert(spec_read_chunks(b, pos, 0) == Ok::<Seq<u32>, IrapError>(Seq::empty()));
        assert(vals =~= Seq::<u32>::empty());
    } else {
        let head = if vals.len() >= 8 {
            vals.take(8)
        } else {
            vals
        };
        let cnt = head.len();
        let decl: u32 = (4 * cnt) as u32;
        let ck = spec_chunk(head);
        lemma_words_bytes_len(head);
        assert(ck.len() == 8 + decl);
        let cl = spec_chunks(vals).len();
        // The leading guard word.
        assert(b.subrange(pos, pos + 4) =~= word_bytes(decl));
        lemma_word_at_bytes(decl, b, pos);
        // The payload words.
        assert forall|j: int| 0 <= j < 4 * head.len() implies b.subrange(
            pos + 4,
            pos + 4 + 4 * head.len(),
        )[j] == words_bytes(head)[j] by {
            assert(b.subrange(pos, pos + cl)[j + 4] == spec_chunks(vals)[j + 4]);
        }
        assert(b.subrange(pos + 4, pos + 4 + 4 * head.len()) =~= words_bytes(head));
        assert forall|i: int| 0 <= i < cnt implies crate::words::word_at(b, pos + 4 + 4 * i)
            == head[i] by {
            lemma_word_at_words(head, b, pos + 4, i);
        }
        assert(word_seq_at(b, pos + 4, cnt as nat) =~= head);
        // The trailing guard word.
        assert forall|j: int| 0 <= j < 4 implies b.subrange(pos + 4 + decl, pos + 8 + decl)[j]
            == word_bytes(decl)[j] by {
            assert(b.subrange(pos, pos + cl)[j + 4 + decl] == spec_chunks(vals)[j + 4 + decl]);
        }
        assert(b.subrange(pos + 4 + decl, pos + 8 + decl) =~= word_bytes(decl));
        lemma_word_at_bytes(decl, b, pos + 4 + decl);
        if vals.len() >= 8 {
            let rest = vals.skip(8);
            assert forall|j: int| 0 <= j < spec_chunks(rest).len() implies b.subrange(
                pos + 40,
                pos + 40 + spec_chunks(rest).len(),
            )[j] == spec_chunks(rest)[j] by {
                assert(b.subrange(pos, pos + cl)[j + 40] == spec_chunks(vals)[j + 40]);
            }
            assert(b.subrange(pos + 40, pos + 40 + spec_chunks(rest).len()) =~= spec_chunks(rest));
            lemma_chunks_round_trip(rest, b, pos + 40);
            assert(head + rest =~= vals);
        } else {
            assert(spec_read_chunks(b, pos + 8 + decl, 0) == Ok::<Seq<u32>, IrapError>(
                Seq::empty(),
            ));
            assert(head + Seq::<u32>::empty() =~= vals);
        }
    }
}

/// Round trip of the binary codec: decoding an encoded surface succeeds and
/// returns the same header (when its rotation is already normalized, i.e.
/// not strictly negative) and the same grid, with each value passed through
/// the sentinel substitution and back: NaN comes back as the canonical NaN
/// marker, anything at or above the undefined threshold comes back as NaN,
/// and every other value is bit-exact. The grid size need not be a multiple
/// of the chunk size: the final short chunk is covered.
pub proof fn lemma_binary_round_trip(irap: Irap)
    requires
        irap.wf(),
        !(irap.header.rot > 0x8000_0000 && !spec_is_nan32(irap.header.rot)),
    ensures
        spec_decode_binary(spec_encode_binary(irap)) == Ok::<(IrapHeader, Seq<u32>), IrapError>(
            (
                irap.header,
                irap.values@.map_values(
                    |v: u32| spec_decode_sentinel_binary(spec_encode_sentinel_binary(v)),
                ),
            ),
        ),
{
    let h = irap.header;
    let ncol = h.ncol as int;
    let nrow = h.nrow as int;
    let n = irap.values@.len() as int;
    let disk = spec_disk_values(irap.values@, ncol, nrow);
    let enc = spec_encode_binary(irap);
    lemma_words_bytes_len(spec_header_words(h));
    assert(enc.subrange(0, 100) =~= spec_header_bytes(h));
    lemma_header_round_trip(h, enc);
    assert(spec_normalize_rot(h.rot) == h.rot);
    assert(spec_read_header(enc) == Ok::<IrapHeader, IrapError>(h));
    assert(enc.subrange(100, 100 + spec_chunks(disk).len() as int) =~= spec_chunks(disk));
    lemma_chunks_round_trip(disk, enc, 100);
    assert(disk.len() == (h.ncol * h.nrow) as nat);
    assert(spec_read_chunks(enc, 100, (h.ncol * h.nrow) as nat) == Ok::<Seq<u32>, IrapError>(
        disk,
    ));
    let stor = spec_storage_values(disk, ncol, nrow);
    let expect = irap.values@.map_values(
        |v: u32| spec_decode_sentinel_binary(spec_encode_sentinel_binary(v)),
    );
    assert forall|s: int| 0 <= s < n implies stor[s] == expect[s] by {
        assert(1 <= ncol && 1 <= nrow) by (nonlinear_arith)
            requires
                0 <= s < n,
                n == ncol * nrow,
                ncol >= 0,
                nrow >= 0,
        ;
        lemma_cm_to_rm_inverse(s, nrow, ncol);
    }
    assert(stor =~= expect);
}

/// Round trip of the binary codec, exact form: a surface whose missing
/// values use the canonical NaN marker and whose defined values lie below
/// the undefined threshold decodes from its own encoding unchanged.
pub proof fn lemma_binary_round_trip_exact(irap: Irap)
    requires
        irap.wf(),
        !(irap.header.rot > 0x8000_0000 && !spec_is_nan32(irap.header.rot)),
        forall|i: int|
            0 <= i < irap.values@.len() ==> if spec_is_nan32(#[trigger] irap.values@[i]) {
                irap.values@[i] == NAN_BITS
            } else {
                !crate::ieee::spec_bin_undef(irap.values@[i])
            },
    ensures
        spec_decode_binary(spec_encode_binary(irap)) == Ok::<(IrapHeader, Seq<u32>), IrapError>(
            (irap.header, irap.values@),
        ),
{
    lemma_binary_round_trip(irap);
    let expect = irap.values@.map_values(
        |v: u32| spec_decode_sentinel_binary(spec_encode_sentinel_binary(v)),
    );
    assert(expect =~= irap.values@);
}

/// Corrupting the trailing length word of any of the three guarded header
/// records makes decoding fail with a guard mismatch naming that record:
/// a stream that agrees with a valid header encoding up to a record's
/// trailing guard, but differs in that word, is never decoded.
pub proof fn lemma_header_guard_corruption(h: IrapHeader, b: Seq<u8>, record: u32)
    requires
        1 <= record <= 3,
        b.len() >= 100,
        ({
            let gp = header_guard_pos(record);
            b.subrange(0, gp) == spec_header_bytes(h).subrange(0, gp) && crate::words::word_at(
                b,
                gp,
            ) != header_guard_word(record)
        }),
    ensures
        spec_decode_binary(b) == Err::<(IrapHeader, Seq<u32>), IrapError>(
            IrapError::GuardMismatch {
                record,
                leading: header_guard_word(record),
                trailing: crate::words::word_at(b, header_guard_pos(record)),
            },
        ),
{
    let hw = spec_header_words(h);
    let gp = header_guard_pos(record);
    lemma_words_bytes_len(hw);
    assert forall|k: int| 0 <= k && 4 * k + 4 <= gp implies crate::words::word_at(b, 4 * k)
        == hw[k] by {
        let pre = hw.take(k + 1);
        lemma_words_take_prefix(hw, k + 1);
        lemma_words_bytes_len(pre);
        assert forall|j: int| 0 <= j < 4 * (k + 1) implies #[trigger] b.subrange(0, 4 * (k + 1))[j]
            == words_bytes(pre)[j] by {
            assert(b.subrange(0, gp)[j] == spec_header_bytes(h).subrange(0, gp)[j]);
            assert(words_bytes(pre)[j] == words_bytes(hw).subrange(0, 4 * (k + 1))[j]);
        }
        assert(b.subrange(0, 4 * (k + 1)) =~= words_bytes(pre));
        lemma_word_at_words(pre, b, 0, k);
    }
    if record == 1 {
        assert(crate::words::word_at(b, 0) == hw[0]);
        assert(crate::words::word_at(b, 4) == hw[1]);
    } else if record == 2 {
        assert(crate::words::word_at(b, 0) == hw[0]);
        assert(crate::words::word_at(b, 4) == hw[1]);
        assert(crate::words::word_at(b, 36) == hw[9]);
        assert(crate::words::word_at(b, 40) == hw[10]);
    } else {
        assert(crate::words::word_at(b, 0) == hw[0]);
        assert(crate::words::word_at(b, 4) == hw[1]);
        assert(crate::words::word_at(b, 36) == hw[9]);
        assert(crate::words::word_at(b, 40) == hw[10]);
        assert(crate::words::word_at(b, 60) == hw[15]);
        assert(crate::words::word_at(b, 64) == hw[16]);
    }
}

/// Byte offset of the trailing guard word of a header record.
pub open spec fn header_guard_pos(record: u32) -> int {
    if record == 1 {
        36
    } else if record == 2 {
        60
    } else {
        96
    }
}

/// The leading length word of a header record, which its trailing guard must
/// repeat.
pub open spec fn header_guard_word(record: u32) -> u32 {
    if record == 1 {
        32
    } else if record == 2 {
        16
    } else {
        28
    }
}

/// Flattening a prefix of a word sequence gives a prefix of the flattening.
pub proof fn lemma_words_take_prefix(s: Seq<u32>, k: int)
    requires
        0 <= k <= s.len(),
    ensures
        words_bytes(s.take(k)) == words_bytes(s).subrange(0, 4 * k),
    decreases k,
{
    lemma_words_bytes_len(s);
    lemma_words_bytes_len(s.take(k));
    if k > 0 {
        lemma_words_take_prefix(s.drop_first(), k - 1);
        lemma_words_bytes_len(s.drop_first());
        assert(s.take(k).drop_first() =~= s.drop_first().take(k - 1));
        assert(words_bytes(s.take(k)) == word_bytes(s[0]) + words_bytes(s.drop_first().take(k - 1)));
        assert(words_bytes(s.take(k)) =~= words_bytes(s).subrange(0, 4 * k));
    } else {
        assert(s.take(0) =~= Seq::<u32>::empty());
        assert(words_bytes(s.take(k)) =~= words_bytes(s).subrange(0, 4 * k));
    }
}

/// How many values the `c`-th guarded chunk holds when `len` values are
/// written eight per chunk.
pub open spec fn chunk_vals_at(len: nat, c: nat) -> nat {
    if len - 8 * c >= 8 {
        8
    } else {
        (len - 8 * c) as nat
    }
}

/// The chunked encoding is long enough to reach past chunk `c`'s trailing
/// guard word.
pub proof fn lemma_chunks_len_ge(vals: Seq<u32>, c: nat)
    requires
        8 * c < vals.len(),
    ensures
        spec_chunks(vals).len() >= 40 * c + 8 + 4 * chunk_vals_at(vals.len(), c),
    decreases c,
{
    let len = vals.len();
    if len >= 8 {
        lemma_words_bytes_len(vals.take(8));
        assert(spec_chunk(vals.take(8)).len() == 40);
        if c == 0 {
        } else {
            lemma_chunks_len_ge(vals.skip(8), (c - 1) as nat);
            assert(chunk_vals_at(vals.skip(8).len(), (c - 1) as nat) == chunk_vals_at(len, c));
        }
    } else {
        lemma_words_bytes_len(vals);
        assert(spec_chunks(vals).len() == 8 + 4 * len);
    }
}

/// The chunked payload's total size: forty bytes per full chunk of eight
/// values, and a final guarded chunk of `len % 8` values when the count is
/// not a multiple of eight — so the payload holds exactly as many chunks as
/// the values need, the last one short.
pub proof fn lemma_chunks_total_len(vals: Seq<u32>)
    ensures
        spec_chunks(vals).len() == 40 * (vals.len() / 8) + if vals.len() % 8 == 0 {
            0int
        } else {
            8 + 4 * (vals.len() % 8) as int
        },
    decreases vals.len(),
{
    let len = vals.len();
    if len == 0 {
    } else if len >= 8 {
        lemma_words_bytes_len(vals.take(8));
        lemma_chunks_total_len(vals.skip(8));
        vstd::arithmetic::div_mod::lemma_fundamental_div_mod(len as int, 8);
        vstd::arithmetic::div_mod::lemma_mod_bound(len as int, 8);
        vstd::arithmetic::div_mod::lemma_fundamental_div_mod_converse(
            len as int - 8,
            8,
            len as int / 8 - 1,
            len as int % 8,
        );
    } else {
        lemma_words_bytes_len(vals);
        vstd::arithmetic::div_mod::lemma_basic_div(len as int, 8);
        vstd::arithmetic::div_mod::lemma_small_mod(len, 8);
    }
}

/// The exact layout of chunk `c` inside the encoded payload: its leading
/// length word declares four bytes per value it holds (32 for a full chunk
/// of eight, `4 * (len % 8)` for a short final one), its trailing guard word
/// repeats the leading one, and its payload words are the values `8c` on, in
/// order.
pub proof fn lemma_chunk_layout(vals: Seq<u32>, c: nat)
    requires
        8 * c < vals.len(),
    ensures
        ({
            let sz = chunk_vals_at(vals.len(), c);
            let b = spec_chunks(vals);
            &&& word_at_words_ok(b, 40 * c as int, (4 * sz) as u32)
            &&& word_at_words_ok(b, 40 * c + 4 + 4 * sz as int, (4 * sz) as u32)
            &&& forall|i: int|
                0 <= i < sz ==> #[trigger] crate::words::word_at(b, 40 * c + 4 + 4 * i) == vals[8
                    * c + i]
        }),
    decreases c,
{
    let len = vals.len();
    let b = spec_chunks(vals);
    let head = if len >= 8 {
        vals.take(8)
    } else {
        vals
    };
    let cnt = head.len();
    let decl: u32 = (4 * cnt) as u32;
    lemma_words_bytes_len(head);
    lemma_chunks_len_ge(vals, c);
    if c == 0 {
        assert(b.subrange(0, 4) =~= word_bytes(decl));
        lemma_word_at_bytes(decl, b, 0);
        assert(b.subrange(4, 4 + 4 * cnt as int) =~= words_bytes(head));
        assert forall|i: int| 0 <= i < cnt implies crate::words::word_at(b, 4 + 4 * i)
            == vals[i] by {
            lemma_word_at_words(head, b, 4, i);
        }
        assert(b.subrange(4 + decl, 8 + decl) =~= word_bytes(decl));
        lemma_word_at_bytes(decl, b, 4 + decl);
    } else {
        let rest = vals.skip(8);
        let sz = chunk_vals_at(len, c);
        assert(chunk_vals_at(rest.len(), (c - 1) as nat) == sz);
        lemma_chunk_layout(rest, (c - 1) as nat);
        lemma_chunks_len_ge(rest, (c - 1) as nat);
        // Every word of a later chunk sits forty bytes further in than in the
        // tail's own encoding.
        assert forall|x: int|
            0 <= x && x + 4 <= spec_chunks(rest).len() implies crate::words::word_at(b, 40 + x)
            == crate::words::word_at(spec_chunks(rest), x) by {
            assert(b[40 + x] == spec_chunks(rest)[x]);
            assert(b[40 + x + 1] == spec_chunks(rest)[x + 1]);
            assert(b[40 + x + 2] == spec_chunks(rest)[x + 2]);
            assert(b[40 + x + 3] == spec_chunks(rest)[x + 3]);
        }
        assert forall|i: int|
            0 <= i < sz implies #[trigger] crate::words::word_at(b, 40 * c + 4 + 4 * i) == vals[8
            * c + i] by {
            assert(crate::words::word_at(spec_chunks(rest), 40 * (c - 1) + 4 + 4 * i)
                == rest[8 * (c - 1) + i]);
            assert(rest[8 * (c - 1) + i] == vals[8 * c + i]);
        }
    }
}

/// The word at offset `i` of the byte sequence equals `w` (a readable alias
/// for the layout lemma's clauses).
pub open spec fn word_at_words_ok(b: Seq<u8>, i: int, w: u32) -> bool {
    crate::words::word_at(b, i) == w
}

/// Corrupting the trailing length word of any value chunk makes the chunk
/// reader fail with a chunk guard mismatch: a stream that agrees with a
/// valid chunked encoding up to chunk `c`'s trailing guard, but differs in
/// that word, never yields values.
#[verifier::rlimit(100)]
#[verifier::spinoff_prover]
pub proof fn lemma_chunk_guard_corruption(vals: Seq<u32>, b: Seq<u8>, pos: int, c: nat)
    requires
        0 <= pos,
        8 * c < vals.len(),
        pos + 40 * c + 8 + 4 * chunk_vals_at(vals.len(), c) <= b.len(),
        b.subrange(pos, pos + 40 * c + 4 + 4 * chunk_vals_at(vals.len(), c)) == spec_chunks(
            vals,
        ).subrange(0, (40 * c + 4 + 4 * chunk_vals_at(vals.len(), c)) as int),
        crate::words::word_at(b, pos + 40 * c + 4 + 4 * chunk_vals_at(vals.len(), c)) != (4
            * chunk_vals_at(vals.len(), c)) as u32,
    ensures
        spec_read_chunks(b, pos, vals.len()) == Err::<Seq<u32>, IrapError>(
            IrapError::ChunkGuardMismatch {
                leading: (4 * chunk_vals_at(vals.len(), c)) as u32,
                trailing: crate::words::word_at(
                    b,
                    pos + 40 * c + 4 * chunk_vals_at(vals.len(), c) + 4,
                ),
            },
        ),
    decreases c,
{
    let len = vals.len();
    let head = if len >= 8 {
        vals.take(8)
    } else {
        vals
    };
    let cnt = head.len();
    let decl: u32 = (4 * cnt) as u32;
    lemma_words_bytes_len(head);
    let glen: int = (40 * c + 4 + 4 * chunk_vals_at(len, c)) as int;
    lemma_chunks_len_ge(vals, c);
    if len >= 8 {
        assert(spec_chunks(vals) == spec_chunk(head) + spec_chunks(vals.skip(8)));
    } else {
        assert(spec_chunks(vals) == spec_chunk(head));
    }
    // The leading guard word of the first chunk is intact.
    assert forall|j: int| 0 <= j < 4 implies b.subrange(pos, pos + 4)[j] == word_bytes(decl)[j] by {
        assert(b.subrange(pos, pos + glen)[j] == spec_chunks(vals).subrange(0, glen)[j]);
        assert(spec_chunks(vals)[j] == spec_chunk(head)[j]);
        assert(spec_chunk(head)[j] == word_bytes(decl)[j]);
    }
    assert(b.subrange(pos, pos + 4) =~= word_bytes(decl));
    lemma_word_at_bytes(decl, b, pos);
    if c == 0 {
        // This chunk's trailing guard is the corrupted word.
        assert(chunk_vals_at(len, 0) == cnt);
        assert(spec_read_chunks(b, pos, len) == Err::<Seq<u32>, IrapError>(
            IrapError::ChunkGuardMismatch {
                leading: decl,
                trailing: crate::words::word_at(b, pos + 4 + decl),
            },
        ));
    } else {
        // The first chunk is whole, guards and all; the corruption sits in a
        // later chunk, so the failure propagates out of the recursive read.
        assert(len >= 8 && cnt == 8 && decl == 32);
        assert forall|j: int| 0 <= j < 4 implies b.subrange(pos + 36, pos + 40)[j] == word_bytes(
            32u32,
        )[j] by {
            assert(b.subrange(pos, pos + glen)[j + 36] == spec_chunks(vals).subrange(0, glen)[j
                + 36]);
            assert(spec_chunks(vals)[j + 36] == (spec_chunk(head) + spec_chunks(vals.skip(8)))[j
                + 36]);
        }
        assert(b.subrange(pos + 36, pos + 40) =~= word_bytes(32u32));
        lemma_word_at_bytes(32u32, b, pos + 36);
        let rest = vals.skip(8);
        let glen2: int = (40 * (c - 1) + 4 + 4 * chunk_vals_at(rest.len(), (c - 1) as nat)) as int;
        assert(chunk_vals_at(rest.len(), (c - 1) as nat) == chunk_vals_at(len, c));
        assert forall|j: int| 0 <= j < glen2 implies b.subrange(pos + 40, pos + 40 + glen2)[j]
            == spec_chunks(rest).subrange(0, glen2)[j] by {
            assert(b.subrange(pos, pos + glen)[j + 40] == spec_chunks(vals).subrange(0, glen)[j
                + 40]);
            assert(spec_chunks(vals)[j + 40] == (spec_chunk(head) + spec_chunks(vals.skip(8)))[j
                + 40]);
        }
        assert(b.subrange(pos + 40, pos + 40 + glen2) =~= spec_chunks(rest).subrange(0, glen2));
        lemma_chunk_guard_corruption(rest, b, pos + 40, (c - 1) as nat);
    }
}

/// Corrupting the trailing length word of any value chunk of an encoded
/// surface makes decoding fail with a chunk guard mismatch, never succeed
/// with wrong data.
#[verifier::rlimit(100)]
#[verifier::spinoff_prover]
pub proof fn lemma_binary_chunk_corruption_detected(irap: Irap, b: Seq<u8>, c: nat)
    requires
        irap.wf(),
        !(irap.header.rot > 0x8000_0000 && !spec_is_nan32(irap.header.rot)),
        8 * c < irap.values@.len(),
        ({
            let g: int = (100 + 40 * c + 4 + 4 * chunk_vals_at(irap.values@.len(), c)) as int;
            b.len() >= g + 4 && b.subrange(0, g) == spec_encode_binary(irap).subrange(0, g)
                && crate::words::word_at(b, g) != (4 * chunk_vals_at(
                irap.values@.len(),
                c,
            )) as u32
        }),
    ensures
        spec_decode_binary(b) == Err::<(IrapHeader, Seq<u32>), IrapError>(
            IrapError::ChunkGuardMismatch {
                leading: (4 * chunk_vals_at(irap.values@.len(), c)) as u32,
                trailing: crate::words::word_at(
                    b,
                    (100 + 40 * c + 4 + 4 * chunk_vals_at(irap.values@.len(), c)) as int,
                ),
            },
        ),
{
    let h = irap.header;
    let n = irap.values@.len();
    let disk = spec_disk_values(irap.values@, h.ncol as int, h.nrow as int);
    let enc = spec_encode_binary(irap);
    let g: int = (100 + 40 * c + 4 + 4 * chunk_vals_at(n, c)) as int;
    lemma_words_bytes_len(spec_header_words(h));
    lemma_chunks_len_ge(disk, c);
    assert(enc == spec_header_bytes(h) + spec_chunks(disk));
    assert forall|j: int| 0 <= j < 100 implies b.subrange(0, 100)[j] == spec_header_bytes(h)[j] by {
        assert(b.subrange(0, g)[j] == enc.subrange(0, g)[j]);
        assert(enc[j] == spec_header_bytes(h)[j]);
    }
    assert(b.subrange(0, 100) =~= spec_header_bytes(h));
    lemma_header_round_trip(h, b);
    assert(spec_read_header(b) == Ok::<IrapHeader, IrapError>(h));
    let glen = g - 100;
    assert forall|j: int| 0 <= j < glen implies b.subrange(100, g)[j] == spec_chunks(
        disk,
    ).subrange(0, glen)[j] by {
        assert(b.subrange(0, g)[j + 100] == enc.subrange(0, g)[j + 100]);
        assert(enc[j + 100] == spec_chunks(disk)[j]);
    }
    assert(b.subrange(100, g) =~= spec_chunks(disk).subrange(0, glen));
    lemma_chunk_guard_corruption(disk, b, 100, c);
}

/// The bytes of an all-ASCII character sequence, one byte per character.
pub open spec fn text_bytes(cs: Seq<char>) -> Seq<u8> {
    cs.map_values(|c: char| c as u8)
}

/// Token `i` (counting from byte position `p`) is exactly the text of the
/// value `v`.
pub open spec fn token_is(b: Seq<u8>, p: int, i: nat, v: u32) -> bool {
    match nth_token(b, p, i) {
        Some((s, e)) => b.subrange(s, e) == text_bytes(spec_value_token(v)),
        None => false,
    }
}

/// The written value grid scans back into exactly its own tokens: when the
/// bytes from `p` to the end of the buffer hold the grid text from disk
/// position `j` on, the `i`-th token from `p` is the text of disk value
/// `j + i`, and after the last value only whitespace remains.
pub proof fn lemma_values_region_tokens(disk: Seq<u32>, b: Seq<u8>, p: int, j: nat)
    requires
        0 <= p <= b.len(),
        j <= disk.len(),
        b.subrange(p, b.len() as int) == text_bytes(spec_values_text(disk, j)),
    ensures
        forall|i: nat| i < disk.len() - j ==> #[trigger] token_is(b, p, i, disk[(j + i) as int]),
        nth_token(b, p, (disk.len() - j) as nat) is None,
    decreases disk.len() - j,
{
    reveal_strlit(" ");
    reveal_strlit("\n");
    let vt = spec_values_text(disk, j);
    assert(text_bytes(vt).len() == vt.len());
    assert(b.len() - p == vt.len());
    if j == disk.len() {
        assert forall|i: int| p <= i < b.len() implies spec_is_ws(#[trigger] b[i]) by {
            assert(b[i] == b.subrange(p, b.len() as int)[i - p]);
            assert(vt[i - p] == '\n');
        }
        crate::import_irap_ascii::lemma_skip_ws_through(b, p, b.len() as int);
        assert(nth_token(b, p, 0) is None);
    } else {
        let sep_len: int = if j % 8 != 0 {
            1
        } else {
            0
        };
        let nl_len: int = if j % 8 == 7 {
            1
        } else {
            0
        };
        let tok = spec_value_token(disk[j as int]);
        crate::export_irap_ascii::lemma_value_token_chars(disk[j as int]);
        let rest = spec_values_text(disk, j + 1);
        let ts = p + sep_len;
        let te = ts + tok.len();
        let p2 = te + nl_len;
        assert(vt.len() == sep_len + tok.len() + nl_len + rest.len());
        assert forall|i: int| p <= i < ts implies spec_is_ws(#[trigger] b[i]) by {
            assert(b[i] == b.subrange(p, b.len() as int)[i - p]);
            assert(vt[i - p] == ' ');
        }
        assert forall|i: int| ts <= i < te implies !spec_is_ws(#[trigger] b[i]) by {
            assert(b[i] == b.subrange(p, b.len() as int)[i - p]);
            assert(vt[i - p] == tok[i - ts]);
            assert('!' <= tok[i - ts] <= '~');
        }
        assert(te == b.len() || spec_is_ws(b[te])) by {
            if te < b.len() {
                assert(b[te] == b.subrange(p, b.len() as int)[te - p]);
                if nl_len == 1 {
                    assert(vt[te - p] == '\n');
                } else {
                    // The grid text goes on: it next holds either the
                    // separator of the following value or the final newline.
                    assert(rest.len() > 0);
                    assert(vt[te - p] == rest[0]);
                    if j + 1 == disk.len() {
                        assert(rest[0] == '\n');
                    } else {
                        assert((j + 1) % 8 != 0);
                        assert(rest[0] == ' ');
                    }
                }
            }
        }
        crate::import_irap_ascii::lemma_skip_ws_through(b, p, ts);
        assert(spec_skip_ws(b, ts) == ts);
        crate::import_irap_ascii::lemma_token_end_through(b, ts, te);
        assert(crate::import_irap_ascii::spec_next_token(b, p) == Some((ts, te)));
        assert forall|i: int| 0 <= i < tok.len() implies b.subrange(ts, te)[i] == text_bytes(
            tok,
        )[i] by {
            assert(b[ts + i] == b.subrange(p, b.len() as int)[ts + i - p]);
            assert(vt[ts + i - p] == tok[i]);
        }
        assert(b.subrange(ts, te) =~= text_bytes(tok));
        assert(token_is(b, p, 0, disk[j as int]));
        // The tail of the region is the grid text from the next position.
        assert forall|i: int| 0 <= i < rest.len() implies b.subrange(p2, b.len() as int)[i]
            == text_bytes(rest)[i] by {
            assert(b[p2 + i] == b.subrange(p, b.len() as int)[p2 + i - p]);
            assert(vt[p2 + i - p] == rest[i]);
        }
        assert(b.subrange(p2, b.len() as int) =~= text_bytes(rest));
        lemma_values_region_tokens(disk, b, p2, j + 1);
        // A token scan from the token's end and one from past the newline
        // agree: only whitespace separates them.
        assert forall|i: int| te <= i < p2 implies spec_is_ws(#[trigger] b[i]) by {
            assert(b[i] == b.subrange(p, b.len() as int)[i - p]);
            assert(vt[i - p] == '\n');
        }
        crate::import_irap_ascii::lemma_skip_ws_through(b, te, p2);
        assert(crate::import_irap_ascii::spec_next_token(b, te)
            == crate::import_irap_ascii::spec_next_token(b, p2));
        assert forall|i: nat|
            i < disk.len() - j implies #[trigger] token_is(b, p, i, disk[(j + i) as int]) by {
            if i == 0 {
                assert(token_is(b, p, 0, disk[j as int]));
            } else {
                let i1 = (i - 1) as nat;
                assert(token_is(b, p2, i1, disk[(j + 1 + i1) as int]));
                assert((j + 1 + i1) as int == (j + i) as int);
                assert(nth_token(b, p, i) == nth_token(b, te, i1));
                assert(nth_token(b, te, i1) == nth_token(b, p2, i1));
            }
        }
        assert(nth_token(b, p, (disk.len() - j) as nat) == nth_token(
            b,
            te,
            (disk.len() - j - 1) as nat,
        ));
        assert(nth_token(b, te, (disk.len() - j - 1) as nat) == nth_token(
            b,
            p2,
            (disk.len() - j - 1) as nat,
        ));
    }
}

/// The value grid a surface writer emits scans back into exactly one token
/// per grid cell, in disk order, with nothing after them: the text side of
/// the round trip, independent of any numeric parsing.
pub proof fn lemma_ascii_values_text_tokens(disk: Seq<u32>)
    ensures
        forall|i: nat|
            i < disk.len() ==> #[trigger] token_is(
                text_bytes(spec_values_text(disk, 0)),
                0,
                i,
                disk[i as int],
            ),
        nth_token(text_bytes(spec_values_text(disk, 0)), 0, disk.len()) is None,
{
    let b = text_bytes(spec_values_text(disk, 0));
    assert(b.subrange(0, b.len() as int) =~= b);
    lemma_values_region_tokens(disk, b, 0, 0);
    assert forall|i: nat| i < disk.len() implies #[trigger] token_is(b, 0, i, disk[i as int]) by {
        assert(token_is(b, 0, i, disk[(0 + i) as int]));
    }
}

/// The numeric value of a decimal rendering's digits is the number itself.
pub proof fn lemma_digits_val_round_trip(n: nat)
    ensures
        crate::import_irap_ascii::spec_all_digits(text_bytes(crate::ascii_num::dec_digits(n))),
        crate::import_irap_ascii::spec_digits_val(text_bytes(crate::ascii_num::dec_digits(n)))
            == n,
    decreases n,
{
    let d = text_bytes(crate::ascii_num::dec_digits(n));
    crate::ascii_num::lemma_dec_digits_chars(n);
    if n < 10 {
        assert(d.len() == 1);
        assert(d[0] == crate::ascii_num::digit_char(n as int) as u8);
        assert(d[0] == (n + 48) as u8);
        assert(d.drop_last() =~= Seq::<u8>::empty());
        assert(spec_digits_val(d) == spec_digits_val(d.drop_last()) * 10 + (d.last() - 0x30));
    } else {
        lemma_digits_val_round_trip(n / 10);
        assert(d.drop_last() =~= text_bytes(crate::ascii_num::dec_digits(n / 10)));
        assert(d.last() == crate::ascii_num::digit_char((n % 10) as int) as u8);
        assert(d.last() == ((n % 10 + 48) as u8));
        assert(spec_digits_val(d) == spec_digits_val(d.drop_last()) * 10 + (d.last() - 0x30));
    }
}

/// Printing an integer in decimal and parsing the text back yields the
/// integer: the round trip of the header's integer fields.
pub proof fn lemma_int_print_parse_round_trip(n: u32)
    requires
        n <= 0x7FFF_FFFF,
    ensures
        crate::import_irap_ascii::spec_parse_i32(text_bytes(crate::ascii_num::dec_digits(n as nat)))
            == Some(n as i32),
{
    let d = text_bytes(crate::ascii_num::dec_digits(n as nat));
    crate::ascii_num::lemma_dec_digits_chars(n as nat);
    lemma_digits_val_round_trip(n as nat);
    assert(d[0] != 0x2D && d[0] != 0x2B);
}

/// Token `i` (counting from byte position `p`) is exactly the text `t`.
pub open spec fn token_text_at(b: Seq<u8>, p: int, i: nat, t: Seq<char>) -> bool {
    match nth_token(b, p, i) {
        Some((s, e)) => 0 <= s && e <= b.len() && b.subrange(s, e) == text_bytes(t),
        None => false,
    }
}

/// A list of tokens, each followed by one separator character.
pub open spec fn join_tokens(ts: Seq<Seq<char>>, seps: Seq<char>) -> Seq<char>
    decreases ts.len(),
{
    if ts.len() == 0 {
        Seq::empty()
    } else {
        ts[0] + seq![seps[0]] + join_tokens(ts.drop_first(), seps.drop_first())
    }
}

/// A region holding tokens joined by single whitespace separators scans back
/// into exactly those tokens, and the scan continues after the region with
/// the token ordinals shifted by the region's token count.
pub proof fn lemma_join_region_tokens(ts: Seq<Seq<char>>, seps: Seq<char>, b: Seq<u8>, p: int)
    requires
        ts.len() == seps.len(),
        forall|i: int| 0 <= i < ts.len() ==> crate::ascii_num::token_chars(#[trigger] ts[i]),
        forall|i: int| 0 <= i < seps.len() ==> (#[trigger] seps[i] == ' ' || seps[i] == '\n'),
        0 <= p,
        p + join_tokens(ts, seps).len() <= b.len(),
        b.subrange(p, p + join_tokens(ts, seps).len()) == text_bytes(join_tokens(ts, seps)),
    ensures
        forall|i: nat| i < ts.len() ==> #[trigger] token_text_at(b, p, i, ts[i as int]),
        forall|k: nat| #[trigger]
            nth_token(b, p, (ts.len() + k) as nat) == nth_token(
                b,
                p + join_tokens(ts, seps).len(),
                k,
            ),
    decreases ts.len(),
{
    let jt = join_tokens(ts, seps);
    assert(text_bytes(jt).len() == jt.len());
    if ts.len() == 0 {
    } else {
        let t0 = ts[0];
        let jt2 = join_tokens(ts.drop_first(), seps.drop_first());
        assert(jt.len() == t0.len() + 1 + jt2.len());
        let te = p + t0.len();
        let p2 = te + 1;
        assert forall|i: int| p <= i < te implies !spec_is_ws(#[trigger] b[i]) by {
            assert(b[i] == b.subrange(p, p + jt.len() as int)[i - p]);
            assert(jt[i - p] == t0[i - p]);
            assert('!' <= t0[i - p] <= '~');
        }
        assert(b[te] == b.subrange(p, p + jt.len() as int)[te - p]);
        assert(jt[te - p] == seps[0]);
        assert(spec_is_ws(b[te]));
        assert(spec_skip_ws(b, p) == p);
        crate::import_irap_ascii::lemma_token_end_through(b, p, te);
        assert(crate::import_irap_ascii::spec_next_token(b, p) == Some((p, te)));
        assert forall|i: int| 0 <= i < t0.len() implies b.subrange(p, te)[i] == text_bytes(
            t0,
        )[i] by {
            assert(b[p + i] == b.subrange(p, p + jt.len() as int)[i]);
            assert(jt[i] == t0[i]);
        }
        assert(b.subrange(p, te) =~= text_bytes(t0));
        assert(token_text_at(b, p, 0, t0));
        // The tail of the region holds the remaining joined tokens.
        assert forall|i: int| 0 <= i < jt2.len() implies b.subrange(
            p2,
            p2 + jt2.len() as int,
        )[i] == text_bytes(jt2)[i] by {
            assert(b[p2 + i] == b.subrange(p, p + jt.len() as int)[p2 + i - p]);
            assert(jt[p2 + i - p] == jt2[i]);
        }
        assert(b.subrange(p2, p2 + jt2.len() as int) =~= text_bytes(jt2));
        lemma_join_region_tokens(ts.drop_first(), seps.drop_first(), b, p2);
        // A scan from the token's end crosses only the separator.
        crate::import_irap_ascii::lemma_skip_ws_through(b, te, p2);
        assert(crate::import_irap_ascii::spec_next_token(b, te)
            == crate::import_irap_ascii::spec_next_token(b, p2));
        assert forall|i: nat| i < ts.len() implies #[trigger] token_text_at(b, p, i, ts[i as int]) by {
            if i >= 1 {
                let i1 = (i - 1) as nat;
                assert(token_text_at(b, p2, i1, ts.drop_first()[i1 as int]));
                assert(ts.drop_first()[i1 as int] == ts[i as int]);
                assert(nth_token(b, p, i) == nth_token(b, te, i1));
                assert(nth_token(b, te, i1) == nth_token(b, p2, i1));
            }
        }
        assert forall|k: nat| #[trigger]
            nth_token(b, p, (ts.len() + k) as nat) == nth_token(b, p + jt.len() as int, k) by {
            let k1 = ((ts.len() - 1) + k) as nat;
            assert(nth_token(b, p, (ts.len() + k) as nat) == nth_token(b, te, k1));
            assert(nth_token(b, te, k1) == nth_token(b, p2, k1));
            assert(nth_token(b, p2, (ts.drop_first().len() + k) as nat) == nth_token(
                b,
                p2 + jt2.len() as int,
                k,
            ));
        }
    }
}

/// Collecting parsed values succeeds whenever every token exists and has an
/// entry in the parse table, and yields exactly the table's entries.
pub proof fn lemma_collect_floats_total(
    b: Seq<u8>,
    floats: Seq<Option<(u64, u32)>>,
    t0: nat,
    n: nat,
)
    requires
        forall|k: nat| k < t0 + n ==> #[trigger] nth_token(b, 0, k) is Some,
        floats.len() >= t0 + n,
        forall|k: nat| k < t0 + n ==> #[trigger] floats[k as int] is Some,
    ensures
        crate::import_irap_ascii::spec_collect_floats(b, floats, t0, n) == Ok::<
            Seq<(u64, u32)>,
            IrapError,
        >(Seq::new(n, |i: int| floats[t0 + i]->Some_0)),
    decreases n,
{
    if n == 0 {
        assert(Seq::new(0, |i: int| floats[t0 + i]->Some_0) =~= Seq::<(u64, u32)>::empty());
    } else {
        lemma_collect_floats_total(b, floats, t0 + 1, (n - 1) as nat);
        assert(nth_token(b, 0, t0) is Some);
        assert(floats[t0 as int] is Some);
        assert(seq![floats[t0 as int]->Some_0] + Seq::new(
            (n - 1) as nat,
            |i: int| floats[t0 + 1 + i]->Some_0,
        ) =~= Seq::new(n, |i: int| floats[t0 + i]->Some_0));
    }
}

/// The text round trip of the value grid, up to numeric parsing: the grid a
/// writer emits decodes successfully under any parse table with one entry
/// per token, and the result is exactly the table's values passed through
/// the text sentinel rule and placed back in row-major order. What the
/// numeric parser does to each token is the one thing left open.
pub proof fn lemma_ascii_values_round_trip(
    values: Seq<u32>,
    floats: Seq<Option<(u64, u32)>>,
    ncol: int,
    nrow: int,
)
    requires
        1 <= ncol,
        1 <= nrow,
        values.len() == ncol * nrow,
        floats.len() >= values.len(),
        forall|k: nat| k < values.len() ==> #[trigger] floats[k as int] is Some,
    ensures
        ({
            let disk = crate::export_irap_ascii::spec_ascii_disk(values, ncol, nrow);
            let b = text_bytes(spec_values_text(disk, 0));
            crate::import_irap_ascii::spec_read_values_ascii(b, floats, 0, ncol, nrow) == Ok::<
                Seq<u32>,
                IrapError,
            >(
                Seq::new(
                    (ncol * nrow) as nat,
                    |s: int|
                        crate::ieee::spec_decode_sentinel_ascii(
                            floats[crate::utils::cm_to_rm(s, nrow, ncol)]->Some_0.0,
                            floats[crate::utils::cm_to_rm(s, nrow, ncol)]->Some_0.1,
                        ),
                ),
            )
        }),
{
    let n = values.len();
    let disk = crate::export_irap_ascii::spec_ascii_disk(values, ncol, nrow);
    let b = text_bytes(spec_values_text(disk, 0));
    lemma_ascii_values_text_tokens(disk);
    assert forall|k: nat| k < 0 + n implies #[trigger] nth_token(b, 0, k) is Some by {
        assert(token_is(b, 0, k, disk[k as int]));
    }
    lemma_collect_floats_total(b, floats, 0, n);
    let pairs = Seq::new(n, |i: int| floats[0 + i]->Some_0);
    let got = Seq::new(
        n,
        |s: int|
            crate::ieee::spec_decode_sentinel_ascii(
                pairs[crate::utils::cm_to_rm(s, nrow, ncol)].0,
                pairs[crate::utils::cm_to_rm(s, nrow, ncol)].1,
            ),
    );
    let expect = Seq::new(
        (ncol * nrow) as nat,
        |s: int|
            crate::ieee::spec_decode_sentinel_ascii(
                floats[crate::utils::cm_to_rm(s, nrow, ncol)]->Some_0.0,
                floats[crate::utils::cm_to_rm(s, nrow, ncol)]->Some_0.1,
            ),
    );
    assert forall|s: int| 0 <= s < n implies got[s] == expect[s] by {
        assert(nrow * ncol == ncol * nrow) by (nonlinear_arith);
        lemma_cm_to_rm_inverse(s, nrow, ncol);
    }
    assert(got =~= expect);
}

/// The 19 header tokens a text writer emits, in stream order.
pub open spec fn spec_header_tokens(h: IrapHeader) -> Seq<Seq<char>> {
    seq![
        "-996"@,
        crate::ascii_num::dec_digits(h.nrow as nat),
        crate::export_irap_ascii::spec_fmt_fixed4(h.xinc),
        crate::export_irap_ascii::spec_fmt_fixed4(h.yinc),
        crate::export_irap_ascii::spec_fmt_fixed4(h.xori),
        crate::export_irap_ascii::spec_fmt_fixed4(h.xmax),
        crate::export_irap_ascii::spec_fmt_fixed4(h.yori),
        crate::export_irap_ascii::spec_fmt_fixed4(h.ymax),
        crate::ascii_num::dec_digits(h.ncol as nat),
        crate::export_irap_ascii::spec_fmt_fixed4(h.rot),
        crate::export_irap_ascii::spec_fmt_fixed4(h.xrot),
        crate::export_irap_ascii::spec_fmt_fixed4(h.yrot),
        "0"@,
        "0"@,
        "0"@,
        "0"@,
        "0"@,
        "0"@,
        "0"@,
    ]
}

/// The separator after each header token: a space within a line, a newline
/// at the end of each of the four lines.
pub open spec fn spec_header_seps() -> Seq<char> {
    seq![
        ' ',
        ' ',
        ' ',
        '\n',
        ' ',
        ' ',
        ' ',
        '\n',
        ' ',
        ' ',
        ' ',
        '\n',
        ' ',
        ' ',
        ' ',
        ' ',
        ' ',
        ' ',
        '\n',
    ]
}

/// The header text is its 19 tokens joined by their separators.
#[verifier::rlimit(100)]
#[verifier::spinoff_prover]
pub proof fn lemma_header_text_is_join(h: IrapHeader)
    ensures
        crate::export_irap_ascii::spec_header_text(h) == join_tokens(
            spec_header_tokens(h),
            spec_header_seps(),
        ),
{
    reveal_with_fuel(join_tokens, 21);
    reveal_strlit("-996");
    reveal_strlit("-996 ");
    reveal_strlit("0");
    reveal_strlit("0 0 0 0 0 0 0\n");
    reveal_strlit(" ");
    reveal_strlit("\n");
    assert(crate::export_irap_ascii::spec_header_text(h) =~= join_tokens(
        spec_header_tokens(h),
        spec_header_seps(),
    ));
}

/// Every header token is a nonempty whitespace-free token.
pub proof fn lemma_header_tokens_wf(h: IrapHeader)
    ensures
        forall|i: int|
            0 <= i < 19 ==> crate::ascii_num::token_chars(#[trigger] spec_header_tokens(h)[i]),
{
    reveal_strlit("-996");
    reveal_strlit("0");
    crate::ascii_num::lemma_dec_digits_chars(h.nrow as nat);
    crate::ascii_num::lemma_dec_digits_chars(h.ncol as nat);
    crate::export_irap_ascii::lemma_fmt_fixed4_token(h.xinc);
    crate::export_irap_ascii::lemma_fmt_fixed4_token(h.yinc);
    crate::export_irap_ascii::lemma_fmt_fixed4_token(h.xori);
    crate::export_irap_ascii::lemma_fmt_fixed4_token(h.xmax);
    crate::export_irap_ascii::lemma_fmt_fixed4_token(h.yori);
    crate::export_irap_ascii::lemma_fmt_fixed4_token(h.ymax);
    crate::export_irap_ascii::lemma_fmt_fixed4_token(h.rot);
    crate::export_irap_ascii::lemma_fmt_fixed4_token(h.xrot);
    crate::export_irap_ascii::lemma_fmt_fixed4_token(h.yrot);
    assert(crate::ascii_num::token_chars("-996"@));
    assert(crate::ascii_num::token_chars("0"@));
    assert forall|i: int|
        0 <= i < 19 implies crate::ascii_num::token_chars(
        #[trigger] spec_header_tokens(h)[i],
    ) by {}
}

/// The structural round trip of the whole text codec, up to numeric parsing:
/// decoding the text a writer emits succeeds under any parse table with one
/// entry per token, preserves both grid dimensions exactly, takes the
/// geometry fields from the table's entries for the header tokens (the
/// rotation normalized), and yields the table's value entries thresholded
/// and placed back in row-major order. Only the numeric relation between a
/// written token and its parsed value is outside the verified code.
#[verifier::rlimit(100)]
#[verifier::spinoff_prover]
pub proof fn lemma_ascii_structural_round_trip(irap: Irap, floats: Seq<Option<(u64, u32)>>)
    requires
        irap.wf(),
        irap.header.ncol <= 0x7FFF_FFFF,
        irap.header.nrow <= 0x7FFF_FFFF,
        floats.len() >= 19 + irap.values@.len(),
        forall|k: int| 0 <= k < 19 + irap.values@.len() ==> #[trigger] floats[k] is Some,
    ensures
        ({
            let b = text_bytes(crate::export_irap_ascii::spec_encode_ascii(irap));
            let h = irap.header;
            crate::import_irap_ascii::spec_decode_ascii(b, floats) == Ok::<
                (IrapHeader, Seq<u32>),
                IrapError,
            >(
                (
                    IrapHeader {
                        ncol: h.ncol,
                        nrow: h.nrow,
                        xori: floats[4]->Some_0.1,
                        yori: floats[6]->Some_0.1,
                        xmax: floats[5]->Some_0.1,
                        ymax: floats[7]->Some_0.1,
                        xinc: floats[2]->Some_0.1,
                        yinc: floats[3]->Some_0.1,
                        rot: if crate::ieee::spec_is_neg64(floats[9]->Some_0.0) {
                            crate::ieee::spec_rot_plus_360(floats[9]->Some_0.1)
                        } else {
                            floats[9]->Some_0.1
                        },
                        xrot: floats[10]->Some_0.1,
                        yrot: floats[11]->Some_0.1,
                    },
                    Seq::new(
                        irap.values@.len(),
                        |s: int|
                            crate::ieee::spec_decode_sentinel_ascii(
                                floats[19 + crate::utils::cm_to_rm(
                                    s,
                                    h.nrow as int,
                                    h.ncol as int,
                                )]->Some_0.0,
                                floats[19 + crate::utils::cm_to_rm(
                                    s,
                                    h.nrow as int,
                                    h.ncol as int,
                                )]->Some_0.1,
                            ),
                    ),
                ),
            )
        }),
{
    let h = irap.header;
    let ncol = h.ncol as int;
    let nrow = h.nrow as int;
    let n = irap.values@.len();
    let disk = crate::export_irap_ascii::spec_ascii_disk(irap.values@, ncol, nrow);
    let ht = crate::export_irap_ascii::spec_header_text(h);
    let vt = spec_values_text(disk, 0);
    let b = text_bytes(crate::export_irap_ascii::spec_encode_ascii(irap));
    assert(b =~= text_bytes(ht) + text_bytes(vt));
    lemma_header_text_is_join(h);
    lemma_header_tokens_wf(h);
    let ts = spec_header_tokens(h);
    let seps = spec_header_seps();
    let jt = join_tokens(ts, seps);
    assert(text_bytes(jt).len() == jt.len());
    let ll = jt.len() as int;
    assert forall|i: int| 0 <= i < ll implies b.subrange(0, ll)[i] == text_bytes(jt)[i] by {
        assert(b[i] == text_bytes(ht)[i]);
    }
    assert(b.subrange(0, ll) =~= text_bytes(jt));
    lemma_join_region_tokens(ts, seps, b, 0);
    assert forall|i: int| 0 <= i < vt.len() implies b.subrange(ll, b.len() as int)[i]
        == text_bytes(vt)[i] by {
        assert(b[ll + i] == text_bytes(vt)[i]);
    }
    assert(b.subrange(ll, b.len() as int) =~= text_bytes(vt));
    lemma_values_region_tokens(disk, b, ll, 0);
    // Every token of the stream exists: 19 header tokens, then one per cell.
    assert(disk.len() == n);
    assert forall|k: nat| k < 19 + n implies #[trigger] nth_token(b, 0, k) is Some by {
        if k < 19 {
            assert(token_text_at(b, 0, k, ts[k as int]));
        } else {
            let i = (k - 19) as nat;
            assert(nth_token(b, 0, (ts.len() + i) as nat) == nth_token(b, ll, i));
            assert(token_is(b, ll, i, disk[(0 + i) as int]));
        }
    }
    // The integer fields parse back to the numbers that were printed.
    reveal_strlit("-996");
    let t996 = text_bytes("-996"@);
    assert(t996[0] == 0x2D && t996.len() == 4);
    let d996 = t996.drop_first();
    assert(d996 =~= seq![0x39u8, 0x39u8, 0x36u8]);
    assert(spec_digits_val(Seq::<u8>::empty()) == 0);
    assert(seq![0x39u8].drop_last() =~= Seq::<u8>::empty());
    assert(spec_digits_val(seq![0x39u8]) == 9);
    assert(seq![0x39u8, 0x39u8].drop_last() =~= seq![0x39u8]);
    assert(spec_digits_val(seq![0x39u8, 0x39u8]) == 99);
    assert(d996.drop_last() =~= seq![0x39u8, 0x39u8]);
    assert(spec_digits_val(d996) == 996);
    assert(crate::import_irap_ascii::spec_all_digits(d996));
    assert(crate::import_irap_ascii::spec_parse_i32(t996) == Some(-996i32));
    lemma_int_print_parse_round_trip(h.nrow);
    lemma_int_print_parse_round_trip(h.ncol);
    // Read each header field off its token.
    assert(token_text_at(b, 0, 0, ts[0]));
    assert(crate::import_irap_ascii::spec_int_field(b, 0) == Ok::<i32, IrapError>(-996i32));
    assert(token_text_at(b, 0, 1, ts[1]));
    assert(crate::import_irap_ascii::spec_int_field(b, 1) == Ok::<i32, IrapError>(
        h.nrow as i32,
    ));
    assert(token_text_at(b, 0, 8, ts[8]));
    assert(crate::import_irap_ascii::spec_int_field(b, 8) == Ok::<i32, IrapError>(
        h.ncol as i32,
    ));
    assert forall|k: int|
        2 <= k < 19 && k != 8 implies crate::import_irap_ascii::spec_float_field(
        b,
        floats,
        k as nat,
    ) == Ok::<(u64, u32), IrapError>(floats[k]->Some_0) by {
        assert(nth_token(b, 0, k as nat) is Some);
        assert(floats[k] is Some);
    }
    reveal_with_fuel(crate::import_irap_ascii::spec_dummies, 9);
    assert(crate::import_irap_ascii::spec_dummies(b, floats, 12, 7) == Ok::<(), IrapError>(()));
    assert((h.nrow as i32) as u32 == h.nrow);
    assert((h.ncol as i32) as u32 == h.ncol);
    let expect_h = IrapHeader {
        ncol: h.ncol,
        nrow: h.nrow,
        xori: floats[4]->Some_0.1,
        yori: floats[6]->Some_0.1,
        xmax: floats[5]->Some_0.1,
        ymax: floats[7]->Some_0.1,
        xinc: floats[2]->Some_0.1,
        yinc: floats[3]->Some_0.1,
        rot: if crate::ieee::spec_is_neg64(floats[9]->Some_0.0) {
            crate::ieee::spec_rot_plus_360(floats[9]->Some_0.1)
        } else {
            floats[9]->Some_0.1
        },
        xrot: floats[10]->Some_0.1,
        yrot: floats[11]->Some_0.1,
    };
    assert(crate::import_irap_ascii::spec_read_header_ascii(b, floats) == Ok::<
        IrapHeader,
        IrapError,
    >(expect_h));
    // The value tokens collect into the table's entries and land row-major.
    lemma_collect_floats_total(b, floats, 19, n);
    let pairs = Seq::new(n, |i: int| floats[19 + i]->Some_0);
    let got = Seq::new(
        (ncol * nrow) as nat,
        |s: int|
            crate::ieee::spec_decode_sentinel_ascii(
                pairs[crate::utils::cm_to_rm(s, nrow, ncol)].0,
                pairs[crate::utils::cm_to_rm(s, nrow, ncol)].1,
            ),
    );
    let expect_v = Seq::new(
        n,
        |s: int|
            crate::ieee::spec_decode_sentinel_ascii(
                floats[19 + crate::utils::cm_to_rm(s, nrow, ncol)]->Some_0.0,
                floats[19 + crate::utils::cm_to_rm(s, nrow, ncol)]->Some_0.1,
            ),
    );
    assert forall|s: int| 0 <= s < n implies got[s] == expect_v[s] by {
        assert(nrow * ncol == ncol * nrow) by (nonlinear_arith);
        lemma_cm_to_rm_inverse(s, nrow, ncol);
    }
    assert(got =~= expect_v);
    assert(crate::import_irap_ascii::spec_read_values_ascii(b, floats, 19, ncol, nrow) == Ok::<
        Seq<u32>,
        IrapError,
    >(expect_v));
}

/// The value-grid text is pure ASCII.
pub proof fn lemma_values_text_ascii(disk: Seq<u32>, j: nat)
    requires
        j <= disk.len(),
    ensures
        vstd::utf8::is_ascii_chars(spec_values_text(disk, j)),
    decreases disk.len() - j,
{
    reveal_strlit(" ");
    reveal_strlit("\n");
    let vt = spec_values_text(disk, j);
    if j == disk.len() {
        assert forall|i: int| 0 <= i < vt.len() implies '\0' <= #[trigger] vt[i] <= '\u{7f}' by {
            assert(vt[i] == '\n');
        }
    } else {
        crate::export_irap_ascii::lemma_value_token_chars(disk[j as int]);
        lemma_values_text_ascii(disk, j + 1);
        let sep: Seq<char> = if j % 8 != 0 {
            " "@
        } else {
            Seq::empty()
        };
        let tok = spec_value_token(disk[j as int]);
        let nl: Seq<char> = if j % 8 == 7 {
            "\n"@
        } else {
            Seq::empty()
        };
        let rest = spec_values_text(disk, j + 1);
        assert forall|i: int| 0 <= i < vt.len() implies '\0' <= #[trigger] vt[i] <= '\u{7f}' by {
            if i < sep.len() {
                assert(vt[i] == ' ');
            } else if i < sep.len() + tok.len() {
                assert(vt[i] == tok[i - sep.len()]);
            } else if i < sep.len() + tok.len() + nl.len() {
                assert(vt[i] == '\n');
            } else {
                assert(vt[i] == rest[i - sep.len() - tok.len() - nl.len()]);
            }
        }
    }
}

/// A whitespace-joined token list is pure ASCII.
pub proof fn lemma_join_tokens_ascii(ts: Seq<Seq<char>>, seps: Seq<char>)
    requires
        ts.len() == seps.len(),
        forall|i: int| 0 <= i < ts.len() ==> crate::ascii_num::token_chars(#[trigger] ts[i]),
        forall|i: int| 0 <= i < seps.len() ==> (#[trigger] seps[i] == ' ' || seps[i] == '\n'),
    ensures
        vstd::utf8::is_ascii_chars(join_tokens(ts, seps)),
    decreases ts.len(),
{
    let jt = join_tokens(ts, seps);
    if ts.len() == 0 {
        assert forall|i: int| 0 <= i < jt.len() implies '\0' <= #[trigger] jt[i] <= '\u{7f}' by {}
    } else {
        lemma_join_tokens_ascii(ts.drop_first(), seps.drop_first());
        let t0 = ts[0];
        let rest = join_tokens(ts.drop_first(), seps.drop_first());
        assert forall|i: int| 0 <= i < jt.len() implies '\0' <= #[trigger] jt[i] <= '\u{7f}' by {
            if i < t0.len() {
                assert(jt[i] == t0[i]);
            } else if i == t0.len() {
                assert(jt[i] == seps[0]);
            } else {
                assert(jt[i] == rest[i - t0.len() - 1]);
            }
        }
    }
}

/// The whole encoded text is pure ASCII, so the byte view of the string the
/// text writer returns is exactly the one-byte-per-character mapping the
/// round-trip laws speak of: this connects `to_string`'s result, whose UTF-8
/// bytes a reader sees, to `read_string`'s byte-level contract.
pub proof fn lemma_encode_ascii_bytes(irap: Irap)
    requires
        irap.wf(),
    ensures
        vstd::utf8::is_ascii_chars(crate::export_irap_ascii::spec_encode_ascii(irap)),
        vstd::utf8::encode_utf8(crate::export_irap_ascii::spec_encode_ascii(irap)) == text_bytes(
            crate::export_irap_ascii::spec_encode_ascii(irap),
        ),
{
    let h = irap.header;
    let disk = crate::export_irap_ascii::spec_ascii_disk(
        irap.values@,
        h.ncol as int,
        h.nrow as int,
    );
    let ht = crate::export_irap_ascii::spec_header_text(h);
    let vt = spec_values_text(disk, 0);
    let cs = crate::export_irap_ascii::spec_encode_ascii(irap);
    lemma_header_text_is_join(h);
    lemma_header_tokens_wf(h);
    lemma_join_tokens_ascii(spec_header_tokens(h), spec_header_seps());
    lemma_values_text_ascii(disk, 0);
    assert forall|i: int| 0 <= i < cs.len() implies '\0' <= #[trigger] cs[i] <= '\u{7f}' by {
        if i < ht.len() {
            assert(cs[i] == ht[i]);
        } else {
            assert(cs[i] == vt[i - ht.len()]);
        }
    }
    vstd::utf8::is_ascii_chars_encode_utf8(cs);
    assert(vstd::utf8::encode_utf8(cs) =~= text_bytes(cs));
}

/// A binary stream that passes the first record's length check but does not
/// open with the magic number is refused with a format error, whatever else
/// it holds.
pub proof fn lemma_binary_magic_checked(b: Seq<u8>)
    requires
        b.len() >= 40,
        crate::words::word_at(b, 0) == 32,
        crate::words::word_at(b, 4) != crate::irap::IRAP_HEADER_ID_WORD,
    ensures
        spec_decode_binary(b) == Err::<(IrapHeader, Seq<u32>), IrapError>(
            IrapError::BadMagic { actual: crate::words::word_at(b, 4) },
        ),
{
}

} // verus!
