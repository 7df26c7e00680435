use vstd::prelude::*;
use crate::irap::Irap;
use crate::irap::IrapError;
use crate::irap::IrapHeader;
use vstd::string::StringSliceAdditionalSpecFns;

verus! {

// The text decoder scans whitespace-delimited tokens. Integer tokens are
// parsed here; the numeric value of a floating token is opaque to the
// verified code (the caller parses each token and hands the bit patterns
// in), so the decoding logic below is verified for every such assignment.
/// The six ASCII whitespace bytes the tokenizer skips.
pub open spec fn spec_is_ws(c: u8) -> bool {
    c == 0x20 || c == 0x09 || c == 0x0A || c == 0x0D || c == 0x0C || c == 0x0B
}

pub fn is_ascii_whitespace(byte: u8) -> (r: bool)
    ensures
        r == spec_is_ws(byte),
{
    byte == 0x20 || byte == 0x09 || byte == 0x0A || byte == 0x0D || byte == 0x0C || byte == 0x0B
}

/// The first position at or after `pos` holding a non-whitespace byte, or
/// the end of the buffer.
pub open spec fn spec_skip_ws(b: Seq<u8>, pos: int) -> int
    decreases b.len() - pos,
{
    if pos < 0 || pos >= b.len() {
        b.len() as int
    } else if spec_is_ws(b[pos]) {
        spec_skip_ws(b, pos + 1)
    } else {
        pos
    }
}

pub proof fn lemma_skip_ws_bounds(b: Seq<u8>, pos: int)
    requires
        0 <= pos <= b.len(),
    ensures
        pos <= spec_skip_ws(b, pos) <= b.len(),
        spec_skip_ws(b, pos) < b.len() ==> !spec_is_ws(b[spec_skip_ws(b, pos)]),
    decreases b.len() - pos,
{
    if pos < b.len() && spec_is_ws(b[pos]) {
        lemma_skip_ws_bounds(b, pos + 1);
    }
}

/// The first position at or after `pos` holding a whitespace byte, or the
/// end of the buffer: the end of a token that starts at `pos`.
pub open spec fn spec_token_end(b: Seq<u8>, pos: int) -> int
    decreases b.len() - pos,
{
    if pos < 0 || pos >= b.len() {
        b.len() as int
    } else if spec_is_ws(b[pos]) {
        pos
    } else {
        spec_token_end(b, pos + 1)
    }
}

pub proof fn lemma_token_end_bounds(b: Seq<u8>, pos: int)
    requires
        0 <= pos <= b.len(),
    ensures
        pos <= spec_token_end(b, pos) <= b.len(),
    decreases b.len() - pos,
{
    if pos < b.len() && !spec_is_ws(b[pos]) {
        lemma_token_end_bounds(b, pos + 1);
    }
}

/// A run of whitespace bytes does not move the scan's outcome.
pub proof fn lemma_skip_ws_through(b: Seq<u8>, pos: int, k: int)
    requires
        0 <= pos <= k <= b.len(),
        forall|i: int| pos <= i < k ==> spec_is_ws(#[trigger] b[i]),
    ensures
        spec_skip_ws(b, pos) == spec_skip_ws(b, k),
    decreases k - pos,
{
    if pos < k {
        lemma_skip_ws_through(b, pos + 1, k);
    }
}

/// A token's end is the first whitespace byte (or the end of the buffer)
/// after its non-whitespace run.
pub proof fn lemma_token_end_through(b: Seq<u8>, pos: int, k: int)
    requires
        0 <= pos <= k <= b.len(),
        forall|i: int| pos <= i < k ==> !spec_is_ws(#[trigger] b[i]),
        k == b.len() || spec_is_ws(b[k]),
    ensures
        spec_token_end(b, pos) == k,
    decreases k - pos,
{
    if pos < k {
        lemma_token_end_through(b, pos + 1, k);
    }
}

/// The next whitespace-delimited token at or after `pos`: its start and end,
/// or None when only whitespace is left.
pub open spec fn spec_next_token(b: Seq<u8>, pos: int) -> Option<(int, int)> {
    let s = spec_skip_ws(b, pos);
    if s >= b.len() {
        None
    } else {
        Some((s, spec_token_end(b, s)))
    }
}

/// The `k`-th whitespace-delimited token at or after `pos`.
pub open spec fn nth_token(b: Seq<u8>, pos: int, k: nat) -> Option<(int, int)>
    decreases k,
{
    match spec_next_token(b, pos) {
        None => None,
        Some((s, e)) => if k == 0 {
            Some((s, e))
        } else {
            nth_token(b, e, (k - 1) as nat)
        },
    }
}

/// Skips a run of whitespace: returns the first position at or after `from`
/// holding a non-whitespace byte, or the end of the buffer.
pub fn skip_whitespace(buffer: &[u8], from: usize) -> (r: usize)
    requires
        from <= buffer@.len(),
    ensures
        r == spec_skip_ws(buffer@, from as int),
        from <= r <= buffer@.len(),
{
    let mut i = from;
    let n = buffer.len();
    while i < n
        invariant
            from <= i <= n == buffer@.len(),
            spec_skip_ws(buffer@, from as int) == spec_skip_ws(buffer@, i as int),
        decreases n - i,
    {
        if !is_ascii_whitespace(buffer[i]) {
            return i;
        }
        i = i + 1;
    }
    i
}

/// Finds the end of the token that starts at `from`.
pub fn token_end(buffer: &[u8], from: usize) -> (r: usize)
    requires
        from <= buffer@.len(),
    ensures
        r == spec_token_end(buffer@, from as int),
        from <= r <= buffer@.len(),
{
    let mut i = from;
    let n = buffer.len();
    while i < n
        invariant
            from <= i <= n == buffer@.len(),
            spec_token_end(buffer@, from as int) == spec_token_end(buffer@, i as int),
        decreases n - i,
    {
        if is_ascii_whitespace(buffer[i]) {
            return i;
        }
        i = i + 1;
    }
    i
}

/// Scans the next whitespace-delimited token at or after `from`.
pub fn next_token(buffer: &[u8], from: usize) -> (r: Option<(usize, usize)>)
    requires
        from <= buffer@.len(),
    ensures
        match r {
            Some((s, e)) => spec_next_token(buffer@, from as int) == Some((s as int, e as int))
                && from <= s < e <= buffer@.len(),
            None => spec_next_token(buffer@, from as int) is None,
        },
{
    let s = skip_whitespace(buffer, from);
    if s >= buffer.len() {
        None
    } else {
        let e = token_end(buffer, s);
        proof {
            lemma_skip_ws_bounds(buffer@, from as int);
            assert(!spec_is_ws(buffer@[s as int]));
            assert(spec_token_end(buffer@, s as int) == spec_token_end(buffer@, s as int + 1));
            lemma_token_end_bounds(buffer@, s as int + 1);
        }
        Some((s, e))
    }
}

/// Splits the whole buffer into its whitespace-delimited tokens.
pub fn tokenize(buffer: &[u8]) -> (tokens: Vec<(usize, usize)>)
    ensures
        forall|k: int|
            0 <= k < tokens@.len() ==> #[trigger] nth_token(buffer@, 0, k as nat) == Some(
                (tokens@[k].0 as int, tokens@[k].1 as int),
            ),
        nth_token(buffer@, 0, tokens@.len() as nat) is None,
{
    let mut tokens: Vec<(usize, usize)> = Vec::new();
    let mut pos: usize = 0;
    loop
        invariant
            pos <= buffer@.len(),
            forall|k: nat| #[trigger]
                nth_token(buffer@, pos as int, k) == nth_token(
                    buffer@,
                    0,
                    (tokens@.len() + k) as nat,
                ),
            forall|k: int|
                0 <= k < tokens@.len() ==> #[trigger] nth_token(buffer@, 0, k as nat) == Some(
                    (tokens@[k].0 as int, tokens@[k].1 as int),
                ),
        decreases buffer@.len() - pos,
    {
        match next_token(buffer, pos) {
            None => {
                proof {
                    assert(nth_token(buffer@, pos as int, 0) == nth_token(
                        buffer@,
                        0,
                        tokens@.len() as nat,
                    ));
                }
                return tokens;
            },
            Some((s, e)) => {
                let ghost used = tokens@.len() as nat;
                tokens.push((s, e));
                proof {
                    assert(nth_token(buffer@, pos as int, 0) == Some((s as int, e as int)));
                    assert forall|k: nat| #[trigger]
                        nth_token(buffer@, e as int, k) == nth_token(
                            buffer@,
                            0,
                            (tokens@.len() + k) as nat,
                        ) by {
                        assert(nth_token(buffer@, pos as int, (k + 1) as nat) == nth_token(
                            buffer@,
                            e as int,
                            k,
                        ));
                        assert(nth_token(buffer@, pos as int, (k + 1) as nat) == nth_token(
                            buffer@,
                            0,
                            (used + k + 1) as nat,
                        ));
                    }
                }
                pos = e;
            },
        }
    }
}

/// All bytes of the token are decimal digits.
pub open spec fn spec_all_digits(t: Seq<u8>) -> bool {
    forall|i: int| 0 <= i < t.len() ==> 0x30 <= #[trigger] t[i] <= 0x39
}

/// The numeric value of a digit string.
pub open spec fn spec_digits_val(t: Seq<u8>) -> nat
    decreases t.len(),
{
    if t.len() == 0 {
        0
    } else {
        spec_digits_val(t.drop_last()) * 10 + (t.last() - 0x30) as nat
    }
}

/// What a whole token means as a signed 32-bit integer: an optional sign,
/// then at least one digit, in range; anything else is refused.
pub open spec fn spec_parse_i32(t: Seq<u8>) -> Option<i32> {
    let (neg, digits): (bool, Seq<u8>) = if t.len() > 0 && t[0] == 0x2D {
        (true, t.drop_first())
    } else if t.len() > 0 && t[0] == 0x2B {
        (false, t.drop_first())
    } else {
        (false, t)
    };
    if digits.len() == 0 || !spec_all_digits(digits) {
        None
    } else {
        let v = spec_digits_val(digits);
        if neg && v <= 0x8000_0000 {
            Some((-(v as int)) as i32)
        } else if !neg && v <= 0x7FFF_FFFF {
            Some(v as i32)
        } else {
            None
        }
    }
}

/// Parses the digit run `t[from..to]`, exactly when every byte is a digit
/// and the value fits; the accumulator saturates above the 32-bit range so
/// oversized values are refused without overflow.
fn parse_digits(t: &[u8], from: usize, to: usize) -> (r: Option<u64>)
    requires
        from <= to <= t@.len(),
    ensures
        ({
            let d = t@.subrange(from as int, to as int);
            match r {
                Some(v) => spec_all_digits(d) && d.len() > 0 && v == spec_digits_val(d) && v
                    <= 0x8000_0000,
                None => d.len() == 0 || !spec_all_digits(d) || spec_digits_val(d) > 0x8000_0000,
            }
        }),
{
    if from == to {
        return None;
    }
    let ghost d = t@.subrange(from as int, to as int);
    let mut acc: u64 = 0;
    let mut i = from;
    while i < to
        invariant
            from <= i <= to <= t@.len(),
            d == t@.subrange(from as int, to as int),
            spec_all_digits(t@.subrange(from as int, i as int)),
            acc <= 0x1_0000_0000u64 * 10 + 9,
            acc < 0x1_0000_0000 ==> acc == spec_digits_val(t@.subrange(from as int, i as int)),
            acc >= 0x1_0000_0000 ==> spec_digits_val(t@.subrange(from as int, i as int))
                >= 0x1_0000_0000,
        decreases to - i,
    {
        let c = t[i];
        if c < 0x30 || c > 0x39 {
            proof {
                assert(d[i - from] == t@[i as int]);
            }
            return None;
        }
        let dig = (c - 0x30) as u64;
        proof {
            let pre = t@.subrange(from as int, i as int);
            let cur = t@.subrange(from as int, i as int + 1);
            assert(cur.drop_last() =~= pre);
            assert(cur.last() == t@[i as int]);
            assert(spec_digits_val(cur) == spec_digits_val(pre) * 10 + (t@[i as int] - 0x30));
            assert(spec_all_digits(cur));
            if acc >= 0x1_0000_0000 {
                assert(spec_digits_val(pre) * 10 + (t@[i as int] - 0x30) >= 0x1_0000_0000)
                    by (nonlinear_arith)
                    requires
                        spec_digits_val(pre) >= 0x1_0000_0000,
                        t@[i as int] >= 0x30,
                ;
            }
        }
        if acc >= 0x1_0000_0000 {
            acc = 0x1_0000_0000;
        } else {
            acc = acc * 10 + dig;
        }
        i = i + 1;
    }
    proof {
        assert(t@.subrange(from as int, to as int) =~= d);
    }
    if acc > 0x8000_0000 {
        None
    } else {
        Some(acc)
    }
}

/// Reads the next token and parses it as a signed 32-bit integer, returning
/// the value and the position just past the token.
pub fn read_value_int(buffer: &[u8], from: usize) -> (r: Result<(i32, usize), IrapError>)
    requires
        from <= buffer@.len(),
    ensures
        match r {
            Ok((v, end)) => from < end <= buffer@.len() && ({
                match spec_next_token(buffer@, from as int) {
                    Some((s, e)) => end == e && spec_parse_i32(
                        buffer@.subrange(s, e),
                    ) == Some(v),
                    None => false,
                }
            }),
            Err(e) => e == spec_read_int_err(buffer@, from as int) && (e
                == IrapError::UnexpectedEnd || e == IrapError::MalformedNumber),
        },
        r is Err <==> spec_next_token(buffer@, from as int) is None || spec_parse_i32(
            spec_token_bytes(buffer@, from as int),
        ) is None,
{
    let (s, e) = match next_token(buffer, from) {
        None => {
            return Err(IrapError::UnexpectedEnd);
        },
        Some(p) => p,
    };
    let ghost tok = buffer@.subrange(s as int, e as int);
    let (neg, ds) = if buffer[s] == 0x2D {
        (true, s + 1)
    } else if buffer[s] == 0x2B {
        (false, s + 1)
    } else {
        (false, s)
    };
    proof {
        if ds > s {
            assert(tok.drop_first() =~= buffer@.subrange(ds as int, e as int));
        }
        assert(tok[0] == buffer@[s as int]);
    }
    let v = match parse_digits(buffer, ds, e) {
        None => {
            return Err(IrapError::MalformedNumber);
        },
        Some(v) => v,
    };
    if neg {
        if v == 0x8000_0000 {
            Ok((i32::MIN, e))
        } else {
            Ok((-(v as i32), e))
        }
    } else {
        if v > 0x7FFF_FFFF {
            Err(IrapError::MalformedNumber)
        } else {
            Ok((v as i32, e))
        }
    }
}

/// The bytes of the next token (empty when there is none).
pub open spec fn spec_token_bytes(b: Seq<u8>, pos: int) -> Seq<u8> {
    match spec_next_token(b, pos) {
        Some((s, e)) => b.subrange(s, e),
        None => Seq::empty(),
    }
}

/// Which error reading an integer token at `pos` reports.
pub open spec fn spec_read_int_err(b: Seq<u8>, pos: int) -> IrapError {
    if spec_next_token(b, pos) is None {
        IrapError::UnexpectedEnd
    } else {
        IrapError::MalformedNumber
    }
}

/// What the `k`-th token means as a signed integer field.
pub open spec fn spec_int_field(b: Seq<u8>, k: nat) -> Result<i32, IrapError> {
    match nth_token(b, 0, k) {
        None => Err(IrapError::UnexpectedEnd),
        Some((s, e)) => match spec_parse_i32(b.subrange(s, e)) {
            None => Err(IrapError::MalformedNumber),
            Some(v) => Ok(v),
        },
    }
}

/// What the `k`-th token means as a floating field, given the parsed bit
/// patterns (double and narrowed single precision) the caller supplies per
/// token: a missing token ends the input, an unparsed one is malformed.
pub open spec fn spec_float_field(
    b: Seq<u8>,
    floats: Seq<Option<(u64, u32)>>,
    k: nat,
) -> Result<(u64, u32), IrapError> {
    match nth_token(b, 0, k) {
        None => Err(IrapError::UnexpectedEnd),
        Some(_) => if k < floats.len() && floats[k as int] is Some {
            Ok(floats[k as int]->Some_0)
        } else {
            Err(IrapError::MalformedNumber)
        },
    }
}

/// The `cnt` dummy float tokens from `k` on must all be present and parse.
pub open spec fn spec_dummies(
    b: Seq<u8>,
    floats: Seq<Option<(u64, u32)>>,
    k: nat,
    cnt: nat,
) -> Result<(), IrapError>
    decreases cnt,
{
    if cnt == 0 {
        Ok(())
    } else {
        match spec_float_field(b, floats, k) {
            Err(e) => Err(e),
            Ok(_) => spec_dummies(b, floats, k + 1, (cnt - 1) as nat),
        }
    }
}

/// What the 19 header tokens of a text stream decode to: magic, row count,
/// the increments, origin and extent, the column count, the rotation fields,
/// then seven discarded values; a negative rotation is normalized by adding
/// 360, and a negative dimension count is refused before it could wrap to an
/// unsigned value.
pub open spec fn spec_read_header_ascii(b: Seq<u8>, floats: Seq<Option<(u64, u32)>>) -> Result<
    IrapHeader,
    IrapError,
> {
    let magic = spec_int_field(b, 0);
    let nrow = spec_int_field(b, 1);
    let xinc = spec_float_field(b, floats, 2);
    let yinc = spec_float_field(b, floats, 3);
    let xori = spec_float_field(b, floats, 4);
    let xmax = spec_float_field(b, floats, 5);
    let yori = spec_float_field(b, floats, 6);
    let ymax = spec_float_field(b, floats, 7);
    let ncol = spec_int_field(b, 8);
    let rot = spec_float_field(b, floats, 9);
    let xrot = spec_float_field(b, floats, 10);
    let yrot = spec_float_field(b, floats, 11);
    if magic is Err {
        Err(magic->Err_0)
    } else if magic->Ok_0 != -996 {
        Err(IrapError::BadMagic { actual: magic->Ok_0 as u32 })
    } else if nrow is Err {
        Err(nrow->Err_0)
    } else if xinc is Err {
        Err(xinc->Err_0)
    } else if yinc is Err {
        Err(yinc->Err_0)
    } else if xori is Err {
        Err(xori->Err_0)
    } else if xmax is Err {
        Err(xmax->Err_0)
    } else if yori is Err {
        Err(yori->Err_0)
    } else if ymax is Err {
        Err(ymax->Err_0)
    } else if ncol is Err {
        Err(ncol->Err_0)
    } else if rot is Err {
        Err(rot->Err_0)
    } else if xrot is Err {
        Err(xrot->Err_0)
    } else if yrot is Err {
        Err(yrot->Err_0)
    } else {
        match spec_dummies(b, floats, 12, 7) {
            Err(e) => Err(e),
            Ok(_) => if nrow->Ok_0 < 0 || ncol->Ok_0 < 0 {
                Err(
                    IrapError::InvalidDimensions {
                        ncol: ncol->Ok_0 as u32,
                        nrow: nrow->Ok_0 as u32,
                    },
                )
            } else {
                Ok(
                    IrapHeader {
                        ncol: ncol->Ok_0 as u32,
                        nrow: nrow->Ok_0 as u32,
                        xori: xori->Ok_0.1,
                        yori: yori->Ok_0.1,
                        xmax: xmax->Ok_0.1,
                        ymax: ymax->Ok_0.1,
                        xinc: xinc->Ok_0.1,
                        yinc: yinc->Ok_0.1,
                        rot: if crate::ieee::spec_is_neg64(rot->Ok_0.0) {
                            crate::ieee::spec_rot_plus_360(rot->Ok_0.1)
                        } else {
                            rot->Ok_0.1
                        },
                        xrot: xrot->Ok_0.1,
                        yrot: yrot->Ok_0.1,
                    },
                )
            },
        }
    }
}

/// The tokens at or after `pos` are the stream's tokens from ordinal `k` on.
pub open spec fn tokens_aligned(b: Seq<u8>, pos: int, k: nat) -> bool {
    forall|j: nat| #[trigger] nth_token(b, pos, j) == nth_token(b, 0, (k + j) as nat)
}

/// Reads the next token as an integer field.
fn int_field(buffer: &[u8], pos: usize, tok: usize) -> (r: Result<(i32, usize), IrapError>)
    requires
        pos <= buffer@.len(),
        tokens_aligned(buffer@, pos as int, tok as nat),
    ensures
        match r {
            Ok((v, end)) => spec_int_field(buffer@, tok as nat) == Ok::<i32, IrapError>(v) && pos
                < end <= buffer@.len() && tokens_aligned(buffer@, end as int, (tok + 1) as nat),
            Err(e) => spec_int_field(buffer@, tok as nat) == Err::<i32, IrapError>(e),
        },
{
    proof {
        assert(nth_token(buffer@, pos as int, 0) == nth_token(buffer@, 0, tok as nat));
    }
    match read_value_int(buffer, pos) {
        Err(e) => Err(e),
        Ok((v, end)) => {
            proof {
                assert forall|j: nat| #[trigger]
                    nth_token(buffer@, end as int, j) == nth_token(
                        buffer@,
                        0,
                        (tok + 1 + j) as nat,
                    ) by {
                    assert(nth_token(buffer@, pos as int, (j + 1) as nat) == nth_token(
                        buffer@,
                        end as int,
                        j,
                    ));
                    assert(nth_token(buffer@, pos as int, (j + 1) as nat) == nth_token(
                        buffer@,
                        0,
                        (tok + (j + 1)) as nat,
                    ));
                }
            }
            Ok((v, end))
        },
    }
}

/// Reads the next token as a floating field, taking its parsed bit patterns
/// from the caller-supplied table.
fn float_field(
    buffer: &[u8],
    floats: &Vec<Option<(u64, u32)>>,
    pos: usize,
    tok: usize,
) -> (r: Result<((u64, u32), usize), IrapError>)
    requires
        pos <= buffer@.len(),
        tokens_aligned(buffer@, pos as int, tok as nat),
    ensures
        match r {
            Ok((v, end)) => spec_float_field(buffer@, floats@, tok as nat) == Ok::<
                (u64, u32),
                IrapError,
            >(v) && pos < end <= buffer@.len() && tokens_aligned(
                buffer@,
                end as int,
                (tok + 1) as nat,
            ),
            Err(e) => spec_float_field(buffer@, floats@, tok as nat) == Err::<
                (u64, u32),
                IrapError,
            >(e),
        },
{
    proof {
        assert(nth_token(buffer@, pos as int, 0) == nth_token(buffer@, 0, tok as nat));
    }
    let (s, end) = match next_token(buffer, pos) {
        None => {
            return Err(IrapError::UnexpectedEnd);
        },
        Some(p) => p,
    };
    let v = if tok < floats.len() {
        match floats[tok] {
            Some(p) => p,
            None => {
                return Err(IrapError::MalformedNumber);
            },
        }
    } else {
        return Err(IrapError::MalformedNumber);
    };
    proof {
        assert forall|j: nat| #[trigger]
            nth_token(buffer@, end as int, j) == nth_token(buffer@, 0, (tok + 1 + j) as nat) by {
            assert(nth_token(buffer@, pos as int, (j + 1) as nat) == nth_token(
                buffer@,
                end as int,
                j,
            ));
            assert(nth_token(buffer@, pos as int, (j + 1) as nat) == nth_token(
                buffer@,
                0,
                (tok + (j + 1)) as nat,
            ));
        }
    }
    Ok((v, end))
}

/// Reads and validates the 19 header tokens of a text stream; returns the
/// header and the position just past the last header token.
#[verifier::loop_isolation(false)]
pub fn read_header(buffer: &[u8], floats: &Vec<Option<(u64, u32)>>) -> (r: Result<
    (IrapHeader, usize),
    IrapError,
>)
    ensures
        match r {
            Ok((h, pos)) => spec_read_header_ascii(buffer@, floats@) == Ok::<
                IrapHeader,
                IrapError,
            >(h) && 19 <= pos <= buffer@.len() && tokens_aligned(buffer@, pos as int, 19),
            Err(e) => spec_read_header_ascii(buffer@, floats@) == Err::<IrapHeader, IrapError>(e),
        },
{
    proof {
        assert forall|j: nat| #[trigger]
            nth_token(buffer@, 0, j) == nth_token(buffer@, 0, (0 + j) as nat) by {}
    }
    let (magic, pos) = match int_field(buffer, 0, 0) {
        Ok(p) => p,
        Err(e) => {
            return Err(e);
        },
    };
    if magic != -996 {
        return Err(IrapError::BadMagic { actual: magic as u32 });
    }
    let (nrow, pos) = match int_field(buffer, pos, 1) {
        Ok(p) => p,
        Err(e) => {
            return Err(e);
        },
    };
    let (xinc, pos) = match float_field(buffer, floats, pos, 2) {
        Ok(p) => p,
        Err(e) => {
            return Err(e);
        },
    };
    let (yinc, pos) = match float_field(buffer, floats, pos, 3) {
        Ok(p) => p,
        Err(e) => {
            return Err(e);
        },
    };
    let (xori, pos) = match float_field(buffer, floats, pos, 4) {
        Ok(p) => p,
        Err(e) => {
            return Err(e);
        },
    };
    let (xmax, pos) = match float_field(buffer, floats, pos, 5) {
        Ok(p) => p,
        Err(e) => {
            return Err(e);
        },
    };
    let (yori, pos) = match float_field(buffer, floats, pos, 6) {
        Ok(p) => p,
        Err(e) => {
            return Err(e);
        },
    };
    let (ymax, pos) = match float_field(buffer, floats, pos, 7) {
        Ok(p) => p,
        Err(e) => {
            return Err(e);
        },
    };
    let (ncol, pos) = match int_field(buffer, pos, 8) {
        Ok(p) => p,
        Err(e) => {
            return Err(e);
        },
    };
    let (rot, pos) = match float_field(buffer, floats, pos, 9) {
        Ok(p) => p,
        Err(e) => {
            return Err(e);
        },
    };
    let (xrot, pos) = match float_field(buffer, floats, pos, 10) {
        Ok(p) => p,
        Err(e) => {
            return Err(e);
        },
    };
    let (yrot, pos) = match float_field(buffer, floats, pos, 11) {
        Ok(p) => p,
        Err(e) => {
            return Err(e);
        },
    };
    let mut pos = pos;
    let mut k: usize = 12;
    while k < 19
        invariant
            12 <= k <= 19,
            k <= pos <= buffer@.len(),
            tokens_aligned(buffer@, pos as int, k as nat),
            spec_dummies(buffer@, floats@, 12, 7) == spec_dummies(
                buffer@,
                floats@,
                k as nat,
                (19 - k) as nat,
            ),
        decreases 19 - k,
    {
        match float_field(buffer, floats, pos, k) {
            Ok((_, end)) => {
                pos = end;
            },
            Err(e) => {
                return Err(e);
            },
        }
        k = k + 1;
    }
    if nrow < 0 || ncol < 0 {
        return Err(IrapError::InvalidDimensions { ncol: ncol as u32, nrow: nrow as u32 });
    }
    let rot_bits = if crate::ieee::is_neg64(rot.0) {
        crate::ieee::rot_plus_360(rot.1)
    } else {
        rot.1
    };
    Ok(
        (
            IrapHeader {
                ncol: ncol as u32,
                nrow: nrow as u32,
                xori: xori.1,
                yori: yori.1,
                xmax: xmax.1,
                ymax: ymax.1,
                xinc: xinc.1,
                yinc: yinc.1,
                rot: rot_bits,
                xrot: xrot.1,
                yrot: yrot.1,
            },
            pos,
        ),
    )
}

/// Fails unless both grid dimensions are positive.
pub fn validate_header(header: &IrapHeader) -> (r: Result<(), IrapError>)
    ensures
        r is Ok <==> (header.ncol >= 1 && header.nrow >= 1),
        r matches Err(e) ==> e == (IrapError::InvalidDimensions {
            ncol: header.ncol,
            nrow: header.nrow,
        }),
{
    if header.ncol == 0 || header.nrow == 0 {
        Err(IrapError::InvalidDimensions { ncol: header.ncol, nrow: header.nrow })
    } else {
        Ok(())
    }
}

/// The `n` parsed value pairs from token `t0` on, in disk order, or the
/// first scanning error.
pub open spec fn spec_collect_floats(
    b: Seq<u8>,
    floats: Seq<Option<(u64, u32)>>,
    t0: nat,
    n: nat,
) -> Result<Seq<(u64, u32)>, IrapError>
    decreases n,
{
    if n == 0 {
        Ok(Seq::empty())
    } else {
        match spec_float_field(b, floats, t0) {
            Err(e) => Err(e),
            Ok(p) => match spec_collect_floats(b, floats, t0 + 1, (n - 1) as nat) {
                Err(e) => Err(e),
                Ok(rest) => Ok(seq![p] + rest),
            },
        }
    }
}

/// What the value tokens decode to: `ncol * nrow` floating tokens in disk
/// order, each thresholded at double precision and stored at single
/// precision in row-major order.
pub open spec fn spec_read_values_ascii(
    b: Seq<u8>,
    floats: Seq<Option<(u64, u32)>>,
    t0: nat,
    ncol: int,
    nrow: int,
) -> Result<Seq<u32>, IrapError> {
    match spec_collect_floats(b, floats, t0, (ncol * nrow) as nat) {
        Err(e) => Err(e),
        Ok(disk) => Ok(
            Seq::new(
                (ncol * nrow) as nat,
                |s: int|
                    crate::ieee::spec_decode_sentinel_ascii(
                        disk[crate::utils::cm_to_rm(s, nrow, ncol)].0,
                        disk[crate::utils::cm_to_rm(s, nrow, ncol)].1,
                    ),
            ),
        ),
    }
}

/// The outcome of continuing a value scan with `acc` pairs already in hand.
pub open spec fn spec_floats_continued(
    b: Seq<u8>,
    floats: Seq<Option<(u64, u32)>>,
    t0: nat,
    n: nat,
    acc: Seq<(u64, u32)>,
) -> Result<Seq<(u64, u32)>, IrapError> {
    match spec_collect_floats(b, floats, t0, n) {
        Err(e) => Err(e),
        Ok(rest) => Ok(acc + rest),
    }
}

/// Reads `ncol * nrow` value tokens from `pos` (token ordinal `t0`) and
/// places them in row-major storage via the index transposition and the
/// text sentinel rule.
pub fn read_values(
    buffer: &[u8],
    floats: &Vec<Option<(u64, u32)>>,
    pos: usize,
    t0: usize,
    ncol: u32,
    nrow: u32,
) -> (r: Result<Vec<u32>, IrapError>)
    requires
        t0 <= pos <= buffer@.len(),
        tokens_aligned(buffer@, pos as int, t0 as nat),
    ensures
        match r {
            Ok(v) => spec_read_values_ascii(buffer@, floats@, t0 as nat, ncol as int, nrow as int)
                == Ok::<Seq<u32>, IrapError>(v@) && v@.len() == ncol * nrow,
            Err(e) => spec_read_values_ascii(buffer@, floats@, t0 as nat, ncol as int, nrow as int)
                == Err::<Seq<u32>, IrapError>(e),
        },
{
    proof {
        assert(ncol as int * nrow as int <= 0xFFFF_FFFFint * 0xFFFF_FFFFint) by (nonlinear_arith)
            requires
                ncol <= 0xFFFF_FFFFu32,
                nrow <= 0xFFFF_FFFFu32,
        ;
    }
    let nvalues: u64 = ncol as u64 * nrow as u64;
    let ghost needed: nat = (ncol * nrow) as nat;
    let mut pairs: Vec<(u64, u32)> = Vec::new();
    let mut cur = pos;
    let mut tok = t0;
    proof {
        assert(pairs@ + spec_collect_floats(buffer@, floats@, t0 as nat, needed)->Ok_0
            =~= spec_collect_floats(buffer@, floats@, t0 as nat, needed)->Ok_0);
    }
    while (pairs.len() as u64) < nvalues
        invariant
            nvalues == ncol * nrow,
            needed == nvalues,
            pairs@.len() <= nvalues,
            tok as nat == t0 + pairs@.len(),
            t0 <= pos <= cur <= buffer@.len(),
            tok + pos <= t0 + cur,
            tokens_aligned(buffer@, cur as int, tok as nat),
            spec_floats_continued(
                buffer@,
                floats@,
                tok as nat,
                (nvalues - pairs@.len()) as nat,
                pairs@,
            ) == spec_collect_floats(buffer@, floats@, t0 as nat, needed),
        decreases nvalues - pairs@.len(),
    {
        let ghost rem: nat = (nvalues - pairs@.len()) as nat;
        let ghost pre = pairs@;
        match float_field(buffer, floats, cur, tok) {
            Err(e) => {
                return Err(e);
            },
            Ok((p, end)) => {
                pairs.push(p);
                proof {
                    let inner = spec_collect_floats(
                        buffer@,
                        floats@,
                        tok as nat + 1,
                        (rem - 1) as nat,
                    );
                    if inner is Ok {
                        assert((pre + seq![p]) + inner->Ok_0 =~= pre + (seq![p] + inner->Ok_0));
                        assert(pre.push(p) =~= pre + seq![p]);
                    }
                    assert(pairs@ =~= pre + seq![p]);
                }
                cur = end;
                tok = tok + 1;
            },
        }
    }
    proof {
        assert(spec_collect_floats(buffer@, floats@, tok as nat, 0) == Ok::<
            Seq<(u64, u32)>,
            IrapError,
        >(Seq::empty()));
        assert(pairs@ + Seq::<(u64, u32)>::empty() =~= pairs@);
        assert(spec_collect_floats(buffer@, floats@, t0 as nat, needed) == Ok::<
            Seq<(u64, u32)>,
            IrapError,
        >(pairs@));
    }
    let n = pairs.len();
    let mut storage: Vec<u32> = vec![0u32; n];
    let mut j: usize = 0;
    while j < n
        invariant
            j <= n == pairs@.len(),
            n == ncol * nrow,
            storage@.len() == n,
            forall|jj: int|
                0 <= jj < j ==> storage@[crate::utils::cm_to_rm(jj, ncol as int, nrow as int)]
                    == crate::ieee::spec_decode_sentinel_ascii(pairs@[jj].0, pairs@[jj].1),
        decreases n - j,
    {
        proof {
            assert(1 <= ncol && 1 <= nrow) by (nonlinear_arith)
                requires
                    0 <= j < n,
                    n == ncol * nrow,
            ;
            crate::utils::lemma_cm_to_rm_inverse(j as int, ncol as int, nrow as int);
        }
        let ic = crate::utils::column_major_to_row_major_index(j, ncol as usize, nrow as usize);
        let p = pairs[j];
        let v = crate::ieee::decode_sentinel_ascii(p.0, p.1);
        storage[ic] = v;
        proof {
            assert forall|jj: int| 0 <= jj < j + 1 implies storage@[crate::utils::cm_to_rm(
                jj,
                ncol as int,
                nrow as int,
            )] == crate::ieee::spec_decode_sentinel_ascii(pairs@[jj].0, pairs@[jj].1) by {
                assert(1 <= ncol && 1 <= nrow) by (nonlinear_arith)
                    requires
                        0 <= j < n,
                        n == ncol * nrow,
                ;
                crate::utils::lemma_cm_to_rm_inverse(jj, ncol as int, nrow as int);
                crate::utils::lemma_cm_to_rm_inverse(j as int, ncol as int, nrow as int);
            }
        }
        j = j + 1;
    }
    proof {
        let stor = spec_read_values_ascii(
            buffer@,
            floats@,
            t0 as nat,
            ncol as int,
            nrow as int,
        )->Ok_0;
        assert forall|s: int| 0 <= s < n implies storage@[s] == stor[s] by {
            assert(1 <= ncol && 1 <= nrow) by (nonlinear_arith)
                requires
                    0 <= s < n,
                    n == ncol * nrow,
                    ncol >= 0,
                    nrow >= 0,
            ;
            crate::utils::lemma_cm_to_rm_inverse(s, nrow as int, ncol as int);
        }
        assert(storage@ =~= stor);
    }
    Ok(storage)
}

/// What a whole text stream decodes to: the 19 header tokens, the dimension
/// check, then exactly `ncol * nrow` value tokens.
pub open spec fn spec_decode_ascii(b: Seq<u8>, floats: Seq<Option<(u64, u32)>>) -> Result<
    (IrapHeader, Seq<u32>),
    IrapError,
> {
    match spec_read_header_ascii(b, floats) {
        Err(e) => Err(e),
        Ok(h) => if h.ncol == 0 || h.nrow == 0 {
            Err(IrapError::InvalidDimensions { ncol: h.ncol, nrow: h.nrow })
        } else {
            match spec_read_values_ascii(b, floats, 19, h.ncol as int, h.nrow as int) {
                Err(e) => Err(e),
                Ok(vs) => Ok((h, vs)),
            }
        },
    }
}

/// Decodes a surface from a raw text buffer, given the parsed bit patterns
/// of each whitespace-delimited token (double precision and narrowed single
/// precision), aligned with the stream's token ordinals.
pub fn read_bytes(buffer: &[u8], floats: &Vec<Option<(u64, u32)>>) -> (r: Result<Irap, IrapError>)
    ensures
        match r {
            Ok(ir) => spec_decode_ascii(buffer@, floats@) == Ok::<
                (IrapHeader, Seq<u32>),
                IrapError,
            >((ir.header, ir.values@)),
            Err(e) => spec_decode_ascii(buffer@, floats@) == Err::<
                (IrapHeader, Seq<u32>),
                IrapError,
            >(e),
        },
        r matches Ok(ir) ==> ir.wf(),
{
    let (header, pos) = match read_header(buffer, floats) {
        Ok(p) => p,
        Err(e) => {
            return Err(e);
        },
    };
    match validate_header(&header) {
        Ok(_) => (),
        Err(e) => {
            return Err(e);
        },
    }
    let values = match read_values(buffer, floats, pos, 19, header.ncol, header.nrow) {
        Ok(v) => v,
        Err(e) => {
            return Err(e);
        },
    };
    Ok(Irap { header, values })
}

/// Decodes a surface from text, given the parsed bit patterns of each
/// whitespace-delimited token, aligned with the stream's token ordinals.
pub fn read_string(data: &str, floats: &Vec<Option<(u64, u32)>>) -> (r: Result<Irap, IrapError>)
    ensures
        match r {
            Ok(ir) => spec_decode_ascii(data.spec_bytes(), floats@) == Ok::<
                (IrapHeader, Seq<u32>),
                IrapError,
            >((ir.header, ir.values@)),
            Err(e) => spec_decode_ascii(data.spec_bytes(), floats@) == Err::<
                (IrapHeader, Seq<u32>),
                IrapError,
            >(e),
        },
        r matches Ok(ir) ==> ir.wf(),
{
    read_bytes(data.as_bytes(), floats)
}

} // verus!
