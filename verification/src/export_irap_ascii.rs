use vstd::prelude::*;
use vstd::arithmetic::power2::pow2;
use vstd::string::StringExecFns;
use crate::ascii_num::dec_digits;
use crate::ascii_num::digit_char;
use crate::ascii_num::digit_str;
use crate::ascii_num::u128_to_string;
use crate::ascii_num::u32_to_string;
use crate::ieee::abs_bits32;
use crate::ieee::is_nan32;
use crate::ieee::pow2_u64;
use crate::ieee::spec_is_nan32;
use crate::irap::Irap;
use crate::irap::IrapError;
use crate::irap::IrapHeader;
use crate::utils::cm_to_rm;
use crate::utils::column_major_to_row_major_index;

verus! {

// The text encoder renders every numeric field in fixed 4-decimal notation,
// computed exactly from the IEEE bit pattern in integer arithmetic: the
// value times ten thousand, rounded to nearest with ties to even, then
// printed with the decimal point restored.
/// The four zero-padded decimal digits of `f` (`f < 10000`).
pub open spec fn pad4(f: nat) -> Seq<char> {
    seq![
        digit_char(((f / 1000) % 10) as int),
        digit_char(((f / 100) % 10) as int),
        digit_char(((f / 10) % 10) as int),
        digit_char((f % 10) as int),
    ]
}

/// The fixed 4-decimal rendering of the finite single-precision magnitude
/// with bits `a` (sign excluded).
#[verifier::opaque]
pub open spec fn spec_fixed4_digits(a: u32) -> Seq<char> {
    let eb: int = (a / 0x80_0000) as int;
    let m: nat = if eb == 0 {
        a as nat
    } else {
        (a % 0x80_0000 + 0x80_0000) as nat
    };
    if eb >= 150 {
        dec_digits(m * pow2((eb - 150) as nat)) + ".0000"@
    } else {
        let k: nat = if eb == 0 {
            149
        } else {
            (150 - eb) as nat
        };
        let num = m * 10000;
        let p = pow2(k);
        let q = num / p;
        let r = num % p;
        let n4: nat = if 2 * r > p || (2 * r == p && q % 2 == 1) {
            (q + 1) as nat
        } else {
            q
        };
        dec_digits(n4 / 10000) + "."@ + pad4(n4 % 10000)
    }
}

/// The fixed 4-decimal rendering of a single-precision value: NaN and
/// infinity by name, everything else as sign, integer digits, point, and
/// four fraction digits.
#[verifier::opaque]
pub open spec fn spec_fmt_fixed4(v: u32) -> Seq<char> {
    if spec_is_nan32(v) {
        "NaN"@
    } else {
        let sign: Seq<char> = if v >= 0x8000_0000 {
            "-"@
        } else {
            Seq::empty()
        };
        let a = abs_bits32(v);
        if a == 0x7F80_0000 {
            sign + "inf"@
        } else {
            sign + spec_fixed4_digits(a)
        }
    }
}

fn pow2_u128(k: u32) -> (r: u128)
    requires
        k <= 127,
    ensures
        r == pow2(k as nat),
{
    proof {
        vstd::arithmetic::power2::lemma2_to64();
        vstd::arithmetic::power2::lemma2_to64_rest();
        vstd::arithmetic::power2::lemma_pow2_adds(64, 64);
    }
    let mut i: u32 = 0;
    let mut r: u128 = 1;
    while i < k
        invariant
            i <= k <= 127,
            r == pow2(i as nat),
        decreases k - i,
    {
        proof {
            vstd::arithmetic::power2::lemma2_to64();
            vstd::arithmetic::power2::lemma2_to64_rest();
            vstd::arithmetic::power2::lemma_pow2_adds(64, 63);
            vstd::arithmetic::power2::lemma_pow2_adds(i as nat, 1);
            if (i as nat) < 127 {
                vstd::arithmetic::power2::lemma_pow2_strictly_increases(i as nat, 127);
            }
        }
        r = r * 2;
        i = i + 1;
    }
    r
}

/// Renders a single-precision bit pattern in fixed 4-decimal notation.
pub fn format_fixed4(v: u32) -> (s: String)
    ensures
        s@ == spec_fmt_fixed4(v),
{
    proof {
        reveal(spec_fmt_fixed4);
        reveal(spec_fixed4_digits);
        vstd::arithmetic::power2::lemma2_to64();
        vstd::arithmetic::power2::lemma2_to64_rest();
    }
    if is_nan32(v) {
        proof {
            reveal(spec_fmt_fixed4);
        }
        return String::from_str("NaN");
    }
    let a = if v >= 0x8000_0000 {
        v - 0x8000_0000
    } else {
        v
    };
    let mut s = if v >= 0x8000_0000 {
        String::from_str("-")
    } else {
        String::new()
    };
    if a == 0x7F80_0000 {
        s.append("inf");
        proof {
            reveal(spec_fmt_fixed4);
            assert(s@ =~= spec_fmt_fixed4(v));
        }
        return s;
    }
    let eb: u32 = a / 0x80_0000;
    let m: u32 = if eb == 0 {
        a
    } else {
        a % 0x80_0000 + 0x80_0000
    };
    if eb >= 150 {
        // The value is an integer: shift the significand up and print it.
        let e: u32 = eb - 150;
        let sh = pow2_u128(e);
        proof {
            if (e as nat) < 104 {
                vstd::arithmetic::power2::lemma_pow2_strictly_increases(e as nat, 104);
            }
            vstd::arithmetic::power2::lemma_pow2_adds(64, 40);
            assert((m as u128) * sh <= 0xFFFFFF * pow2(104)) by (nonlinear_arith)
                requires
                    m <= 0xFFFFFF,
                    sh <= pow2(104),
                    sh >= 0,
            ;
        }
        let ip: u128 = (m as u128) * sh;
        let t = u128_to_string(ip);
        s.append(t.as_str());
        s.append(".0000");
        proof {
            reveal(spec_fmt_fixed4);
            reveal(spec_fixed4_digits);
            assert(s@ =~= spec_fmt_fixed4(v));
        }
        return s;
    }
    // The value has a fraction: round value * 10000 to the nearest integer,
    // ties to even.
    let k: u32 = if eb == 0 {
        149
    } else {
        150 - eb
    };
    let num: u64 = (m as u64) * 10000;
    let n4: u64 = if k >= 39 {
        proof {
            if (k as nat) > 39 {
                vstd::arithmetic::power2::lemma_pow2_strictly_increases(39, k as nat);
            }
            let p = pow2(k as nat);
            assert(num < p);
            vstd::arithmetic::div_mod::lemma_basic_div(num as int, p as int);
            vstd::arithmetic::div_mod::lemma_small_mod(num as nat, p as nat);
        }
        0
    } else {
        let p = pow2_u64(k as u64);
        let q = num / p;
        let rr = num % p;
        if 2 * rr > p || (2 * rr == p && q % 2 == 1) {
            q + 1
        } else {
            q
        }
    };
    let ipart = (n4 / 10000) as u32;
    let fpart = (n4 % 10000) as u32;
    let t = u32_to_string(ipart);
    s.append(t.as_str());
    s.append(".");
    s.append(digit_str((fpart / 1000) % 10));
    s.append(digit_str((fpart / 100) % 10));
    s.append(digit_str((fpart / 10) % 10));
    s.append(digit_str(fpart % 10));
    proof {
        reveal(spec_fmt_fixed4);
        reveal(spec_fixed4_digits);
        assert(s@ =~= spec_fmt_fixed4(v));
    }
    s
}

/// Whatever value it is handed, the fixed 4-decimal renderer emits one
/// whitespace-free token.
pub proof fn lemma_fmt_fixed4_token(v: u32)
    ensures
        crate::ascii_num::token_chars(spec_fmt_fixed4(v)),
{
    reveal(spec_fmt_fixed4);
    reveal(spec_fixed4_digits);
    reveal_strlit("NaN");
    reveal_strlit("-");
    reveal_strlit("inf");
    reveal_strlit(".");
    reveal_strlit(".0000");
    if !spec_is_nan32(v) {
        let a = abs_bits32(v);
        if a != 0x7F80_0000 {
            lemma_fixed4_digits_token(a);
        }
    }
}

/// The digits-and-point part of a fixed 4-decimal rendering is a nonempty
/// run of digits and one point.
pub proof fn lemma_fixed4_digits_token(a: u32)
    ensures
        crate::ascii_num::token_chars(spec_fixed4_digits(a)),
{
    reveal(spec_fixed4_digits);
    reveal_strlit(".");
    reveal_strlit(".0000");
    let eb: int = (a / 0x80_0000) as int;
    let m: nat = if eb == 0 {
        a as nat
    } else {
        (a % 0x80_0000 + 0x80_0000) as nat
    };
    if eb >= 150 {
        crate::ascii_num::lemma_dec_digits_chars(m * pow2((eb - 150) as nat));
    } else {
        let k: nat = if eb == 0 {
            149
        } else {
            (150 - eb) as nat
        };
        let num = m * 10000;
        let p = pow2(k);
        let q = num / p;
        let r = num % p;
        let n4: nat = if 2 * r > p || (2 * r == p && q % 2 == 1) {
            (q + 1) as nat
        } else {
            q
        };
        crate::ascii_num::lemma_dec_digits_chars(n4 / 10000);
    }
}

/// Every grid value is written as one whitespace-free token.
pub proof fn lemma_value_token_chars(v: u32)
    ensures
        crate::ascii_num::token_chars(spec_value_token(v)),
{
    reveal_strlit("9999900.000000");
    if !spec_is_nan32(v) {
        lemma_fmt_fixed4_token(v);
    }
}

/// The text of one grid value: NaN as the undefined literal, anything else
/// in fixed 4-decimal notation.
pub open spec fn spec_value_token(v: u32) -> Seq<char> {
    if spec_is_nan32(v) {
        "9999900.000000"@
    } else {
        spec_fmt_fixed4(v)
    }
}

/// The first header line: magic, row count, and the cell increments.
pub open spec fn spec_header_line1(h: IrapHeader) -> Seq<char> {
    "-996 "@ + dec_digits(h.nrow as nat) + " "@ + spec_fmt_fixed4(h.xinc) + " "@
        + spec_fmt_fixed4(h.yinc) + "\n"@
}

/// The second header line: origin and extent.
pub open spec fn spec_header_line2(h: IrapHeader) -> Seq<char> {
    spec_fmt_fixed4(h.xori) + " "@ + spec_fmt_fixed4(h.xmax) + " "@ + spec_fmt_fixed4(h.yori)
        + " "@ + spec_fmt_fixed4(h.ymax) + "\n"@
}

/// The third header line: column count and the rotation fields.
pub open spec fn spec_header_line3(h: IrapHeader) -> Seq<char> {
    dec_digits(h.ncol as nat) + " "@ + spec_fmt_fixed4(h.rot) + " "@ + spec_fmt_fixed4(h.xrot)
        + " "@ + spec_fmt_fixed4(h.yrot) + "\n"@
}

/// The four header lines of the text encoding.
pub open spec fn spec_header_text(h: IrapHeader) -> Seq<char> {
    spec_header_line1(h) + spec_header_line2(h) + spec_header_line3(h) + "0 0 0 0 0 0 0\n"@
}

/// The text of the value grid from disk position `j` on: values separated by
/// single spaces, eight per line, a newline after every full line and after
/// a final partial one.
pub open spec fn spec_values_text(disk: Seq<u32>, j: nat) -> Seq<char>
    decreases disk.len() - j,
{
    if j >= disk.len() {
        if j % 8 != 0 {
            "\n"@
        } else {
            Seq::empty()
        }
    } else {
        let sep: Seq<char> = if j % 8 != 0 {
            " "@
        } else {
            Seq::empty()
        };
        let nl: Seq<char> = if j % 8 == 7 {
            "\n"@
        } else {
            Seq::empty()
        };
        sep + spec_value_token(disk[j as int]) + nl + spec_values_text(disk, j + 1)
    }
}

/// A surface's values in disk (column-major) order, without sentinel
/// substitution: NaN is handled per token by the text writer.
pub open spec fn spec_ascii_disk(v: Seq<u32>, ncol: int, nrow: int) -> Seq<u32> {
    Seq::new((ncol * nrow) as nat, |j: int| v[cm_to_rm(j, ncol, nrow)])
}

/// The complete text encoding of a surface.
pub open spec fn spec_encode_ascii(irap: Irap) -> Seq<char> {
    spec_header_text(irap.header) + spec_values_text(
        spec_ascii_disk(irap.values@, irap.header.ncol as int, irap.header.nrow as int),
        0,
    )
}

/// The text encoding with a value buffer that is already in disk order and
/// caller-rendered value texts.
pub open spec fn spec_encode_ascii_fortran(
    h: IrapHeader,
    vals: Seq<u32>,
    texts: Seq<Seq<char>>,
) -> Seq<char> {
    spec_header_text(h) + spec_values_text_with(vals, texts, 0)
}

/// Writes the four header lines.
pub fn write_header(header: &IrapHeader, out: &mut String)
    ensures
        final(out)@ == old(out)@ + spec_header_text(*header),
{
    let ghost o0 = out@;
    out.append("-996 ");
    let t = u32_to_string(header.nrow);
    out.append(t.as_str());
    out.append(" ");
    let t = format_fixed4(header.xinc);
    out.append(t.as_str());
    out.append(" ");
    let t = format_fixed4(header.yinc);
    out.append(t.as_str());
    out.append("\n");
    proof {
        assert(out@ =~= o0 + spec_header_line1(*header));
    }
    let ghost o1 = out@;
    let t = format_fixed4(header.xori);
    out.append(t.as_str());
    out.append(" ");
    let t = format_fixed4(header.xmax);
    out.append(t.as_str());
    out.append(" ");
    let t = format_fixed4(header.yori);
    out.append(t.as_str());
    out.append(" ");
    let t = format_fixed4(header.ymax);
    out.append(t.as_str());
    out.append("\n");
    proof {
        assert(out@ =~= o1 + spec_header_line2(*header));
    }
    let ghost o2 = out@;
    let t = u32_to_string(header.ncol);
    out.append(t.as_str());
    out.append(" ");
    let t = format_fixed4(header.rot);
    out.append(t.as_str());
    out.append(" ");
    let t = format_fixed4(header.xrot);
    out.append(t.as_str());
    out.append(" ");
    let t = format_fixed4(header.yrot);
    out.append(t.as_str());
    out.append("\n");
    proof {
        assert(out@ =~= o2 + spec_header_line3(*header));
    }
    out.append("0 0 0 0 0 0 0\n");
    proof {
        assert(out@ =~= o0 + spec_header_text(*header));
    }
}

/// Writes one value token and its separators, advancing one disk position.
fn write_one_value(v: u32, j: usize, out: &mut String)
    ensures
        final(out)@ == old(out)@ + (if j % 8 != 0 {
            " "@
        } else {
            Seq::<char>::empty()
        }) + spec_value_token(v) + (if j % 8 == 7 {
            "\n"@
        } else {
            Seq::<char>::empty()
        }),
{
    if j % 8 != 0 {
        out.append(" ");
    }
    if is_nan32(v) {
        out.append("9999900.000000");
    } else {
        let t = format_fixed4(v);
        out.append(t.as_str());
    }
    if j % 8 == 7 {
        out.append("\n");
    }
    assert(out@ =~= old(out)@ + (if j % 8 != 0 {
        " "@
    } else {
        Seq::<char>::empty()
    }) + spec_value_token(v) + (if j % 8 == 7 {
        "\n"@
    } else {
        Seq::<char>::empty()
    }));
}

/// Writes the value grid in disk order, transposing from row-major storage
/// and wrapping every eight values.
#[verifier::rlimit(60)]
pub fn write_values(header: &IrapHeader, values: &[u32], out: &mut String)
    requires
        1 <= header.ncol,
        1 <= header.nrow,
        values@.len() == header.ncol * header.nrow,
    ensures
        final(out)@ == old(out)@ + spec_values_text(
            spec_ascii_disk(values@, header.ncol as int, header.nrow as int),
            0,
        ),
{
    let ncol = header.ncol as usize;
    let nrow = header.nrow as usize;
    let n = values.len();
    let ghost disk = spec_ascii_disk(values@, header.ncol as int, header.nrow as int);
    let mut j: usize = 0;
    while j < n
        invariant
            j <= n == values@.len(),
            n == ncol * nrow,
            1 <= ncol,
            1 <= nrow,
            disk == spec_ascii_disk(values@, ncol as int, nrow as int),
            out@ + spec_values_text(disk, j as nat) == old(out)@ + spec_values_text(disk, 0),
        decreases n - j,
    {
        let ghost pre = out@;
        let s_idx = column_major_to_row_major_index(j, ncol, nrow);
        write_one_value(values[s_idx], j, out);
        proof {
            assert(out@ + spec_values_text(disk, j as nat + 1) =~= pre + spec_values_text(
                disk,
                j as nat,
            ));
        }
        j = j + 1;
    }
    proof {
        assert(spec_values_text(disk, n as nat) =~= if n % 8 != 0 {
            "\n"@
        } else {
            Seq::<char>::empty()
        });
    }
    if n % 8 != 0 {
        out.append("\n");
    }
    proof {
        assert(out@ =~= old(out)@ + spec_values_text(disk, 0));
    }
}

/// The text of one disk-order value in the shortest-round-trip dialect: NaN
/// as the undefined literal, anything else as the caller-rendered text.
pub open spec fn spec_fortran_token(v: u32, text: Seq<char>) -> Seq<char> {
    if spec_is_nan32(v) {
        "9999900.000000"@
    } else {
        text
    }
}

/// The text of a disk-order value buffer rendered with caller-supplied token
/// texts: values separated by single spaces, eight per line, a newline after
/// every full line and after a final partial one.
pub open spec fn spec_values_text_with(disk: Seq<u32>, texts: Seq<Seq<char>>, j: nat) -> Seq<char>
    decreases disk.len() - j,
{
    if j >= disk.len() {
        if j % 8 != 0 {
            "\n"@
        } else {
            Seq::empty()
        }
    } else {
        let sep: Seq<char> = if j % 8 != 0 {
            " "@
        } else {
            Seq::empty()
        };
        let nl: Seq<char> = if j % 8 == 7 {
            "\n"@
        } else {
            Seq::empty()
        };
        sep + spec_fortran_token(disk[j as int], texts[j as int]) + nl + spec_values_text_with(
            disk,
            texts,
            j + 1,
        )
    }
}

/// Writes one disk-order value token and its separators.
fn write_one_value_with(v: u32, text: &String, j: usize, out: &mut String)
    ensures
        final(out)@ == old(out)@ + (if j % 8 != 0 {
            " "@
        } else {
            Seq::<char>::empty()
        }) + spec_fortran_token(v, text@) + (if j % 8 == 7 {
            "\n"@
        } else {
            Seq::<char>::empty()
        }),
{
    if j % 8 != 0 {
        out.append(" ");
    }
    if is_nan32(v) {
        out.append("9999900.000000");
    } else {
        out.append(text.as_str());
    }
    if j % 8 == 7 {
        out.append("\n");
    }
    assert(out@ =~= old(out)@ + (if j % 8 != 0 {
        " "@
    } else {
        Seq::<char>::empty()
    }) + spec_fortran_token(v, text@) + (if j % 8 == 7 {
        "\n"@
    } else {
        Seq::<char>::empty()
    }));
}

/// Writes a value buffer that is already in disk order, wrapping every eight
/// values. Each value's text is supplied by the caller (one rendering per
/// value, shortest-round-trip decimal in the intended dialect); the writer
/// itself decides only the undefined literal and the layout.
#[verifier::rlimit(60)]
pub fn write_values_fortran(values: &[u32], texts: &Vec<String>, out: &mut String)
    requires
        texts@.len() == values@.len(),
    ensures
        final(out)@ == old(out)@ + spec_values_text_with(
            values@,
            texts@.map_values(|t: String| t@),
            0,
        ),
{
    let ghost tseq = texts@.map_values(|t: String| t@);
    let n = values.len();
    let mut j: usize = 0;
    while j < n
        invariant
            j <= n == values@.len(),
            texts@.len() == n,
            tseq == texts@.map_values(|t: String| t@),
            out@ + spec_values_text_with(values@, tseq, j as nat) == old(out)@
                + spec_values_text_with(values@, tseq, 0),
        decreases n - j,
    {
        let ghost pre = out@;
        write_one_value_with(values[j], &texts[j], j, out);
        proof {
            assert(texts@[j as int]@ == tseq[j as int]);
            assert(out@ + spec_values_text_with(values@, tseq, j as nat + 1) =~= pre
                + spec_values_text_with(values@, tseq, j as nat));
        }
        j = j + 1;
    }
    proof {
        assert(spec_values_text_with(values@, tseq, n as nat) =~= if n % 8 != 0 {
            "\n"@
        } else {
            Seq::<char>::empty()
        });
    }
    if n % 8 != 0 {
        out.append("\n");
    }
    proof {
        assert(out@ =~= old(out)@ + spec_values_text_with(values@, tseq, 0));
    }
}

/// Encodes a surface as text.
pub fn to_string(data: &Irap) -> (r: Result<String, IrapError>)
    requires
        data.wf(),
    ensures
        r is Ok,
        r matches Ok(s) ==> s@ == spec_encode_ascii(*data),
{
    let mut out = String::new();
    write_header(&data.header, &mut out);
    write_values(&data.header, data.values.as_slice(), &mut out);
    Ok(out)
}

/// Encodes a header and a value buffer already in disk (column-major) order
/// as text, with one caller-rendered text per value.
pub fn to_string_fortran(header: &IrapHeader, values: &[u32], texts: &Vec<String>) -> (r: Result<
    String,
    IrapError,
>)
    requires
        texts@.len() == values@.len(),
    ensures
        r is Ok,
        r matches Ok(s) ==> s@ == spec_encode_ascii_fortran(
            *header,
            values@,
            texts@.map_values(|t: String| t@),
        ),
{
    let mut out = String::new();
    write_header(header, &mut out);
    write_values_fortran(values, texts, &mut out);
    Ok(out)
}

} // verus!
