use surfio_rs::export_irap_ascii::to_string;
use surfio_rs::export_irap_ascii::to_string_fortran;
use surfio_rs::export_irap_binary::to_binary_buffer;
use surfio_rs::export_irap_binary::to_binary_buffer_fortran;
use surfio_rs::import_irap_ascii::read_string;
use surfio_rs::import_irap_ascii::tokenize;
use surfio_rs::import_irap_binary::read_buffer;
use surfio_rs::utils::column_major_to_row_major_index;
use surfio_rs::Irap;
use surfio_rs::IrapError;
use surfio_rs::IrapHeader;

fn parse_floats(data: &str) -> Vec<Option<(u64, u32)>> {
    let bytes = data.as_bytes();
    tokenize(bytes)
        .into_iter()
        .map(|(s, e)| {
            std::str::from_utf8(&bytes[s..e])
                .ok()
                .and_then(|t| t.parse::<f64>().ok())
                .map(|x| (x.to_bits(), (x as f32).to_bits()))
        })
        .collect()
}

fn read_ascii(data: &str) -> Result<Irap, IrapError> {
    read_string(data, &parse_floats(data))
}

fn small_header(ncol: u32, nrow: u32) -> IrapHeader {
    IrapHeader {
        ncol,
        nrow,
        xori: 0,
        yori: 0,
        xmax: (1.0f32).to_bits(),
        ymax: (1.0f32).to_bits(),
        xinc: (1.0f32).to_bits(),
        yinc: (1.0f32).to_bits(),
        rot: 0,
        xrot: 0,
        yrot: 0,
    }
}

fn surface(ncol: u32, nrow: u32, values: &[f32]) -> Irap {
    Irap {
        header: small_header(ncol, nrow),
        values: values.iter().map(|v| v.to_bits()).collect(),
    }
}

fn word_at(buf: &[u8], i: usize) -> u32 {
    u32::from_be_bytes([buf[i], buf[i + 1], buf[i + 2], buf[i + 3]])
}

#[test]
fn test_constants_match_ieee() {
    assert_eq!(surfio_rs::irap::UNDEF_MAP_IRAP_BINARY_BITS, (1e30f32).to_bits());
    assert_eq!(surfio_rs::irap::UNDEF_MAP_IRAP_ASCII_BITS64, (9999900.0f64).to_bits());
    assert_eq!(surfio_rs::irap::NAN_BITS, f32::NAN.to_bits());
    assert_eq!(surfio_rs::irap::IRAP_HEADER_ID_WORD, (-996i32) as u32);
    assert_eq!(surfio_rs::ieee::F32_360_BITS, (360.0f32).to_bits());
    assert_eq!(surfio_rs::ieee::TINY_VS_360, (2.0f32).powi(-17).to_bits());
    assert_eq!(surfio_rs::ieee::HUGE_VS_360, (2.0f32).powi(34).to_bits());
}

#[test]
fn test_transposition_worked_example() {
    // A 3-column, 2-row surface with row-major storage [1,2,3,4,5,6]
    // (row0 = [1,2,3], row1 = [4,5,6]) serializes, in disk order, as
    // [1,4,2,5,3,6] (column0 = [1,4], column1 = [2,5], column2 = [3,6]);
    // decoding that disk sequence reproduces the storage exactly.
    let irap = surface(3, 2, &[1.0, 2.0, 3.0, 4.0, 5.0, 6.0]);
    let buf = to_binary_buffer(&irap).unwrap();
    let disk: Vec<f32> = (0..6)
        .map(|j| f32::from_bits(word_at(&buf, 104 + 4 * j)))
        .collect();
    assert_eq!(disk, vec![1.0, 4.0, 2.0, 5.0, 3.0, 6.0]);
    let back = read_buffer(&buf).unwrap();
    assert_eq!(back.values, irap.values);
    // The index relation itself: disk position 1 carries storage position 3.
    assert_eq!(column_major_to_row_major_index(1, 3, 2), 3);
}

#[test]
fn test_transposition_formula() {
    // The disk-to-storage relation: row = i % nrow, col = i / nrow, so the
    // storage index is (i % nrow) * ncol + i / nrow.
    let (ncol, nrow) = (3usize, 2usize);
    for i in 0..6 {
        assert_eq!(
            column_major_to_row_major_index(i, ncol, nrow),
            (i % nrow) * ncol + i / nrow
        );
    }
}

#[test]
fn test_sentinel_binary() {
    // NaN is written as exactly 1e30.
    let irap = surface(1, 1, &[f32::NAN]);
    let buf = to_binary_buffer(&irap).unwrap();
    assert_eq!(word_at(&buf, 104), (1e30f32).to_bits());
    let back = read_buffer(&buf).unwrap();
    assert!(f32::from_bits(back.values[0]).is_nan());

    // A value just below the threshold is not treated as missing.
    let below = f32::from_bits((1e30f32).to_bits() - 1);
    let buf = to_binary_buffer(&surface(1, 1, &[below])).unwrap();
    let back = read_buffer(&buf).unwrap();
    assert_eq!(back.values[0], below.to_bits());

    // At or above the threshold decodes as missing.
    for v in [1e30f32, 2e30f32, f32::INFINITY] {
        let buf = to_binary_buffer(&surface(1, 1, &[v])).unwrap();
        let back = read_buffer(&buf).unwrap();
        assert!(f32::from_bits(back.values[0]).is_nan(), "{v} must load as NaN");
    }
}

#[test]
fn test_sentinel_ascii() {
    let head = "-996 1 1.0 1.0\n0.0 0.0 0.0 0.0\n1 0.0 0.0 0.0\n0 0 0 0 0 0 0\n";

    // Just below the threshold, at double precision: not missing.
    let text = format!("{head}9999899.99999\n");
    let back = read_ascii(&text).unwrap();
    assert_eq!(back.values[0], (9999899.99999f64 as f32).to_bits());

    // At and above the threshold: missing.
    for tok in ["9999900.0", "9999900.000000", "1e30", "inf"] {
        let text = format!("{head}{tok}\n");
        let back = read_ascii(&text).unwrap();
        assert!(f32::from_bits(back.values[0]).is_nan(), "{tok} must load as NaN");
    }

    // A NaN value is written as the fixed undefined literal.
    let irap = surface(1, 1, &[f32::NAN]);
    let text = to_string(&irap).unwrap();
    assert!(text.ends_with("9999900.000000\n"));
    let back = read_ascii(&text).unwrap();
    assert!(f32::from_bits(back.values[0]).is_nan());
}

#[test]
fn test_magic_number_binary() {
    let mut buf = to_binary_buffer(&surface(1, 1, &[1.0])).unwrap();
    buf[4..8].copy_from_slice(&(-995i32).to_be_bytes());
    match read_buffer(&buf) {
        Err(IrapError::BadMagic { actual }) => assert_eq!(actual as i32, -995),
        other => panic!("expected BadMagic, got {other:?}"),
    }
}

#[test]
fn test_magic_number_ascii() {
    let text = "-995 1 1.0 1.0\n0 0 0 0\n1 0 0 0\n0 0 0 0 0 0 0\n1.0\n";
    match read_ascii(text) {
        Err(IrapError::BadMagic { actual }) => assert_eq!(actual as i32, -995),
        other => panic!("expected BadMagic, got {other:?}"),
    }
}

#[test]
fn test_guard_mismatch_detection() {
    let good = to_binary_buffer(&surface(3, 2, &[1.0, 2.0, 3.0, 4.0, 5.0, 6.0])).unwrap();

    // Corrupt each header record's trailing length word.
    for (pos, record) in [(36usize, 1u32), (60, 2), (96, 3)] {
        let mut buf = good.clone();
        buf[pos + 3] ^= 0xFF;
        match read_buffer(&buf) {
            Err(IrapError::GuardMismatch { record: r, .. }) => assert_eq!(r, record),
            other => panic!("expected GuardMismatch for record {record}, got {other:?}"),
        }
    }

    // Corrupt the value chunk's trailing length word (6 values: 24 bytes of
    // payload after the leading word at offset 100).
    let mut buf = good.clone();
    let guard_pos = 100 + 4 + 24;
    buf[guard_pos + 3] ^= 0xFF;
    match read_buffer(&buf) {
        Err(IrapError::ChunkGuardMismatch { leading, .. }) => assert_eq!(leading, 24),
        other => panic!("expected ChunkGuardMismatch, got {other:?}"),
    }
}

#[test]
fn test_bad_record_and_chunk_sizes() {
    let good = to_binary_buffer(&surface(1, 1, &[1.0])).unwrap();

    // A wrong leading length on record 1.
    let mut buf = good.clone();
    buf[0..4].copy_from_slice(&33u32.to_be_bytes());
    match read_buffer(&buf) {
        Err(IrapError::BadRecordSize { record, expected, actual }) => {
            assert_eq!((record, expected, actual), (1, 32, 33));
        },
        other => panic!("expected BadRecordSize, got {other:?}"),
    }

    // A chunk that claims more values than are owed.
    let mut buf = good.clone();
    buf[100..104].copy_from_slice(&8u32.to_be_bytes());
    match read_buffer(&buf) {
        Err(IrapError::BadChunkSize { declared }) => assert_eq!(declared, 8),
        other => panic!("expected BadChunkSize, got {other:?}"),
    }

    // A zero-length chunk.
    let mut buf = good.clone();
    buf[100..104].copy_from_slice(&0u32.to_be_bytes());
    assert!(matches!(read_buffer(&buf), Err(IrapError::BadChunkSize { declared: 0 })));
}

#[test]
fn test_truncated_inputs() {
    let good = to_binary_buffer(&surface(3, 2, &[1.0, 2.0, 3.0, 4.0, 5.0, 6.0])).unwrap();
    assert!(matches!(read_buffer(&good[..50]), Err(IrapError::UnexpectedEnd)));
    assert!(matches!(read_buffer(&good[..110]), Err(IrapError::UnexpectedEnd)));
    assert!(matches!(read_buffer(&[]), Err(IrapError::UnexpectedEnd)));

    let text = "-996 2 1.0 1.0\n0 0 0 0\n3 0 0 0\n0 0 0 0 0 0 0\n1.0 2.0\n";
    assert!(matches!(read_ascii(text), Err(IrapError::UnexpectedEnd)));
}

#[test]
fn test_malformed_token_ascii() {
    let text = "-996 1 1.0 1.0\n0 0 0 0\n1 0 0 0\n0 0 0 0 0 0 0\nabc\n";
    assert!(matches!(read_ascii(text), Err(IrapError::MalformedNumber)));

    let text = "-99x 1 1.0 1.0\n";
    assert!(matches!(read_ascii(text), Err(IrapError::MalformedNumber)));
}

#[test]
fn test_invalid_dimensions_ascii() {
    let text = "-996 0 1.0 1.0\n0 0 0 0\n3 0 0 0\n0 0 0 0 0 0 0\n";
    match read_ascii(text) {
        Err(IrapError::InvalidDimensions { ncol, nrow }) => assert_eq!((ncol, nrow), (3, 0)),
        other => panic!("expected InvalidDimensions, got {other:?}"),
    }
}

#[test]
fn test_rotation_normalization_binary() {
    let mut header = small_header(1, 1);
    header.rot = (-30.0f32).to_bits();
    let buf = to_binary_buffer_fortran(&header, &[(1.0f32).to_bits()]).unwrap();
    let back = read_buffer(&buf).unwrap();
    assert_eq!(back.header.rot, (330.0f32).to_bits());
}

#[test]
fn test_rotation_normalization_ascii() {
    let text = "-996 1 1.0 1.0\n0 0 0 0\n1 -30.0 0 0\n0 0 0 0 0 0 0\n1.0\n";
    let back = read_ascii(text).unwrap();
    assert_eq!(back.header.rot, (330.0f32).to_bits());

    // A non-negative rotation is kept as it is.
    let text = "-996 1 1.0 1.0\n0 0 0 0\n1 45.0 0 0\n0 0 0 0 0 0 0\n1.0\n";
    let back = read_ascii(text).unwrap();
    assert_eq!(back.header.rot, (45.0f32).to_bits());
}

#[test]
fn test_chunking_boundary() {
    // Grid sizes that are not multiples of eight still round-trip, through
    // both codecs.
    for (ncol, nrow) in [(1u32, 1u32), (3, 2), (3, 3), (1, 8), (2, 8), (5, 3)] {
        let n = (ncol * nrow) as usize;
        let vals: Vec<f32> = (0..n).map(|i| i as f32 * 0.25 - 1.0).collect();
        let irap = surface(ncol, nrow, &vals);

        let buf = to_binary_buffer(&irap).unwrap();
        let back = read_buffer(&buf).unwrap();
        assert_eq!(back.values, irap.values, "binary {ncol}x{nrow}");
        assert_eq!(back.header, irap.header, "binary header {ncol}x{nrow}");

        let text = to_string(&irap).unwrap();
        let back = read_ascii(&text).unwrap();
        assert_eq!(back.values, irap.values, "text {ncol}x{nrow}");
        assert_eq!(back.header, irap.header, "text header {ncol}x{nrow}");
    }
}

#[test]
fn test_binary_chunk_layout() {
    // Nine values: one full chunk of eight and a final chunk of one.
    let vals: Vec<f32> = (0..9).map(|i| i as f32).collect();
    let irap = surface(3, 3, &vals);
    let buf = to_binary_buffer(&irap).unwrap();
    assert_eq!(buf.len(), 100 + (4 + 32 + 4) + (4 + 4 + 4));
    assert_eq!(word_at(&buf, 100), 32);
    assert_eq!(word_at(&buf, 136), 32);
    assert_eq!(word_at(&buf, 140), 4);
    assert_eq!(word_at(&buf, 148), 4);
}

#[test]
fn test_ascii_line_wrapping() {
    // Nine values: eight on the first line, one on a second line, and a
    // trailing newline after the partial line.
    let vals: Vec<f32> = (0..9).map(|i| i as f32).collect();
    let irap = surface(1, 9, &vals);
    let text = to_string(&irap).unwrap();
    let lines: Vec<&str> = text.lines().collect();
    assert_eq!(lines.len(), 6);
    assert_eq!(lines[4].split_whitespace().count(), 8);
    assert_eq!(lines[5].split_whitespace().count(), 1);
    assert!(text.ends_with('\n'));

    // Exactly eight values: one line, no dangling separator.
    let vals: Vec<f32> = (0..8).map(|i| i as f32).collect();
    let irap = surface(1, 8, &vals);
    let text = to_string(&irap).unwrap();
    assert!(text.ends_with("0.0000 1.0000 2.0000 3.0000 4.0000 5.0000 6.0000 7.0000\n"));
}

#[test]
fn test_round_trip_with_nan_values() {
    let vals = [1.5f32, f32::NAN, -2.25, 1e29, f32::NAN, 0.0];
    let irap = surface(3, 2, &vals);

    let buf = to_binary_buffer(&irap).unwrap();
    let back = read_buffer(&buf).unwrap();
    for (i, v) in vals.iter().enumerate() {
        if v.is_nan() {
            assert!(f32::from_bits(back.values[i]).is_nan());
        } else {
            assert_eq!(back.values[i], v.to_bits());
        }
    }

    // The text codec's own threshold is far lower: values must stay below
    // 9999900 to survive it.
    let vals = [1.5f32, f32::NAN, -2.25, 12345.5, f32::NAN, 0.0];
    let irap = surface(3, 2, &vals);
    let text = to_string(&irap).unwrap();
    let back = read_ascii(&text).unwrap();
    for (i, v) in vals.iter().enumerate() {
        if v.is_nan() {
            assert!(f32::from_bits(back.values[i]).is_nan());
        } else {
            let got = f32::from_bits(back.values[i]);
            assert!((got - v).abs() <= 0.5e-4 * v.abs().max(1.0), "{v} came back {got}");
        }
    }
}

fn shortest_texts(disk_vals: &[u32]) -> Vec<String> {
    disk_vals.iter().map(|&b| format!("{}", f32::from_bits(b))).collect()
}

#[test]
fn test_fortran_order_variants() {
    // The disk-order writers take the buffer as already column-major: the
    // payload carries the values verbatim.
    let header = small_header(3, 2);
    let disk_vals: Vec<u32> = [1.0f32, 4.0, 2.0, 5.0, 3.0, 6.0].iter().map(|v| v.to_bits()).collect();
    let buf = to_binary_buffer_fortran(&header, &disk_vals).unwrap();
    for (j, w) in disk_vals.iter().enumerate() {
        assert_eq!(word_at(&buf, 104 + 4 * j), *w);
    }

    // The text variant renders each value with its caller-supplied shortest
    // round-trip text.
    let text = to_string_fortran(&header, &disk_vals, &shortest_texts(&disk_vals)).unwrap();
    assert!(text.ends_with("1 4 2 5 3 6\n"));

    // The binary variant agrees with the transposing writer on the same grid.
    let irap = Irap {
        header,
        values: [1.0f32, 2.0, 3.0, 4.0, 5.0, 6.0].iter().map(|v| v.to_bits()).collect(),
    };
    assert_eq!(to_binary_buffer(&irap).unwrap(), buf);

    // Both text dialects are accepted by the one reader; this one round-trips
    // the storage exactly.
    let back = read_ascii(&text).unwrap();
    assert_eq!(back.values, irap.values);
    assert_eq!(back.header, irap.header);
}

#[test]
fn test_fortran_text_exact_round_trip() {
    // The shortest round-trip dialect keeps values the fixed 4-decimal
    // dialect would blur.
    let header = small_header(1, 1);
    let disk_vals = vec![(0.33333334f32).to_bits()];
    let text = to_string_fortran(&header, &disk_vals, &shortest_texts(&disk_vals)).unwrap();
    let back = read_ascii(&text).unwrap();
    assert_eq!(back.values, disk_vals);
}

#[test]
fn test_negative_dimensions_ascii() {
    let text = "-996 -2 1.0 1.0\n0 0 0 0\n3 0 0 0\n0 0 0 0 0 0 0\n";
    match read_ascii(text) {
        Err(IrapError::InvalidDimensions { ncol, nrow }) => {
            assert_eq!((ncol as i32, nrow as i32), (3, -2));
        },
        other => panic!("expected InvalidDimensions, got {other:?}"),
    }
    let e = IrapError::InvalidDimensions { ncol: 3, nrow: (-2i32) as u32 };
    assert_eq!(e.message(), "Invalid dimensions: ncol=3, nrow=-2");
}

#[test]
fn test_error_messages() {
    let e = IrapError::BadMagic { actual: (-995i32) as u32 };
    assert_eq!(e.message(), "Incorrect magic number: -995. Expected -996");
    let e = IrapError::GuardMismatch { record: 2, leading: 16, trailing: 17 };
    assert_eq!(e.message(), "Chunk 2 end guard mismatch: 17");
    let e = IrapError::InvalidDimensions { ncol: 0, nrow: 5 };
    assert_eq!(e.message(), "Invalid dimensions: ncol=0, nrow=5");
    assert_eq!(IrapError::UnexpectedEnd.message(), "Unexpected end of file");
}

#[test]
fn test_binary_zero_dimension_decodes_empty() {
    // The binary reader does not validate dimensions: a zero-sized grid owes
    // no values and decodes to an empty buffer.
    let header = small_header(1, 0);
    let buf = to_binary_buffer_fortran(&header, &[]).unwrap();
    assert_eq!(buf.len(), 100);
    let back = read_buffer(&buf).unwrap();
    assert_eq!(back.header.nrow, 0);
    assert_eq!(back.values, Vec::<u32>::new());
}

#[test]
fn test_binary_trailing_bytes_ignored() {
    let irap = surface(1, 1, &[2.5]);
    let mut buf = to_binary_buffer(&irap).unwrap();
    buf.extend_from_slice(b"extra bytes");
    let back = read_buffer(&buf).unwrap();
    assert_eq!(back.values, irap.values);
}

#[test]
fn test_rotation_sign_edge_cases() {
    // Negative zero is not strictly negative: no normalization.
    let text = "-996 1 1.0 1.0\n0 0 0 0\n1 -0.0 0 0\n0 0 0 0 0 0 0\n1.0\n";
    let back = read_ascii(text).unwrap();
    assert_eq!(back.header.rot, (-0.0f32).to_bits());

    // A tiny negative angle is strictly negative at double precision even
    // though it narrows to negative zero: it is normalized, to exactly 360.
    let text = "-996 1 1.0 1.0\n0 0 0 0\n1 -1e-300 0 0\n0 0 0 0 0 0 0\n1.0\n";
    let back = read_ascii(text).unwrap();
    assert_eq!(back.header.rot, (360.0f32).to_bits());

    // Negative geometry fields pass through unnormalized.
    let text = "-996 1 1.0 1.0\n-1.5 0 0 0\n1 0 0 0\n0 0 0 0 0 0 0\n1.0\n";
    let back = read_ascii(text).unwrap();
    assert_eq!(back.header.xori, (-1.5f32).to_bits());
}

#[test]
fn test_worked_example_decode_from_raw_bytes() {
    // A hand-built stream: valid header for a 3-column, 2-row grid, then one
    // guarded chunk holding the disk sequence [1,4,2,5,3,6]. Decoding must
    // reproduce the row-major storage [1,2,3,4,5,6].
    let mut buf: Vec<u8> = Vec::new();
    let words: Vec<u32> = vec![
        32,
        (-996i32) as u32,
        2, // nrow
        0,
        0,
        0,
        0,
        (1.0f32).to_bits(),
        (1.0f32).to_bits(),
        32,
        16,
        3, // ncol
        0,
        0,
        0,
        16,
        28,
        0,
        0,
        0,
        0,
        0,
        0,
        0,
        28,
        24, // chunk: six values
        (1.0f32).to_bits(),
        (4.0f32).to_bits(),
        (2.0f32).to_bits(),
        (5.0f32).to_bits(),
        (3.0f32).to_bits(),
        (6.0f32).to_bits(),
        24,
    ];
    for w in words {
        buf.extend_from_slice(&w.to_be_bytes());
    }
    let back = read_buffer(&buf).unwrap();
    assert_eq!((back.header.ncol, back.header.nrow), (3, 2));
    let values: Vec<f32> = back.values.iter().map(|&b| f32::from_bits(b)).collect();
    assert_eq!(values, vec![1.0, 2.0, 3.0, 4.0, 5.0, 6.0]);
}
