use surfio_rs::ascii_num::u32_to_string;
use surfio_rs::ascii_num::u32_word_to_signed_string;
use surfio_rs::export_irap_ascii::format_fixed4;
use surfio_rs::ieee::rot_plus_360;
use surfio_rs::import_irap_ascii::read_value_int;
use surfio_rs::import_irap_ascii::skip_whitespace;
use surfio_rs::import_irap_ascii::tokenize;

#[test]
fn test_decimal_rendering() {
    for n in [0u32, 1, 9, 10, 99, 100, 996, 4096, u32::MAX] {
        assert_eq!(u32_to_string(n), format!("{n}"));
    }
    assert_eq!(u32_word_to_signed_string((-996i32) as u32), "-996");
    assert_eq!(u32_word_to_signed_string(0), "0");
    assert_eq!(u32_word_to_signed_string((i32::MIN) as u32), "-2147483648");
    assert_eq!(u32_word_to_signed_string(2147483647), "2147483647");
}

#[test]
fn test_fixed4_matches_std_formatting() {
    let cases = [
        0.0f32,
        -0.0,
        1.0,
        -1.0,
        1.5,
        0.1,
        -2.5,
        0.00005,
        123456.789,
        9999900.0,
        1e30,
        3.4028235e38,
        f32::MAX,
        f32::MIN_POSITIVE,
        1e-40,
        f32::from_bits(1),
        262144.03125,
        -262144.03125,
        0.062506258,
        359.99997,
        1e-3,
        1234.00005,
        f32::INFINITY,
        f32::NEG_INFINITY,
        f32::NAN,
    ];
    for v in cases {
        assert_eq!(
            format_fixed4(v.to_bits()),
            format!("{v:.4}"),
            "fixed-4 formatting of {v} ({:#010x})",
            v.to_bits()
        );
    }
    // A sweep across bit patterns in several binades.
    for anchor in [1.0f32, 255.5, 1e-6, 1e7, 3e38, 1.2e-38, 1e-42] {
        let base = anchor.to_bits();
        for d in 0..64u32 {
            let v = f32::from_bits(base.wrapping_add(d));
            if v.is_nan() {
                continue;
            }
            assert_eq!(
                format_fixed4(v.to_bits()),
                format!("{v:.4}"),
                "fixed-4 formatting of {v} ({:#010x})",
                v.to_bits()
            );
        }
    }
}

#[test]
fn test_rot_plus_360_matches_hardware() {
    let cases = [
        -30.0f32,
        -0.0,
        -360.0,
        -720.0,
        -359.99997,
        -360.00003,
        -1e-20,
        -1e20,
        -1e-44,
        -f32::MIN_POSITIVE,
        -3.4e38,
        f32::NEG_INFINITY,
        -179.99998,
        -0.5,
        -360.5,
    ];
    for v in cases {
        assert_eq!(
            rot_plus_360(v.to_bits()),
            (v + 360.0f32).to_bits(),
            "360 + {v} ({:#010x})",
            v.to_bits()
        );
    }
    assert_eq!(rot_plus_360((-30.0f32).to_bits()), (330.0f32).to_bits());
    // A sweep of negative patterns around several magnitudes, including the
    // band edges where the sum collapses to 360 or to the operand itself.
    for anchor in [
        -360.0f32,
        -1.0,
        -0.001,
        -7.6293945e-6,
        -1e-10,
        -1.6e7,
        -1.7179869e10,
        -6e11,
        -1e38,
    ] {
        let base = anchor.to_bits();
        for d in 0..64u32 {
            let v = f32::from_bits(base.wrapping_add(d));
            assert_eq!(
                rot_plus_360(v.to_bits()),
                (v + 360.0f32).to_bits(),
                "360 + {v} ({:#010x})",
                v.to_bits()
            );
        }
    }
}

#[test]
fn test_read_value_int_matches_std_parse() {
    let cases = [
        "123", "-996", "+45", "0", "-0", "2147483647", "-2147483648", "2147483648", "-2147483649",
        "12a", "a12", "", "-", "+", "--5", "1.5", "99999999999999999999",
    ];
    for t in cases {
        let buf = t.as_bytes();
        let got = read_value_int(buf, 0);
        match t.parse::<i32>() {
            Ok(v) => {
                let (value, end) = got.unwrap_or_else(|e| panic!("{t:?} refused: {e:?}"));
                assert_eq!(value, v, "parsing {t:?}");
                assert_eq!(end, t.len());
            },
            Err(_) => assert!(got.is_err(), "{t:?} must be refused"),
        }
    }
    // Leading whitespace is skipped; the token ends at whitespace.
    let (v, end) = read_value_int(b"  \t\n 42 7", 0).unwrap();
    assert_eq!((v, end), (42, 7));
}

#[test]
fn test_tokenizer() {
    let data = b" 1.5\t-996\n\nabc  ";
    let toks = tokenize(data);
    let texts: Vec<&[u8]> = toks.iter().map(|&(s, e)| &data[s..e]).collect();
    assert_eq!(texts, vec![&b"1.5"[..], &b"-996"[..], &b"abc"[..]]);
    assert_eq!(tokenize(b""), vec![]);
    assert_eq!(tokenize(b"   "), vec![]);
    assert_eq!(skip_whitespace(b"  x", 0), 2);
    assert_eq!(skip_whitespace(b"x ", 0), 0);
    assert_eq!(skip_whitespace(b"  ", 0), 2);
}
