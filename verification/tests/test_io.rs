use surfio_rs::export_irap_ascii::to_string;
use surfio_rs::export_irap_binary::to_binary_buffer;
use surfio_rs::import_irap_ascii::read_string;
use surfio_rs::import_irap_ascii::tokenize;
use surfio_rs::import_irap_binary::read_buffer;
use surfio_rs::Irap;
use surfio_rs::IrapHeader;

/// Parses every whitespace-delimited token of `data` as a double, handing
/// the decoder the bit patterns it treats as opaque: the double-precision
/// parse and its single-precision narrowing.
fn parse_floats(data: &str) -> Vec<Option<(u64, u32)>> {
    let bytes = data.as_bytes();
    tokenize(bytes)
        .into_iter()
        .map(|(s, e)| {
            std::str::from_utf8(&bytes[s..e])
                .ok()
                .and_then(|t| t.parse::<f64>().ok())
                .map(|x| (x.to_bits(), (x as f32).to_bits()))
        })
        .collect()
}

fn create_dummy_irap() -> Irap {
    let header = IrapHeader {
        ncol: 3,
        nrow: 2,
        xori: (100.0f32).to_bits(),
        yori: (200.0f32).to_bits(),
        xmax: (100.0f32 + (3.0f32 - 1.0) * 10.0).to_bits(),
        ymax: (200.0f32 + (2.0f32 - 1.0) * 10.0).to_bits(),
        xinc: (10.0f32).to_bits(),
        yinc: (10.0f32).to_bits(),
        rot: (0.0f32).to_bits(),
        xrot: (0.0f32).to_bits(),
        yrot: (0.0f32).to_bits(),
    };

    let values: Vec<u32> = [1.0f32, 2.0, 3.0, 4.0, 5.0, 6.0]
        .iter()
        .map(|v| v.to_bits())
        .collect();

    Irap { header, values }
}

#[test]
fn test_round_trip_ascii_string() {
    let irap = create_dummy_irap();
    let ascii = to_string(&irap).unwrap();
    let floats = parse_floats(&ascii);
    let irap_read = read_string(&ascii, &floats).unwrap();

    assert_eq!(irap.header, irap_read.header);
    assert_eq!(irap.values, irap_read.values);
}

#[test]
fn test_round_trip_binary_buffer() {
    let irap = create_dummy_irap();
    let buffer = to_binary_buffer(&irap).unwrap();
    let irap_read = read_buffer(&buffer).unwrap();

    assert_eq!(irap.header, irap_read.header);
    assert_eq!(irap.values, irap_read.values);
}
