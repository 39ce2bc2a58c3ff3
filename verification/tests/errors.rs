use tiziano_params::complete::{check_profile, IncompleteField};
use tiziano_params::crc::crc32_words;
use tiziano_params::text::{HexError, IntErrorKind};
use tiziano_params::{
    decode, encode, from_toml, parse_schema, to_toml, DecodeError, HeaderError, IspParams, ParamMap,
    Schema, TomlError,
};

const HEADER: &str = "\
#define TISP_PARAM_A_COLS 2
#define TISP_B_COLS 3
typedef struct {
    int8_t TISP_PARAM_A[TISP_PARAM_A_COLS];
    uint16_t TISP_B[TISP_B_COLS];
} tisp_params_data_t;
";

fn schema() -> Schema {
    parse_schema(HEADER).unwrap()
}

fn params() -> IspParams {
    let mut day = ParamMap::new();
    day.insert("TISP_PARAM_A".to_string(), vec![-5, 7]);
    day.insert("TISP_B".to_string(), vec![1, 2, 65535]);
    let mut night = ParamMap::new();
    night.insert("TISP_PARAM_A".to_string(), vec![0, 0]);
    night.insert("TISP_B".to_string(), vec![3, 4, 5]);
    IspParams { day, night, day_tail: vec![], night_tail: vec![], profile_bytes: 8 }
}

fn text_with(day_line: &str) -> String {
    format!(
        "[meta]\nprofile_bytes = 8\n[day]\n{}\nB = [1, 2, 3]\n[night]\nA = [0, 0]\nB = [3, 4, 5]\n",
        day_line
    )
}

#[test]
fn decode_too_small() {
    assert_eq!(decode(&schema(), &[0u8; 23]).unwrap_err(), DecodeError::TooSmall);
}

#[test]
fn decode_version_mismatch() {
    let mut bin = encode(&schema(), &params());
    bin[0] = b'3';
    assert_eq!(decode(&schema(), &bin).unwrap_err(), DecodeError::VersionMismatch);
}

#[test]
fn decode_flag_mismatch() {
    let mut bin = encode(&schema(), &params());
    bin[8] = b'H';
    assert_eq!(decode(&schema(), &bin).unwrap_err(), DecodeError::FlagMismatch);
}

#[test]
fn decode_odd_size() {
    let mut bin = encode(&schema(), &params());
    bin[16] = 17;
    assert_eq!(decode(&schema(), &bin).unwrap_err(), DecodeError::OddSize { size: 17 });
}

#[test]
fn decode_profile_too_small() {
    let mut bin = encode(&schema(), &params());
    bin[16] = 14;
    assert_eq!(
        decode(&schema(), &bin).unwrap_err(),
        DecodeError::ProfileTooSmall { profile_bytes: 7, needed: 8 }
    );
}

#[test]
fn decode_truncated() {
    let bin = encode(&schema(), &params());
    assert_eq!(
        decode(&schema(), &bin[..bin.len() - 1]).unwrap_err(),
        DecodeError::Truncated { need: 40, have: 39 }
    );
}

#[test]
fn decode_crc_mismatch() {
    let mut bin = encode(&schema(), &params());
    let stored = u32::from_le_bytes([bin[20], bin[21], bin[22], bin[23]]);
    bin[30] ^= 1;
    let computed = crc32_words(&bin[24..40]);
    assert_eq!(decode(&schema(), &bin).unwrap_err(), DecodeError::CrcMismatch { stored, computed });
}

#[test]
fn decode_ignores_bytes_after_data() {
    let mut bin = encode(&schema(), &params());
    bin.push(99);
    let p = decode(&schema(), &bin).unwrap();
    assert_eq!(encode(&schema(), &p), bin[..bin.len() - 1].to_vec());
}

#[test]
fn toml_roundtrip_small() {
    let s = schema();
    let back = from_toml(&s, &to_toml(&s, &params())).unwrap();
    assert_eq!(encode(&s, &back), encode(&s, &params()));
}

#[test]
fn toml_accepts_spacing_comments_and_crlf() {
    let s = schema();
    let text = "# x\r\n[meta]\r\n  profile_bytes=+8 \r\nunknown = 1\n[day]\nA=[ -5 ,7 ]\nB = 1, 2, 65535\n\n[night]\nA = [0,0]\nB = [3, 4, 5]";
    let p = from_toml(&s, text).unwrap();
    assert_eq!(encode(&s, &p), encode(&s, &params()));
}

#[test]
fn toml_expected_key_value() {
    let r = from_toml(&schema(), &text_with("A [1, 2]"));
    assert!(matches!(r, Err(TomlError::ExpectedKeyValue { line: 4 })));
}

#[test]
fn toml_data_before_section() {
    let r = from_toml(&schema(), "A = [1, 2]\n");
    assert!(matches!(r, Err(TomlError::DataBeforeSection { line: 1 })));
}

#[test]
fn toml_bad_profile_bytes() {
    let r = from_toml(&schema(), "[meta]\nprofile_bytes = -1\n");
    assert!(matches!(r, Err(TomlError::BadProfileBytes { line: 2, kind: IntErrorKind::InvalidDigit })));
    let r = from_toml(&schema(), "[meta]\nprofile_bytes =\n");
    assert!(matches!(r, Err(TomlError::BadProfileBytes { line: 2, kind: IntErrorKind::Empty })));
    let r = from_toml(&schema(), "[meta]\nprofile_bytes = 99999999999999999999999\n");
    assert!(matches!(r, Err(TomlError::BadProfileBytes { line: 2, kind: IntErrorKind::PosOverflow })));
}

#[test]
fn toml_bad_hex() {
    let r = from_toml(&schema(), "[meta]\nday_tail = \"abc\"\n");
    assert!(matches!(r, Err(TomlError::BadHex { line: 2, error: HexError::OddLength })));
    let r = from_toml(&schema(), "[meta]\nnight_tail = \"00zz\"\n");
    assert!(matches!(r, Err(TomlError::BadHex { line: 2, error: HexError::BadDigit { offset: 2 } })));
    let r = from_toml(&schema(), "[meta]\nday_tail = \"0a\u{20ac}b\"\n");
    assert!(matches!(r, Err(TomlError::BadHex { line: 2, error: HexError::SplitsChar { offset: 2 } })));
}

#[test]
fn toml_unknown_field() {
    match from_toml(&schema(), &text_with("C = [1]")) {
        Err(TomlError::UnknownField { line, key }) => {
            assert_eq!(line, 4);
            assert_eq!(key, "C");
        }
        other => panic!("unexpected {:?}", other),
    }
}

#[test]
fn toml_bad_value() {
    match from_toml(&schema(), &text_with("A = [1, x2]")) {
        Err(TomlError::BadValue { line, text, kind }) => {
            assert_eq!((line, text.as_str(), kind), (4, "x2", IntErrorKind::InvalidDigit));
        }
        other => panic!("unexpected {:?}", other),
    }
}

#[test]
fn toml_value_too_small() {
    match from_toml(&schema(), &text_with("A = [-9223372036854775809, 1]")) {
        Err(TomlError::BadValue { line, text, kind }) => {
            assert_eq!((line, text.as_str(), kind), (4, "-9223372036854775809", IntErrorKind::NegOverflow));
        }
        other => panic!("unexpected {:?}", other),
    }
}

#[test]
fn toml_wrong_count() {
    match from_toml(&schema(), &text_with("A = [1, 2, 3]")) {
        Err(TomlError::WrongCount { line, key, expected, got }) => {
            assert_eq!((line, key.as_str(), expected, got), (4, "A", 2, 3));
        }
        other => panic!("unexpected {:?}", other),
    }
}

#[test]
fn toml_out_of_range() {
    match from_toml(&schema(), &text_with("A = [1, 128]")) {
        Err(TomlError::OutOfRange { line, key, value, min, max }) => {
            assert_eq!((line, key.as_str(), value, min, max), (4, "A", 128, -128, 127));
        }
        other => panic!("unexpected {:?}", other),
    }
}

#[test]
fn toml_missing_field() {
    let text = "[meta]\n[day]\nA = [1, 2]\nB = [1, 2, 3]\n[night]\nA = [0, 0]\n";
    match from_toml(&schema(), text) {
        Err(TomlError::MissingField { night, name }) => {
            assert!(night);
            assert_eq!(name, "TISP_B");
        }
        other => panic!("unexpected {:?}", other),
    }
}

#[test]
fn toml_default_profile_bytes_is_layout_size() {
    let text = "[day]\nA = [1, 2]\nB = [1, 2, 3]\n[night]\nA = [0, 0]\nB = [3, 4, 5]\n";
    let p = from_toml(&schema(), text).unwrap();
    assert_eq!(p.profile_bytes, 8);
}

#[test]
fn incomplete_profiles() {
    let s = schema();
    let mut m = ParamMap::new();
    m.insert("TISP_PARAM_A".to_string(), vec![1, 2]);
    assert_eq!(check_profile(&s, &m), Some(IncompleteField::Missing { index: 1 }));
    m.insert("TISP_B".to_string(), vec![1]);
    assert_eq!(check_profile(&s, &m), Some(IncompleteField::WrongLength { index: 1, got: 1 }));
    m.insert("TISP_B".to_string(), vec![1, 2, 3]);
    assert_eq!(check_profile(&s, &m), None);
}

#[test]
fn header_missing_cols() {
    let h = "typedef struct {\n uint8_t TISP_X[3];\n} tisp_params_data_t;\n";
    match parse_schema(h) {
        Err(HeaderError::MissingCols { name }) => assert_eq!(name, "TISP_X"),
        other => panic!("unexpected {:?}", other),
    }
}

#[test]
fn header_no_fields() {
    let h = "} tisp_params_data_t;\ntypedef struct {\n#define TISP_X_COLS 3\n uint8_t TISP_X[3];\n";
    assert!(matches!(parse_schema(h), Err(HeaderError::NoFields)));
}

#[test]
fn header_large_layout() {
    let h = "#define TISP_X_COLS 65536*65536\ntypedef struct {\n uint32_t TISP_X[1];\n} tisp_params_data_t;\n";
    assert!(matches!(parse_schema(h), Err(HeaderError::MissingCols { .. })));
    let h = "#define TISP_X_COLS 65536*16383\ntypedef struct {\n uint32_t TISP_X[1];\n} tisp_params_data_t;\n";
    let s = parse_schema(h).unwrap();
    assert_eq!(s.params_data_bytes, 4 * 1073676288);
}

#[test]
fn read_text_is_encodable() {
    let s = schema();
    let text = "[day]\nA = [1, 2]\nB = [1, 2, 3]\n[night]\nB = [3, 4, 5]\nA = [0, 0]\n";
    let p = from_toml(&s, text).unwrap();
    assert_eq!(check_profile(&s, &p.day), None);
    assert_eq!(check_profile(&s, &p.night), None);
}

#[test]
fn decoded_file_is_encodable() {
    let s = schema();
    let p = decode(&s, &encode(&s, &params())).unwrap();
    assert_eq!(check_profile(&s, &p.day), None);
    assert_eq!(check_profile(&s, &p.night), None);
}
