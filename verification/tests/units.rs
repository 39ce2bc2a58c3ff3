use tiziano_params::crc::crc32_words;
use tiziano_params::element::{align_to, read_element, read_u32_le, write_element};
use tiziano_params::profile::{decode_profile, encode_profile};
use tiziano_params::schema::{FieldSpec, LayoutError, Schema};
use tiziano_params::text::{hex_decode, HexError};
use tiziano_params::toml::{hex_encode, short_name};
use tiziano_params::ParamMap;

fn field(name: &str, cols: usize, elem_bytes: usize, signed: bool) -> FieldSpec {
    FieldSpec { name: name.to_string(), cols, elem_bytes, signed }
}

#[test]
fn crc_of_one_word() {
    // 0 ^ 1 = 1; 1 ^ table[1] = 0x77073097.
    assert_eq!(crc32_words(&[1, 0, 0, 0]), 0x77073097);
    // Bytes that do not fill a word are not covered.
    assert_eq!(crc32_words(&[1, 0, 0, 0, 9, 9]), 0x77073097);
    assert_eq!(crc32_words(&[]), 0);
}

#[test]
fn crc_of_two_words() {
    let c1: u32 = 5 ^ 0x706af48f;
    let w2: u32 = 0x01020304;
    let c2 = c1 ^ w2;
    let table = [0x00000000u32, 0x77073096, 0xee0e612c, 0x990951ba, 0x076dc419, 0x706af48f, 0xe963a535, 0x9e6495a3];
    let expected = c2 ^ table[(c2 & 7) as usize];
    assert_eq!(crc32_words(&[5, 0, 0, 0, 4, 3, 2, 1]), expected);
}

#[test]
fn align_values() {
    assert_eq!(align_to(5, 4), 8);
    assert_eq!(align_to(8, 4), 8);
    assert_eq!(align_to(0, 2), 0);
    assert_eq!(align_to(7, 1), 7);
    assert_eq!(align_to(9, 2), 10);
    assert_eq!(align_to(usize::MAX, 1), usize::MAX);
    assert_eq!(align_to(usize::MAX - 3, 4), usize::MAX - 3);
}

#[test]
fn read_u32_little_endian() {
    assert_eq!(read_u32_le(&[9, 0x78, 0x56, 0x34, 0x12], 1), 0x12345678);
}

#[test]
fn element_values() {
    let data = [0xff, 0xff, 0x80, 0x00, 0x00, 0x80];
    assert_eq!(read_element(&data, 0, 1, false), 255);
    assert_eq!(read_element(&data, 0, 1, true), -1);
    assert_eq!(read_element(&data, 0, 2, true), -1);
    assert_eq!(read_element(&data, 0, 2, false), 65535);
    assert_eq!(read_element(&data, 2, 4, false), 0x80000080);
    assert_eq!(read_element(&data, 2, 4, true), 0x80000080i64 - 0x100000000);
}

#[test]
fn element_writes_truncate() {
    let mut buf = vec![7];
    write_element(&mut buf, -1, 2, true);
    write_element(&mut buf, 300, 1, false);
    write_element(&mut buf, -2147483648, 4, true);
    write_element(&mut buf, 0x1_2345_6789, 4, false);
    assert_eq!(buf, vec![7, 0xff, 0xff, 44, 0, 0, 0, 0x80, 0x89, 0x67, 0x45, 0x23]);
}

#[test]
fn element_roundtrip() {
    for &(v, w, s) in &[(-128i64, 1usize, true), (127, 1, true), (255, 1, false), (-32768, 2, true), (65535, 2, false), (-2147483648, 4, true), (4294967295, 4, false)] {
        let mut buf = Vec::new();
        write_element(&mut buf, v, w, s);
        assert_eq!(buf.len(), w);
        assert_eq!(read_element(&buf, 0, w, s), v);
    }
}

#[test]
fn hex_values() {
    assert_eq!(hex_encode(&[0x0a, 0xff, 0x00]), "0aff00");
    assert_eq!(hex_decode("0aFf00").unwrap(), vec![0x0a, 0xff, 0x00]);
    assert_eq!(hex_decode("+f").unwrap(), vec![15]);
    assert_eq!(hex_decode("").unwrap(), Vec::<u8>::new());
    assert_eq!(hex_decode("abc").unwrap_err(), HexError::OddLength);
    assert_eq!(hex_decode("-1").unwrap_err(), HexError::BadDigit { offset: 0 });
    assert_eq!(hex_decode("\u{e9}").unwrap_err(), HexError::BadDigit { offset: 0 });
    assert_eq!(hex_decode("a\u{e9}b").unwrap_err(), HexError::SplitsChar { offset: 0 });
}

#[test]
fn short_names() {
    assert_eq!(short_name("TISP_PARAM_AE_EV_LIST"), "AE_EV_LIST");
    assert_eq!(short_name("TISP_ADR_X"), "ADR_X");
    assert_eq!(short_name("OTHER"), "OTHER");
    assert_eq!(short_name("TISP_PARAM_"), "");
}

#[test]
fn param_map_insert_get() {
    let mut m = ParamMap::new();
    assert!(!m.contains_key("A"));
    m.insert("A".to_string(), vec![1]);
    m.insert("B".to_string(), vec![2]);
    m.insert("A".to_string(), vec![3, 4]);
    assert_eq!(m.get("A").unwrap(), &vec![3, 4]);
    assert_eq!(m.get("B").unwrap(), &vec![2]);
    assert!(m.get("C").is_none());
    assert!(m.contains_key("B"));
}

#[test]
fn layout_from_fields() {
    let s = Schema::from_fields(vec![field("TISP_A", 3, 1, false), field("TISP_B", 1, 4, true), field("TISP_C", 1, 2, false)]).unwrap();
    // 3 bytes, padding to 4, 4 bytes, 2 bytes, padding to 12.
    assert_eq!(s.params_data_bytes, 12);
    let bad = Schema::from_fields(vec![field("TISP_A", 1, 1, false), field("TISP_B", 1, 3, false)]);
    assert!(matches!(bad, Err(LayoutError::BadWidth { index: 1 })));
    let big = Schema::from_fields(vec![field("TISP_A", usize::MAX, 2, false)]);
    assert!(matches!(big, Err(LayoutError::TooLarge)));
    let wide = Schema::from_fields(vec![field("TISP_A", 0x4000_0000, 2, false)]).unwrap();
    assert_eq!(wide.params_data_bytes, 0x8000_0000);
}

#[test]
fn profile_roundtrip_with_padding() {
    let s = Schema::from_fields(vec![field("TISP_A", 3, 1, true), field("TISP_B", 1, 4, false)]).unwrap();
    let mut m = ParamMap::new();
    m.insert("TISP_A".to_string(), vec![-1, 2, -3]);
    m.insert("TISP_B".to_string(), vec![70000]);
    let bytes = encode_profile(&s, &m, &[5, 6]);
    assert_eq!(bytes, vec![0xff, 2, 0xfd, 0, 0x70, 0x11, 0x01, 0x00, 5, 6]);
    let (back, tail) = decode_profile(&s, &bytes);
    assert_eq!(back.get("TISP_A").unwrap(), &vec![-1, 2, -3]);
    assert_eq!(back.get("TISP_B").unwrap(), &vec![70000]);
    assert_eq!(tail, vec![5, 6]);
}

#[test]
fn hex_roundtrip() {
    let bytes: Vec<u8> = (0..=255).collect();
    assert_eq!(hex_decode(&hex_encode(&bytes)).unwrap(), bytes);
}
