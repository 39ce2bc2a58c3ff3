use tiziano_params::blob::{DATA_OFFSET, VERSION_SIZE};
use tiziano_params::crc::crc32_words;
use tiziano_params::element::read_u32_le;
use tiziano_params::{decode, encode, from_toml, parse_schema, to_toml, IspParams, ParamMap, Schema};

const HEADER: &str = "\
/* tuning parameters */
#define TISP_PARAM_TOP_BYPASS_COLS 4
#define TISP_PARAM_AE_EV_LIST_COLS 2*3
#define TISP_ADR_X_COLS 5
typedef struct {
    uint32_t TISP_PARAM_TOP_BYPASS[TISP_PARAM_TOP_BYPASS_COLS];
    int16_t TISP_PARAM_AE_EV_LIST[TISP_PARAM_AE_EV_LIST_COLS];
    uint8_t TISP_ADR_X[TISP_ADR_X_COLS];
    int8_t other[3];
} tisp_params_data_t;
";

fn small_schema() -> Schema {
    parse_schema(HEADER).expect("header parses")
}

fn profile(a: &[i64], b: &[i64], c: &[i64]) -> ParamMap {
    let mut m = ParamMap::new();
    m.insert("TISP_PARAM_TOP_BYPASS".to_string(), a.to_vec());
    m.insert("TISP_PARAM_AE_EV_LIST".to_string(), b.to_vec());
    m.insert("TISP_ADR_X".to_string(), c.to_vec());
    m
}

fn sample_params() -> IspParams {
    IspParams {
        day: profile(&[1, 2, 3, 4000000000], &[-1, -32768, 32767, 0, 5, 6], &[0, 255, 7, 8, 9]),
        night: profile(&[9, 8, 7, 6], &[1, 2, 3, 4, 5, -6], &[10, 20, 30, 40, 50]),
        day_tail: vec![0xde, 0xad, 0xbe, 0xef],
        night_tail: vec![1, 2, 3, 4],
        profile_bytes: 40,
    }
}

fn sample_bin() -> Vec<u8> {
    encode(&small_schema(), &sample_params())
}

/// A header with many large fields, of every element type.
fn large_header() -> String {
    let types = ["uint32_t", "int32_t", "uint16_t", "int16_t", "uint8_t", "int8_t"];
    let mut defines = String::new();
    let mut body = String::new();
    for i in 0..120 {
        let name = format!("TISP_PARAM_FIELD_{}", i);
        defines.push_str(&format!("#define {}_COLS 30*{}\n", name, 1 + i % 4));
        body.push_str(&format!("    {} {}[{}_COLS];\n", types[i % 6], name, name));
    }
    format!("{}typedef struct {{\n{}}} tisp_params_data_t;\n", defines, body)
}

#[test]
fn schema_sanity() {
    let schema = parse_schema(&large_header()).expect("header parses");
    assert!(schema.fields.len() > 100, "Schema should have many fields");
    assert!(schema.params_data_bytes > 10000, "Params data should be substantial");
    for f in &schema.fields {
        assert!(f.name.starts_with("TISP_"), "Bad name: {}", f.name);
        assert!(f.cols > 0, "Zero cols for {}", f.name);
        assert!([1, 2, 4].contains(&f.elem_bytes), "Bad elem_bytes {} for {}", f.elem_bytes, f.name);
    }
}

#[test]
fn roundtrip_bin() {
    let schema = small_schema();
    let bin = sample_bin();
    let params = decode(&schema, &bin).expect("decode failed");
    let reencoded = encode(&schema, &params);
    assert_eq!(bin.len(), reencoded.len(), "Size mismatch");
    assert_eq!(bin, reencoded, "Roundtrip mismatch");
}

#[test]
fn roundtrip_toml() {
    let schema = small_schema();
    let bin = sample_bin();
    let params = decode(&schema, &bin).expect("decode failed");
    let toml = to_toml(&schema, &params);
    let params2 = from_toml(&schema, &toml).expect("from_toml failed");
    let reencoded = encode(&schema, &params2);
    assert_eq!(bin, reencoded, "TOML roundtrip mismatch");
}

#[test]
fn crc_matches() {
    let bin = sample_bin();
    let stored_crc = read_u32_le(&bin, VERSION_SIZE + 12);
    let size = read_u32_le(&bin, VERSION_SIZE + 8) as usize;
    let data = &bin[DATA_OFFSET..DATA_OFFSET + size];
    let computed = crc32_words(data);
    assert_eq!(stored_crc, computed, "CRC mismatch");
}

#[test]
fn small_schema_layout() {
    let schema = small_schema();
    assert_eq!(schema.fields.len(), 3);
    assert_eq!(schema.fields[0].name, "TISP_PARAM_TOP_BYPASS");
    assert_eq!((schema.fields[0].cols, schema.fields[0].elem_bytes, schema.fields[0].signed), (4, 4, false));
    assert_eq!(schema.fields[1].name, "TISP_PARAM_AE_EV_LIST");
    assert_eq!((schema.fields[1].cols, schema.fields[1].elem_bytes, schema.fields[1].signed), (6, 2, true));
    assert_eq!(schema.fields[2].name, "TISP_ADR_X");
    assert_eq!((schema.fields[2].cols, schema.fields[2].elem_bytes, schema.fields[2].signed), (5, 1, false));
    // 16 bytes, then 12 bytes, then 5 bytes, aligned to four.
    assert_eq!(schema.params_data_bytes, 36);
}

#[test]
fn encoded_file_layout() {
    let bin = sample_bin();
    assert_eq!(&bin[0..8], b"2.10\0w+\0");
    assert_eq!(&bin[8..16], b"header0\0");
    assert_eq!(read_u32_le(&bin, 16), 80);
    assert_eq!(bin.len(), 24 + 80);
    // The day profile: 1, 2, 3, 4000000000 as u32.
    assert_eq!(&bin[24..28], &[1, 0, 0, 0]);
    assert_eq!(&bin[36..40], &4000000000u32.to_le_bytes());
    // -1 and -32768 as i16.
    assert_eq!(&bin[40..44], &[0xff, 0xff, 0x00, 0x80]);
    // The u8 field, then three padding bytes, then the tail.
    assert_eq!(&bin[52..57], &[0, 255, 7, 8, 9]);
    assert_eq!(&bin[57..60], &[0, 0, 0]);
    assert_eq!(&bin[60..64], &[0xde, 0xad, 0xbe, 0xef]);
}

#[test]
fn decode_gives_values() {
    let schema = small_schema();
    let p = decode(&schema, &sample_bin()).unwrap();
    assert_eq!(p.profile_bytes, 40);
    assert_eq!(p.day.get("TISP_PARAM_AE_EV_LIST").unwrap(), &vec![-1, -32768, 32767, 0, 5, 6]);
    assert_eq!(p.night.get("TISP_ADR_X").unwrap(), &vec![10, 20, 30, 40, 50]);
    assert_eq!(p.day_tail, vec![0xde, 0xad, 0xbe, 0xef]);
    assert_eq!(p.night_tail, vec![1, 2, 3, 4]);
    assert!(p.day.get("TISP_PARAM_OTHER").is_none());
}

#[test]
fn toml_text_exact() {
    let schema = small_schema();
    let text = to_toml(&schema, &sample_params());
    let expected = "\
# ISP Parameters — auto-generated from gc2053-t31.bin
# Edit values and re-encode with: tiziano-params encode params.toml output.bin

[meta]
profile_bytes = 40
day_tail = \"deadbeef\"
night_tail = \"01020304\"

[day]
TOP_BYPASS = [1, 2, 3, 4000000000]
AE_EV_LIST = [-1, -32768, 32767, 0, 5, 6]
ADR_X = [0, 255, 7, 8, 9]

[night]
TOP_BYPASS = [9, 8, 7, 6]
AE_EV_LIST = [1, 2, 3, 4, 5, -6]
ADR_X = [10, 20, 30, 40, 50]

";
    assert_eq!(text, expected);
}

#[test]
fn toml_without_tails() {
    let schema = small_schema();
    let mut p = sample_params();
    p.day_tail = vec![];
    p.night_tail = vec![];
    p.profile_bytes = 36;
    let text = to_toml(&schema, &p);
    assert!(!text.contains("day_tail"));
    let back = from_toml(&schema, &text).unwrap();
    assert!(back.day_tail.is_empty() && back.night_tail.is_empty());
    assert_eq!(back.profile_bytes, 36);
    assert_eq!(encode(&schema, &back), encode(&schema, &p));
}

#[test]
fn reencode_zeroes_padding_and_drops_trailing_bytes() {
    let schema = small_schema();
    let clean = sample_bin();
    let mut bin = clean.clone();
    // Padding after the u8 field of each profile.
    bin[58] = 0x55;
    bin[98] = 0x66;
    bin.extend_from_slice(&[7, 7, 7]);
    let crc = crc32_words(&bin[DATA_OFFSET..DATA_OFFSET + 80]);
    bin[20..24].copy_from_slice(&crc.to_le_bytes());
    let params = decode(&schema, &bin).expect("decode failed");
    let reencoded = encode(&schema, &params);
    assert_eq!(reencoded.len(), 24 + 80);
    assert_eq!(&reencoded[0..20], &bin[0..20]);
    assert_eq!(&reencoded[24..58], &bin[24..58]);
    assert_eq!(reencoded[58], 0);
    assert_eq!(reencoded[98], 0);
    assert_eq!(reencoded, clean);
    assert_ne!(&reencoded[20..24], &bin[20..24]);
}

#[test]
fn encode_ignores_other_keys_and_profile_size() {
    let schema = small_schema();
    let mut params = sample_params();
    params.day.insert("TISP_UNUSED".to_string(), vec![1, 2, 3]);
    params.night.insert("EXTRA".to_string(), vec![]);
    params.profile_bytes = 12345;
    assert_eq!(encode(&schema, &params), sample_bin());
}
