//! The parameter file: a version string, a header with the data size and
//! checksum, then the day profile and the night profile.
use crate::crc::{crc32_spec, crc32_words};
use crate::element::{le_bytes, read_u32_le, unsigned_le, write_element};
use crate::params::{IspParams, IspParamsView};
use crate::profile::{
    append_bytes, decode_profile, decoded_map, encode_profile, encoded_profile, field_names,
    lemma_decode_encode_profile, lemma_encode_decode_profile, lemma_encode_decode_profile_padded,
    names_distinct, padding_is_zero, profile_complete, profile_tail, values_in_range, zero_padding,
};
use crate::schema::{data_bytes, lemma_layout_monotone, Schema};
use vstd::prelude::*;

verus! {

/// Bytes of the version string at the start of the file.
pub const VERSION_SIZE: usize = 8;

/// Bytes of the header: flag (8), size (4), checksum (4).
pub const HEADER_SIZE: usize = 16;

/// Where the profile data starts.
pub const DATA_OFFSET: usize = 24;

/// The version string `"2.10\0w+\0"`.
pub open spec fn version_bytes() -> Seq<u8> {
    seq![0x32u8, 0x2eu8, 0x31u8, 0x30u8, 0x00u8, 0x77u8, 0x2bu8, 0x00u8]
}

/// The header flag `"header0\0"`.
pub open spec fn header_flag_bytes() -> Seq<u8> {
    seq![0x68u8, 0x65u8, 0x61u8, 0x64u8, 0x65u8, 0x72u8, 0x30u8, 0x00u8]
}

/// Why a file was refused.
#[derive(Debug, PartialEq, Eq, Structural, Clone, Copy)]
pub enum DecodeError {
    /// Shorter than the version string and header.
    TooSmall,
    /// The first eight bytes are not the version string.
    VersionMismatch,
    /// The header does not start with the header flag.
    FlagMismatch,
    /// The data size is odd, so it cannot hold two equal profiles.
    OddSize { size: u32 },
    /// One profile is smaller than the layout.
    ProfileTooSmall { profile_bytes: u32, needed: usize },
    /// The file ends before the data that the header announces.
    Truncated { need: u64, have: u64 },
    /// The stored checksum is not that of the data.
    CrcMismatch { stored: u32, computed: u32 },
}

/// The data size stored in the header.
pub open spec fn stored_size(bin: Seq<u8>) -> int {
    unsigned_le(bin.subrange(16, 20))
}

/// The checksum stored in the header.
pub open spec fn stored_crc(bin: Seq<u8>) -> int {
    unsigned_le(bin.subrange(20, 24))
}

/// What decoding `bin` with the given layout gives.
#[verifier::opaque]
pub open spec fn spec_decode(schema: Schema, bin: Seq<u8>) -> Result<IspParamsView, DecodeError> {
    let fields = schema.fields@;
    let size = stored_size(bin);
    let pb = size / 2;
    let data = bin.subrange(24, 24 + size);
    if bin.len() < 24 {
        Err(DecodeError::TooSmall)
    } else if bin.subrange(0, 8) != version_bytes() {
        Err(DecodeError::VersionMismatch)
    } else if bin.subrange(8, 16) != header_flag_bytes() {
        Err(DecodeError::FlagMismatch)
    } else if size % 2 != 0 {
        Err(DecodeError::OddSize { size: size as u32 })
    } else if pb < data_bytes(fields) {
        Err(DecodeError::ProfileTooSmall { profile_bytes: pb as u32, needed: data_bytes(fields) as usize })
    } else if bin.len() < 24 + size {
        Err(DecodeError::Truncated { need: (24 + size) as u64, have: bin.len() as u64 })
    } else if crc32_spec(data) != stored_crc(bin) {
        Err(DecodeError::CrcMismatch { stored: stored_crc(bin) as u32, computed: crc32_spec(data) })
    } else {
        let day = data.subrange(0, pb);
        let night = data.subrange(pb, size);
        Ok(
            IspParamsView {
                day: decoded_map(fields, day, fields.len() as int),
                night: decoded_map(fields, night, fields.len() as int),
                day_tail: profile_tail(fields, day),
                night_tail: profile_tail(fields, night),
                profile_bytes: pb as nat,
            },
        )
    }
}

fn matches_at(bin: &[u8], offset: usize, expected: &[u8; 8]) -> (r: bool)
    requires
        offset + 8 <= bin@.len(),
    ensures
        r == (bin@.subrange(offset as int, offset + 8) == expected@),
{
    let mut k: usize = 0;
    while k < 8
        invariant
            k <= 8,
            offset + 8 <= bin.len(),
            bin@.subrange(offset as int, offset + k) =~= expected@.take(k as int),
        decreases 8 - k,
    {
        if bin[offset + k] != expected[k] {
            assert(bin@.subrange(offset as int, offset + 8)[k as int] != expected@[k as int]);
            return false;
        }
        k = k + 1;
    }
    assert(expected@.take(8) =~= expected@);
    true
}

/// Decodes a parameter file with the given layout.
#[verifier::rlimit(50)]
pub fn decode(schema: &Schema, bin: &[u8]) -> (r: Result<IspParams, DecodeError>)
    requires
        schema.wf(),
    ensures
        match (r, spec_decode(*schema, bin@)) {
            (Ok(p), Ok(v)) => p@ == v,
            (Err(e), Err(e2)) => e == e2,
            _ => false,
        },
{
    reveal(spec_decode);
    if bin.len() < DATA_OFFSET {
        return Err(DecodeError::TooSmall);
    }
    let version: [u8; 8] = [0x32, 0x2e, 0x31, 0x30, 0x00, 0x77, 0x2b, 0x00];
    assert(version@ =~= version_bytes());
    if !matches_at(bin, 0, &version) {
        return Err(DecodeError::VersionMismatch);
    }
    let flag: [u8; 8] = [0x68, 0x65, 0x61, 0x64, 0x65, 0x72, 0x30, 0x00];
    assert(flag@ =~= header_flag_bytes());
    if !matches_at(bin, VERSION_SIZE, &flag) {
        return Err(DecodeError::FlagMismatch);
    }
    let size = read_u32_le(bin, VERSION_SIZE + 8);
    let stored = read_u32_le(bin, VERSION_SIZE + 12);
    if size % 2 != 0 {
        return Err(DecodeError::OddSize { size });
    }
    let profile_bytes = size / 2;
    if (profile_bytes as usize) < schema.params_data_bytes {
        return Err(
            DecodeError::ProfileTooSmall {
                profile_bytes,
                needed: schema.params_data_bytes,
            },
        );
    }
    if bin.len() - DATA_OFFSET < size as usize {
        return Err(
            DecodeError::Truncated {
                need: DATA_OFFSET as u64 + size as u64,
                have: bin.len() as u64,
            },
        );
    }
    let end = DATA_OFFSET + size as usize;
    let data = &bin[DATA_OFFSET..end];
    let computed = crc32_words(data);
    if computed != stored {
        return Err(DecodeError::CrcMismatch { stored, computed });
    }
    let pb = profile_bytes as usize;
    let day_data = &data[0..pb];
    let night_data = &data[pb..data.len()];
    let (day, day_tail) = decode_profile(schema, day_data);
    let (night, night_tail) = decode_profile(schema, night_data);
    Ok(IspParams { day, night, day_tail, night_tail, profile_bytes: pb })
}

/// The payload of an encoded file: the day profile, then the night profile.
pub open spec fn encoded_payload(schema: Schema, p: IspParamsView) -> Seq<u8> {
    encoded_profile(schema.fields@, p.day, p.day_tail) + encoded_profile(schema.fields@, p.night, p.night_tail)
}

/// The file that encoding `p` gives. The size field holds the payload's
/// length modulo `2^32`.
#[verifier::opaque]
pub open spec fn spec_encode(schema: Schema, p: IspParamsView) -> Seq<u8> {
    let payload = encoded_payload(schema, p);
    version_bytes() + header_flag_bytes() + le_bytes(payload.len() as int % 4294967296, 4) + le_bytes(
        crc32_spec(payload) as int,
        4,
    ) + payload
}

proof fn lemma_spec_encode_is(schema: Schema, p: IspParamsView, bin: Seq<u8>)
    requires
        bin == version_bytes() + header_flag_bytes() + le_bytes(
            encoded_payload(schema, p).len() as int % 4294967296,
            4,
        ) + le_bytes(crc32_spec(encoded_payload(schema, p)) as int, 4) + encoded_payload(schema, p),
    ensures
        spec_encode(schema, p) == bin,
{
    reveal(spec_encode);
}

/// Both profiles hold every field of the layout with the right number of
/// values, which encoding needs.
pub open spec fn params_complete(schema: Schema, p: IspParamsView) -> bool {
    profile_complete(schema.fields@, p.day) && profile_complete(schema.fields@, p.night)
}

/// The size of the file that encoding `p` gives.
pub open spec fn encoded_len(schema: Schema, p: IspParamsView) -> int {
    24 + 2 * data_bytes(schema.fields@) + p.day_tail.len() + p.night_tail.len()
}

fn push_array8(buf: &mut Vec<u8>, a: &[u8; 8])
    ensures
        final(buf)@ == old(buf)@ + a@,
{
    let mut k: usize = 0;
    let ghost start = buf@;
    while k < 8
        invariant
            k <= 8,
            buf@ =~= start + a@.take(k as int),
        decreases 8 - k,
    {
        buf.push(a[k]);
        k = k + 1;
    }
    assert(a@.take(8) =~= a@);
}

/// Encodes the parameters into a file with the given layout.
#[verifier::rlimit(50)]
pub fn encode(schema: &Schema, params: &IspParams) -> (r: Vec<u8>)
    requires
        schema.wf(),
        params_complete(*schema, params@),
        encoded_len(*schema, params@) <= usize::MAX,
    ensures
        r@ == spec_encode(*schema, params@),
        r@.len() == encoded_len(*schema, params@),
{
    let ghost fields = schema.fields@;
    proof {
        lemma_layout_monotone(fields, 0, 0);
    }
    let day_data = encode_profile(schema, &params.day, params.day_tail.as_slice());
    let night_data = encode_profile(schema, &params.night, params.night_tail.as_slice());
    let mut payload: Vec<u8> = Vec::new();
    append_bytes(&mut payload, day_data.as_slice());
    append_bytes(&mut payload, night_data.as_slice());
    let ghost pl = encoded_payload(*schema, params@);
    assert(payload@ =~= pl);
    let size: u32 = ((payload.len() as u64) % 4294967296) as u32;
    assert(size == pl.len() as int % 4294967296);
    let crc = crc32_words(payload.as_slice());
    let mut bin: Vec<u8> = Vec::new();
    let version: [u8; 8] = [0x32, 0x2e, 0x31, 0x30, 0x00, 0x77, 0x2b, 0x00];
    assert(version@ =~= version_bytes());
    let flag: [u8; 8] = [0x68, 0x65, 0x61, 0x64, 0x65, 0x72, 0x30, 0x00];
    assert(flag@ =~= header_flag_bytes());
    push_array8(&mut bin, &version);
    push_array8(&mut bin, &flag);
    let ghost b1 = bin@;
    write_element(&mut bin, size as i64, 4, false);
    assert(size as int % 4294967296 == size as int);
    assert(bin@ == b1 + le_bytes(pl.len() as int % 4294967296, 4));
    let ghost b2 = bin@;
    write_element(&mut bin, crc as i64, 4, false);
    assert(crc as int % 4294967296 == crc as int);
    assert(bin@ == b2 + le_bytes(crc32_spec(pl) as int, 4));
    let ghost b3 = bin@;
    append_bytes(&mut bin, payload.as_slice());
    assert(bin@ == b3 + pl);
    proof {
        lemma_spec_encode_is(*schema, params@, bin@);
    }
    bin
}

/// Encoding reads a parameter set only through the values stored under the
/// layout's field names and the two tails: two sets that agree there encode
/// alike, whatever their profile sizes and whatever other keys they hold.
pub proof fn lemma_encode_reads_fields(schema: Schema, p: IspParamsView, q: IspParamsView)
    requires
        forall|i: int|
            0 <= i < schema.fields@.len() ==> p.day[#[trigger] schema.fields@[i].name@]
                == q.day[schema.fields@[i].name@] && p.night[schema.fields@[i].name@]
                == q.night[schema.fields@[i].name@],
        p.day_tail == q.day_tail,
        p.night_tail == q.night_tail,
    ensures
        spec_encode(schema, p) == spec_encode(schema, q),
{
    let fields = schema.fields@;
    let n = fields.len() as int;
    crate::profile::lemma_encoded_fields_congruent(fields, p.day, q.day, n);
    crate::profile::lemma_encoded_fields_congruent(fields, p.night, q.night, n);
    assert(encoded_payload(schema, p) == encoded_payload(schema, q));
    reveal(spec_encode);
}

/// The day profile's bytes in `bin`.
pub open spec fn day_data(bin: Seq<u8>) -> Seq<u8> {
    bin.subrange(24, 24 + stored_size(bin) / 2)
}

/// The night profile's bytes in `bin`.
pub open spec fn night_data(bin: Seq<u8>) -> Seq<u8> {
    bin.subrange(24 + stored_size(bin) / 2, 24 + stored_size(bin))
}

proof fn lemma_u32_le_roundtrip(u: int)
    requires
        0 <= u < 4294967296,
    ensures
        unsigned_le(le_bytes(u, 4)) == u,
        le_bytes(u, 4).len() == 4,
{
    crate::element::lemma_element_value_of_bytes(u, 4, false);
}

/// The header of an encoded file whose payload fits the size field.
proof fn lemma_encoded_header(schema: Schema, p: IspParamsView)
    requires
        encoded_payload(schema, p).len() < 4294967296,
    ensures
        ({
            let bin = spec_encode(schema, p);
            let payload = encoded_payload(schema, p);
            &&& bin.len() == 24 + payload.len()
            &&& bin.subrange(0, 8) == version_bytes()
            &&& bin.subrange(8, 16) == header_flag_bytes()
            &&& stored_size(bin) == payload.len()
            &&& stored_crc(bin) == crc32_spec(payload)
            &&& bin.subrange(24, 24 + payload.len() as int) == payload
        }),
{
    let bin = spec_encode(schema, p);
    let payload = encoded_payload(schema, p);
    let size = payload.len() as int;
    lemma_encode_parts(schema, p);
    vstd::arithmetic::div_mod::lemma_small_mod(size as nat, 4294967296);
    lemma_u32_le_roundtrip(size);
    lemma_u32_le_roundtrip(crc32_spec(payload) as int);
}

/// When every check passes, decoding gives the two profiles.
proof fn lemma_spec_decode_ok(schema: Schema, bin: Seq<u8>, size: int)
    requires
        bin.len() >= 24 + size,
        bin.subrange(0, 8) == version_bytes(),
        bin.subrange(8, 16) == header_flag_bytes(),
        stored_size(bin) == size,
        size % 2 == 0,
        size / 2 >= data_bytes(schema.fields@),
        stored_crc(bin) == crc32_spec(bin.subrange(24, 24 + size)),
    ensures
        spec_decode(schema, bin) == Ok::<IspParamsView, DecodeError>(
            IspParamsView {
                day: decoded_map(schema.fields@, day_data(bin), schema.fields@.len() as int),
                night: decoded_map(schema.fields@, night_data(bin), schema.fields@.len() as int),
                day_tail: profile_tail(schema.fields@, day_data(bin)),
                night_tail: profile_tail(schema.fields@, night_data(bin)),
                profile_bytes: (size / 2) as nat,
            },
        ),
{
    reveal(spec_decode);
    let data = bin.subrange(24, 24 + size);
    assert(data.subrange(0, size / 2) =~= day_data(bin));
    assert(data.subrange(size / 2, size) =~= night_data(bin));
}

/// Where each part of an encoded file stands.
proof fn lemma_encode_parts(schema: Schema, p: IspParamsView)
    ensures
        ({
            let bin = spec_encode(schema, p);
            let payload = encoded_payload(schema, p);
            &&& bin.len() == 24 + payload.len()
            &&& bin.subrange(0, 8) == version_bytes()
            &&& bin.subrange(8, 16) == header_flag_bytes()
            &&& bin.subrange(16, 20) == le_bytes(payload.len() as int % 4294967296, 4)
            &&& bin.subrange(20, 24) == le_bytes(crc32_spec(payload) as int, 4)
            &&& bin.subrange(24, bin.len() as int) == payload
        }),
{
    reveal(spec_encode);
    let bin = spec_encode(schema, p);
    let payload = encoded_payload(schema, p);
    lemma_u32_le_roundtrip(payload.len() as int % 4294967296);
    lemma_u32_le_roundtrip(crc32_spec(payload) as int);
    assert(bin.subrange(0, 8) =~= version_bytes());
    assert(bin.subrange(8, 16) =~= header_flag_bytes());
    assert(bin.subrange(16, 20) =~= le_bytes(payload.len() as int % 4294967296, 4));
    assert(bin.subrange(20, 24) =~= le_bytes(crc32_spec(payload) as int, 4));
    assert(bin.subrange(24, bin.len() as int) =~= payload);
}

/// Decoding an encoded file gives back the parameters, for every complete
/// parameter set whose profiles hold exactly the layout's fields with
/// values that fit them, whose two tails have the same length, whose
/// profile size is the layout's size plus that length, and whose data fits
/// the 32-bit size field.
#[verifier::rlimit(50)]
pub proof fn lemma_decode_encode(schema: Schema, p: IspParamsView)
    requires
        schema.wf(),
        params_complete(schema, p),
        p.day.dom() == field_names(schema.fields@),
        p.night.dom() == field_names(schema.fields@),
        values_in_range(schema.fields@, p.day),
        values_in_range(schema.fields@, p.night),
        p.day_tail.len() == p.night_tail.len(),
        p.profile_bytes == data_bytes(schema.fields@) + p.day_tail.len(),
        encoded_len(schema, p) <= 24 + 4294967295,
    ensures
        spec_decode(schema, spec_encode(schema, p)) == Ok::<IspParamsView, DecodeError>(p),
{
    let fields = schema.fields@;
    let n = fields.len() as int;
    let bin = spec_encode(schema, p);
    let day = encoded_profile(fields, p.day, p.day_tail);
    let night = encoded_profile(fields, p.night, p.night_tail);
    assert(decoded_map(fields, day, n) == p.day && profile_tail(fields, day) == p.day_tail && day.len()
        == data_bytes(fields) + p.day_tail.len()) by {
        lemma_decode_encode_profile(fields, p.day, p.day_tail);
    }
    assert(decoded_map(fields, night, n) == p.night && profile_tail(fields, night) == p.night_tail
        && night.len() == data_bytes(fields) + p.night_tail.len()) by {
        lemma_decode_encode_profile(fields, p.night, p.night_tail);
    }
    let payload = encoded_payload(schema, p);
    let size = payload.len() as int;
    let data = bin.subrange(24, 24 + size);
    assert(payload.len() < 4294967296);
    lemma_encoded_header(schema, p);
    assert(payload == day + night);
    assert(day.len() == size / 2);
    assert(day_data(bin) == day) by {
        crate::profile::lemma_subrange_of_subrange(bin, 24, 24 + size, 0, size / 2);
        assert(payload.subrange(0, size / 2) =~= day);
    }
    assert(night_data(bin) == night) by {
        crate::profile::lemma_subrange_of_subrange(bin, 24, 24 + size, size / 2, size);
        assert(payload.subrange(size / 2, size) =~= night);
    }
    assert(size / 2 == p.profile_bytes);
    lemma_spec_decode_ok(schema, bin, size);
    let v = IspParamsView {
        day: decoded_map(fields, day_data(bin), n),
        night: decoded_map(fields, night_data(bin), n),
        day_tail: profile_tail(fields, day_data(bin)),
        night_tail: profile_tail(fields, night_data(bin)),
        profile_bytes: (size / 2) as nat,
    };
    assert(v.day == p.day);
    assert(v.night == p.night);
    assert(v.day_tail == p.day_tail);
    assert(v.night_tail == p.night_tail);
    assert(v == p);
}

/// The alignment padding of both profiles in `bin` is zero.
pub open spec fn file_padding_is_zero(schema: Schema, bin: Seq<u8>) -> bool {
    padding_is_zero(schema.fields@, day_data(bin)) && padding_is_zero(schema.fields@, night_data(bin))
}

/// Encoding a decoded file gives back the file, when no two fields share a
/// name, the alignment padding is zero and nothing follows the data.
#[verifier::rlimit(50)]
pub proof fn lemma_encode_decode(schema: Schema, bin: Seq<u8>)
    requires
        schema.wf(),
        spec_decode(schema, bin) is Ok,
        names_distinct(schema.fields@),
        file_padding_is_zero(schema, bin),
        bin.len() == 24 + stored_size(bin),
    ensures
        params_complete(schema, spec_decode(schema, bin)->Ok_0),
        encoded_len(schema, spec_decode(schema, bin)->Ok_0) == bin.len(),
        spec_encode(schema, spec_decode(schema, bin)->Ok_0) == bin,
{
    let fields = schema.fields@;
    let n = fields.len() as int;
    let v = spec_decode(schema, bin)->Ok_0;
    let size = stored_size(bin);
    let day = day_data(bin);
    let night = night_data(bin);
    lemma_spec_decode_checks(schema, bin);
    assert(encoded_profile(fields, v.day, v.day_tail) == day && profile_complete(fields, v.day)
        && day.len() == data_bytes(fields) + v.day_tail.len()) by {
        lemma_encode_decode_profile(fields, day);
    }
    assert(encoded_profile(fields, v.night, v.night_tail) == night && profile_complete(fields, v.night)
        && night.len() == data_bytes(fields) + v.night_tail.len()) by {
        lemma_encode_decode_profile(fields, night);
    }
    let payload = encoded_payload(schema, v);
    assert(payload == day + night);
    lemma_split_data(bin);
    lemma_u32_field(bin.subrange(16, 20));
    lemma_u32_field(bin.subrange(20, 24));
    assert(payload.len() == size);
    assert(payload.len() as int % 4294967296 == size) by {
        vstd::arithmetic::div_mod::lemma_small_mod(size as nat, 4294967296);
    }
    assert(bin.subrange(16, 20) == le_bytes(payload.len() as int % 4294967296, 4));
    assert(bin.subrange(20, 24) == le_bytes(crc32_spec(payload) as int, 4));
    lemma_file_of_parts(schema, v, bin);
}

/// Encoding a decoded file keeps its version string, header flag and data
/// size; its data comes back with the alignment padding of both profiles set
/// to zero, under the checksum of that data, when no two fields share a
/// name. Whatever follows the data in the decoded file is left out.
#[verifier::rlimit(50)]
pub proof fn lemma_encode_decoded_file(schema: Schema, bin: Seq<u8>)
    requires
        schema.wf(),
        spec_decode(schema, bin) is Ok,
        names_distinct(schema.fields@),
    ensures
        ({
            let fields = schema.fields@;
            let data = zero_padding(fields, day_data(bin)) + zero_padding(fields, night_data(bin));
            let enc = spec_encode(schema, spec_decode(schema, bin)->Ok_0);
            &&& data.len() == stored_size(bin)
            &&& enc.len() == 24 + stored_size(bin)
            &&& enc == bin.subrange(0, 20) + le_bytes(crc32_spec(data) as int, 4) + data
        }),
{
    let fields = schema.fields@;
    let v = spec_decode(schema, bin)->Ok_0;
    let size = stored_size(bin);
    let day = day_data(bin);
    let night = night_data(bin);
    lemma_spec_decode_checks(schema, bin);
    lemma_encode_decode_profile_padded(fields, day);
    lemma_encode_decode_profile_padded(fields, night);
    let data = zero_padding(fields, day) + zero_padding(fields, night);
    let payload = encoded_payload(schema, v);
    assert(payload == data);
    lemma_u32_field(bin.subrange(16, 20));
    assert(data.len() == size);
    assert(payload.len() as int % 4294967296 == size) by {
        vstd::arithmetic::div_mod::lemma_small_mod(size as nat, 4294967296);
    }
    let head = version_bytes() + header_flag_bytes() + le_bytes(size, 4);
    assert(bin.subrange(0, 20) =~= head) by {
        assert forall|k: int| 0 <= k < 20 implies bin.subrange(0, 20)[k] == head[k] by {
            if k < 8 {
                assert(bin.subrange(0, 8)[k] == bin[k]);
            } else if k < 16 {
                assert(bin.subrange(8, 16)[k - 8] == bin[k]);
            } else {
                assert(bin.subrange(16, 20)[k - 16] == bin[k]);
            }
        }
    }
    reveal(spec_encode);
    let enc = spec_encode(schema, v);
    assert(enc =~= bin.subrange(0, 20) + le_bytes(crc32_spec(data) as int, 4) + data);
}

proof fn lemma_file_of_parts(schema: Schema, v: IspParamsView, bin: Seq<u8>)
    requires
        bin.len() >= 24,
        bin.subrange(0, 8) == version_bytes(),
        bin.subrange(8, 16) == header_flag_bytes(),
        bin.subrange(16, 20) == le_bytes(encoded_payload(schema, v).len() as int % 4294967296, 4),
        bin.subrange(20, 24) == le_bytes(crc32_spec(encoded_payload(schema, v)) as int, 4),
        bin.subrange(24, bin.len() as int) == encoded_payload(schema, v),
    ensures
        spec_encode(schema, v) == bin,
{
    reveal(spec_encode);
    let payload = encoded_payload(schema, v);
    let enc = spec_encode(schema, v);
    assert forall|k: int| 0 <= k < bin.len() implies enc[k] == bin[k] by {
        if k < 8 {
            assert(bin.subrange(0, 8)[k] == bin[k]);
        } else if k < 16 {
            assert(bin.subrange(8, 16)[k - 8] == bin[k]);
        } else if k < 20 {
            assert(bin.subrange(16, 20)[k - 16] == bin[k]);
        } else if k < 24 {
            assert(bin.subrange(20, 24)[k - 20] == bin[k]);
        } else {
            assert(bin.subrange(24, bin.len() as int)[k - 24] == bin[k]);
        }
    }
    assert(enc =~= bin);
}

proof fn lemma_u32_field(s: Seq<u8>)
    requires
        s.len() == 4,
    ensures
        0 <= unsigned_le(s) < 4294967296,
        le_bytes(unsigned_le(s), 4) == s,
{
    crate::element::lemma_element_bytes_of_value(s, false);
}

proof fn lemma_split_data(bin: Seq<u8>)
    requires
        bin.len() == 24 + stored_size(bin),
        stored_size(bin) >= 0,
    ensures
        bin.subrange(24, bin.len() as int) == day_data(bin) + night_data(bin),
{
    assert(bin.subrange(24, bin.len() as int) =~= day_data(bin) + night_data(bin));
}

/// A decoded file's profiles hold exactly the layout's fields, each with
/// as many values as it has elements, all in range, when no two fields
/// share a name.
pub proof fn lemma_decoded_params(schema: Schema, bin: Seq<u8>)
    requires
        schema.wf(),
        spec_decode(schema, bin) is Ok,
        names_distinct(schema.fields@),
    ensures
        ({
            let v = spec_decode(schema, bin)->Ok_0;
            &&& params_complete(schema, v)
            &&& v.day.dom() == field_names(schema.fields@)
            &&& v.night.dom() == field_names(schema.fields@)
            &&& values_in_range(schema.fields@, v.day)
            &&& values_in_range(schema.fields@, v.night)
            &&& v.profile_bytes <= 0x7fff_ffff
        }),
{
    let fields = schema.fields@;
    lemma_spec_decode_checks(schema, bin);
    lemma_u32_field(bin.subrange(16, 20));
    crate::profile::lemma_decoded_complete(fields, day_data(bin));
    crate::profile::lemma_decoded_complete(fields, night_data(bin));
    crate::profile::lemma_decoded_in_range(fields, day_data(bin));
    crate::profile::lemma_decoded_in_range(fields, night_data(bin));
}

/// What a successful decode has checked, and what it gives.
proof fn lemma_spec_decode_checks(schema: Schema, bin: Seq<u8>)
    requires
        spec_decode(schema, bin) is Ok,
    ensures
        bin.len() >= 24 + stored_size(bin),
        bin.subrange(0, 8) == version_bytes(),
        bin.subrange(8, 16) == header_flag_bytes(),
        stored_size(bin) % 2 == 0,
        stored_size(bin) / 2 >= data_bytes(schema.fields@),
        stored_crc(bin) == crc32_spec(bin.subrange(24, 24 + stored_size(bin))),
        spec_decode(schema, bin)->Ok_0 == (IspParamsView {
            day: decoded_map(schema.fields@, day_data(bin), schema.fields@.len() as int),
            night: decoded_map(schema.fields@, night_data(bin), schema.fields@.len() as int),
            day_tail: profile_tail(schema.fields@, day_data(bin)),
            night_tail: profile_tail(schema.fields@, night_data(bin)),
            profile_bytes: (stored_size(bin) / 2) as nat,
        }),
{
    reveal(spec_decode);
    let size = stored_size(bin);
    let data = bin.subrange(24, 24 + size);
    assert(data.subrange(0, size / 2) =~= day_data(bin));
    assert(data.subrange(size / 2, size) =~= night_data(bin));
}

} // verus!
