//! The checksum that guards the parameter data: a CRC over little-endian
//! 32-bit words with an eight-entry table.
use crate::element::unsigned_le;
use vstd::prelude::*;

verus! {

/// The eight-entry table of the checksum.
pub open spec fn crc_table_entry(i: u32) -> u32 {
    if i == 0 {
        0x00000000
    } else if i == 1 {
        0x77073096
    } else if i == 2 {
        0xee0e612c
    } else if i == 3 {
        0x990951ba
    } else if i == 4 {
        0x076dc419
    } else if i == 5 {
        0x706af48f
    } else if i == 6 {
        0xe963a535
    } else {
        0x9e6495a3
    }
}

/// The `i`-th little-endian 32-bit word of `data`.
pub open spec fn le_word(data: Seq<u8>, i: int) -> u32 {
    unsigned_le(data.subrange(4 * i, 4 * i + 4)) as u32
}

/// One checksum step over one word.
pub open spec fn crc_step(crc: u32, word: u32) -> u32 {
    let c = crc ^ word;
    c ^ crc_table_entry(c & 7)
}

/// The checksum after the first `n` words of `data`, from the table's
/// first entry as the start value.
pub open spec fn crc_words(data: Seq<u8>, n: nat) -> u32
    decreases n,
{
    if n == 0 {
        crc_table_entry(0)
    } else {
        crc_step(crc_words(data, (n - 1) as nat), le_word(data, n - 1))
    }
}

/// The checksum of `data`: all whole words; trailing bytes that do not
/// fill a word are not covered.
pub open spec fn crc32_spec(data: Seq<u8>) -> u32 {
    crc_words(data, data.len() / 4)
}

fn crc_table(i: u32) -> (r: u32)
    ensures
        r == crc_table_entry(i),
{
    if i == 0 {
        0x00000000
    } else if i == 1 {
        0x77073096
    } else if i == 2 {
        0xee0e612c
    } else if i == 3 {
        0x990951ba
    } else if i == 4 {
        0x076dc419
    } else if i == 5 {
        0x706af48f
    } else if i == 6 {
        0xe963a535
    } else {
        0x9e6495a3
    }
}

/// The checksum of `data` (see `crc32_spec`).
pub fn crc32_words(data: &[u8]) -> (r: u32)
    ensures
        r == crc32_spec(data@),
{
    let n = data.len() / 4;
    let mut crc: u32 = crc_table(0);
    let mut i: usize = 0;
    while i < n
        invariant
            n == data@.len() / 4,
            4 * n <= data.len(),
            i <= n,
            crc == crc_words(data@, i as nat),
        decreases n - i,
    {
        let ghost s = data@.subrange(4 * i as int, 4 * i + 4);
        let b = 4 * i;
        let word: u32 = (data[b] as u32) + 256 * (data[b + 1] as u32) + 65536 * (data[b + 2] as u32)
            + 16777216 * (data[b + 3] as u32);
        assert(word == le_word(data@, i as int));
        crc = crc ^ word;
        crc = crc ^ crc_table(crc & 7);
        i = i + 1;
    }
    crc
}

/// One bit of the reflected CRC-32 division by the polynomial `0xedb88320`.
pub open spec fn crc_bit_step(c: u32) -> u32 {
    if c & 1 == 1 {
        (c >> 1) ^ 0xedb88320u32
    } else {
        c >> 1
    }
}

/// `k` bit steps from `c`; eight of them from a byte `i` give entry `i` of
/// the standard CRC-32 table.
pub open spec fn crc_bit_steps(c: u32, k: nat) -> u32
    decreases k,
{
    if k == 0 {
        c
    } else {
        crc_bit_step(crc_bit_steps(c, (k - 1) as nat))
    }
}

/// The checksum's table is the first eight entries of the standard CRC-32
/// table (reflected polynomial `0xedb88320`): `00000000 77073096 ee0e612c
/// 990951ba 076dc419 706af48f e963a535 9e6495a3`.
pub proof fn lemma_crc_table_standard()
    ensures
        forall|i: u32| i < 8 ==> #[trigger] crc_table_entry(i) == crc_bit_steps(i, 8),
        forall|i: u32|
            i < 8 ==> #[trigger] crc_table_entry(i) == seq![
                0x00000000u32,
                0x77073096u32,
                0xee0e612cu32,
                0x990951bau32,
                0x076dc419u32,
                0x706af48fu32,
                0xe963a535u32,
                0x9e6495a3u32,
            ][i as int],
{
    reveal_with_fuel(crc_bit_steps, 9);
    assert(crc_bit_step(crc_bit_step(crc_bit_step(crc_bit_step(crc_bit_step(crc_bit_step(crc_bit_step(crc_bit_step(0u32)))))))) == 0x00000000u32) by (bit_vector);
    assert(crc_bit_step(crc_bit_step(crc_bit_step(crc_bit_step(crc_bit_step(crc_bit_step(crc_bit_step(crc_bit_step(1u32)))))))) == 0x77073096u32) by (bit_vector);
    assert(crc_bit_step(crc_bit_step(crc_bit_step(crc_bit_step(crc_bit_step(crc_bit_step(crc_bit_step(crc_bit_step(2u32)))))))) == 0xee0e612cu32) by (bit_vector);
    assert(crc_bit_step(crc_bit_step(crc_bit_step(crc_bit_step(crc_bit_step(crc_bit_step(crc_bit_step(crc_bit_step(3u32)))))))) == 0x990951bau32) by (bit_vector);
    assert(crc_bit_step(crc_bit_step(crc_bit_step(crc_bit_step(crc_bit_step(crc_bit_step(crc_bit_step(crc_bit_step(4u32)))))))) == 0x076dc419u32) by (bit_vector);
    assert(crc_bit_step(crc_bit_step(crc_bit_step(crc_bit_step(crc_bit_step(crc_bit_step(crc_bit_step(crc_bit_step(5u32)))))))) == 0x706af48fu32) by (bit_vector);
    assert(crc_bit_step(crc_bit_step(crc_bit_step(crc_bit_step(crc_bit_step(crc_bit_step(crc_bit_step(crc_bit_step(6u32)))))))) == 0xe963a535u32) by (bit_vector);
    assert(crc_bit_step(crc_bit_step(crc_bit_step(crc_bit_step(crc_bit_step(crc_bit_step(crc_bit_step(crc_bit_step(7u32)))))))) == 0x9e6495a3u32) by (bit_vector);
}

proof fn lemma_crc_words_prefix(data: Seq<u8>, more: Seq<u8>, k: nat)
    requires
        4 * k <= data.len(),
    ensures
        crc_words(data + more, k) == crc_words(data, k),
    decreases k,
{
    if k > 0 {
        lemma_crc_words_prefix(data, more, (k - 1) as nat);
        let i = k - 1;
        assert((data + more).subrange(4 * i, 4 * i + 4) =~= data.subrange(4 * i, 4 * i + 4));
    }
}

/// The checksum of no bytes is zero; appending the little-endian word `w`
/// to whole words whose checksum is `c` gives `x ^ T[x & 7]` with
/// `x = c ^ w` and `T` the standard CRC-32 table; bytes after the last
/// whole word are not covered.
pub proof fn lemma_crc_append_word(data: Seq<u8>, b: Seq<u8>)
    requires
        data.len() % 4 == 0,
        b.len() <= 4,
    ensures
        crc32_spec(Seq::<u8>::empty()) == 0,
        b.len() < 4 ==> crc32_spec(data + b) == crc32_spec(data),
        b.len() == 4 ==> ({
            let w = (b[0] + 256 * b[1] + 65536 * b[2] + 16777216 * b[3]) as u32;
            let x = crc32_spec(data) ^ w;
            crc32_spec(data + b) == x ^ crc_bit_steps(x & 7, 8)
        }),
{
    lemma_crc_table_standard();
    let n = (data.len() / 4) as nat;
    lemma_crc_words_prefix(data, b, n);
    if b.len() == 4 {
        assert((data + b).len() / 4 == n + 1);
        assert((data + b).subrange(4 * n as int, 4 * n as int + 4) =~= b);
        let w = (b[0] + 256 * b[1] + 65536 * b[2] + 16777216 * b[3]) as u32;
        assert(le_word(data + b, n as int) == w);
        let x = crc32_spec(data) ^ w;
        assert(x & 7 < 8) by (bit_vector);
    } else {
        assert((data + b).len() / 4 == n);
    }
}

} // verus!
