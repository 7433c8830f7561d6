//! Table-driven CRC-32 (reflected polynomial 0xEDB88320), the checksum of zlib, PNG and Ethernet.

use vstd::prelude::*;

verus! {

/// One bit step of the reflected CRC-32 shift register.
pub open spec fn crc_bit_step(c: u32) -> u32 {
    if c & 1 != 0 { 0xedb88320u32 ^ (c >> 1u32) } else { c >> 1u32 }
}

/// Eight bit steps: the register after shifting one byte through it.
pub open spec fn crc_byte_steps(c: u32) -> u32 {
    crc_bit_step(crc_bit_step(crc_bit_step(crc_bit_step(crc_bit_step(crc_bit_step(crc_bit_step(crc_bit_step(c))))))))
}

/// The `i`-th entry of the CRC-32 lookup table.
pub open spec fn crc_table_entry(i: int) -> u32 {
    crc_byte_steps(i as u32)
}

/// The register after feeding `bytes` through the table-driven update with table `t`, from `init`.
pub open spec fn crc_table_fold(t: Seq<u32>, init: u32, bytes: Seq<u8>) -> u32
    decreases bytes.len(),
{
    if bytes.len() == 0 {
        init
    } else {
        let c = crc_table_fold(t, init, bytes.drop_last());
        t[((c as u8) ^ bytes.last()) as int] ^ (c >> 8u32)
    }
}

/// The register after feeding `bytes` one bit at a time, from `init`.
pub open spec fn crc_bitwise_fold(init: u32, bytes: Seq<u8>) -> u32
    decreases bytes.len(),
{
    if bytes.len() == 0 {
        init
    } else {
        let c = crc_bitwise_fold(init, bytes.drop_last());
        crc_byte_steps(c ^ (bytes.last() as u32))
    }
}

/// The CRC-32 of `bytes`: start from all ones, shift every bit through, complement.
pub open spec fn crc32_spec(bytes: Seq<u8>) -> u32 {
    !crc_bitwise_fold(0xffff_ffffu32, bytes)
}

/// The table is the standard one.
pub open spec fn is_crc_table(t: Seq<u32>) -> bool {
    t.len() == 256 && forall|i: int| 0 <= i < 256 ==> #[trigger] t[i] == crc_table_entry(i)
}

/// CRC-32 of `bytes` with lookup table `table`: `!fold(!0)` of the table-driven update.
pub fn crc32(table: &[u32; 256], bytes: &[u8]) -> (crc: u32)
    ensures
        crc == !crc_table_fold(table@, !0u32, bytes@),
        is_crc_table(table@) ==> crc == crc32_spec(bytes@),
{
    let mut crc: u32 = !0u32;
    let mut i: usize = 0;
    while i < bytes.len()
        invariant
            i <= bytes@.len(),
            crc == crc_table_fold(table@, !0u32, bytes@.take(i as int)),
        decreases bytes@.len() - i,
    {
        let byte = bytes[i];
        proof {
            assert(bytes@.take(i + 1).drop_last() =~= bytes@.take(i as int));
        }
        crc = table[((crc as u8) ^ byte) as usize] ^ (crc >> 8);
        i += 1;
    }
    assert(bytes@.take(bytes@.len() as int) =~= bytes@);
    proof {
        if is_crc_table(table@) {
            law_table_matches_bitwise(table@, !0u32, bytes@);
            assert(!0u32 == 0xffff_ffffu32) by (bit_vector);
        }
    }
    !crc
}

/// Builds the CRC-32 lookup table: entry `i` is `i` shifted through the register eight times.
pub fn make_crc_table() -> (table: [u32; 256])
    ensures
        is_crc_table(table@),
{
    let mut table = [0u32; 256];
    let mut i: usize = 0;
    while i < 256
        invariant
            i <= 256,
            forall|j: int| 0 <= j < i ==> #[trigger] table@[j] == crc_table_entry(j),
        decreases 256 - i,
    {
        let mut c = i as u32;
        proof {
            lemma_eight_steps(c);
        }
        let mut k: usize = 0;
        while k < 8
            invariant
                k <= 8,
                i < 256,
                crc_table_entry(i as int) == crc_steps_n(c, (8 - k) as nat),
            decreases 8 - k,
        {
            if c & 1 != 0 {
                c = 0xedb88320 ^ (c >> 1);
            } else {
                c >>= 1;
            }
            k += 1;
        }
        table[i] = c;
        i += 1;
    }
    table
}

/// `n` bit steps.
pub open spec fn crc_steps_n(c: u32, n: nat) -> u32
    decreases n,
{
    if n == 0 { c } else { crc_steps_n(crc_bit_step(c), (n - 1) as nat) }
}

proof fn lemma_eight_steps(c: u32)
    ensures
        crc_steps_n(c, 8) == crc_byte_steps(c),
{
    reveal_with_fuel(crc_steps_n, 9);
}

proof fn lemma_byte_steps_linear(x: u32)
    ensures
        crc_byte_steps(x) == crc_byte_steps(x & 0xff) ^ (x >> 8u32),
{
    assert(crc_byte_steps(x) == crc_byte_steps(x & 0xff) ^ (x >> 8u32)) by (bit_vector);
}

/// The table-driven update computes the same register as the bit-at-a-time update.
pub proof fn law_table_matches_bitwise(t: Seq<u32>, init: u32, bytes: Seq<u8>)
    requires
        is_crc_table(t),
    ensures
        crc_table_fold(t, init, bytes) == crc_bitwise_fold(init, bytes),
    decreases bytes.len(),
{
    if bytes.len() > 0 {
        law_table_matches_bitwise(t, init, bytes.drop_last());
        let c = crc_bitwise_fold(init, bytes.drop_last());
        let b = bytes.last();
        let x = c ^ (b as u32);
        lemma_byte_steps_linear(x);
        assert(((c as u8) ^ b) as u32 == x & 0xff && x >> 8u32 == c >> 8u32) by (bit_vector)
            requires
                x == c ^ (b as u32),
        ;
        assert(t[((c as u8) ^ b) as int] == crc_table_entry(((c as u8) ^ b) as int));
    }
}

} // verus!
