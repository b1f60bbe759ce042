//! Reflected CRC-32 (polynomial 0xEDB88320), table-driven and incremental:
//! the running value can be carried across any split of the input.
use vstd::prelude::*;

verus! {

pub const CRC_POLY: u32 = 0xEDB8_8320;

pub const CRC_SEED: u32 = 0xFFFF_FFFF;

/// One shift of the bitwise CRC register.
pub open spec fn poly_step(c: u32) -> u32 {
    if c & 1 == 1 {
        (c >> 1u32) ^ CRC_POLY
    } else {
        c >> 1u32
    }
}

pub open spec fn poly_steps(c: u32, k: nat) -> u32
    decreases k,
{
    if k == 0 {
        c
    } else {
        poly_steps(poly_step(c), (k - 1) as nat)
    }
}

/// Entry `n` of the 256-entry lookup table.
pub open spec fn table_entry(n: u32) -> u32 {
    poly_steps(n, 8)
}

/// Folds one byte into the running CRC.
pub open spec fn crc_byte(c: u32, b: u8) -> u32 {
    table_entry((c ^ (b as u32)) & 0xFF) ^ (c >> 8u32)
}

/// Folds a byte sequence, first byte first, into the running CRC.
pub open spec fn crc_update(c: u32, s: Seq<u8>) -> u32
    decreases s.len(),
{
    if s.len() == 0 {
        c
    } else {
        crc_update(crc_byte(c, s[0]), s.drop_first())
    }
}

/// The CRC-32 of a byte sequence: seeded with all ones, final value inverted.
pub open spec fn crc32_of(s: Seq<u8>) -> u32 {
    crc_update(CRC_SEED, s) ^ 0xFFFF_FFFF
}

/// Folds the chunks one after another, carrying the running value.
pub open spec fn crc_chunks(c: u32, chunks: Seq<Seq<u8>>) -> u32
    decreases chunks.len(),
{
    if chunks.len() == 0 {
        c
    } else {
        crc_chunks(crc_update(c, chunks[0]), chunks.drop_first())
    }
}

/// Folding `a + b` is folding `a`, then `b` from where `a` left off.
pub proof fn lemma_crc_concat(c: u32, a: Seq<u8>, b: Seq<u8>)
    ensures
        crc_update(c, a + b) == crc_update(crc_update(c, a), b),
    decreases a.len(),
{
    if a.len() == 0 {
        assert(a + b =~= b);
    } else {
        lemma_crc_concat(crc_byte(c, a[0]), a.drop_first(), b);
        assert((a + b).drop_first() =~= a.drop_first() + b);
        assert((a + b)[0] == a[0]);
    }
}

/// Folding one more byte.
pub proof fn lemma_crc_push(c: u32, s: Seq<u8>, b: u8)
    ensures
        crc_update(c, s.push(b)) == crc_byte(crc_update(c, s), b),
{
    lemma_crc_concat(c, s, seq![b]);
    assert(s + seq![b] =~= s.push(b));
    let one = seq![b];
    assert(one.drop_first() =~= Seq::<u8>::empty());
    assert(one[0] == b);
    assert(crc_update(crc_update(c, s), one) == crc_update(
        crc_byte(crc_update(c, s), b),
        one.drop_first(),
    ));
}

/// Computing the CRC chunk by chunk, for any partition of the input,
/// gives the CRC of the whole input in one pass.
pub proof fn lemma_crc_chunked(c: u32, chunks: Seq<Seq<u8>>)
    ensures
        crc_chunks(c, chunks) == crc_update(c, chunks.flatten()),
    decreases chunks.len(),
{
    if chunks.len() > 0 {
        lemma_crc_chunked(crc_update(c, chunks[0]), chunks.drop_first());
        lemma_crc_concat(c, chunks[0], chunks.drop_first().flatten());
    }
}

/// The lookup table, built once.
pub struct Crc32Table {
    table: Vec<u32>,
}

impl Crc32Table {
    pub closed spec fn wf(&self) -> bool {
        &&& self.table@.len() == 256
        &&& forall|i: int| 0 <= i < 256 ==> self.table@[i] == table_entry(i as u32)
    }

    pub fn new() -> (r: Crc32Table)
        ensures
            r.wf(),
    {
        let mut table: Vec<u32> = Vec::new();
        let mut n: u32 = 0;
        while n < 256
            invariant
                n <= 256,
                table@.len() == n,
                forall|i: int| 0 <= i < n ==> table@[i] == table_entry(i as u32),
            decreases 256 - n,
        {
            let mut c: u32 = n;
            let mut k: u32 = 0;
            while k < 8
                invariant
                    k <= 8,
                    poly_steps(c, (8 - k) as nat) == table_entry(n),
                decreases 8 - k,
            {
                if c & 1 == 1 {
                    c = (c >> 1) ^ CRC_POLY;
                } else {
                    c = c >> 1;
                }
                k += 1;
            }
            table.push(c);
            n += 1;
        }
        Crc32Table { table }
    }

    /// Folds `data[start..start + n]` into the running value `crc`.
    pub fn update(&self, crc: u32, data: &Vec<u8>, start: usize, n: usize) -> (r: u32)
        requires
            self.wf(),
            start + n <= data@.len(),
        ensures
            r == crc_update(crc, data@.subrange(start as int, start + n)),
    {
        let mut c = crc;
        let mut i: usize = 0;
        let dlen = data.len();
        while i < n
            invariant
                self.wf(),
                start + n <= data@.len(),
                dlen == data@.len(),
                i <= n,
                c == crc_update(crc, data@.subrange(start as int, start + i)),
            decreases n - i,
        {
            let b = data[start + i];
            let x = (c ^ (b as u32)) & 0xFF;
            assert(((c ^ (b as u32)) & 0xFF) < 256) by (bit_vector);
            proof {
                assert(data@.subrange(start as int, start + i + 1) =~= data@.subrange(
                    start as int,
                    start + i,
                ).push(b));
                lemma_crc_push(crc, data@.subrange(start as int, start + i), b);
            }
            c = self.table[x as usize] ^ (c >> 8);
            i += 1;
        }
        c
    }

    /// The CRC-32 of the whole of `data`.
    pub fn checksum(&self, data: &Vec<u8>) -> (r: u32)
        requires
            self.wf(),
        ensures
            r == crc32_of(data@),
    {
        let c = self.update(CRC_SEED, data, 0, data.len());
        assert(data@.subrange(0, data@.len() as int) =~= data@);
        c ^ 0xFFFF_FFFF
    }
}

} // verus!
