use vstd::prelude::*;

verus! {

/// The reflected form of the IEEE CRC-32 polynomial.
pub const CRC_POLY: u32 = 0xedb8_8320;

/// One bit step of the reflected CRC register.
pub open spec fn crc_shift(c: u32) -> u32 {
    if c & 1 == 1 {
        (c >> 1) ^ CRC_POLY
    } else {
        c >> 1
    }
}

/// `n` bit steps of the register.
pub open spec fn crc_shift_n(c: u32, n: nat) -> u32
    decreases n,
{
    if n == 0 {
        c
    } else {
        crc_shift(crc_shift_n(c, (n - 1) as nat))
    }
}

/// The register after one byte has been fed in.
pub open spec fn crc_byte(c: u32, b: u8) -> u32 {
    crc_shift_n(c ^ (b as u32), 8)
}

/// The register after a byte sequence has been fed in, starting from all ones.
pub open spec fn crc_register(s: Seq<u8>) -> u32
    decreases s.len(),
{
    if s.len() == 0 {
        0xffff_ffff
    } else {
        crc_byte(crc_register(s.drop_last()), s.last())
    }
}

/// CRC-32 (IEEE, reflected) of a byte sequence: the register with every bit inverted.
pub open spec fn crc32_of(s: Seq<u8>) -> u32 {
    crc_register(s) ^ 0xffff_ffff
}

proof fn lemma_shift_linear(u: u32, v: u32)
    ensures
        crc_shift(u ^ v) == crc_shift(u) ^ crc_shift(v),
{
    assert(((u ^ v) & 1 == 1) == ((u & 1 == 1) != (v & 1 == 1))) by (bit_vector);
    assert((u ^ v) >> 1 == (u >> 1) ^ (v >> 1)) by (bit_vector);
    assert(((u >> 1) ^ (v >> 1)) ^ CRC_POLY == ((u >> 1) ^ CRC_POLY) ^ (v >> 1)) by (bit_vector);
    assert(((u >> 1) ^ (v >> 1)) ^ CRC_POLY == (u >> 1) ^ ((v >> 1) ^ CRC_POLY)) by (bit_vector);
    assert(((u >> 1) ^ (v >> 1)) == ((u >> 1) ^ CRC_POLY) ^ ((v >> 1) ^ CRC_POLY)) by (bit_vector);
}

proof fn lemma_shift_n_linear(u: u32, v: u32, n: nat)
    ensures
        crc_shift_n(u ^ v, n) == crc_shift_n(u, n) ^ crc_shift_n(v, n),
    decreases n,
{
    if n > 0 {
        lemma_shift_n_linear(u, v, (n - 1) as nat);
        lemma_shift_linear(crc_shift_n(u, (n - 1) as nat), crc_shift_n(v, (n - 1) as nat));
    }
}

proof fn lemma_shift_n_high(y: u32, n: u32)
    requires
        n <= 8,
        y & 0xff == 0,
    ensures
        crc_shift_n(y, n as nat) == y >> n,
    decreases n,
{
    if n > 0 {
        let k = (n - 1) as u32;
        lemma_shift_n_high(y, k);
        assert((y >> k) & 1 == 0) by (bit_vector)
            requires
                y & 0xff == 0,
                k < 8,
        ;
        assert((y >> k) >> 1u32 == y >> n) by (bit_vector)
            requires
                k < 8,
                n == k + 1,
        ;
        assert(crc_shift_n(y, n as nat) == crc_shift(crc_shift_n(y, k as nat)));
    } else {
        assert(y >> 0u32 == y) by (bit_vector);
    }
}

/// Feeding a byte into the register splits into the high bits shifted down and a
/// step that depends on the low byte alone: the basis of the lookup table.
proof fn lemma_byte_split(c: u32, b: u8)
    ensures
        crc_byte(c, b) == (c >> 8) ^ crc_shift_n((c ^ (b as u32)) & 0xff, 8),
{
    let x = c ^ (b as u32);
    let lo = x & 0xff;
    let hi = x & 0xffff_ff00;
    assert(x == lo ^ hi) by (bit_vector)
        requires
            lo == x & 0xff,
            hi == x & 0xffff_ff00,
    ;
    assert(hi & 0xff == 0) by (bit_vector)
        requires
            hi == x & 0xffff_ff00,
    ;
    assert(hi >> 8 == c >> 8) by (bit_vector)
        requires
            hi == x & 0xffff_ff00,
            x == c ^ (b as u32),
    ;
    lemma_shift_n_linear(lo, hi, 8);
    lemma_shift_n_high(hi, 8);
    let a = crc_shift_n(lo, 8);
    assert(a ^ (c >> 8) == (c >> 8) ^ a) by (bit_vector);
}

proof fn lemma_shift_n_zero(w: u32, n: nat)
    requires
        crc_shift_n(w, n) == 0,
    ensures
        w == 0,
    decreases n,
{
    if n > 0 {
        let p = crc_shift_n(w, (n - 1) as nat);
        assert(p == 0) by {
            if p & 1 == 1 {
                assert((p >> 1) ^ CRC_POLY != 0) by (bit_vector);
            } else {
                assert((p & 1 != 1 && (p >> 1) == 0) ==> p == 0) by (bit_vector);
            }
        }
        lemma_shift_n_zero(w, (n - 1) as nat);
    }
}

/// Distinct registers stay distinct after any number of bit steps.
proof fn lemma_shift_n_injective(u: u32, v: u32, n: nat)
    requires
        u != v,
    ensures
        crc_shift_n(u, n) != crc_shift_n(v, n),
{
    lemma_shift_n_linear(u, v, n);
    let a = crc_shift_n(u, n);
    let b = crc_shift_n(v, n);
    assert(u ^ v != 0) by (bit_vector)
        requires
            u != v,
    ;
    if a == b {
        assert(a ^ b == 0) by (bit_vector)
            requires
                a == b,
        ;
        lemma_shift_n_zero(u ^ v, n);
    }
}

/// Two byte sequences of one length that differ in exactly one position have
/// different checksums.
pub proof fn lemma_crc_single_change(s: Seq<u8>, t: Seq<u8>, p: int)
    requires
        s.len() == t.len(),
        0 <= p < s.len(),
        s[p] != t[p],
        forall|i: int| 0 <= i < s.len() && i != p ==> s[i] == t[i],
    ensures
        crc32_of(s) != crc32_of(t),
    decreases s.len(),
{
    lemma_register_single_change(s, t, p);
    let a = crc_register(s);
    let b = crc_register(t);
    assert(a ^ 0xffff_ffff != b ^ 0xffff_ffff) by (bit_vector)
        requires
            a != b,
    ;
}

proof fn lemma_register_single_change(s: Seq<u8>, t: Seq<u8>, p: int)
    requires
        s.len() == t.len(),
        0 <= p < s.len(),
        s[p] != t[p],
        forall|i: int| 0 <= i < s.len() && i != p ==> s[i] == t[i],
    ensures
        crc_register(s) != crc_register(t),
    decreases s.len(),
{
    let n = s.len() - 1;
    if p == n {
        assert(s.drop_last() =~= t.drop_last());
        let c = crc_register(s.drop_last());
        let x = s.last();
        let y = t.last();
        assert(c ^ (x as u32) != c ^ (y as u32)) by (bit_vector)
            requires
                x != y,
        ;
        lemma_shift_n_injective(c ^ (x as u32), c ^ (y as u32), 8);
    } else {
        lemma_register_single_change(s.drop_last(), t.drop_last(), p);
        let c = crc_register(s.drop_last());
        let d = crc_register(t.drop_last());
        let x = s.last();
        assert(c ^ (x as u32) != d ^ (x as u32)) by (bit_vector)
            requires
                c != d,
        ;
        lemma_shift_n_injective(c ^ (x as u32), d ^ (x as u32), 8);
    }
}

/// The 256-entry lookup table: entry `i` is eight bit steps of `i`.
pub fn crc_table() -> (t: Vec<u32>)
    ensures
        t@.len() == 256,
        forall|i: int| 0 <= i < 256 ==> #[trigger] t@[i] == crc_shift_n(i as u32, 8),
{
    let mut t: Vec<u32> = Vec::with_capacity(256);
    let mut i: u32 = 0;
    while i < 256
        invariant
            i <= 256,
            t@.len() == i,
            forall|j: int| 0 <= j < i ==> #[trigger] t@[j] == crc_shift_n(j as u32, 8),
        decreases 256 - i,
    {
        let mut c: u32 = i;
        let mut k: u32 = 0;
        while k < 8
            invariant
                k <= 8,
                c == crc_shift_n(i, k as nat),
            decreases 8 - k,
        {
            if c & 1 == 1 {
                c = (c >> 1) ^ CRC_POLY;
            } else {
                c = c >> 1;
            }
            k = k + 1;
        }
        t.push(c);
        i = i + 1;
    }
    t
}

/// CRC-32 over the type code bytes followed by the payload bytes.
pub fn crc32(chunk_type: &[u8], data: &[u8]) -> (r: u32)
    ensures
        r == crc32_of(chunk_type@ + data@),
{
    let table = crc_table();
    let mut c: u32 = 0xffff_ffff;
    let mut i: usize = 0;
    while i < chunk_type.len()
        invariant
            table@.len() == 256,
            forall|j: int| 0 <= j < 256 ==> #[trigger] table@[j] == crc_shift_n(j as u32, 8),
            i <= chunk_type@.len(),
            c == crc_register(chunk_type@.subrange(0, i as int)),
        decreases chunk_type.len() - i,
    {
        let b = chunk_type[i];
        proof {
            lemma_byte_split(c, b);
            assert(chunk_type@.subrange(0, i + 1).drop_last() =~= chunk_type@.subrange(0, i as int));
        }
        assert((c ^ (b as u32)) & 0xff < 256) by (bit_vector);
        c = (c >> 8) ^ table[((c ^ (b as u32)) & 0xff) as usize];
        i = i + 1;
    }
    assert(chunk_type@.subrange(0, i as int) =~= chunk_type@);
    let ghost whole = chunk_type@ + data@;
    assert(whole.subrange(0, chunk_type@.len() as int) =~= chunk_type@);
    let mut i: usize = 0;
    while i < data.len()
        invariant
            table@.len() == 256,
            forall|j: int| 0 <= j < 256 ==> #[trigger] table@[j] == crc_shift_n(j as u32, 8),
            i <= data@.len(),
            whole == chunk_type@ + data@,
            c == crc_register(whole.subrange(0, chunk_type@.len() + i)),
        decreases data.len() - i,
    {
        let b = data[i];
        proof {
            lemma_byte_split(c, b);
            let n = chunk_type@.len() + i;
            assert(whole.subrange(0, n + 1).drop_last() =~= whole.subrange(0, n));
            assert(whole[n] == b);
        }
        assert((c ^ (b as u32)) & 0xff < 256) by (bit_vector);
        c = (c >> 8) ^ table[((c ^ (b as u32)) & 0xff) as usize];
        i = i + 1;
    }
    assert(whole.subrange(0, chunk_type@.len() + i) =~= whole);
    c ^ 0xffff_ffff
}

} // verus!
