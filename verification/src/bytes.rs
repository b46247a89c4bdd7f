//! Little-endian integers and byte ranges inside a mapped file.
use vstd::prelude::*;

verus! {

/// The unsigned 32 bit integer stored little-endian at `at`.
pub open spec fn le32(s: Seq<u8>, at: int) -> int {
    s[at] + 0x100 * s[at + 1] + 0x1_0000 * s[at + 2] + 0x100_0000 * s[at + 3]
}

/// The unsigned 64 bit integer stored little-endian at `at`.
pub open spec fn le64(s: Seq<u8>, at: int) -> int {
    le32(s, at) + 0x1_0000_0000 * le32(s, at + 4)
}

/// The four bytes that store `x` little-endian.
pub open spec fn le32_bytes(x: u32) -> Seq<u8> {
    seq![
        (x % 0x100) as u8,
        ((x / 0x100) % 0x100) as u8,
        ((x / 0x1_0000) % 0x100) as u8,
        (x / 0x100_0000) as u8,
    ]
}

/// The eight bytes that store `x` little-endian.
pub open spec fn le64_bytes(x: u64) -> Seq<u8> {
    le32_bytes((x % 0x1_0000_0000) as u32) + le32_bytes((x / 0x1_0000_0000) as u32)
}

/// `s` with `bytes` written over it from position `at` on.
pub open spec fn overwrite(s: Seq<u8>, at: int, bytes: Seq<u8>) -> Seq<u8> {
    Seq::new(
        s.len(),
        |i: int|
            if at <= i < at + bytes.len() {
                bytes[i - at]
            } else {
                s[i]
            },
    )
}

/// The two ranges hold the same bytes in `a` and in `b`.
pub open spec fn same_range(a: Seq<u8>, b: Seq<u8>, from: int, to: int) -> bool {
    forall|i: int| from <= i < to ==> #[trigger] a[i] == b[i]
}

/// Reading back the bytes of a 32 bit integer gives the integer.
pub proof fn lemma_le32_round_trip(s: Seq<u8>, at: int, x: u32)
    requires
        0 <= at,
        at + 4 <= s.len(),
        s.subrange(at, at + 4) == le32_bytes(x),
    ensures
        le32(s, at) == x,
{
    let b = s.subrange(at, at + 4);
    assert(b[0] == s[at] && b[1] == s[at + 1] && b[2] == s[at + 2] && b[3] == s[at + 3]);
    assert(x == x % 0x100 + 0x100 * ((x / 0x100) % 0x100) + 0x1_0000 * ((x / 0x1_0000) % 0x100)
        + 0x100_0000 * (x / 0x100_0000));
}

/// The bytes under a 32 bit integer are the bytes that store it.
pub proof fn lemma_le32_bytes_of(s: Seq<u8>, at: int, x: u32)
    requires
        0 <= at,
        at + 4 <= s.len(),
        le32(s, at) == x,
    ensures
        s.subrange(at, at + 4) == le32_bytes(x),
{
    let b0 = s[at] as int;
    let b1 = s[at + 1] as int;
    let b2 = s[at + 2] as int;
    let b3 = s[at + 3] as int;
    assert(x as int / 0x100 == b1 + 0x100 * b2 + 0x1_0000 * b3 && x as int % 0x100 == b0);
    assert((b1 + 0x100 * b2 + 0x1_0000 * b3) % 0x100 == b1);
    assert(x as int / 0x1_0000 == b2 + 0x100 * b3);
    assert((b2 + 0x100 * b3) % 0x100 == b2);
    assert(x as int / 0x100_0000 == b3);
    let b = s.subrange(at, at + 4);
    assert(b[0] == b0 && b[1] == b1 && b[2] == b2 && b[3] == b3);
    assert(b =~= le32_bytes(x));
}

/// Reading back the bytes of a 64 bit integer gives the integer.
pub proof fn lemma_le64_round_trip(s: Seq<u8>, at: int, x: u64)
    requires
        0 <= at,
        at + 8 <= s.len(),
        s.subrange(at, at + 8) == le64_bytes(x),
    ensures
        le64(s, at) == x,
{
    let low = (x % 0x1_0000_0000) as u32;
    let high = (x / 0x1_0000_0000) as u32;
    let b = s.subrange(at, at + 8);
    assert(s.subrange(at, at + 4) =~= b.subrange(0, 4));
    assert(b.subrange(0, 4) =~= le32_bytes(low));
    assert(s.subrange(at + 4, at + 8) =~= b.subrange(4, 8));
    assert(b.subrange(4, 8) =~= le32_bytes(high));
    lemma_le32_round_trip(s, at, low);
    lemma_le32_round_trip(s, at + 4, high);
}

/// Reads the 32 bit integer at `at`.
pub fn read_u32(mem: &[u8], at: usize) -> (x: u32)
    requires
        at + 4 <= mem@.len(),
    ensures
        x == le32(mem@, at as int),
{
    mem[at] as u32 + 0x100 * mem[at + 1] as u32 + 0x1_0000 * mem[at + 2] as u32 + 0x100_0000
        * mem[at + 3] as u32
}

/// Reads the 64 bit integer at `at`.
pub fn read_u64(mem: &[u8], at: usize) -> (x: u64)
    requires
        at + 8 <= mem@.len(),
    ensures
        x == le64(mem@, at as int),
{
    assert(at + 8 <= mem.len());
    read_u32(mem, at) as u64 + 0x1_0000_0000 * read_u32(mem, at + 4) as u64
}

/// Stores `x` at `at`; the other bytes keep their values.
pub fn write_u32(mem: &mut [u8], at: usize, x: u32)
    requires
        at + 4 <= old(mem)@.len(),
    ensures
        final(mem)@ == overwrite(old(mem)@, at as int, le32_bytes(x)),
{
    mem[at] = (x % 0x100) as u8;
    mem[at + 1] = ((x / 0x100) % 0x100) as u8;
    mem[at + 2] = ((x / 0x1_0000) % 0x100) as u8;
    mem[at + 3] = (x / 0x100_0000) as u8;
    assert(mem@ =~= overwrite(old(mem)@, at as int, le32_bytes(x)));
}

/// Stores `x` at `at`; the other bytes keep their values.
pub fn write_u64(mem: &mut [u8], at: usize, x: u64)
    requires
        at + 8 <= old(mem)@.len(),
    ensures
        final(mem)@ == overwrite(old(mem)@, at as int, le64_bytes(x)),
{
    assert(at + 8 <= mem.len());
    write_u32(mem, at, (x % 0x1_0000_0000) as u32);
    write_u32(mem, at + 4, (x / 0x1_0000_0000) as u32);
    assert(mem@ =~= overwrite(old(mem)@, at as int, le64_bytes(x)));
}

/// Copies `bytes` to `at`; the other bytes keep their values.
pub fn write_bytes(mem: &mut [u8], at: usize, bytes: &[u8])
    requires
        at + bytes@.len() <= old(mem)@.len(),
    ensures
        final(mem)@ == overwrite(old(mem)@, at as int, bytes@),
{
    let mut k: usize = 0;
    while k < bytes.len()
        invariant
            k <= bytes@.len(),
            at + bytes@.len() <= old(mem)@.len(),
            old(mem)@.len() == mem@.len(),
            mem@ == overwrite(old(mem)@, at as int, bytes@.subrange(0, k as int)),
        decreases bytes@.len() - k,
    {
        assert(at + k < mem.len());
        mem[at + k] = bytes[k];
        k = k + 1;
        assert(mem@ =~= overwrite(old(mem)@, at as int, bytes@.subrange(0, k as int)));
    }
    assert(bytes@.subrange(0, k as int) =~= bytes@);
}

} // verus!
