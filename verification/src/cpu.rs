//! What the processor reports about itself through `cpuid`.  Executing
//! `cpuid` is the caller's part; this decodes the registers it returns.
use vstd::prelude::*;
use vstd::utf8::{decode_utf8, valid_utf8, encode_utf8_decode_utf8};
use vstd::string::StringSliceAdditionalSpecFns;

verus! {

/// The registers one `cpuid` leaf returns.
#[derive(Clone, Copy, PartialEq, Eq, Structural, Debug)]
pub struct CpuidResult {
    pub eax: u32,
    pub ebx: u32,
    pub ecx: u32,
    pub edx: u32,
}

#[derive(Clone, Copy, Debug)]
pub struct CpuInfo {
    /// The vendor identification string, such as `GenuineIntel`.
    pub vendor: [u8; 12],
    /// The processor brand string, NUL-padded.
    pub brand: [u8; 48],
    pub has_sse: bool,
    pub has_sse2: bool,
    pub has_avx: bool,
    pub has_avx2: bool,
    pub physical_address_bits: u8,
}

/// Byte `i` (0 lowest) of `x`.
pub open spec fn byte_of(x: u32, i: int) -> u8 {
    ((x >> (8 * i) as u32) & 0xff) as u8
}

/// The little-endian bytes of four registers, in order.
pub open spec fn le_bytes4(a: u32, b: u32, c: u32, d: u32) -> Seq<u8> {
    Seq::new(16, |i: int| {
        let r = if i < 4 { a } else if i < 8 { b } else if i < 12 { c } else { d };
        byte_of(r, i % 4)
    })
}

/// Bit `n` of `x` is set.
pub open spec fn bit_set(x: u32, n: u32) -> bool {
    x & (1u32 << n) != 0
}

/// The processor description the `cpuid` leaves give: the vendor from leaf
/// 0 (`ebx`, `edx`, `ecx`), the brand from leaves 0x80000002 to 0x80000004
/// (`eax`, `ebx`, `ecx`, `edx` each), SSE and SSE2 from bits 25 and 26 of
/// leaf 1's `edx`, AVX from bit 28 of its `ecx`, AVX2 from bit 5 of leaf
/// 7's `ebx`, and the physical address width from the low byte of leaf
/// 0x80000008's `eax`.
pub open spec fn decoded(
    leaf0: CpuidResult,
    leaf1: CpuidResult,
    leaf7: CpuidResult,
    brand: [CpuidResult; 3],
    ext8: CpuidResult,
    info: CpuInfo,
) -> bool {
    &&& info.vendor@ == le_bytes4(leaf0.ebx, leaf0.edx, leaf0.ecx, 0).subrange(0, 12)
    &&& info.brand@ == le_bytes4(brand[0].eax, brand[0].ebx, brand[0].ecx, brand[0].edx)
        + le_bytes4(brand[1].eax, brand[1].ebx, brand[1].ecx, brand[1].edx)
        + le_bytes4(brand[2].eax, brand[2].ebx, brand[2].ecx, brand[2].edx)
    &&& info.has_sse == bit_set(leaf1.edx, 25)
    &&& info.has_sse2 == bit_set(leaf1.edx, 26)
    &&& info.has_avx == bit_set(leaf1.ecx, 28)
    &&& info.has_avx2 == bit_set(leaf7.ebx, 5)
    &&& info.physical_address_bits == (ext8.eax & 0xff) as u8
}

/// Writes the little-endian bytes of `x` at `buf[off..off + 4]`.
fn put_le(buf: &mut [u8], off: usize, x: u32)
    requires
        off + 4 <= old(buf)@.len(),
    ensures
        final(buf)@.len() == old(buf)@.len(),
        forall|i: int|
            0 <= i < old(buf)@.len() ==> #[trigger] final(buf)@[i] == if off <= i < off + 4 {
                byte_of(x, i - off)
            } else {
                old(buf)@[i]
            },
{
    buf[off] = (x & 0xff) as u8;
    buf[off + 1] = ((x >> 8u32) & 0xff) as u8;
    buf[off + 2] = ((x >> 16u32) & 0xff) as u8;
    buf[off + 3] = ((x >> 24u32) & 0xff) as u8;
    proof {
        assert(x >> 0u32 == x) by (bit_vector);
    }
}

/// `s` without its leading copies of `c`.
pub open spec fn trim_start_char(s: Seq<char>, c: char) -> Seq<char>
    decreases s.len(),
{
    if s.len() > 0 && s[0] == c {
        trim_start_char(s.drop_first(), c)
    } else {
        s
    }
}

/// `s` without its trailing copies of `c`.
pub open spec fn trim_end_char(s: Seq<char>, c: char) -> Seq<char>
    decreases s.len(),
{
    if s.len() > 0 && s.last() == c {
        trim_end_char(s.drop_last(), c)
    } else {
        s
    }
}

/// The characters with the Unicode `White_Space` property, which is what
/// `str::trim` and `char::is_whitespace` go by.
pub open spec fn is_white_space(c: char) -> bool {
    ||| '\u{9}' <= c <= '\u{d}'
    ||| c == ' '
    ||| c == '\u{85}'
    ||| c == '\u{a0}'
    ||| c == '\u{1680}'
    ||| '\u{2000}' <= c <= '\u{200a}'
    ||| c == '\u{2028}'
    ||| c == '\u{2029}'
    ||| c == '\u{202f}'
    ||| c == '\u{205f}'
    ||| c == '\u{3000}'
}

/// `s` without its leading white space.
pub open spec fn trim_start_ws(s: Seq<char>) -> Seq<char>
    decreases s.len(),
{
    if s.len() > 0 && is_white_space(s[0]) {
        trim_start_ws(s.drop_first())
    } else {
        s
    }
}

/// `s` without its trailing white space.
pub open spec fn trim_end_ws(s: Seq<char>) -> Seq<char>
    decreases s.len(),
{
    if s.len() > 0 && is_white_space(s.last()) {
        trim_end_ws(s.drop_last())
    } else {
        s
    }
}

/// What `str::trim` returns: the string without its leading and trailing
/// white space.
pub open spec fn trimmed(s: Seq<char>) -> Seq<char> {
    trim_end_ws(trim_start_ws(s))
}

/// Calls `core::str::from_utf8`.  Claimed, as its documentation says: a
/// string comes back exactly when the bytes are valid UTF-8, and it is made
/// of those bytes.
#[verifier::external_body]
fn str_from_utf8(v: &[u8]) -> (r: Option<&str>)
    ensures
        r is Some <==> valid_utf8(v@),
        r matches Some(s) ==> s.spec_bytes() == v@,
{
    core::str::from_utf8(v).ok()
}

/// Calls `str::trim_matches` with the NUL character.  Claimed, as its
/// documentation says: every leading and trailing NUL is removed.
#[verifier::external_body]
fn str_trim_nul(s: &str) -> (r: &str)
    ensures
        r@ == trim_end_char(trim_start_char(s@, '\0'), '\0'),
{
    s.trim_matches('\0')
}

/// Calls `str::trim`.  Claimed, as its documentation says: the result is
/// the argument without its leading and trailing characters of the Unicode
/// `White_Space` property (`is_white_space`).
#[verifier::external_body]
fn str_trim(s: &str) -> (r: &str)
    ensures
        r@ == trimmed(s@),
{
    s.trim()
}

/// The characters of the brand bytes, or `Unknown` when they are not valid
/// UTF-8.
pub open spec fn brand_chars(brand: Seq<u8>) -> Seq<char> {
    if valid_utf8(brand) {
        decode_utf8(brand)
    } else {
        "Unknown"@
    }
}

impl CpuInfo {
    /// The brand string without its NUL padding and surrounding white
    /// space; `Unknown` when the bytes are not UTF-8.
    pub fn brand_str(&self) -> (r: &str)
        ensures
            r@ == trimmed(trim_end_char(trim_start_char(brand_chars(self.brand@), '\0'), '\0')),
    {
        let s = match str_from_utf8(&self.brand) {
            Some(s) => {
                proof {
                    encode_utf8_decode_utf8(s@);
                }
                s
            },
            None => "Unknown",
        };
        str_trim(str_trim_nul(s))
    }

    /// Decodes the `cpuid` leaves (see `decoded`).
    pub fn from_cpuid(
        leaf0: CpuidResult,
        leaf1: CpuidResult,
        leaf7: CpuidResult,
        brand_leaves: [CpuidResult; 3],
        ext8: CpuidResult,
    ) -> (r: CpuInfo)
        ensures
            decoded(leaf0, leaf1, leaf7, brand_leaves, ext8, r),
    {
        let mut vendor = [0u8; 12];
        put_le(&mut vendor, 0, leaf0.ebx);
        put_le(&mut vendor, 4, leaf0.edx);
        put_le(&mut vendor, 8, leaf0.ecx);
        let mut brand = [0u8; 48];
        let mut i: usize = 0;
        while i < 3
            invariant
                i <= 3,
                brand@.len() == 48,
                forall|j: int| 0 <= j < 16 * i ==> #[trigger] brand@[j] == le_bytes4(
                    brand_leaves[j / 16].eax,
                    brand_leaves[j / 16].ebx,
                    brand_leaves[j / 16].ecx,
                    brand_leaves[j / 16].edx,
                )[j % 16],
            decreases 3 - i,
        {
            let r = brand_leaves[i];
            let off = i * 16;
            put_le(&mut brand, off, r.eax);
            put_le(&mut brand, off + 4, r.ebx);
            put_le(&mut brand, off + 8, r.ecx);
            put_le(&mut brand, off + 12, r.edx);
            i = i + 1;
        }
        let has_sse = leaf1.edx & (1u32 << 25u32) != 0;
        let has_sse2 = leaf1.edx & (1u32 << 26u32) != 0;
        let has_avx = leaf1.ecx & (1u32 << 28u32) != 0;
        let has_avx2 = leaf7.ebx & (1u32 << 5u32) != 0;
        let physical_address_bits = (ext8.eax & 0xff) as u8;
        let r = CpuInfo { vendor, brand, has_sse, has_sse2, has_avx, has_avx2, physical_address_bits };
        proof {
            assert(r.vendor@ =~= le_bytes4(leaf0.ebx, leaf0.edx, leaf0.ecx, 0).subrange(0, 12));
            let b = brand_leaves;
            assert(r.brand@ =~= le_bytes4(b[0].eax, b[0].ebx, b[0].ecx, b[0].edx) + le_bytes4(
                b[1].eax,
                b[1].ebx,
                b[1].ecx,
                b[1].edx,
            ) + le_bytes4(b[2].eax, b[2].ebx, b[2].ecx, b[2].edx));
        }
        r
    }
}

} // verus!
