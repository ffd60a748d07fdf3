use cheesecake_kernel::cpu::{CpuInfo, CpuidResult};

fn regs(eax: u32, ebx: u32, ecx: u32, edx: u32) -> CpuidResult {
    CpuidResult { eax, ebx, ecx, edx }
}

fn brand_leaves(s: &str) -> [CpuidResult; 3] {
    let mut b = [0u8; 48];
    b[..s.len()].copy_from_slice(s.as_bytes());
    let w = |i: usize| u32::from_le_bytes([b[i], b[i + 1], b[i + 2], b[i + 3]]);
    [
        regs(w(0), w(4), w(8), w(12)),
        regs(w(16), w(20), w(24), w(28)),
        regs(w(32), w(36), w(40), w(44)),
    ]
}

#[test]
fn decodes_vendor_and_features() {
    let leaf0 = regs(0x16, 0x756e_6547, 0x6c65_746e, 0x4965_6e69);
    let leaf1 = regs(0, 0, 1 << 28, (1 << 25) | (1 << 26));
    let leaf7 = regs(0, 1 << 5, 0, 0);
    let ext8 = regs(0x3027, 0, 0, 0);
    let c = CpuInfo::from_cpuid(leaf0, leaf1, leaf7, brand_leaves("Test CPU"), ext8);
    assert_eq!(&c.vendor, b"GenuineIntel");
    assert!(c.has_sse && c.has_sse2 && c.has_avx && c.has_avx2);
    assert_eq!(c.physical_address_bits, 0x27);
    let none = CpuInfo::from_cpuid(leaf0, regs(0, 0, 0, 0), regs(0, !(1 << 5), 0, 0), brand_leaves(""), regs(0, 0, 0, 0));
    assert!(!none.has_sse && !none.has_sse2 && !none.has_avx && !none.has_avx2);
}

#[test]
fn brand_string_is_trimmed() {
    let z = regs(0, 0, 0, 0);
    let c = CpuInfo::from_cpuid(z, z, z, brand_leaves("  Intel(R) Core(TM) i7 CPU  "), z);
    assert_eq!(c.brand_str(), "Intel(R) Core(TM) i7 CPU");
    assert_eq!(&c.brand[..4], b"  In");
}

#[test]
fn invalid_brand_is_unknown() {
    let z = regs(0, 0, 0, 0);
    let mut leaves = brand_leaves("");
    leaves[0].eax = 0xFFFF_FFFF;
    let c = CpuInfo::from_cpuid(z, z, z, leaves, z);
    assert_eq!(c.brand_str(), "Unknown");
    let empty = CpuInfo::from_cpuid(z, z, z, brand_leaves(""), z);
    assert_eq!(empty.brand_str(), "");
}

#[test]
fn brand_string_trims_unicode_white_space() {
    let z = regs(0, 0, 0, 0);
    let c = CpuInfo::from_cpuid(z, z, z, brand_leaves("\t\u{a0}Intel CPU\u{3000}\n"), z);
    assert_eq!(c.brand_str(), "Intel CPU");
}
