use platform_drivers::iommu::bits::{
    PTE_DIRTY, PTE_READ, PTE_USER, PTE_WRITE, capability_version_supported, interrupt_vector_layout,
    interrupt_vector_layout_valid,
};
use platform_drivers::iommu::page_table::leaf_flags;

#[test]
fn interrupt_layout_folds_four_causes_over_available_vectors() {
    assert_eq!(interrupt_vector_layout(1), Some(0x0000));
    assert_eq!(interrupt_vector_layout(2), Some(0x1010));
    assert_eq!(interrupt_vector_layout(3), Some(0x0210));
    assert_eq!(interrupt_vector_layout(4), Some(0x3210));
    assert_eq!(interrupt_vector_layout(0), None);
    assert_eq!(interrupt_vector_layout(5), None);
}

#[test]
fn interrupt_layout_readback_rejects_out_of_range_vectors() {
    assert!(interrupt_vector_layout_valid(0x3210, 4));
    assert!(interrupt_vector_layout_valid(0x0210, 3));
    assert!(!interrupt_vector_layout_valid(0x3210, 3));
    assert!(!interrupt_vector_layout_valid(0x0010, 1));
}

#[test]
fn capability_version_accepts_compatible_minor_only() {
    assert!(capability_version_supported(0x10));
    assert!(capability_version_supported(0x1f));
    assert!(!capability_version_supported(0x00));
    assert!(!capability_version_supported(0x20));
    assert!(!capability_version_supported(0xf0));
}

#[test]
fn ordinary_device_leaf_pte_is_user_accessible() {
    let read_only = leaf_flags(false);
    assert_ne!(read_only & PTE_USER, 0);
    assert_ne!(read_only & PTE_READ, 0);
    assert_eq!(read_only & (PTE_WRITE | PTE_DIRTY), 0);

    let writable = leaf_flags(true);
    assert_ne!(writable & PTE_USER, 0);
    assert_ne!(writable & (PTE_WRITE | PTE_DIRTY), 0);
}
