use rar_os::lab_images::{all, component_hash, factory_hash};
use sha2::{Digest, Sha256};

fn sha256(bytes: &[u8]) -> [u8; 32] {
    Sha256::digest(bytes).into()
}

#[test]
fn factory_component_hash_excludes_page_padding_and_checks_exact_bounds() {
    let mut bank = vec![7u8; 4096];
    let expected = sha256(&bank[..896]);
    assert_eq!(component_hash(&bank, 896), Ok(expected));
    bank[896..].fill(0xa5);
    assert_eq!(component_hash(&bank, 896), Ok(expected));
    bank[895] ^= 1;
    assert_ne!(component_hash(&bank, 896), Ok(expected));
    for length in [0, 895, 4097, 2_097_537, usize::MAX] {
        assert_eq!(component_hash(&bank, length), Err(()));
    }
    assert_eq!(component_hash(&[0; 512], 896), Err(()));
}

#[test]
fn absent_factory_cannot_fall_back_to_a_zero_identity() {
    assert_eq!(factory_hash(), Err(()));
    assert!(all().iter().all(|bank| bank.is_none()));
}
