use cmac_core::Block;

#[test]
fn test_xor_in_place() {
    let mut block1 = Block::from_bytes(
        *b"\x17\xcc\xf7\xf7\xa1\x8c\xbc\x3d\x8d\xad\0\xf1\xc9\x79\x9f\xba",
    );

    let block2 = Block::from_bytes(
        *b"\x8d\xa8\xd5\x40\x7c\x9a\x62\xa0\x7b\x89\x94\x39\x3a\x84\xf1\x6b",
    );

    block1.xor_in_place(block2.as_bytes());
    assert_eq!(
        block1.as_bytes(),
        b"\x9a\x64\x22\xb7\xdd\x16\xde\x9d\xf6\x24\x94\xc8\xf3\xfd\x6e\xd1"
    );
}

#[test]
fn xor_in_place_is_self_inverse() {
    let original = *b"\x17\xcc\xf7\xf7\xa1\x8c\xbc\x3d\x8d\xad\0\xf1\xc9\x79\x9f\xba";
    let other = *b"\x8d\xa8\xd5\x40\x7c\x9a\x62\xa0\x7b\x89\x94\x39\x3a\x84\xf1\x6b";
    let mut block = Block::from_bytes(original);
    block.xor_in_place(&other);
    block.xor_in_place(&other);
    assert_eq!(block.as_bytes(), &original);
}

/// Reference GF(2^128) doubling: shift the 16 bytes left by one bit as a
/// big-endian integer, then conditionally XOR the reduction constant.
fn dbl_reference(input: &[u8; 16]) -> [u8; 16] {
    let mut out = [0u8; 16];
    for i in 0..16 {
        out[i] = input[i] << 1;
        if i < 15 && input[i + 1] & 0x80 != 0 {
            out[i] |= 1;
        }
    }
    if input[0] & 0x80 != 0 {
        out[15] ^= 0x87;
    }
    out
}

#[test]
fn dbl_matches_rfc4493_subkey_vectors() {
    // AES-128 with the RFC 4493 key encrypts the zero block to this
    // value; doubling it once and twice yields the documented K1 and K2.
    let l = *b"\x7d\xf7\x6b\x0c\x1a\xb8\x99\xb3\x3e\x42\xf0\x47\xb9\x1b\x54\x6f";
    let k1 = *b"\xfb\xee\xd6\x18\x35\x71\x33\x66\x7c\x85\xe0\x8f\x72\x36\xa8\xde";
    let k2 = *b"\xf7\xdd\xac\x30\x6a\xe2\x66\xcc\xf9\x0b\xc1\x1e\xe4\x6d\x51\x3b";

    let mut block = Block::from_bytes(l);
    block.dbl();
    assert_eq!(block.as_bytes(), &k1);
    block.dbl();
    assert_eq!(block.as_bytes(), &k2);
}

#[test]
fn dbl_twice_matches_reference_doubling() {
    let samples: [[u8; 16]; 4] = [
        [0u8; 16],
        *b"\x80\x00\x00\x00\x00\x00\x00\x00\x00\x00\x00\x00\x00\x00\x00\x01",
        *b"\x7d\xf7\x6b\x0c\x1a\xb8\x99\xb3\x3e\x42\xf0\x47\xb9\x1b\x54\x6f",
        *b"\xff\xee\xdd\xcc\xbb\xaa\x99\x88\x77\x66\x55\x44\x33\x22\x11\x00",
    ];
    for sample in samples.iter() {
        let expected = dbl_reference(&dbl_reference(sample));
        let mut block = Block::from_bytes(*sample);
        block.dbl();
        block.dbl();
        assert_eq!(block.as_bytes(), &expected);
    }
}

#[test]
fn new_and_clear_are_zero() {
    let zero = [0u8; 16];
    let block = Block::new();
    assert_eq!(block.as_bytes(), &zero);

    let mut other = Block::from_bytes([0xAAu8; 16]);
    other.clear();
    assert_eq!(other.as_bytes(), &zero);
}

#[test]
fn from_slice_pads_with_zero_on_the_right() {
    let block = Block::from_slice(b"\x01\x02\x03");
    assert_eq!(
        block.as_bytes(),
        b"\x01\x02\x03\x00\x00\x00\x00\x00\x00\x00\x00\x00\x00\x00\x00\x00"
    );

    let empty = Block::from_slice(b"");
    assert_eq!(empty.as_bytes(), &[0u8; 16]);

    let full = Block::from_slice(b"0123456789abcdef");
    assert_eq!(full.as_bytes(), b"0123456789abcdef");
}

#[test]
fn copy_from_block_copies_all_bytes() {
    let source = Block::from_bytes(*b"\x8d\xa8\xd5\x40\x7c\x9a\x62\xa0\x7b\x89\x94\x39\x3a\x84\xf1\x6b");
    let mut dest = Block::new();
    dest.copy_from_block(&source);
    assert_eq!(dest.as_bytes(), source.as_bytes());
}

#[test]
fn ct_eq_compares_whole_blocks() {
    let a = Block::from_bytes(*b"0123456789abcdef");
    let b = Block::from_bytes(*b"0123456789abcdef");
    assert!(a.ct_eq(&b));

    // a mismatch in the last byte alone must be detected
    let c = Block::from_bytes(*b"0123456789abcdeF");
    assert!(!a.ct_eq(&c));

    // as must one in the first byte alone
    let d = Block::from_bytes(*b"X123456789abcdef");
    assert!(!a.ct_eq(&d));
}

#[test]
fn default_is_zero() {
    let block: Block = Default::default();
    assert_eq!(block.as_bytes(), &[0u8; 16]);
}
