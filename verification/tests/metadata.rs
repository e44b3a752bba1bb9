use bitumen::crc32::digest;
use bitumen::endian::{get_le, put_le};
use bitumen::flags;
use bitumen::{Metadata, MAGIC, PAYLOAD_SIZE, RECORD_SIZE};

fn sample(flags: u32) -> Metadata {
    Metadata {
        modified_at: 1,
        file_size: 2,
        path_len: 3,
        perms: 0,
        owner: 0,
        group: 0,
        magic: MAGIC,
        flags,
        checksum: 0,
    }
}

#[test]
/// Header is 40 bytes in size.
fn header_size_test() {
    assert_eq!(40, core::mem::size_of::<Metadata>());
    assert_eq!(40, RECORD_SIZE);
    let mut meta = Metadata::default();
    meta.set_checksum();
    assert_eq!(40, meta.as_bytes().len());
}

#[test]
fn as_bytes_without_checksum() {
    let mut meta = Metadata::default();
    meta.file_size = 34343;
    meta.flags = 23232;

    let b1 = meta.as_bytes_without_checksum().to_vec();
    meta.checksum = 0xAA_BB_AA_BB;
    let b2 = meta.as_bytes_without_checksum().to_vec();

    assert_eq!(b1.len(), 32);

    assert_eq!(b1, b2);
}

#[test]
fn payload_is_thirty_two_bytes() {
    assert_eq!(32, PAYLOAD_SIZE);
    assert_eq!(32, sample(0).as_bytes_without_checksum().len());
}

#[test]
fn checksum_of_reference_string() {
    assert_eq!(digest(b"123456789"), 0xCBF43926);
}

#[test]
fn checksum_of_other_known_inputs() {
    assert_eq!(digest(b""), 0);
    assert_eq!(digest(b"a"), 0xE8B7BE43);
    assert_eq!(digest(b"The quick brown fox jumps over the lazy dog"), 0x414FA339);
}

#[test]
fn checksum_changes_with_a_single_byte() {
    let a = [7u8; 32];
    for at in 0..32 {
        let mut b = a;
        b[at] = 8;
        assert_ne!(digest(&a), digest(&b));
    }
}

#[test]
fn default_is_all_zero() {
    let meta = Metadata::default();
    assert_eq!(
        meta,
        Metadata {
            modified_at: 0,
            file_size: 0,
            path_len: 0,
            perms: 0,
            owner: 0,
            group: 0,
            magic: 0,
            flags: 0,
            checksum: 0,
        }
    );
}

#[test]
fn payload_layout_is_little_endian() {
    let bytes = sample(9).as_bytes_without_checksum();
    let expected: Vec<u8> = vec![
        1, 0, 0, 0, 0, 0, 0, 0, 2, 0, 0, 0, 0, 0, 0, 0, 3, 0, 0, 0, 0, 0, 0, 0, 0x6a, 0x8b, 0x96,
        0x2f, 9, 0, 0, 0,
    ];
    assert_eq!(bytes, expected);
}

#[test]
fn record_layout_is_payload_checksum_and_zeroes() {
    let mut meta = sample(9);
    meta.set_checksum();
    assert_eq!(meta.checksum, 0x26BF2880);
    let bytes = meta.as_bytes();
    assert_eq!(bytes.len(), 40);
    assert_eq!(&bytes[..32], &meta.as_bytes_without_checksum()[..]);
    assert_eq!(&bytes[32..36], &[0x80, 0x28, 0xbf, 0x26]);
    assert_eq!(&bytes[36..], &[0, 0, 0, 0]);
}

#[test]
fn compute_checksum_is_the_digest_of_the_payload() {
    let meta = sample(1);
    assert_eq!(meta.compute_checksum(), 0xE30B006F);
    assert_eq!(meta.compute_checksum(), digest(&meta.as_bytes_without_checksum()));
}

#[test]
fn set_checksum_changes_nothing_else() {
    let mut meta = sample(1);
    meta.checksum = 77;
    meta.set_checksum();
    assert_eq!(meta, Metadata { checksum: 0xE30B006F, ..sample(1) });
    meta.assert_checksum_valid();
}

#[test]
fn header_bit_changes_the_checksum() {
    let mut header = sample(flags::DIR | flags::HEADER);
    let mut footer = sample(flags::DIR);
    header.set_checksum();
    footer.set_checksum();
    assert_ne!(header.checksum, footer.checksum);
    assert_eq!(Metadata { checksum: 0, flags: 0, ..header }, Metadata { checksum: 0, flags: 0, ..footer });
}

#[test]
fn from_bytes_undoes_as_bytes() {
    let mut meta = Metadata {
        modified_at: 0x0102030405060708,
        file_size: 0xF1F2F3F4F5F6F7F8,
        path_len: 0xA1A2,
        perms: 0xB1B2,
        owner: 0xC1C2,
        group: 0xD1D2,
        magic: MAGIC,
        flags: 0xE1E2E3E4,
        checksum: 0,
    };
    meta.set_checksum();
    assert_eq!(Metadata::from_bytes(&meta.as_bytes()), Some(meta));
}

#[test]
fn from_bytes_reads_every_field_at_its_place() {
    let mut bytes = vec![0u8; 40];
    bytes[0] = 0x11;
    bytes[7] = 0x22;
    bytes[8] = 0x33;
    bytes[16] = 0x44;
    bytes[17] = 0x55;
    bytes[18] = 1;
    bytes[20] = 2;
    bytes[22] = 3;
    bytes[24] = 0x6a;
    bytes[28] = 2;
    bytes[35] = 0x80;
    bytes[39] = 0xff;
    let meta = Metadata::from_bytes(&bytes).unwrap();
    assert_eq!(meta.modified_at, 0x2200000000000011);
    assert_eq!(meta.file_size, 0x33);
    assert_eq!(meta.path_len, 0x5544);
    assert_eq!(meta.perms, 1);
    assert_eq!(meta.owner, 2);
    assert_eq!(meta.group, 3);
    assert_eq!(meta.magic, 0x6a);
    assert_eq!(meta.flags, 2);
    assert_eq!(meta.checksum, 0x80000000);
}

#[test]
fn from_bytes_wants_exactly_forty_bytes() {
    assert_eq!(Metadata::from_bytes(&[0u8; 39]), None);
    assert_eq!(Metadata::from_bytes(&[0u8; 41]), None);
    assert_eq!(Metadata::from_bytes(&[]), None);
    assert!(Metadata::from_bytes(&[0u8; 40]).is_some());
}

#[test]
fn check_tests_the_magic_constant() {
    let mut meta = sample(0);
    assert_eq!(meta.check(), Ok(()));
    assert_eq!(meta, sample(0));
    meta.magic = MAGIC + 1;
    assert_eq!(meta.check(), Err(()));
    assert_eq!(Metadata::default().check(), Err(()));
}

#[test]
fn kind_names_the_two_lowest_bits() {
    assert_eq!(sample(flags::FILE).kind(), "File");
    assert_eq!(sample(flags::DIR).kind(), "Directory");
    assert_eq!(sample(flags::SOFT_LINK).kind(), "Soft Link");
    assert_eq!(sample(flags::HARD_LINK).kind(), "Hard Link");
    assert_eq!(sample(flags::DIR | flags::HEADER).kind(), "Directory");
    assert_eq!(sample(0xFFFF_FFFC).kind(), "File");
}

#[test]
fn put_le_writes_the_least_significant_byte_first() {
    let mut out = vec![0xEEu8];
    put_le(&mut out, 0x0102030405060708, 8);
    assert_eq!(out, vec![0xEE, 8, 7, 6, 5, 4, 3, 2, 1]);
    let mut out = Vec::new();
    put_le(&mut out, 0x0102030405060708, 2);
    assert_eq!(out, vec![8, 7]);
    put_le(&mut out, 5, 0);
    assert_eq!(out, vec![8, 7]);
}

#[test]
fn get_le_reads_the_least_significant_byte_first() {
    let bytes = [9u8, 8, 7, 6, 5, 4, 3, 2, 1, 0xff];
    assert_eq!(get_le(&bytes, 1, 8), 0x0102030405060708);
    assert_eq!(get_le(&bytes, 8, 2), 0xff01);
    assert_eq!(get_le(&bytes, 3, 0), 0);
    assert_eq!(get_le(&[0xff; 8], 0, 8), u64::MAX);
}
