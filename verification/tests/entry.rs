use dome::entry::index_entry::IndexEntry;
use dome::entry::vault_entry::Entry;
use dome::entry::{deserialize_string, BinarySerialization};
use dome::errs::VaultError;

#[test]
fn entry_test_serialize_deserialize_entry() {
    let nonce: Vec<u8> = Vec::from([0, 1, 2, 3, 4, 5, 6, 7, 8, 9, 10, 11]);
    let salt: Vec<u8> = Vec::from([0, 1, 2, 3, 4, 5, 6, 7, 8, 9, 10, 11, 12, 13, 14, 15]);
    let entry: Entry = Entry::new("gmail", "john.doe@gmail.com", "123", &nonce, &salt);

    let binary_data = entry.serialize();
    let new_entry = Entry::deserialize(&binary_data).unwrap();

    assert_eq!(entry.domain, new_entry.domain);
    assert_eq!(entry.username, new_entry.username);
    assert_eq!(entry.password, new_entry.password);
    assert_eq!(entry.nonce, new_entry.nonce);
    assert_eq!(entry.salt, new_entry.salt);
}

#[test]
fn entry_test_serialization_size() {
    let domain: &str = "gmail";
    let username: &str = "john.doe@gmail.com";
    let password: &str = "Pass123";
    let nonce: Vec<u8> = Vec::from([0, 1, 2, 3, 4, 5, 6, 7, 8, 9, 10, 11]);
    let salt: Vec<u8> = Vec::from([0, 1, 2, 3, 4, 5, 6, 7, 8, 9, 10, 11, 12, 13, 14, 15]);

    let entry: Entry = Entry::new(domain, username, password, &nonce, &salt);

    let binary_data = entry.serialize();

    let should_be_of_size =
        domain.len() + username.len() + password.len() + nonce.len() + salt.len() + 3;

    assert_eq!(binary_data.len(), should_be_of_size);
}

#[test]
fn test_serialize_deserialize_indexentry() {
    let entry: IndexEntry = IndexEntry::new("gmail", 789);
    let binary_data = entry.serialize();
    let new_entry = IndexEntry::deserialize(&binary_data).unwrap();

    assert_eq!(entry.key, new_entry.key);
    assert_eq!(entry.value, new_entry.value);
    assert_eq!(new_entry.key, "gmail");
    assert_eq!(new_entry.value, 789);
}

#[test]
fn entry_test_equals() {
    let entry: IndexEntry = IndexEntry::new("gmail", 789);
    let entry_2: IndexEntry = IndexEntry::new("gmail", 789);

    assert_eq!(entry, entry_2);
}

#[test]
fn entry_test_not_equals() {
    let entry: IndexEntry = IndexEntry::new("gmail", 789);
    let entry_2: IndexEntry = IndexEntry::new("yahoo", 125);

    assert_ne!(entry, entry_2);
}

#[test]
fn test_serialization() {
    let entry: IndexEntry = IndexEntry::new("gmail", 789);
    let binary_data = entry.serialize();
    let new_entry = IndexEntry::deserialize(&binary_data).unwrap();

    assert_eq!(entry.key, new_entry.key);
    assert_eq!(entry.value, new_entry.value);
    assert_eq!(new_entry.key, "gmail");
    assert_eq!(new_entry.value, 789);
}

#[test]
fn mod_test_equals() {
    let entry: IndexEntry = IndexEntry::new("gmail", 789);
    let entry_2: IndexEntry = IndexEntry::new("gmail", 789);

    assert_eq!(entry, entry_2);
}

#[test]
fn mod_test_not_equals() {
    let entry: IndexEntry = IndexEntry::new("gmail", 789);
    let entry_2: IndexEntry = IndexEntry::new("yahoo", 125);

    assert_ne!(entry, entry_2);
}

#[test]
fn mod_test_serialize_deserialize_entry() {
    let nonce: Vec<u8> = Vec::from([0, 1, 2, 3, 4, 5, 6, 7, 8, 9, 10, 11]);
    let salt: Vec<u8> = Vec::from([0, 1, 2, 3, 4, 5, 6, 7, 8, 9, 10, 11, 12, 13, 14, 15]);
    let entry: Entry = Entry::new("gmail", "john.doe@gmail.com", "123", &nonce, &salt);

    let binary_data = entry.serialize();
    let new_entry = Entry::deserialize(&binary_data).unwrap();

    assert_eq!(entry.domain, new_entry.domain);
    assert_eq!(entry.username, new_entry.username);
    assert_eq!(entry.password, new_entry.password);
    assert_eq!(entry.nonce, new_entry.nonce);
    assert_eq!(entry.salt, new_entry.salt);
}

#[test]
fn mod_test_serialization_size() {
    let domain: &str = "gmail";
    let username: &str = "john.doe@gmail.com";
    let password: &str = "Pass123";
    let nonce: Vec<u8> = Vec::from([0, 1, 2, 3, 4, 5, 6, 7, 8, 9, 10, 11]);
    let salt: Vec<u8> = Vec::from([0, 1, 2, 3, 4, 5, 6, 7, 8, 9, 10, 11, 12, 13, 14, 15]);

    let entry: Entry = Entry::new(domain, username, password, &nonce, &salt);

    let binary_data = entry.serialize();

    let should_be_of_size =
        domain.len() + username.len() + password.len() + nonce.len() + salt.len() + 3;

    assert_eq!(binary_data.len(), should_be_of_size);
}

fn salt() -> Vec<u8> {
    (100u8..116).collect()
}

fn nonce() -> Vec<u8> {
    (200u8..212).collect()
}

#[test]
fn index_record_has_the_documented_bytes() {
    let bytes = IndexEntry::new("gmail", 789).serialize();
    let mut expected = vec![b'g', b'm', b'a', b'i', b'l'];
    expected.resize(32, 0);
    expected.extend_from_slice(&[0x15, 0x03, 0, 0, 0, 0, 0, 0]);
    assert_eq!(bytes, expected);
}

#[test]
fn index_record_offset_is_least_significant_byte_first() {
    let bytes = IndexEntry::new("", 0x0102_0304_0506_0708).serialize();
    assert_eq!(bytes.len(), 40);
    assert_eq!(&bytes[..32], &[0u8; 32]);
    assert_eq!(&bytes[32..], &[8, 7, 6, 5, 4, 3, 2, 1]);
}

#[test]
fn index_record_round_trips_at_the_boundaries() {
    let full = "abcdefghijklmnopqrstuvwxyz012345";
    assert_eq!(full.len(), 32);
    for key in ["", "a", full, "ünïcödé", "with space"] {
        for value in [0u64, 1, 789, u64::MAX] {
            let entry = IndexEntry::new(key, value);
            let bytes = entry.serialize();
            assert_eq!(bytes.len(), 40);
            let back = IndexEntry::deserialize(&bytes).unwrap();
            assert_eq!(back, entry);
        }
    }
}

#[test]
fn index_record_cuts_long_keys_to_32_bytes() {
    let long = "abcdefghijklmnopqrstuvwxyz0123456789";
    let bytes = IndexEntry::new(long, 5).serialize();
    assert_eq!(bytes.len(), 40);
    assert_eq!(&bytes[..32], &long.as_bytes()[..32]);
    let back = IndexEntry::deserialize(&bytes).unwrap();
    assert_eq!(back.key, &long[..32]);
    assert_eq!(back.value, 5);
}

#[test]
fn index_record_drops_trailing_zero_bytes_of_a_key() {
    let back = IndexEntry::deserialize(&IndexEntry::new("ab\0\0", 1).serialize()).unwrap();
    assert_eq!(back.key, "ab");
    let inner = IndexEntry::deserialize(&IndexEntry::new("a\0b", 1).serialize()).unwrap();
    assert_eq!(inner.key, "a\0b");
}

#[test]
fn index_record_needs_40_bytes() {
    let bytes = IndexEntry::new("gmail", 789).serialize();
    for n in [0usize, 1, 32, 39] {
        assert_eq!(
            IndexEntry::deserialize(&bytes[..n]).unwrap_err(),
            VaultError::Deserialization
        );
    }
}

#[test]
fn index_record_ignores_what_follows_it() {
    let mut bytes = IndexEntry::new("gmail", 789).serialize();
    bytes.extend_from_slice(&[9, 9, 9]);
    let back = IndexEntry::deserialize(&bytes).unwrap();
    assert_eq!(back, IndexEntry::new("gmail", 789));
}

#[test]
fn index_record_reads_invalid_utf8_lossily() {
    let mut bytes = vec![b'a', 0xff, b'b'];
    bytes.resize(40, 0);
    let back = IndexEntry::deserialize(&bytes).unwrap();
    assert_eq!(back.key, "a\u{fffd}b");
    assert_eq!(back.value, 0);
}

#[test]
fn index_record_cut_inside_a_character_reads_lossily() {
    let key = format!("{}é", "a".repeat(31));
    assert_eq!(key.len(), 33);
    let back = IndexEntry::deserialize(&IndexEntry::new(&key, 3).serialize()).unwrap();
    assert_eq!(back.key, format!("{}\u{fffd}", "a".repeat(31)));
}

#[test]
fn index_entry_copies_are_equal() {
    let entry = IndexEntry::new("gmail", 789);
    assert_eq!(entry.duplicate(), entry);
    assert_ne!(IndexEntry::new("gmail", 788), entry);
    assert_ne!(IndexEntry::new("gmai", 789), entry);
}

#[test]
fn log_record_has_the_documented_bytes() {
    let entry = Entry::new("ab", "", "xyz", &nonce(), &salt());
    let mut expected = salt();
    expected.extend(nonce());
    expected.extend_from_slice(&[2, b'a', b'b', 0, 3, b'x', b'y', b'z']);
    assert_eq!(entry.serialize(), expected);
}

#[test]
fn log_record_round_trips_at_the_boundaries() {
    let long = "x".repeat(255);
    for domain in ["", "gmail", long.as_str()] {
        for username in ["", "a@b.com", long.as_str()] {
            for password in ["", "pässwörd", long.as_str()] {
                let entry = Entry::new(domain, username, password, &nonce(), &salt());
                let bytes = entry.serialize();
                assert_eq!(
                    bytes.len(),
                    28 + 3 + domain.len() + username.len() + password.len()
                );
                let back = Entry::deserialize(&bytes).unwrap();
                assert_eq!(back.domain, domain);
                assert_eq!(back.username, username);
                assert_eq!(back.password, password);
                assert_eq!(back.nonce, nonce());
                assert_eq!(back.salt, salt());
            }
        }
    }
}

#[test]
fn log_record_keeps_trailing_zero_bytes_of_a_field() {
    let entry = Entry::new("a\0", "\0", "p\0\0", &nonce(), &salt());
    let back = Entry::deserialize(&entry.serialize()).unwrap();
    assert_eq!(back.domain, "a\0");
    assert_eq!(back.username, "\0");
    assert_eq!(back.password, "p\0\0");
}

#[test]
fn log_record_cuts_long_fields_to_255_bytes() {
    let long = "y".repeat(300);
    let entry = Entry::new(&long, "u", "p", &nonce(), &salt());
    let bytes = entry.serialize();
    assert_eq!(bytes.len(), 28 + 1 + 255 + 2 + 2);
    assert_eq!(bytes[28], 255);
    let back = Entry::deserialize(&bytes).unwrap();
    assert_eq!(back.domain, "y".repeat(255));
    assert_eq!(back.username, "u");
    assert_eq!(back.password, "p");
}

#[test]
fn log_record_that_ends_early_is_refused() {
    let bytes = Entry::new("gmail", "john", "secret", &nonce(), &salt()).serialize();
    for n in 0..bytes.len() {
        assert_eq!(
            Entry::deserialize(&bytes[..n]).unwrap_err(),
            VaultError::Deserialization
        );
    }
    assert!(Entry::deserialize(&bytes).is_ok());
}

#[test]
fn log_record_ignores_what_follows_it() {
    let mut bytes = Entry::new("gmail", "john", "secret", &nonce(), &salt()).serialize();
    bytes.extend_from_slice(&[1, 2, 3]);
    let back = Entry::deserialize(&bytes).unwrap();
    assert_eq!(back.password, "secret");
}

#[test]
fn log_record_reads_invalid_utf8_lossily() {
    let mut bytes = salt();
    bytes.extend(nonce());
    bytes.extend_from_slice(&[2, b'a', 0xff, 0, 0]);
    let back = Entry::deserialize(&bytes).unwrap();
    assert_eq!(back.domain, "a\u{fffd}");
}

#[test]
fn padded_text_is_read_without_its_padding() {
    let data = [b'x', b'a', b'b', 0, 0, b'y'];
    assert_eq!(deserialize_string(1, 5, &data).unwrap(), "ab");
    assert_eq!(deserialize_string(1, 3, &data).unwrap(), "ab");
    assert_eq!(deserialize_string(3, 5, &data).unwrap(), "");
    assert_eq!(deserialize_string(2, 2, &data).unwrap(), "");
    assert_eq!(deserialize_string(0, 6, &data).unwrap(), "xab\0\0y");
}

#[test]
fn padded_text_outside_the_data_is_refused() {
    let data = [b'a', b'b'];
    assert_eq!(deserialize_string(0, 3, &data).unwrap_err(), VaultError::Deserialization);
    assert_eq!(deserialize_string(2, 1, &data).unwrap_err(), VaultError::Deserialization);
    assert_eq!(deserialize_string(2, 2, &data).unwrap(), "");
}

#[test]
fn log_record_cut_inside_a_character_reads_lossily() {
    let domain = format!("{}é", "a".repeat(254));
    assert_eq!(domain.len(), 256);
    let entry = Entry::new(&domain, "u", "p", &nonce(), &salt());
    let bytes = entry.serialize();
    assert_eq!(bytes[28], 255);
    assert_eq!(bytes.len(), 28 + 256 + 2 + 2);
    let back = Entry::deserialize(&bytes).unwrap();
    assert_eq!(back.domain, format!("{}\u{fffd}", "a".repeat(254)));
    assert_eq!(back.username, "u");
}

#[test]
fn log_record_writes_salt_and_nonce_as_they_are() {
    let entry = Entry::new("d", "u", "p", &[1, 2], &[3]);
    assert_eq!(entry.serialize(), vec![3, 1, 2, 1, b'd', 1, b'u', 1, b'p']);
    assert_eq!(
        Entry::deserialize(&entry.serialize()).unwrap_err(),
        VaultError::Deserialization
    );
}
