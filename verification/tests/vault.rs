use dome::command::{command_add, command_get, command_list, command_remove, unlock_entry};
use dome::engine::store_entry;
use dome::datastructures::sorted_indexentry_set::IndexSet;
use dome::entry::index_entry::IndexEntry;
use dome::entry::vault_entry::{append_bytes, find_record_end, Entry};
use dome::entry::BinarySerialization;
use dome::errs::VaultError;
use dome::storage::vault::{vault_add, vault_len, vault_read, vault_remove};

fn record(domain: &str, username: &str, password: &str) -> Vec<u8> {
    let salt: Vec<u8> = (0u8..16).collect();
    let nonce: Vec<u8> = (16u8..28).collect();
    Entry::new(domain, username, password, &nonce, &salt).serialize()
}

fn entry_for(domain: &str, username: &str, password: &str) -> Entry {
    let salt: Vec<u8> = (0u8..16).collect();
    let nonce: Vec<u8> = (16u8..28).collect();
    Entry::new(domain, username, password, &nonce, &salt)
}

#[test]
fn the_log_length_is_the_next_offset() {
    let mut log: Vec<u8> = Vec::new();
    assert_eq!(vault_len(&log), 0);
    let first = record("gmail", "john", "secret");
    assert_eq!(vault_add(&mut log, &first), 0);
    assert_eq!(vault_len(&log), first.len() as u64);
    let second = record("yahoo", "", "x");
    assert_eq!(vault_add(&mut log, &second), first.len() as u64);
    assert_eq!(vault_len(&log), (first.len() + second.len()) as u64);
    assert_eq!(log, [first, second].concat());
}

#[test]
fn bytes_are_appended_in_order() {
    let mut out = vec![1u8, 2];
    append_bytes(&mut out, &[3, 4, 5]);
    append_bytes(&mut out, &[]);
    assert_eq!(out, vec![1, 2, 3, 4, 5]);
}

#[test]
fn a_record_is_read_at_its_offset() {
    let first = record("gmail", "john", "secret");
    let second = record("yahoo", "", "x");
    let third = record("", "", "");
    let log = [first.clone(), second.clone(), third.clone()].concat();
    assert_eq!(vault_read(&log, 0).unwrap(), first);
    assert_eq!(vault_read(&log, first.len() as u64).unwrap(), second);
    assert_eq!(vault_read(&log, (first.len() + second.len()) as u64).unwrap(), third);
    assert_eq!(third.len(), 31);
    assert_eq!(find_record_end(&log, 0), Some(first.len()));
    assert_eq!(find_record_end(&log, first.len()), Some(first.len() + second.len()));
}

#[test]
fn reading_past_the_log_is_refused() {
    let log = record("gmail", "john", "secret");
    let len = log.len() as u64;
    assert_eq!(vault_read(&log, len).unwrap_err(), VaultError::Deserialization);
    assert_eq!(vault_read(&log, len + 1).unwrap_err(), VaultError::Deserialization);
    assert_eq!(vault_read(&log, u64::MAX).unwrap_err(), VaultError::Deserialization);
    assert_eq!(vault_read(&[], 0).unwrap_err(), VaultError::Deserialization);
    assert_eq!(find_record_end(&log, log.len()), None);
    assert_eq!(find_record_end(&log, usize::MAX), None);
}

#[test]
fn reading_a_cut_record_is_refused() {
    let log = record("gmail", "john", "secret");
    for n in 0..log.len() {
        assert_eq!(vault_read(&log[..n], 0).unwrap_err(), VaultError::Deserialization);
    }
    assert_eq!(vault_read(&log, 1).unwrap_err(), VaultError::Deserialization);
}

#[test]
fn removing_a_record_closes_the_gap() {
    let first = record("gmail", "john", "secret");
    let second = record("yahoo", "someone", "x");
    let third = record("adobe", "", "long password");
    let mut log = [first.clone(), second.clone(), third.clone()].concat();
    let before = log.len();

    assert_eq!(vault_remove(&mut log, first.len() as u64), Ok(second.len() as u64));
    assert_eq!(log.len(), before - second.len());
    assert_eq!(log, [first.clone(), third.clone()].concat());
    assert_eq!(vault_read(&log, 0).unwrap(), first);
    assert_eq!(vault_read(&log, first.len() as u64).unwrap(), third);

    assert_eq!(vault_remove(&mut log, 0), Ok(first.len() as u64));
    assert_eq!(log, third);
    assert_eq!(vault_remove(&mut log, 0), Ok(third.len() as u64));
    assert!(log.is_empty());
}

#[test]
fn removing_where_no_record_stands_changes_nothing() {
    let first = record("gmail", "john", "secret");
    let mut log = first.clone();
    log.extend_from_slice(&first[..40]);
    let before = log.clone();
    assert_eq!(vault_remove(&mut log, first.len() as u64), Err(VaultError::Deserialization));
    assert_eq!(vault_remove(&mut log, before.len() as u64), Err(VaultError::Deserialization));
    assert_eq!(vault_remove(&mut log, u64::MAX), Err(VaultError::Deserialization));
    assert_eq!(log, before);
}

#[test]
fn storing_appends_and_indexes() {
    let mut index = IndexSet::new();
    let mut log: Vec<u8> = Vec::new();
    let gmail = entry_for("gmail", "john", "secret");
    let adobe = entry_for("adobe", "", "x");
    assert_eq!(store_entry(&mut index, &mut log, &gmail), Ok(0));
    let first_len = gmail.serialize().len() as u64;
    assert_eq!(store_entry(&mut index, &mut log, &adobe), Ok(first_len));
    assert_eq!(index.data, vec![IndexEntry::new("adobe", first_len), IndexEntry::new("gmail", 0)]);
    assert_eq!(log, [gmail.serialize(), adobe.serialize()].concat());
}

#[test]
fn storing_a_known_domain_is_refused() {
    let mut index = IndexSet::new();
    let mut log: Vec<u8> = Vec::new();
    store_entry(&mut index, &mut log, &entry_for("gmail", "john", "secret")).unwrap();
    let index_before = index.serialize();
    let log_before = log.clone();
    assert_eq!(
        store_entry(&mut index, &mut log, &entry_for("gmail", "other", "other")),
        Err(VaultError::DuplicateKey)
    );
    assert_eq!(index.serialize(), index_before);
    assert_eq!(log, log_before);
}

#[test]
fn adding_then_getting_gives_the_credential_back() {
    let mut index = IndexSet::new();
    let mut log: Vec<u8> = Vec::new();
    let (stored, offset) =
        command_add(&mut index, &mut log, "gmail", "a@b.com", "master", "pass word").unwrap();
    assert_eq!(offset, 0);
    assert_eq!(stored.domain, "gmail");
    assert_eq!(stored.salt.len(), 16);
    assert_eq!(stored.nonce.len(), 12);
    assert_ne!(stored.password, "pass word");
    assert_eq!(log, stored.serialize());
    assert_eq!(index.data, vec![IndexEntry::new("gmail", 0)]);

    let found = command_get(&index, &log, "gmail").unwrap();
    assert_eq!(found.domain, "gmail");
    assert_eq!(found.username, "a@b.com");
    assert_eq!(found.password, stored.password);
    assert_eq!(found.salt, stored.salt);
    assert_eq!(found.nonce, stored.nonce);
    assert_eq!(unlock_entry(&found, "master").unwrap(), "pass word");
}

#[test]
fn a_wrong_master_password_is_a_crypto_error() {
    let mut index = IndexSet::new();
    let mut log: Vec<u8> = Vec::new();
    command_add(&mut index, &mut log, "gmail", "a@b.com", "master", "password").unwrap();
    let found = command_get(&index, &log, "gmail").unwrap();
    assert_eq!(unlock_entry(&found, "Master").unwrap_err(), VaultError::Crypto);
    assert_eq!(unlock_entry(&found, "").unwrap_err(), VaultError::Crypto);
    assert_eq!(unlock_entry(&found, "master").unwrap(), "password");
}

#[test]
fn an_entry_with_a_short_salt_does_not_unlock() {
    let entry = Entry::new("gmail", "", "Uw+K+8dFNrmpY7TxxMtziw", &[0u8; 12], &[0u8; 7]);
    assert_eq!(unlock_entry(&entry, "master").unwrap_err(), VaultError::Crypto);
}

#[test]
fn adding_a_known_domain_is_refused() {
    let mut index = IndexSet::new();
    let mut log: Vec<u8> = Vec::new();
    command_add(&mut index, &mut log, "gmail", "a@b.com", "master", "password").unwrap();
    let index_before = index.serialize();
    let log_before = log.clone();
    let refused = command_add(&mut index, &mut log, "gmail", "x", "master", "other");
    assert_eq!(refused.unwrap_err(), VaultError::DuplicateKey);
    assert_eq!(index.serialize(), index_before);
    assert_eq!(log, log_before);
}

#[test]
fn getting_an_unknown_domain_is_not_found() {
    let mut index = IndexSet::new();
    let mut log: Vec<u8> = Vec::new();
    assert_eq!(command_get(&index, &log, "gmail").unwrap_err(), VaultError::NotFound);
    store_entry(&mut index, &mut log, &entry_for("gmail", "john", "secret")).unwrap();
    assert_eq!(command_get(&index, &log, "yahoo").unwrap_err(), VaultError::NotFound);
    assert_eq!(command_get(&index, &log, "gmail").unwrap().username, "john");
}

#[test]
fn getting_from_a_cut_log_is_a_deserialization_error() {
    let mut index = IndexSet::new();
    let mut log: Vec<u8> = Vec::new();
    store_entry(&mut index, &mut log, &entry_for("gmail", "john", "secret")).unwrap();
    log.pop();
    assert_eq!(command_get(&index, &log, "gmail").unwrap_err(), VaultError::Deserialization);
    assert_eq!(command_get(&index, &[], "gmail").unwrap_err(), VaultError::Deserialization);
}

#[test]
fn removing_keeps_every_other_record_readable() {
    let mut index = IndexSet::new();
    let mut log: Vec<u8> = Vec::new();
    let entries = [
        entry_for("gmail", "john", "secret"),
        entry_for("facebook", "jane", "a much longer password than the others"),
        entry_for("adobe", "", "x"),
        entry_for("google", "someone@example.com", "pw"),
    ];
    for entry in &entries {
        store_entry(&mut index, &mut log, entry).unwrap();
    }
    let before = log.len();
    let size = entries[1].serialize().len();
    let offset = entries[0].serialize().len() as u64;

    let removed = command_remove(&mut index, &mut log, "facebook").unwrap();
    assert_eq!(removed, IndexEntry::new("facebook", offset));
    assert_eq!(log.len(), before - size);
    assert!(!index.has("facebook"));
    assert_eq!(index.size, 3);

    for kept in [&entries[0], &entries[2], &entries[3]] {
        let (_, found) = index.find(&kept.domain).unwrap();
        assert_eq!(vault_read(&log, found.value).unwrap(), kept.serialize());
        let read = command_get(&index, &log, &kept.domain).unwrap();
        assert_eq!(read.username, kept.username);
        assert_eq!(read.password, kept.password);
    }
    assert_eq!(index.find("gmail").unwrap().1.value, 0);
    assert_eq!(index.find("adobe").unwrap().1.value, offset);
    assert_eq!(
        index.find("google").unwrap().1.value,
        offset + entries[2].serialize().len() as u64
    );
}

#[test]
fn removing_everything_empties_both() {
    let mut index = IndexSet::new();
    let mut log: Vec<u8> = Vec::new();
    for domain in ["c", "a", "b"] {
        store_entry(&mut index, &mut log, &entry_for(domain, domain, domain)).unwrap();
    }
    for domain in ["a", "c", "b"] {
        command_remove(&mut index, &mut log, domain).unwrap();
    }
    assert!(index.is_empty());
    assert!(log.is_empty());
}

#[test]
fn removing_an_unknown_domain_is_not_found() {
    let mut index = IndexSet::new();
    let mut log: Vec<u8> = Vec::new();
    store_entry(&mut index, &mut log, &entry_for("gmail", "john", "secret")).unwrap();
    let index_before = index.serialize();
    let log_before = log.clone();
    assert_eq!(command_remove(&mut index, &mut log, "yahoo").unwrap_err(), VaultError::NotFound);
    assert_eq!(index.serialize(), index_before);
    assert_eq!(log, log_before);
}

#[test]
fn removing_with_a_mismatched_index_changes_nothing() {
    let mut log: Vec<u8> = Vec::new();
    let mut scratch = IndexSet::new();
    store_entry(&mut scratch, &mut log, &entry_for("gmail", "john", "secret")).unwrap();

    let mut beyond = IndexSet::new();
    beyond.add(&IndexEntry::new("gmail", log.len() as u64 + 5));
    let log_before = log.clone();
    assert_eq!(command_remove(&mut beyond, &mut log, "gmail").unwrap_err(), VaultError::Deserialization);
    assert_eq!(beyond.data, vec![IndexEntry::new("gmail", log_before.len() as u64 + 5)]);
    assert_eq!(log, log_before);

    let mut overlapping = IndexSet::new();
    overlapping.add(&IndexEntry::new("gmail", 0));
    overlapping.add(&IndexEntry::new("other", 1));
    let index_before = overlapping.serialize();
    assert_eq!(
        command_remove(&mut overlapping, &mut log, "gmail").unwrap_err(),
        VaultError::Deserialization
    );
    assert_eq!(overlapping.serialize(), index_before);
    assert_eq!(log, log_before);
}

#[test]
fn domains_are_listed_in_sorted_order() {
    let mut index = IndexSet::new();
    assert_eq!(command_list(&index), Vec::<String>::new());
    for (key, value) in [("gmail", 0u64), ("yahoo", 60), ("facebook", 50), ("adobe", 90)] {
        index.add(&IndexEntry::new(key, value));
    }
    assert_eq!(command_list(&index), vec!["adobe", "facebook", "gmail", "yahoo"]);
}
