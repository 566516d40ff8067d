//! The command line as data: which command was asked for, with which
//! arguments and flags.

use vstd::prelude::*;
use vstd::string::*;
use vstd::utf8::encode_utf8;
use rand::Rng;
use crate::crypto::{
    argon2id_key, decrypt, decryption, derivable, derive_key, encrypt, generate_salt, sealable,
};
use crate::datastructures::sorted_indexentry_set::{
    has_key, inserted, position_of, without, IndexSet,
};
use crate::engine::{offset_of, record_size_of, removable, store_entry};
use crate::entry::index_entry::{IndexEntry, IndexRecord};
use crate::entry::vault_entry::{
    find_record_end, lemma_record_moved, log_record_at, log_record_bytes, record_end, Entry,
};
use crate::entry::BinarySerialization;
use crate::errs::VaultError;
use crate::storage::vault::{compacted, vault_read, vault_remove};
use crate::text::same_text;

verus! {

/// What `parse_args` answers to a command line it does not understand.
pub const INVALID_COMMAND: &'static str = "Invalid command. Use 'help' to list the commands.";

/// A parsed command line.
///
/// `flags` pairs each flag with its value; `parse_args` keeps one pair for
/// each flag name, so the pairs stand for a map from names to values.
#[derive(Debug)]
pub struct Command {
    pub command: String,
    pub args: Vec<String>,
    pub flags: Vec<(String, String)>,
}

/// The texts of a sequence of strings.
pub open spec fn texts(s: Seq<String>) -> Seq<Seq<char>> {
    s.map_values(|x: String| x@)
}

/// The map that a sequence of (name, value) pairs stands for; where a name
/// occurs twice the later pair decides.
pub open spec fn flag_map(pairs: Seq<(String, String)>) -> Map<Seq<char>, Seq<char>>
    decreases pairs.len(),
{
    if pairs.len() == 0 {
        Map::empty()
    } else {
        flag_map(pairs.drop_last()).insert(pairs.last().0@, pairs.last().1@)
    }
}

/// No flag name occurs in two pairs.
pub open spec fn flag_names_unique(pairs: Seq<(String, String)>) -> bool {
    forall|i: int, j: int| 0 <= i < j < pairs.len() ==> pairs[i].0@ != pairs[j].0@
}

/// The words that name a command.
pub open spec fn is_command_name(word: Seq<char>) -> bool {
    ||| word == "--version"@
    ||| word == "help"@
    ||| word == "add"@
    ||| word == "get"@
    ||| word == "list"@
    ||| word == "gen"@
    ||| word == "remove"@
}

/// A word is a flag when it starts with a dash.
pub open spec fn is_flag(word: Seq<char>) -> bool {
    word.len() > 0 && word[0] == '-'
}

/// The positional arguments among `words[i..]`: every word that is neither a
/// flag nor the value that follows a flag, in order.
pub open spec fn positional_from(words: Seq<Seq<char>>, i: int) -> Seq<Seq<char>>
    decreases words.len() + 1 - i,
{
    if i < 0 || i >= words.len() {
        Seq::empty()
    } else if is_flag(words[i]) {
        positional_from(words, i + 2)
    } else {
        seq![words[i]] + positional_from(words, i + 1)
    }
}

/// The value of the flag at `words[i]`: the next word, or the empty text
/// where the flag is the last word.
pub open spec fn flag_value(words: Seq<Seq<char>>, i: int) -> Seq<char> {
    if i + 1 < words.len() {
        words[i + 1]
    } else {
        Seq::empty()
    }
}

/// The flags among `words[i..]` with their values; where a flag is given
/// twice its last value stands.
pub open spec fn flags_from(words: Seq<Seq<char>>, i: int) -> Map<Seq<char>, Seq<char>>
    decreases words.len() + 1 - i,
{
    if i < 0 || i >= words.len() {
        Map::empty()
    } else if is_flag(words[i]) {
        let later = flags_from(words, i + 2);
        if later.contains_key(words[i]) {
            later
        } else {
            later.insert(words[i], flag_value(words, i))
        }
    } else {
        flags_from(words, i + 1)
    }
}

impl Command {
    /// A command with no arguments and no flags.
    pub fn new(command: &str) -> (c: Command)
        ensures
            c.command@ == command@,
            c.args@.len() == 0,
            c.flags@.len() == 0,
    {
        Command { command: command.to_owned(), args: Vec::new(), flags: Vec::new() }
    }

    /// The value given for the flag `name`, if the flag was given.
    pub fn flag(&self, name: &str) -> (r: Option<&String>)
        ensures
            match r {
                Some(value) => flag_map(self.flags@).contains_key(name@) && value@ == flag_map(
                    self.flags@,
                )[name@],
                None => !flag_map(self.flags@).contains_key(name@),
            },
    {
        let mut i: usize = self.flags.len();
        proof {
            assert(self.flags@.take(i as int) =~= self.flags@);
        }
        while i > 0
            invariant
                i <= self.flags@.len(),
                flag_map(self.flags@).contains_key(name@) == flag_map(
                    self.flags@.take(i as int),
                ).contains_key(name@),
                flag_map(self.flags@).contains_key(name@) ==> flag_map(self.flags@)[name@]
                    == flag_map(self.flags@.take(i as int))[name@],
            decreases i,
        {
            proof {
                assert(self.flags@.take(i as int).drop_last() =~= self.flags@.take(i - 1));
            }
            i = i - 1;
            if same_text(self.flags[i].0.as_str(), name) {
                return Some(&self.flags[i].1);
            }
        }
        None
    }
}

/// Taking out a pair and then setting its name gives the same map as setting
/// the name at once.
proof fn lemma_flag_map_remove(pairs: Seq<(String, String)>, j: int, value: Seq<char>)
    requires
        0 <= j < pairs.len(),
    ensures
        flag_map(pairs.remove(j)).insert(pairs[j].0@, value) == flag_map(pairs).insert(
            pairs[j].0@,
            value,
        ),
    decreases pairs.len(),
{
    let name = pairs[j].0@;
    if j == pairs.len() - 1 {
        assert(pairs.remove(j) =~= pairs.drop_last());
        assert(flag_map(pairs.remove(j)).insert(name, value) =~= flag_map(pairs).insert(
            name,
            value,
        ));
    } else {
        let front = pairs.drop_last();
        assert(pairs.remove(j).drop_last() =~= front.remove(j));
        assert(pairs.remove(j).last() == pairs.last());
        lemma_flag_map_remove(front, j, value);
        let a = flag_map(front.remove(j));
        let b = flag_map(front);
        let last_name = pairs.last().0@;
        let last_value = pairs.last().1@;
        let with_a = a.insert(name, value);
        let with_b = b.insert(name, value);
        assert(with_a == with_b);
        let left = a.insert(last_name, last_value).insert(name, value);
        let right = b.insert(last_name, last_value).insert(name, value);
        assert forall|k: Seq<char>| #[trigger]
            left.contains_key(k) == right.contains_key(k) && (left.contains_key(k) ==> left[k]
                == right[k]) by {
            if k != name && k != last_name {
                assert(with_a.contains_key(k) == a.contains_key(k));
                assert(with_b.contains_key(k) == b.contains_key(k));
                assert(left.contains_key(k) == a.contains_key(k));
                assert(right.contains_key(k) == b.contains_key(k));
                if a.contains_key(k) {
                    assert(with_a[k] == a[k]);
                    assert(with_b[k] == b[k]);
                    assert(left[k] == a[k]);
                    assert(right[k] == b[k]);
                }
            }
        }
        assert(left =~= right);
        assert(flag_map(pairs.remove(j)) == a.insert(last_name, last_value));
        assert(flag_map(pairs) == b.insert(last_name, last_value));
    }
}

/// Sets the flag `name` to `value`, in place of any value it had.
fn set_flag(flags: &mut Vec<(String, String)>, name: String, value: String)
    requires
        flag_names_unique(old(flags)@),
    ensures
        flag_names_unique(final(flags)@),
        flag_map(final(flags)@) == flag_map(old(flags)@).insert(name@, value@),
{
    let mut i: usize = 0;
    while i < flags.len()
        invariant
            i <= flags@.len(),
            flags@ == old(flags)@,
            flag_names_unique(flags@),
            forall|k: int| 0 <= k < i ==> flags@[k].0@ != name@,
        decreases flags@.len() - i,
    {
        if same_text(flags[i].0.as_str(), name.as_str()) {
            proof {
                lemma_flag_map_remove(flags@, i as int, value@);
            }
            let ghost before = flags@;
            let _ = flags.remove(i);
            flags.push((name, value));
            proof {
                assert(flags@.drop_last() =~= before.remove(i as int));
            }
            return ;
        }
        i = i + 1;
    }
    let ghost before = flags@;
    flags.push((name, value));
    proof {
        assert(flags@.drop_last() =~= before);
    }
}

/// Decides whether a word names a command.
fn names_command(word: &str) -> (r: bool)
    ensures
        r == is_command_name(word@),
{
    same_text(word, "--version") || same_text(word, "help") || same_text(word, "add")
        || same_text(word, "get") || same_text(word, "list") || same_text(word, "gen")
        || same_text(word, "remove")
}

/// Decides whether a word is a flag.
fn starts_with_dash(word: &str) -> (r: bool)
    ensures
        r == is_flag(word@),
{
    let n: usize = word.unicode_len();
    n > 0 && word.get_char(0) == '-'
}

/// Reads a command line: the program's name, the command, then arguments
/// and flags in any order. A word that starts with a dash is a flag, and the
/// word after it (or the empty text, at the end of the line) is its value.
///
/// Fails when the command is missing or is not one of the known commands.
pub fn parse_args(args: &[String]) -> (r: Result<Command, String>)
    ensures
        match r {
            Ok(c) => {
                &&& args@.len() >= 2
                &&& is_command_name(args@[1]@)
                &&& c.command@ == args@[1]@
                &&& texts(c.args@) == positional_from(texts(args@), 2)
                &&& flag_names_unique(c.flags@)
                &&& flag_map(c.flags@) == flags_from(texts(args@), 2)
            },
            Err(message) => {
                &&& args@.len() < 2 || !is_command_name(args@[1]@)
                &&& message@ == INVALID_COMMAND@
            },
        },
{
    if args.len() < 2 {
        return Err(INVALID_COMMAND.to_owned());
    }
    let command = &args[1];
    if !names_command(command.as_str()) {
        return Err(INVALID_COMMAND.to_owned());
    }
    let mut comm = Command::new(command.as_str());
    let len: usize = args.len();
    let mut index: usize = 2;
    let ghost words = texts(args@);
    proof {
        assert(texts(comm.args@) =~= Seq::<Seq<char>>::empty());
        assert(texts(comm.args@) + positional_from(words, 2) =~= positional_from(words, 2));
        assert(flag_map(comm.flags@).union_prefer_right(flags_from(words, 2)) =~= flags_from(
            words,
            2,
        ));
    }
    while index < len
        invariant
            2 <= index <= len,
            len == args@.len(),
            words == texts(args@),
            comm.command@ == args@[1]@,
            flag_names_unique(comm.flags@),
            positional_from(words, 2) == texts(comm.args@) + positional_from(words, index as int),
            flags_from(words, 2) == flag_map(comm.flags@).union_prefer_right(
                flags_from(words, index as int),
            ),
        decreases len - index,
    {
        let current = &args[index];
        let ghost seen = texts(comm.args@);
        let ghost known = flag_map(comm.flags@);
        assert(words[index as int] == current@);
        if starts_with_dash(current.as_str()) {
            let last: bool = len - index == 1;
            let value = if last {
                String::new()
            } else {
                args[index + 1].clone()
            };
            proof {
                assert(value@ == flag_value(words, index as int));
                let later = flags_from(words, index + 2);
                assert(known.insert(current@, value@).union_prefer_right(later)
                    =~= known.union_prefer_right(flags_from(words, index as int)));
            }
            set_flag(&mut comm.flags, current.clone(), value);
            if last {
                proof {
                    assert(flags_from(words, index + 2) =~= flags_from(words, len as int));
                    assert(positional_from(words, index + 2) =~= positional_from(
                        words,
                        len as int,
                    ));
                }
                index = len;
            } else {
                index = index + 2;
            }
        } else {
            comm.args.push(current.clone());
            proof {
                assert(texts(comm.args@) =~= seen.push(current@));
                assert(seen.push(current@) + positional_from(words, index + 1) =~= seen + (
                seq![current@] + positional_from(words, index + 1)));
            }
            index = index + 1;
        }
    }
    proof {
        assert(texts(comm.args@) + positional_from(words, len as int) =~= texts(comm.args@));
        assert(flag_map(comm.flags@).union_prefer_right(flags_from(words, len as int))
            =~= flag_map(comm.flags@));
    }
    Ok(comm)
}

/// Adds a credential to the vault: seals the password under a key derived
/// from the master password and a fresh salt, and stores the entry.
///
/// Fails, and changes nothing, with `DuplicateKey` when the domain is
/// already in the index, and otherwise with `Crypto` when the master
/// password is longer than 2^32 - 1 bytes or the password longer than 2^36
/// bytes. On success returns the stored entry and its offset in the log.
pub fn command_add(
    index: &mut IndexSet,
    log: &mut Vec<u8>,
    domain: &str,
    username: &str,
    master_password: &str,
    password: &str,
) -> (r: Result<(Entry, u64), VaultError>)
    requires
        old(index).well_formed(),
    ensures
        final(index).well_formed(),
        match r {
            Ok((entry, offset)) => {
                &&& !has_key(old(index)@, domain@)
                &&& derivable(master_password@, entry.salt@)
                &&& sealable(encode_utf8(password@))
                &&& entry.domain@ == domain@
                &&& entry.username@ == username@
                &&& entry.salt@.len() == 16
                &&& entry.nonce@.len() == 12
                &&& decryption(
                    argon2id_key(encode_utf8(master_password@), entry.salt@),
                    entry.nonce@,
                    entry.password@,
                ) == Some(password@)
                &&& offset == old(log)@.len()
                &&& final(log)@ == old(log)@ + log_record_bytes(entry@)
                &&& final(index)@ == inserted(old(index)@, IndexRecord { key: domain@, offset })
            },
            Err(e) => {
                &&& final(index)@ == old(index)@
                &&& final(log)@ == old(log)@
                &&& if has_key(old(index)@, domain@) {
                    e == VaultError::DuplicateKey
                } else {
                    &&& e == VaultError::Crypto
                    &&& encode_utf8(master_password@).len() > 0xFFFF_FFFF || !sealable(
                        encode_utf8(password@),
                    )
                }
            },
        },
{
    if index.has(domain) {
        return Err(VaultError::DuplicateKey);
    }
    let salt = generate_salt();
    let key = match derive_key(master_password, salt.as_slice()) {
        Ok(key) => key,
        Err(e) => {
            return Err(e);
        },
    };
    let (cipher, nonce) = match encrypt(&key, password) {
        Ok(sealed) => sealed,
        Err(e) => {
            return Err(e);
        },
    };
    let entry = Entry::new(domain, username, cipher.as_str(), nonce.as_slice(), salt.as_slice());
    match store_entry(index, log, &entry) {
        Ok(offset) => Ok((entry, offset)),
        Err(e) => Err(e),
    }
}

/// Looks a domain up in the index and reads its record from the log.
///
/// Fails with `NotFound` when the domain is not in the index, and with
/// `Deserialization` when it is but no complete record stands at its
/// offset.
pub fn command_get(index: &IndexSet, log: &[u8], domain: &str) -> (r: Result<Entry, VaultError>)
    ensures
        match r {
            Ok(entry) => {
                &&& has_key(index@, domain@)
                &&& log_record_at(log@, offset_of(index@, domain@) as int) == Some(entry@)
            },
            Err(e) => if has_key(index@, domain@) {
                &&& record_end(log@, offset_of(index@, domain@) as int) is None
                &&& e == VaultError::Deserialization
            } else {
                e == VaultError::NotFound
            },
        },
{
    let offset: u64 = match index.find(domain) {
        Some((_, found)) => found.value,
        None => {
            return Err(VaultError::NotFound);
        },
    };
    let bytes = match vault_read(log, offset) {
        Ok(bytes) => bytes,
        Err(e) => {
            return Err(e);
        },
    };
    proof {
        assert(bytes@.subrange(0, bytes@.len() as int) =~= bytes@);
        lemma_record_moved(log@, offset as int, bytes@, 0);
    }
    Entry::deserialize(bytes.as_slice())
}

/// Recovers the password of an entry with the master password.
///
/// Fails with `Crypto` when no key can be derived from the master password
/// and the entry's salt, or the stored password does not open under that
/// key: the master password is wrong, or the entry was tampered with.
pub fn unlock_entry(entry: &Entry, master_password: &str) -> (r: Result<String, VaultError>)
    ensures
        match r {
            Ok(password) => {
                &&& derivable(master_password@, entry.salt@)
                &&& decryption(
                    argon2id_key(encode_utf8(master_password@), entry.salt@),
                    entry.nonce@,
                    entry.password@,
                ) == Some(password@)
            },
            Err(e) => {
                &&& e == VaultError::Crypto
                &&& derivable(master_password@, entry.salt@) ==> decryption(
                    argon2id_key(encode_utf8(master_password@), entry.salt@),
                    entry.nonce@,
                    entry.password@,
                ) is None
            },
        },
{
    let key = match derive_key(master_password, entry.salt.as_slice()) {
        Ok(key) => key,
        Err(e) => {
            return Err(e);
        },
    };
    decrypt(key.as_slice(), entry.nonce.as_slice(), entry.password.as_str())
}

/// Removes a domain from the vault: takes its record out of the log,
/// closing the gap, and takes its entry out of the index, lowering by the
/// size of the record the offset of every entry that stood later in the
/// log. Returns the removed entry.
///
/// Fails, and changes nothing, with `NotFound` when the domain is not in
/// the index, and with `Deserialization` when it is but index and log do
/// not fit together: no complete record stands at its offset, or an entry
/// that stands later cannot move down.
pub fn command_remove(index: &mut IndexSet, log: &mut Vec<u8>, domain: &str) -> (r: Result<
    IndexEntry,
    VaultError,
>)
    requires
        old(index).well_formed(),
    ensures
        final(index).well_formed(),
        match r {
            Ok(removed) => {
                &&& removable(old(index)@, old(log)@, domain@)
                &&& removed@ == old(index)@[position_of(old(index)@, domain@)]
                &&& final(log)@ == compacted(
                    old(log)@,
                    removed.value as int,
                    record_size_of(old(index)@, old(log)@, domain@),
                )
                &&& final(index)@ == without(
                    old(index)@,
                    domain@,
                    record_size_of(old(index)@, old(log)@, domain@) as u64,
                )
            },
            Err(e) => {
                &&& !removable(old(index)@, old(log)@, domain@)
                &&& final(index)@ == old(index)@
                &&& final(log)@ == old(log)@
                &&& if has_key(old(index)@, domain@) {
                    e == VaultError::Deserialization
                } else {
                    e == VaultError::NotFound
                }
            },
        },
{
    let offset: u64 = match index.find(domain) {
        Some((_, found)) => found.value,
        None => {
            return Err(VaultError::NotFound);
        },
    };
    if offset > log.len() as u64 {
        return Err(VaultError::Deserialization);
    }
    let start: usize = offset as usize;
    let end: usize = match find_record_end(log.as_slice(), start) {
        Some(end) => end,
        None => {
            return Err(VaultError::Deserialization);
        },
    };
    let size: u64 = (end - start) as u64;
    if !index.can_remove(domain, size) {
        return Err(VaultError::Deserialization);
    }
    let removed_size: u64 = match vault_remove(log, offset) {
        Ok(removed_size) => removed_size,
        Err(e) => {
            return Err(e);
        },
    };
    match index.remove(domain, removed_size) {
        Some(removed) => Ok(removed),
        None => Err(VaultError::NotFound),
    }
}

/// The domains of the vault, in the order of the index.
pub fn command_list(index: &IndexSet) -> (domains: Vec<String>)
    ensures
        texts(domains@) == index@.map_values(|record: IndexRecord| record.key),
{
    let mut domains: Vec<String> = Vec::new();
    let mut i: usize = 0;
    while i < index.data.len()
        invariant
            i <= index.data@.len(),
            domains@.len() == i,
            forall|k: int| 0 <= k < i ==> (#[trigger] domains@[k])@ == index@[k].key,
        decreases index.data@.len() - i,
    {
        domains.push(index.data[i].key.clone());
        i = i + 1;
    }
    proof {
        assert(texts(domains@) =~= index@.map_values(|record: IndexRecord| record.key));
    }
    domains
}

/// The lowest character code of a generated password.
pub const PASSWORD_CHAR_MIN: u8 = 33;

/// The highest character code of a generated password.
pub const PASSWORD_CHAR_MAX: u8 = 122;

/// Calls `Rng::gen_range` of `rand` on an inclusive range. Trusted: the
/// number lies in the range; nothing else is known of it.
#[verifier::external_body]
fn random_in_range(low: u8, high: u8) -> (n: u8)
    requires
        low <= high,
    ensures
        low <= n <= high,
{
    rand::thread_rng().gen_range(low..=high)
}

/// Calls `String::from_iter` on characters. Trusted: the text is made of
/// those characters, in their order.
#[verifier::external_body]
fn string_of_chars(chars: &Vec<char>) -> (s: String)
    ensures
        s@ == chars@,
{
    String::from_iter(chars.iter())
}

/// A random password of `len` characters, each with a code from 33 to 122.
pub fn command_generate(len: u8) -> (password: String)
    ensures
        password@.len() == len,
        forall|i: int|
            0 <= i < password@.len() ==> PASSWORD_CHAR_MIN <= (#[trigger] password@[i]) as u32
                <= PASSWORD_CHAR_MAX,
{
    let mut chars: Vec<char> = Vec::new();
    let mut i: u8 = 0;
    while i < len
        invariant
            i <= len,
            chars@.len() == i,
            forall|k: int|
                0 <= k < chars@.len() ==> PASSWORD_CHAR_MIN <= (#[trigger] chars@[k]) as u32
                    <= PASSWORD_CHAR_MAX,
        decreases len - i,
    {
        let code: u8 = random_in_range(PASSWORD_CHAR_MIN, PASSWORD_CHAR_MAX);
        chars.push(code as char);
        i = i + 1;
    }
    string_of_chars(&chars)
}

} // verus!
