//! The log record: one encrypted credential.
//!
//! On disk a record is the salt, the nonce, and then the domain, the user
//! name and the password, each as one length byte followed by that many
//! bytes. Records follow one another with nothing in between.

use vstd::prelude::*;
use vstd::utf8::encode_utf8;
use crate::entry::BinarySerialization;
use crate::errs::VaultError;
use crate::text::{text_from_bytes, text_of};

verus! {

/// Length in bytes of the salt of a record.
pub const SALT_LENGTH: usize = 16;

/// Length in bytes of the nonce of a record.
pub const NONCE_LENGTH: usize = 12;

/// Length in bytes of the salt and the nonce together.
pub const HEADER_LENGTH: usize = 28;

/// The greatest number of bytes that a text field holds.
pub const FIELD_LIMIT: usize = 255;

/// An entry of the vault.
///
/// The fields are written as they are: a record can be found again among
/// its neighbours in the log only if the salt has 16 and the nonce 12
/// bytes, and it is read back as written only if, besides, none of its
/// texts is longer than 255 bytes. A longer text is cut after 255 bytes.
#[derive(Debug)]
pub struct Entry {
    pub domain: String,
    pub username: String,
    pub password: String,
    pub nonce: Vec<u8>,
    pub salt: Vec<u8>,
}

/// What an entry stands for.
pub struct LogRecord {
    pub salt: Seq<u8>,
    pub nonce: Seq<u8>,
    pub domain: Seq<char>,
    pub username: Seq<char>,
    pub password: Seq<char>,
}

impl View for Entry {
    type V = LogRecord;

    open spec fn view(&self) -> LogRecord {
        LogRecord {
            salt: self.salt@,
            nonce: self.nonce@,
            domain: self.domain@,
            username: self.username@,
            password: self.password@,
        }
    }
}

/// The bytes of one text field: the number of bytes kept, which is at most
/// 255, and then those bytes.
pub open spec fn field_bytes(text: Seq<char>) -> Seq<u8> {
    let bytes = encode_utf8(text);
    let kept = if bytes.len() <= 255 {
        bytes.len() as int
    } else {
        255
    };
    seq![kept as u8] + bytes.take(kept)
}

/// The bytes of a log record.
pub open spec fn log_record_bytes(record: LogRecord) -> Seq<u8> {
    record.salt + record.nonce + field_bytes(record.domain) + field_bytes(record.username)
        + field_bytes(record.password)
}

/// Where the field that starts at `at` ends, if all of it lies in `data`.
pub open spec fn field_end(data: Seq<u8>, at: int) -> Option<int> {
    if 0 <= at < data.len() && at + 1 + data[at] <= data.len() {
        Some(at + 1 + data[at])
    } else {
        None
    }
}

/// Where the record that starts at `start` ends, if all of it lies in
/// `data`: after the 28 header bytes and the three fields.
pub open spec fn record_end(data: Seq<u8>, start: int) -> Option<int> {
    if start < 0 || start + 28 > data.len() {
        None
    } else {
        match field_end(data, start + 28) {
            None => None,
            Some(after_domain) => match field_end(data, after_domain) {
                None => None,
                Some(after_username) => field_end(data, after_username),
            },
        }
    }
}

/// The text of the field that starts at `at`.
pub open spec fn field_text(data: Seq<u8>, at: int) -> Seq<char> {
    text_of(data.subrange(at + 1, at + 1 + data[at]))
}

/// The record that starts at `start`, if all of it lies in `data`.
pub open spec fn log_record_at(data: Seq<u8>, start: int) -> Option<LogRecord> {
    if record_end(data, start) is None {
        None
    } else {
        let domain_at = start + 28;
        let username_at = field_end(data, domain_at)->0;
        let password_at = field_end(data, username_at)->0;
        Some(
            LogRecord {
                salt: data.subrange(start, start + 16),
                nonce: data.subrange(start + 16, start + 28),
                domain: field_text(data, domain_at),
                username: field_text(data, username_at),
                password: field_text(data, password_at),
            },
        )
    }
}

/// Copies a slice of bytes onto the end of a buffer.
pub fn append_bytes(out: &mut Vec<u8>, bytes: &[u8])
    ensures
        final(out)@ == old(out)@ + bytes@,
{
    let mut i: usize = 0;
    while i < bytes.len()
        invariant
            i <= bytes@.len(),
            out@ == old(out)@ + bytes@.take(i as int),
        decreases bytes@.len() - i,
    {
        out.push(bytes[i]);
        proof {
            assert(out@ =~= old(out)@ + bytes@.take(i + 1));
        }
        i = i + 1;
    }
    proof {
        assert(bytes@.take(i as int) =~= bytes@);
    }
}

/// Writes one text field onto the end of a buffer.
fn append_field(out: &mut Vec<u8>, text: &str)
    ensures
        final(out)@ == old(out)@ + field_bytes(text@),
{
    let bytes = text.as_bytes();
    let kept: usize = if bytes.len() <= FIELD_LIMIT {
        bytes.len()
    } else {
        FIELD_LIMIT
    };
    out.push(kept as u8);
    append_bytes(out, vstd::slice::slice_subrange(bytes, 0, kept));
    proof {
        assert(final(out)@ =~= old(out)@ + field_bytes(text@));
    }
}

/// Reads the field that starts at `at`: its text and the place where it
/// ends.
fn read_field(data: &[u8], at: usize) -> (r: Option<(String, usize)>)
    ensures
        match r {
            Some((text, end)) => field_end(data@, at as int) == Some(end as int) && text@
                == field_text(data@, at as int),
            None => field_end(data@, at as int) is None,
        },
{
    if at >= data.len() {
        return None;
    }
    let length: usize = data[at] as usize;
    if length > data.len() - at - 1 {
        return None;
    }
    let end: usize = at + 1 + length;
    let text = text_from_bytes(vstd::slice::slice_subrange(data, at + 1, end));
    Some((text, end))
}

/// Finds where the field that starts at `at` ends.
fn skip_field(data: &[u8], at: usize) -> (r: Option<usize>)
    ensures
        match r {
            Some(end) => field_end(data@, at as int) == Some(end as int),
            None => field_end(data@, at as int) is None,
        },
{
    if at >= data.len() {
        return None;
    }
    let length: usize = data[at] as usize;
    if length > data.len() - at - 1 {
        return None;
    }
    Some(at + 1 + length)
}

/// Finds where the record that starts at `start` ends, reading the length
/// of each field before stepping over it.
pub fn find_record_end(data: &[u8], start: usize) -> (r: Option<usize>)
    ensures
        match r {
            Some(end) => record_end(data@, start as int) == Some(end as int),
            None => record_end(data@, start as int) is None,
        },
{
    if start > data.len() || data.len() - start < HEADER_LENGTH {
        return None;
    }
    let after_domain = match skip_field(data, start + HEADER_LENGTH) {
        Some(end) => end,
        None => {
            return None;
        },
    };
    let after_username = match skip_field(data, after_domain) {
        Some(end) => end,
        None => {
            return None;
        },
    };
    skip_field(data, after_username)
}

impl Entry {
    /// An entry with the given fields.
    pub fn new(domain: &str, username: &str, password: &str, nonce: &[u8], salt: &[u8]) -> (entry:
        Entry)
        ensures
            entry.domain@ == domain@,
            entry.username@ == username@,
            entry.password@ == password@,
            entry.nonce@ == nonce@,
            entry.salt@ == salt@,
    {
        Entry {
            domain: domain.to_owned(),
            username: username.to_owned(),
            password: password.to_owned(),
            nonce: vstd::slice::slice_to_vec(nonce),
            salt: vstd::slice::slice_to_vec(salt),
        }
    }
}

impl BinarySerialization for Entry {
    open spec fn encoding(&self) -> Seq<u8> {
        log_record_bytes(self@)
    }

    open spec fn decodable(data: Seq<u8>) -> bool {
        record_end(data, 0) is Some
    }

    open spec fn decoded(data: Seq<u8>, value: &Self) -> bool {
        log_record_at(data, 0) == Some(value@)
    }

    fn serialize(&self) -> (out: Vec<u8>) {
        let mut out: Vec<u8> = Vec::new();
        append_bytes(&mut out, self.salt.as_slice());
        append_bytes(&mut out, self.nonce.as_slice());
        append_field(&mut out, self.domain.as_str());
        append_field(&mut out, self.username.as_str());
        append_field(&mut out, self.password.as_str());
        proof {
            assert(out@ =~= log_record_bytes(self@));
        }
        out
    }

    fn deserialize(data: &[u8]) -> (r: Result<Entry, VaultError>) {
        if data.len() < HEADER_LENGTH {
            return Err(VaultError::Deserialization);
        }
        let salt = vstd::slice::slice_to_vec(vstd::slice::slice_subrange(data, 0, SALT_LENGTH));
        let nonce = vstd::slice::slice_to_vec(
            vstd::slice::slice_subrange(data, SALT_LENGTH, HEADER_LENGTH),
        );
        let (domain, after_domain) = match read_field(data, HEADER_LENGTH) {
            Some(found) => found,
            None => {
                return Err(VaultError::Deserialization);
            },
        };
        let (username, after_username) = match read_field(data, after_domain) {
            Some(found) => found,
            None => {
                return Err(VaultError::Deserialization);
            },
        };
        let (password, _) = match read_field(data, after_username) {
            Some(found) => found,
            None => {
                return Err(VaultError::Deserialization);
            },
        };
        Ok(Entry { domain, username, password, nonce, salt })
    }
}

/// A record whose bytes can be told apart from those of its neighbours:
/// one with a 16-byte salt and a 12-byte nonce.
pub open spec fn framed_record(record: LogRecord) -> bool {
    record.salt.len() == 16 && record.nonce.len() == 12
}

/// A record that the format holds in full: a 16-byte salt, a 12-byte nonce,
/// and texts of at most 255 bytes each.
pub open spec fn storable_record(record: LogRecord) -> bool {
    &&& framed_record(record)
    &&& encode_utf8(record.domain).len() <= 255
    &&& encode_utf8(record.username).len() <= 255
    &&& encode_utf8(record.password).len() <= 255
}

/// A field of at most 255 bytes, wherever it stands in a buffer, is read
/// back as the text that was written.
proof fn lemma_field_read_back(data: Seq<u8>, at: int, text: Seq<char>)
    requires
        0 <= at,
        at + field_bytes(text).len() <= data.len(),
        data.subrange(at, at + field_bytes(text).len()) == field_bytes(text),
        encode_utf8(text).len() <= 255,
    ensures
        field_end(data, at) == Some(at + field_bytes(text).len()),
        field_text(data, at) == text,
{
    let bytes = encode_utf8(text);
    let field = field_bytes(text);
    assert(bytes.take(bytes.len() as int) =~= bytes);
    assert(field.len() == 1 + bytes.len());
    assert(data[at] == data.subrange(at, at + field.len())[0]);
    assert(data[at] == bytes.len());
    assert(data.subrange(at + 1, at + 1 + data[at]) =~= data.subrange(
        at,
        at + field.len(),
    ).subrange(1, field.len() as int));
    assert(field.subrange(1, field.len() as int) =~= bytes);
    crate::text::lemma_text_of_encoding(text);
}

/// A field, wherever it stands in a buffer, ends where its bytes end.
proof fn lemma_field_end(data: Seq<u8>, at: int, text: Seq<char>)
    requires
        0 <= at,
        at + field_bytes(text).len() <= data.len(),
        data.subrange(at, at + field_bytes(text).len()) == field_bytes(text),
    ensures
        field_end(data, at) == Some(at + field_bytes(text).len()),
{
    let field = field_bytes(text);
    assert(data[at] == data.subrange(at, at + field.len())[0]);
    assert(field.len() == 1 + field[0]);
}

/// A framed record, wherever it stands in a buffer, ends where its bytes
/// end.
pub proof fn lemma_record_framed(before: Seq<u8>, record: LogRecord, after: Seq<u8>)
    requires
        framed_record(record),
    ensures
        record_end(before + log_record_bytes(record) + after, before.len() as int) == Some(
            (before.len() + log_record_bytes(record).len()) as int,
        ),
{
    let bytes = log_record_bytes(record);
    let data = before + bytes + after;
    let start = before.len() as int;
    let domain_at = start + 28;
    let username_at = domain_at + field_bytes(record.domain).len();
    let password_at = username_at + field_bytes(record.username).len();
    assert(data.subrange(domain_at, username_at) =~= field_bytes(record.domain));
    assert(data.subrange(username_at, password_at) =~= field_bytes(record.username));
    assert(data.subrange(password_at, password_at + field_bytes(record.password).len())
        =~= field_bytes(record.password));
    lemma_field_end(data, domain_at, record.domain);
    lemma_field_end(data, username_at, record.username);
    lemma_field_end(data, password_at, record.password);
}

/// A storable record is read back as written from wherever it stands in a
/// buffer, and ends where its bytes end.
pub proof fn lemma_record_read_back(before: Seq<u8>, record: LogRecord, after: Seq<u8>)
    requires
        storable_record(record),
    ensures
        record_end(before + log_record_bytes(record) + after, before.len() as int) == Some(
            (before.len() + log_record_bytes(record).len()) as int,
        ),
        log_record_at(before + log_record_bytes(record) + after, before.len() as int) == Some(
            record,
        ),
{
    let bytes = log_record_bytes(record);
    let data = before + bytes + after;
    let start = before.len() as int;
    let domain_at = start + 28;
    let username_at = domain_at + field_bytes(record.domain).len();
    let password_at = username_at + field_bytes(record.username).len();
    assert(data.subrange(domain_at, username_at) =~= field_bytes(record.domain));
    assert(data.subrange(username_at, password_at) =~= field_bytes(record.username));
    assert(data.subrange(password_at, password_at + field_bytes(record.password).len())
        =~= field_bytes(record.password));
    lemma_field_read_back(data, domain_at, record.domain);
    lemma_field_read_back(data, username_at, record.username);
    lemma_field_read_back(data, password_at, record.password);
    assert(data.subrange(start, start + 16) =~= record.salt);
    assert(data.subrange(start + 16, start + 28) =~= record.nonce);
}

/// Reading back what was written gives the record that was written, for
/// every storable record.
pub proof fn lemma_log_record_round_trip(record: LogRecord)
    requires
        storable_record(record),
    ensures
        log_record_at(log_record_bytes(record), 0) == Some(record),
        record_end(log_record_bytes(record), 0) == Some(log_record_bytes(record).len() as int),
{
    let empty = Seq::<u8>::empty();
    lemma_record_read_back(empty, record, empty);
    assert(empty + log_record_bytes(record) + empty =~= log_record_bytes(record));
}

/// A field is read the same from two buffers that agree on its bytes.
proof fn lemma_field_moved(a: Seq<u8>, at_a: int, b: Seq<u8>, at_b: int)
    requires
        field_end(a, at_a) is Some,
        0 <= at_b,
        at_b + (field_end(a, at_a)->0 - at_a) <= b.len(),
        b.subrange(at_b, at_b + (field_end(a, at_a)->0 - at_a)) == a.subrange(
            at_a,
            field_end(a, at_a)->0,
        ),
    ensures
        field_end(b, at_b) == Some(at_b + (field_end(a, at_a)->0 - at_a)),
        field_text(b, at_b) == field_text(a, at_a),
{
    let end_a = field_end(a, at_a)->0;
    let n = end_a - at_a;
    assert(b[at_b] == b.subrange(at_b, at_b + n)[0]);
    assert(a[at_a] == a.subrange(at_a, end_a)[0]);
    assert(b.subrange(at_b + 1, at_b + 1 + b[at_b]) =~= b.subrange(at_b, at_b + n).subrange(
        1,
        n,
    ));
    assert(a.subrange(at_a + 1, at_a + 1 + a[at_a]) =~= a.subrange(at_a, end_a).subrange(1, n));
}

/// A record is read the same from two buffers that agree on its bytes,
/// wherever it stands in each.
pub proof fn lemma_record_moved(a: Seq<u8>, start_a: int, b: Seq<u8>, start_b: int)
    requires
        record_end(a, start_a) is Some,
        0 <= start_b,
        start_b + (record_end(a, start_a)->0 - start_a) <= b.len(),
        b.subrange(start_b, start_b + (record_end(a, start_a)->0 - start_a)) == a.subrange(
            start_a,
            record_end(a, start_a)->0,
        ),
    ensures
        record_end(b, start_b) == Some(start_b + (record_end(a, start_a)->0 - start_a)),
        log_record_at(b, start_b) == log_record_at(a, start_a),
{
    let end_a = record_end(a, start_a)->0;
    let n = end_a - start_a;
    let shift = start_b - start_a;
    let whole_a = a.subrange(start_a, end_a);
    let whole_b = b.subrange(start_b, start_b + n);
    let d_a = start_a + 28;
    let u_a = field_end(a, d_a)->0;
    let p_a = field_end(a, u_a)->0;
    assert(b.subrange(d_a + shift, u_a + shift) =~= whole_b.subrange(28, u_a - start_a));
    assert(a.subrange(d_a, u_a) =~= whole_a.subrange(28, u_a - start_a));
    lemma_field_moved(a, d_a, b, d_a + shift);
    assert(b.subrange(u_a + shift, p_a + shift) =~= whole_b.subrange(
        u_a - start_a,
        p_a - start_a,
    ));
    assert(a.subrange(u_a, p_a) =~= whole_a.subrange(u_a - start_a, p_a - start_a));
    lemma_field_moved(a, u_a, b, u_a + shift);
    assert(b.subrange(p_a + shift, end_a + shift) =~= whole_b.subrange(p_a - start_a, n));
    assert(a.subrange(p_a, end_a) =~= whole_a.subrange(p_a - start_a, n));
    lemma_field_moved(a, p_a, b, p_a + shift);
    assert(b.subrange(start_b, start_b + 16) =~= whole_b.subrange(0, 16));
    assert(a.subrange(start_a, start_a + 16) =~= whole_a.subrange(0, 16));
    assert(b.subrange(start_b + 16, start_b + 28) =~= whole_b.subrange(16, 28));
    assert(a.subrange(start_a + 16, start_a + 28) =~= whole_a.subrange(16, 28));
}

} // verus!
