//! The write-ahead log: one append-only file per prefix, holding a record
//! for every write.
//!
//! A record is laid out little-endian as
//! `<u64 rev><u32 key_len><u32 value_len><key bytes><value bytes>`;
//! a `value_len` of `0xFFFF_FFFF` marks a deletion and is followed by no
//! value bytes.

use crate::shared_map::ByteSet;
use vstd::bytes::{
    lemma_auto_spec_u32_to_from_le_bytes, lemma_auto_spec_u64_to_from_le_bytes,
    spec_u32_from_le_bytes, spec_u32_to_le_bytes, spec_u64_from_le_bytes, spec_u64_to_le_bytes,
    u32_from_le_bytes, u32_to_le_bytes, u64_from_le_bytes, u64_to_le_bytes,
};
use vstd::prelude::*;
use vstd::slice::{slice_subrange, slice_to_vec};
use vstd::string::*;

verus! {

/// How writes are persisted.
#[derive(Copy, Clone, Debug, PartialEq, Eq, Structural)]
pub enum WalMode {
    /// Nothing is written.
    Off,
    /// Records are written in the background; a write does not wait.
    Async,
    /// A write returns only when its record has been synced to disk.
    Sync,
}

/// How the write-ahead log of a store is set up.
pub struct WalSettings {
    /// The directory that holds one file per prefix.
    pub wal_dir: String,
    pub default_mode: WalMode,
    /// Replay the directory into the store before it serves.
    pub load_wal_dir: bool,
    /// The prefixes whose writes are not persisted.
    pub prefix_modes_no_persist: ByteSet,
}

/// Why a log could not be read.
#[derive(Copy, Clone, Debug, PartialEq, Eq, Structural)]
pub enum WalError {
    /// The file ends in the middle of a record.
    UnexpectedEof,
}

/// The value length that marks a deletion.
pub const DELETE_MARKER: u32 = 0xFFFF_FFFF;

/// The size of a record's header.
pub const HEADER_SIZE: usize = 16;

/// One record of the log; `value == None` is a deletion.
#[derive(Debug, PartialEq, Eq)]
pub struct WalRecord {
    pub rev: i64,
    pub key: Vec<u8>,
    pub value: Option<Vec<u8>>,
}

/// Mathematical model of a [`WalRecord`].
pub struct WalRecordView {
    pub rev: i64,
    pub key: Seq<u8>,
    pub value: Option<Seq<u8>>,
}

impl View for WalRecord {
    type V = WalRecordView;

    open spec fn view(&self) -> WalRecordView {
        WalRecordView {
            rev: self.rev,
            key: self.key@,
            value: match self.value {
                Some(v) => Some(v@),
                None => None,
            },
        }
    }
}

impl Clone for WalRecord {
    fn clone(&self) -> (r: Self)
        ensures
            r@ == self@,
    {
        WalRecord {
            rev: self.rev,
            key: self.key.clone(),
            value: match &self.value {
                Some(v) => Some(v.clone()),
                None => None,
            },
        }
    }
}

/// A revision as the unsigned number that stands for it on disk, in two's
/// complement.
pub open spec fn wire(rev: i64) -> u64 {
    if rev >= 0 {
        rev as u64
    } else {
        (rev + 0x1_0000_0000_0000_0000) as u64
    }
}

/// The revision that an unsigned number on disk stands for.
pub open spec fn unwire(u: u64) -> i64 {
    if u <= 0x7fff_ffff_ffff_ffff {
        u as i64
    } else {
        (u - 0x1_0000_0000_0000_0000) as i64
    }
}

fn to_wire(rev: i64) -> (u: u64)
    ensures
        u == wire(rev),
{
    if rev >= 0 {
        rev as u64
    } else {
        u64::MAX - ((-(rev + 1)) as u64)
    }
}

fn from_wire(u: u64) -> (rev: i64)
    ensures
        rev == unwire(u),
{
    if u <= 0x7fff_ffff_ffff_ffff {
        u as i64
    } else {
        -((u64::MAX - u) as i64) - 1
    }
}

impl WalRecordView {
    /// The lengths of the key and of the value can be written in 32 bits,
    /// the latter without being taken for the deletion mark.
    pub open spec fn fits(self) -> bool {
        self.key.len() <= u32::MAX && (self.value matches Some(v) ==> v.len() < u32::MAX)
    }

    pub open spec fn value_len(self) -> u32 {
        match self.value {
            Some(v) => v.len() as u32,
            None => DELETE_MARKER,
        }
    }

    pub open spec fn value_bytes(self) -> Seq<u8> {
        match self.value {
            Some(v) => v,
            None => Seq::empty(),
        }
    }

    /// The 16 bytes that stand before the key.
    pub open spec fn header(self) -> Seq<u8> {
        spec_u64_to_le_bytes(wire(self.rev)) + spec_u32_to_le_bytes(self.key.len() as u32)
            + spec_u32_to_le_bytes(self.value_len())
    }

    /// The bytes that stand for the record on disk.
    pub open spec fn encoding(self) -> Seq<u8> {
        self.header() + self.key + self.value_bytes()
    }
}

/// What reading a record at position `at` of `buf` gives: nothing where
/// fewer than 16 bytes are left, the record and the position behind it
/// where it is whole, and an error where the key or the value is cut off.
pub open spec fn parse(buf: Seq<u8>, at: int) -> Result<Option<(WalRecordView, int)>, WalError> {
    if at < 0 || at + 16 > buf.len() {
        Ok(None)
    } else {
        let rev = unwire(spec_u64_from_le_bytes(buf.subrange(at, at + 8)));
        let key_len = spec_u32_from_le_bytes(buf.subrange(at + 8, at + 12)) as int;
        let value_len = spec_u32_from_le_bytes(buf.subrange(at + 12, at + 16));
        let key_end = at + 16 + key_len;
        if key_end > buf.len() {
            Err(WalError::UnexpectedEof)
        } else if value_len == DELETE_MARKER {
            Ok(
                Some(
                    (
                        WalRecordView { rev, key: buf.subrange(at + 16, key_end), value: None },
                        key_end,
                    ),
                ),
            )
        } else if key_end + value_len > buf.len() {
            Err(WalError::UnexpectedEof)
        } else {
            Ok(
                Some(
                    (
                        WalRecordView {
                            rev,
                            key: buf.subrange(at + 16, key_end),
                            value: Some(buf.subrange(key_end, key_end + value_len)),
                        },
                        key_end + value_len,
                    ),
                ),
            )
        }
    }
}

/// Mathematical model of what [`WalRecord::read_from`] returns.
pub open spec fn parsed_view(r: Result<Option<(WalRecord, usize)>, WalError>) -> Result<
    Option<(WalRecordView, int)>,
    WalError,
> {
    match r {
        Ok(Some((rec, next))) => Ok(Some((rec@, next as int))),
        Ok(None) => Ok(None),
        Err(e) => Err(e),
    }
}

/// A record that was written is read back as it was, and reading ends
/// just behind it, whatever follows.
pub proof fn lemma_read_back(r: WalRecordView, before: Seq<u8>, after: Seq<u8>)
    requires
        r.fits(),
    ensures
        r.encoding().len() == 16 + r.key.len() + r.value_bytes().len(),
        parse(before + r.encoding() + after, before.len() as int) == Ok::<
            Option<(WalRecordView, int)>,
            WalError,
        >(Some((r, (before.len() + r.encoding().len()) as int))),
{
    lemma_auto_spec_u64_to_from_le_bytes();
    lemma_auto_spec_u32_to_from_le_bytes();
    let buf = before + r.encoding() + after;
    let at = before.len() as int;
    let a = spec_u64_to_le_bytes(wire(r.rev));
    let b = spec_u32_to_le_bytes(r.key.len() as u32);
    let c = spec_u32_to_le_bytes(r.value_len());
    assert(buf.subrange(at, at + 8) =~= a);
    assert(buf.subrange(at + 8, at + 12) =~= b);
    assert(buf.subrange(at + 12, at + 16) =~= c);
    let key_end = at + 16 + r.key.len();
    assert(buf.subrange(at + 16, key_end) =~= r.key);
    match r.value {
        Some(v) => {
            assert(buf.subrange(key_end, key_end + v.len()) =~= v);
        },
        None => {},
    }
    assert(unwire(wire(r.rev)) == r.rev);
}

impl WalRecord {
    /// The 16 bytes that stand before the key on disk; `None` where a
    /// length does not fit the format.
    pub fn header(&self) -> (h: Option<Vec<u8>>)
        ensures
            h is Some <==> self@.fits(),
            h matches Some(bytes) ==> bytes@ == self@.header() && bytes@.len() == 16,
    {
        if self.key.len() > 0xFFFF_FFFF {
            return None;
        }
        let key_len = self.key.len() as u32;
        let value_len = match &self.value {
            Some(v) => {
                if v.len() >= 0xFFFF_FFFF {
                    return None;
                }
                v.len() as u32
            },
            None => DELETE_MARKER,
        };
        let mut header = u64_to_le_bytes(to_wire(self.rev));
        let mut k = u32_to_le_bytes(key_len);
        let mut v = u32_to_le_bytes(value_len);
        header.append(&mut k);
        header.append(&mut v);
        Some(header)
    }

    /// The bytes that stand for the record on disk; `None` where a length
    /// does not fit the format.
    pub fn encode(&self) -> (e: Option<Vec<u8>>)
        ensures
            e is Some <==> self@.fits(),
            e matches Some(bytes) ==> bytes@ == self@.encoding(),
    {
        match self.header() {
            Some(mut bytes) => {
                let mut key = self.key.clone();
                bytes.append(&mut key);
                match &self.value {
                    Some(v) => {
                        let mut value = v.clone();
                        bytes.append(&mut value);
                    },
                    None => {},
                }
                assert(bytes@ =~= self@.encoding());
                Some(bytes)
            },
            None => None,
        }
    }

    /// Reads the record that starts at position `at` of `buf`.
    pub fn read_from(buf: &[u8], at: usize) -> (r: Result<Option<(WalRecord, usize)>, WalError>)
        ensures
            parsed_view(r) == parse(buf@, at as int),
    {
        if at > buf.len() || buf.len() - at < HEADER_SIZE {
            return Ok(None);
        }
        let rev = from_wire(u64_from_le_bytes(slice_subrange(buf, at, at + 8)));
        let key_len = u32_from_le_bytes(slice_subrange(buf, at + 8, at + 12)) as usize;
        let value_len_raw = u32_from_le_bytes(slice_subrange(buf, at + 12, at + 16));
        let key_start = at + HEADER_SIZE;
        if buf.len() - key_start < key_len {
            return Err(WalError::UnexpectedEof);
        }
        let key_end = key_start + key_len;
        let key = slice_to_vec(slice_subrange(buf, key_start, key_end));
        if value_len_raw == DELETE_MARKER {
            return Ok(Some((WalRecord { rev, key, value: None }, key_end)));
        }
        let value_len = value_len_raw as usize;
        if buf.len() - key_end < value_len {
            return Err(WalError::UnexpectedEof);
        }
        let value = slice_to_vec(slice_subrange(buf, key_end, key_end + value_len));
        Ok(Some((WalRecord { rev, key, value: Some(value) }, key_end + value_len)))
    }
}

/// The two hexadecimal digits of a number below 16.
pub open spec fn hex_digit(n: int) -> Seq<char> {
    if n == 0 {
        "0"@
    } else if n == 1 {
        "1"@
    } else if n == 2 {
        "2"@
    } else if n == 3 {
        "3"@
    } else if n == 4 {
        "4"@
    } else if n == 5 {
        "5"@
    } else if n == 6 {
        "6"@
    } else if n == 7 {
        "7"@
    } else if n == 8 {
        "8"@
    } else if n == 9 {
        "9"@
    } else if n == 10 {
        "a"@
    } else if n == 11 {
        "b"@
    } else if n == 12 {
        "c"@
    } else if n == 13 {
        "d"@
    } else if n == 14 {
        "e"@
    } else {
        "f"@
    }
}

/// The first `n` bytes of `bytes`, each as two lower-case hexadecimal
/// digits.
pub open spec fn hex(bytes: Seq<u8>, n: int) -> Seq<char>
    decreases n,
{
    if n <= 0 {
        Seq::empty()
    } else {
        hex(bytes, n - 1) + hex_digit(bytes[n - 1] as int / 16) + hex_digit(
            bytes[n - 1] as int % 16,
        )
    }
}

/// The name of the file that holds the log of `prefix`.
pub open spec fn file_name(prefix: Seq<u8>) -> Seq<char> {
    "prefix_"@ + hex(prefix, prefix.len() as int) + ".wal"@
}

fn hex_digit_str(n: u8) -> (s: &'static str)
    requires
        n < 16,
    ensures
        s@ == hex_digit(n as int),
{
    match n {
        0 => "0",
        1 => "1",
        2 => "2",
        3 => "3",
        4 => "4",
        5 => "5",
        6 => "6",
        7 => "7",
        8 => "8",
        9 => "9",
        10 => "a",
        11 => "b",
        12 => "c",
        13 => "d",
        14 => "e",
        _ => "f",
    }
}

/// The name of the file that holds the log of `prefix`: `prefix_`, the
/// bytes of the prefix in hexadecimal, and `.wal`.
pub fn file_name_for_prefix(prefix: &[u8]) -> (name: String)
    ensures
        name@ == file_name(prefix@),
{
    let mut s = String::from_str("prefix_");
    let mut i: usize = 0;
    assert(s@ =~= "prefix_"@ + hex(prefix@, 0));
    while i < prefix.len()
        invariant
            i <= prefix.len(),
            s@ == "prefix_"@ + hex(prefix@, i as int),
        decreases prefix.len() - i,
    {
        let b = prefix[i];
        s.append(hex_digit_str(b / 16));
        s.append(hex_digit_str(b % 16));
        i = i + 1;
        assert(s@ =~= "prefix_"@ + hex(prefix@, i as int));
    }
    s.append(".wal");
    s
}

} // verus!
