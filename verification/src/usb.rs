//! The decisions of the USB side: which device is a usable Goldleaf, and
//! which received block holds a command.

use vstd::prelude::*;
use crate::buffer::u32_at;
use crate::command_block::{BLOCK_SIZE, CommandBlock, INPUT_MAGIC};
use crate::text::{
    chars_of, contains_chars, contains_seq, decimal, first_index, has_suffix, lemma_decimal_value,
    lemma_first_index_absent, lemma_first_index_at, parse_u8, parse_u8_chars, slice_chars,
    split_chars, split_on,
};
use crate::version::{Version, current_version, version_lt, version_text};

verus! {

pub const VENDOR_ID: u16 = 0x057E;

pub const PRODUCT_ID: u16 = 0x3000;

pub const WRITE_ENDPOINT: u8 = 0x01;

pub const READ_ENDPOINT: u8 = 0x81;

/// The version a serial number names: `major.minor[.micro]`, each part a
/// decimal `u8`; a missing or unreadable micro part counts as 0.
pub open spec fn version_of(serial: Seq<char>) -> Option<Version> {
    let toks = split_on(serial, '.');
    if toks.len() < 2 {
        None
    } else {
        match (parse_u8(toks[0]), parse_u8(toks[1])) {
            (Some(major), Some(minor)) => Some(
                Version {
                    major,
                    minor,
                    micro: if toks.len() > 2 {
                        match parse_u8(toks[2]) {
                            Some(m) => m,
                            None => 0,
                        }
                    } else {
                        0
                    },
                },
            ),
            _ => None,
        }
    }
}

/// The version a Goldleaf serial number names.
pub fn parse_version(serial: &str) -> (r: Option<Version>)
    ensures
        r == version_of(serial@),
{
    let chars = chars_of(serial);
    let toks = split_chars(chars.as_slice(), '.');
    if toks.len() < 2 {
        return None;
    }
    let major = match parse_u8_chars(toks[0].as_slice()) {
        Some(m) => m,
        None => return None,
    };
    let minor = match parse_u8_chars(toks[1].as_slice()) {
        Some(m) => m,
        None => return None,
    };
    let micro = if toks.len() > 2 {
        match parse_u8_chars(toks[2].as_slice()) {
            Some(m) => m,
            None => 0,
        }
    } else {
        0
    };
    Some(Version::new(major, minor, micro))
}

proof fn lemma_split_after(a: Seq<char>, rest: Seq<char>)
    requires
        forall|j: int| 0 <= j < a.len() ==> a[j] != '.',
    ensures
        split_on(a + seq!['.'] + rest, '.') == seq![a] + split_on(rest, '.'),
{
    let s = a + seq!['.'] + rest;
    assert forall|j: int| 0 <= j < a.len() implies s[j] != '.' by {
        assert(s[j] == a[j]);
    }
    lemma_first_index_at(s, '.', a.len() as int);
    assert(s.take(a.len() as int) =~= a);
    assert(s.skip(a.len() as int + 1) =~= rest);
}

proof fn lemma_split_whole(a: Seq<char>)
    requires
        forall|j: int| 0 <= j < a.len() ==> a[j] != '.',
    ensures
        split_on(a, '.') == seq![a],
{
    lemma_first_index_absent(a, '.');
}

proof fn lemma_parse_decimal(n: u8)
    ensures
        parse_u8(decimal(n as nat)) == Some(n),
        forall|j: int| 0 <= j < decimal(n as nat).len() ==> #[trigger] decimal(n as nat)[j] != '.',
{
    lemma_decimal_value(n as nat);
}

/// A version written out reads back as itself.
pub proof fn lemma_version_text_roundtrip(v: Version)
    ensures
        version_of(version_text(v)) == Some(v),
{
    let d1 = decimal(v.major as nat);
    let d2 = decimal(v.minor as nat);
    let d3 = decimal(v.micro as nat);
    lemma_parse_decimal(v.major);
    lemma_parse_decimal(v.minor);
    lemma_parse_decimal(v.micro);
    let rest = d2 + seq!['.'] + d3;
    assert(version_text(v) =~= d1 + seq!['.'] + rest);
    lemma_split_after(d1, rest);
    lemma_split_after(d2, d3);
    lemma_split_whole(d3);
    assert(split_on(version_text(v), '.') =~= seq![d1, d2, d3]);
}

/// A Goldleaf that is ready to talk.
#[derive(Debug, Clone, Copy, PartialEq, Eq)]
pub struct Connection {
    pub version: Version,
    pub is_dev: bool,
}

/// Why a USB device is not used.
#[derive(Debug, Clone, Copy, PartialEq, Eq)]
pub enum ConnectError {
    /// The product string does not mention Goldleaf.
    NotGoldleaf,
    /// No version can be read from the serial number.
    UnknownVersion,
    /// The Goldleaf is older than the oldest one supported.
    Outdated(Version),
}

/// "Goldleaf".
pub open spec fn goldleaf_word() -> Seq<char> {
    seq!['G', 'o', 'l', 'd', 'l', 'e', 'a', 'f']
}

/// "-dev".
pub open spec fn dev_suffix() -> Seq<char> {
    seq!['-', 'd', 'e', 'v']
}

/// The serial number without a trailing `-dev`.
pub open spec fn release_serial(serial: Seq<char>) -> Seq<char> {
    if has_suffix(serial, dev_suffix()) {
        serial.take(serial.len() - 4)
    } else {
        serial
    }
}

/// Whether a device with this product string and serial number is used,
/// and as what.
pub open spec fn device_verdict(product: Seq<char>, serial: Seq<char>) -> Result<(Version, bool), ConnectError> {
    if !contains_seq(product, goldleaf_word()) {
        Err(ConnectError::NotGoldleaf)
    } else {
        match version_of(release_serial(serial)) {
            None => Err(ConnectError::UnknownVersion),
            Some(v) => if version_lt(v, current_version()) {
                Err(ConnectError::Outdated(v))
            } else {
                Ok((v, has_suffix(serial, dev_suffix())))
            },
        }
    }
}

/// Decides whether the device with this product string and serial number
/// is a Goldleaf to talk to: it must call itself Goldleaf, name a version
/// in its serial (a `-dev` suffix marks a development build), and not be
/// older than the oldest supported version.
pub fn check_device(product: &str, serial: &str) -> (r: Result<Connection, ConnectError>)
    ensures
        match (r, device_verdict(product@, serial@)) {
            (Ok(c), Ok((v, dev))) => c.version == v && c.is_dev == dev,
            (Err(ConnectError::NotGoldleaf), Err(ConnectError::NotGoldleaf)) => true,
            (Err(ConnectError::UnknownVersion), Err(ConnectError::UnknownVersion)) => true,
            (Err(ConnectError::Outdated(a)), Err(ConnectError::Outdated(b))) => a == b,
            _ => false,
        },
{
    let p = chars_of(product);
    let word = vec!['G', 'o', 'l', 'd', 'l', 'e', 'a', 'f'];
    assert(word@ =~= goldleaf_word());
    if !contains_chars(p.as_slice(), word.as_slice()) {
        return Err(ConnectError::NotGoldleaf);
    }
    let s = chars_of(serial);
    let suffix = vec!['-', 'd', 'e', 'v'];
    assert(suffix@ =~= dev_suffix());
    let is_dev = s.len() >= 4 && crate::text::matches_at(s.as_slice(), s.len() - 4, suffix.as_slice());
    proof {
        if s@.len() >= 4 {
            assert(s@.subrange(s@.len() - 4, s@.len() as int) == s@.skip(s@.len() - 4));
        }
    }
    let base = if is_dev {
        slice_chars(s.as_slice(), 0, s.len() - 4)
    } else {
        slice_chars(s.as_slice(), 0, s.len())
    };
    assert(base@ =~= release_serial(serial@));
    let base_str = crate::text::string_of(base.as_slice());
    match parse_version(base_str.as_str()) {
        None => Err(ConnectError::UnknownVersion),
        Some(v) => {
            if v.older_than(Version::current()) {
                Err(ConnectError::Outdated(v))
            } else {
                Ok(Connection { version: v, is_dev })
            }
        },
    }
}

/// Why a received block is not processed.
#[derive(Debug, Clone, Copy, PartialEq, Eq)]
pub enum BlockError {
    /// The transfer did not fill a whole block.
    WrongSize,
    /// The block does not start with the input magic.
    BadMagic,
}

/// Opens a received block: it must be a whole block that starts with the
/// input magic; the command id follows the magic.
pub fn open_block(data: Vec<u8>) -> (r: Result<(CommandBlock, u32), BlockError>)
    ensures
        data@.len() != BLOCK_SIZE ==> r matches Err(BlockError::WrongSize),
        data@.len() == BLOCK_SIZE && u32_at(data@, 0) != INPUT_MAGIC ==> r matches Err(BlockError::BadMagic),
        data@.len() == BLOCK_SIZE && u32_at(data@, 0) == INPUT_MAGIC ==> (r matches Ok((b, id))
            && id == u32_at(data@, 4) && b.input() == data@ && b.cursor() == 8 && b.output()
            == Seq::<u8>::empty()),
{
    if data.len() != BLOCK_SIZE {
        return Err(BlockError::WrongSize);
    }
    let ghost d = data@;
    let mut b = CommandBlock::from(data);
    match b.validate() {
        Some(id) => Ok((b, id)),
        None => Err(BlockError::BadMagic),
    }
}

/// A device is used exactly when it calls itself Goldleaf and the version
/// in its serial (`major.minor.micro`, `-dev` after it for a development
/// build) is not older than 1.1.0, comparing major, then minor, then micro;
/// an older one is refused as outdated, naming its version.
pub proof fn lemma_device_minimum_version(product: Seq<char>, v: Version, dev: bool)
    ensures
        ({
            let serial = if dev {
                version_text(v) + seq!['-', 'd', 'e', 'v']
            } else {
                version_text(v)
            };
            let goldleaf = contains_seq(product, seq!['G', 'o', 'l', 'd', 'l', 'e', 'a', 'f']);
            let older = v.major < 1 || (v.major == 1 && v.minor < 1);
            &&& !goldleaf ==> device_verdict(product, serial) == Err::<(Version, bool), ConnectError>(
                ConnectError::NotGoldleaf,
            )
            &&& goldleaf && older ==> device_verdict(product, serial) == Err::<(Version, bool), ConnectError>(
                ConnectError::Outdated(v),
            )
            &&& goldleaf && !older ==> device_verdict(product, serial) == Ok::<(Version, bool), ConnectError>(
                (v, dev),
            )
        }),
{
    let t = version_text(v);
    let suffix = seq!['-', 'd', 'e', 'v'];
    assert(goldleaf_word() =~= seq!['G', 'o', 'l', 'd', 'l', 'e', 'a', 'f']);
    assert(dev_suffix() =~= suffix);
    lemma_version_text_roundtrip(v);
    lemma_decimal_value(v.micro as nat);
    let dm = decimal(v.micro as nat);
    assert(t.last() == dm.last()) by {
        assert(t =~= (decimal(v.major as nat) + seq!['.'] + decimal(v.minor as nat) + seq!['.']) + dm);
    }
    assert(dm[dm.len() - 1] != 'v') by {
        assert(48 <= dm[dm.len() - 1] as u32 <= 57);
    }
    assert(!has_suffix(t, suffix)) by {
        if has_suffix(t, suffix) {
            assert(t.skip(t.len() - 4)[3] == t.last());
        }
    }
    assert(release_serial(t) == t);
    let td = t + suffix;
    assert(has_suffix(td, suffix)) by {
        assert(td.skip(td.len() - 4) =~= suffix);
    }
    assert(release_serial(td) =~= t);
}

} // verus!
