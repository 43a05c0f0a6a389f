use vstd::prelude::*;

use crate::checksum::{le_word, read_le_word};
use crate::error::Error;

verus! {

/// Image type of a normal firmware image followed by a checksum.
pub const IMAGE_TYPE_CHECKSUMMED: u8 = 0xb0;

/// One record of the image body.
#[derive(Debug, Clone, Copy, PartialEq, Eq, Structural)]
pub enum Record {
    /// `len` bytes of data, starting at byte `start` of the image, to be
    /// written at `address`.
    Segment { address: u32, start: usize, len: usize },
    /// The end of the records: where execution starts, and the stored
    /// checksum that follows the record.
    Entry { address: u32, checksum: u32 },
}

/// The error for `len` bytes that were needed at `offset` and are missing.
pub open spec fn truncated(offset: int, len: int) -> Error {
    Error::TruncatedData { offset: offset as usize, len: len as u64 }
}

/// The verdict on the four header bytes, checked in order: magic "CY",
/// executable flag clear, checksummed image type. A byte that a check needs
/// and that is missing makes the header truncated.
pub open spec fn header_result(s: Seq<u8>) -> Result<(), Error> {
    if s.len() < 2 {
        Err(truncated(0, 4))
    } else if s[0] != 0x43u8 || s[1] != 0x59u8 {
        Err(Error::MissingMagic)
    } else if s.len() < 3 {
        Err(truncated(0, 4))
    } else if s[2] % 2 == 1 {
        Err(Error::NotExecutable)
    } else if s.len() < 4 {
        Err(truncated(0, 4))
    } else if s[3] != IMAGE_TYPE_CHECKSUMMED {
        Err(Error::AbnormalFirmware)
    } else {
        Ok(())
    }
}

/// The record at byte `c` of `s`, with the offset just past it: a word count
/// and an address, then the data (count words), or for a count of zero the
/// stored checksum.
pub open spec fn record_at(s: Seq<u8>, c: int) -> Result<(Record, int), Error> {
    if c + 4 > s.len() {
        Err(truncated(c, 4))
    } else if c + 8 > s.len() {
        Err(truncated(c + 4, 4))
    } else {
        let words = le_word(s, c);
        let address = le_word(s, c + 4) as u32;
        if words == 0 {
            if c + 12 > s.len() {
                Err(truncated(c + 8, 4))
            } else {
                Ok((Record::Entry { address, checksum: le_word(s, c + 8) as u32 }, c + 12))
            }
        } else if c + 8 + 4 * words > s.len() {
            Err(truncated(c + 8, 4 * words))
        } else {
            Ok(
                (
                    Record::Segment {
                        address,
                        start: (c + 8) as usize,
                        len: (4 * words) as usize,
                    },
                    c + 8 + 4 * words,
                ),
            )
        }
    }
}

proof fn lemma_le_word_bound(s: Seq<u8>, i: int)
    requires
        0 <= i,
        i + 4 <= s.len(),
    ensures
        0 <= le_word(s, i) < 0x1_0000_0000,
{
}

/// Checks the header of `image`.
pub fn check_header(image: &[u8]) -> (r: Result<(), Error>)
    ensures
        r == header_result(image@),
{
    let n = image.len();
    if n < 2 {
        return Err(Error::TruncatedData { offset: 0, len: 4 });
    }
    if image[0] != 0x43u8 || image[1] != 0x59u8 {
        return Err(Error::MissingMagic);
    }
    if n < 3 {
        return Err(Error::TruncatedData { offset: 0, len: 4 });
    }
    if image[2] % 2 == 1 {
        return Err(Error::NotExecutable);
    }
    if n < 4 {
        return Err(Error::TruncatedData { offset: 0, len: 4 });
    }
    if image[3] != IMAGE_TYPE_CHECKSUMMED {
        return Err(Error::AbnormalFirmware);
    }
    Ok(())
}

/// Reads the record at byte `cursor` of `image`.
pub fn read_record(image: &[u8], cursor: usize) -> (r: Result<(Record, usize), Error>)
    requires
        cursor <= image@.len(),
    ensures
        match (r, record_at(image@, cursor as int)) {
            (Ok((rec, next)), Ok((srec, snext))) => rec == srec && next == snext,
            (Err(e), Err(se)) => e == se,
            _ => false,
        },
{
    let n = image.len();
    if n - cursor < 4 {
        return Err(Error::TruncatedData { offset: cursor, len: 4 });
    }
    if n - cursor < 8 {
        return Err(Error::TruncatedData { offset: cursor + 4, len: 4 });
    }
    let words = read_le_word(image, cursor);
    let address = read_le_word(image, cursor + 4);
    proof {
        lemma_le_word_bound(image@, cursor as int);
        lemma_le_word_bound(image@, cursor + 4);
    }
    if words == 0 {
        if n - cursor < 12 {
            return Err(Error::TruncatedData { offset: cursor + 8, len: 4 });
        }
        let checksum = read_le_word(image, cursor + 8);
        return Ok((Record::Entry { address, checksum }, cursor + 12));
    }
    let bytes: u64 = 4 * (words as u64);
    if bytes > (n - cursor - 8) as u64 {
        return Err(Error::TruncatedData { offset: cursor + 8, len: bytes });
    }
    let len = bytes as usize;
    Ok((Record::Segment { address, start: cursor + 8, len }, cursor + 8 + len))
}

} // verus!
