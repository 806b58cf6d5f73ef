use vstd::prelude::*;
use crate::bytewords::{byteword_string_no_checksum, words_text};

verus! {

/// Length of the header that starts every share.
pub const HEADER_LEN: usize = 5;

/// Positions within the metadata array that `share_metadata` returns.
pub const GROUP_INDEX: usize = 0;
pub const GROUP_THRESHOLD: usize = 1;
pub const GROUP_COUNT: usize = 2;
pub const MEMBER_INDEX: usize = 3;
pub const MEMBER_THRESHOLD: usize = 4;

/// Why a share's header was refused. Each carries the share as Bytewords text.
#[derive(Debug)]
pub enum ShareError {
    /// Shorter than the header.
    TooShort(String),
    /// More groups are needed than there are.
    InvalidGroupThreshold(String),
    /// The reserved nibble is not zero.
    InvalidReservedBits(String),
}

/// The 16-bit identifier: the first two bytes, big-endian.
pub open spec fn header_identifier(s: Seq<u8>) -> u16 {
    (s[0] as int * 256 + s[1] as int) as u16
}

/// The header fields, in the order of the positions above.
pub open spec fn header_fields(s: Seq<u8>) -> Seq<usize> {
    seq![
        (s[3] / 16) as usize,
        (s[2] / 16 + 1) as usize,
        (s[2] % 16 + 1) as usize,
        (s[4] % 16) as usize,
        (s[3] % 16 + 1) as usize,
    ]
}

/// The group threshold exceeds the group count.
pub open spec fn bad_group_threshold(s: Seq<u8>) -> bool {
    s[2] / 16 > s[2] % 16
}

/// The reserved nibble is set.
pub open spec fn bad_reserved_bits(s: Seq<u8>) -> bool {
    s[4] / 16 != 0
}

/// The header of a well-formed share.
pub open spec fn header_ok(s: Seq<u8>) -> bool {
    s.len() >= HEADER_LEN && !bad_group_threshold(s) && !bad_reserved_bits(s)
}

/// Reads the header of a share: its identifier, and its group index, group
/// threshold, group count, member index and member threshold.
pub fn share_metadata(source: &[u8], minimal: &bool) -> (r: Result<(u16, [usize; 5]), ShareError>)
    ensures
        (r matches Err(ShareError::TooShort(t))) <==> source@.len() < HEADER_LEN,
        (r matches Err(ShareError::InvalidGroupThreshold(t))) <==> source@.len() >= HEADER_LEN
            && bad_group_threshold(source@),
        (r matches Err(ShareError::InvalidReservedBits(t))) <==> source@.len() >= HEADER_LEN
            && !bad_group_threshold(source@) && bad_reserved_bits(source@),
        r matches Err(ShareError::TooShort(t)) ==> t@ == words_text(source@, *minimal),
        r matches Err(ShareError::InvalidGroupThreshold(t)) ==> t@ == words_text(
            source@,
            *minimal,
        ),
        r matches Err(ShareError::InvalidReservedBits(t)) ==> t@ == words_text(
            source@,
            *minimal,
        ),
        (r matches Ok(_)) <==> header_ok(source@),
        r matches Ok((id, m)) ==> id == header_identifier(source@) && m@ == header_fields(
            source@,
        ),
{
    if source.len() < HEADER_LEN {
        return Err(ShareError::TooShort(byteword_string_no_checksum(source, minimal)));
    }
    let group_threshold = (source[2] / 16 + 1) as usize;
    let group_count = (source[2] % 16 + 1) as usize;
    if group_threshold > group_count {
        return Err(ShareError::InvalidGroupThreshold(byteword_string_no_checksum(source, minimal)));
    }
    let identifier = (source[0] as u16) * 256 + source[1] as u16;
    let group_index = (source[3] / 16) as usize;
    let member_threshold = (source[3] % 16 + 1) as usize;
    let reserved = source[4] / 16;
    if reserved != 0 {
        return Err(ShareError::InvalidReservedBits(byteword_string_no_checksum(source, minimal)));
    }
    let member_index = (source[4] % 16) as usize;
    let fields = [group_index, group_threshold, group_count, member_index, member_threshold];
    assert(fields@ =~= header_fields(source@));
    Ok((identifier, fields))
}

} // verus!
