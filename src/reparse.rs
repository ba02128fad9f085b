//! The reparse-point payload that records a symlink target, and the
//! decisions of reading a reparse point whose size is not known in advance.
//!
//! Payload layout: `tag: u32, data_len: u16, reserved: u16, signature: u32,
//! target`, where `data_len` counts the signature and the target.
use vstd::prelude::*;

use crate::bytes::{
    copy_range, get_le16, get_le32, holds_at, le16, le32, lemma_le16, lemma_le32, push_all,
    push_u16_le, push_u32_le, read_u16_le, read_u32_le,
};
use crate::error::AttrError;
use crate::posix::StModeType;
use crate::wslfs::{type_tag, WslfsReparseTag, IO_REPARSE_TAG_LX_SYMLINK};

verus! {

/// The signature that follows the header of a symlink payload.
pub const LX_SYMLINK_SIG: u32 = 2;

/// Bytes before the data that `data_len` counts.
pub const REPARSE_HEADER_SIZE: usize = 8;

/// Bytes before a symlink's target.
pub const LX_SYMLINK_TARGET_OFFSET: usize = 12;

/// Buffer size of the first read of a reparse point.
pub const REPARSE_BUF_SIZE_INIT: usize = 64;

/// The payload recording `target` as a symlink.
pub open spec fn lx_symlink_payload(target: Seq<u8>) -> Seq<u8> {
    le32(0xA000001D) + le16((4 + target.len()) as u16) + le16(0) + le32(2) + target
}

/// The header of a payload that records a file type and carries no data.
pub open spec fn lx_type_payload(tag: u32) -> Seq<u8> {
    le32(tag) + le16(0) + le16(0)
}

/// The symlink target a payload records, or `None` where its tag,
/// signature or length is wrong.
pub open spec fn decode_lx_symlink(b: Seq<u8>) -> Option<Seq<u8>> {
    if b.len() < 12 {
        None
    } else if get_le32(b, 0) != 0xA000001D {
        None
    } else if get_le16(b, 4) < 4 || 8 + get_le16(b, 4) > b.len() {
        None
    } else if get_le32(b, 8) != 2 {
        None
    } else {
        Some(b.subrange(12, 8 + get_le16(b, 4)))
    }
}

/// Builds the payload recording `target` as a symlink.
pub fn build_lx_symlink(target: &[u8]) -> (r: Vec<u8>)
    requires
        target@.len() + 4 <= 65535,
    ensures
        r@ == lx_symlink_payload(target@),
{
    let mut b: Vec<u8> = Vec::new();
    push_u32_le(&mut b, IO_REPARSE_TAG_LX_SYMLINK);
    push_u16_le(&mut b, (target.len() + 4) as u16);
    push_u16_le(&mut b, 0);
    push_u32_le(&mut b, LX_SYMLINK_SIG);
    push_all(&mut b, target);
    assert(b@ =~= lx_symlink_payload(target@));
    b
}

/// Builds the payload recording a file type by its tag alone.
pub fn build_lx_type(tag: u32) -> (r: Vec<u8>)
    ensures
        r@ == lx_type_payload(tag),
{
    let mut b: Vec<u8> = Vec::new();
    push_u32_le(&mut b, tag);
    push_u16_le(&mut b, 0);
    push_u16_le(&mut b, 0);
    assert(b@ =~= lx_type_payload(tag));
    b
}

/// What changing the file type a reparse point records takes: the tag of
/// the point to delete first (where it differs from the new one) and the
/// payload to write. A file without a reparse point cannot take one this way.
pub fn plan_reparse_change(current: Option<u32>, t: StModeType, target: Option<&[u8]>) -> (r:
    Result<(Option<u32>, Vec<u8>), AttrError>)
    ensures
        current is None ==> r == Err::<(Option<u32>, Vec<u8>), AttrError>(AttrError::NoReparsePoint),
        current is Some && t == StModeType::LNK && target is None ==> r == Err::<
            (Option<u32>, Vec<u8>),
            AttrError,
        >(AttrError::NoSymlinkTarget),
        current is Some && t == StModeType::LNK && target is Some && target->Some_0@.len() + 4
            > 65535 ==> r == Err::<(Option<u32>, Vec<u8>), AttrError>(AttrError::EntryTooLarge),
        r matches Ok((d, p)) ==> {
            &&& current is Some
            &&& d == (if current->Some_0 != type_tag(t) {
                current
            } else {
                None
            })
            &&& p@ == (if t == StModeType::LNK {
                lx_symlink_payload(target->Some_0@)
            } else {
                lx_type_payload(type_tag(t))
            })
        },
        current is Some && (t != StModeType::LNK || (target is Some && target->Some_0@.len() + 4
            <= 65535)) ==> r is Ok,
{
    let c = match current {
        Some(c) => c,
        None => {
            return Err(AttrError::NoReparsePoint);
        },
    };
    let tag = t.tag_id();
    let delete = if c != tag {
        Some(c)
    } else {
        None
    };
    let payload = if t == StModeType::LNK {
        match target {
            Some(s) => {
                if s.len() > 65531 {
                    return Err(AttrError::EntryTooLarge);
                }
                build_lx_symlink(s)
            },
            None => {
                return Err(AttrError::NoSymlinkTarget);
            },
        }
    } else {
        build_lx_type(tag)
    };
    Ok((delete, payload))
}

/// Reads the symlink target out of a payload, after checking its tag,
/// length and signature.
pub fn parse_lx_symlink(raw: &[u8]) -> (r: Result<Vec<u8>, AttrError>)
    ensures
        r is Ok <==> decode_lx_symlink(raw@) is Some,
        r matches Ok(t) ==> decode_lx_symlink(raw@) == Some(t@),
        r is Err ==> r->Err_0 == AttrError::MalformedReparseData,
{
    if raw.len() < LX_SYMLINK_TARGET_OFFSET {
        return Err(AttrError::MalformedReparseData);
    }
    if read_u32_le(raw, 0) != IO_REPARSE_TAG_LX_SYMLINK {
        return Err(AttrError::MalformedReparseData);
    }
    let data_len = read_u16_le(raw, 4) as usize;
    if data_len < 4 || data_len > raw.len() - REPARSE_HEADER_SIZE {
        return Err(AttrError::MalformedReparseData);
    }
    if read_u32_le(raw, 8) != LX_SYMLINK_SIG {
        return Err(AttrError::MalformedReparseData);
    }
    Ok(copy_range(raw, LX_SYMLINK_TARGET_OFFSET, REPARSE_HEADER_SIZE + data_len))
}

/// A built symlink payload reads back as its target.
pub proof fn lemma_lx_symlink_round_trip(target: Seq<u8>)
    requires
        target.len() + 4 <= 65535,
    ensures
        decode_lx_symlink(lx_symlink_payload(target)) == Some(target),
{
    let b = lx_symlink_payload(target);
    let dl = (4 + target.len()) as u16;
    assert(b =~= le32(0xA000001D) + (le16(dl) + (le16(0) + (le32(2) + target))));
    assert(holds_at(b, 0, le32(0xA000001D)));
    assert(holds_at(b, 4, le16(dl)));
    assert(holds_at(b, 8, le32(2)));
    lemma_le32(b, 0, 0xA000001D);
    lemma_le16(b, 4, dl);
    lemma_le32(b, 8, 2);
    assert(b.subrange(12, 8 + dl) =~= target);
}

/// What the next reparse read should do.
#[derive(Debug, Clone, PartialEq, Eq)]
pub enum ReparseStep {
    /// Read into a buffer of this many bytes.
    Read(usize),
    /// The payload is complete.
    Done(Vec<u8>),
    /// Reading failed; no further attempt is made.
    Failed,
}

/// How a reparse read went.
#[derive(Debug, Clone, PartialEq, Eq)]
pub enum ReparseEvent {
    /// The read succeeded with these bytes.
    Data(Vec<u8>),
    /// The buffer was too small; it holds the start of the payload.
    MoreData(Vec<u8>),
    /// The read failed otherwise.
    Error,
}

/// The buffer size that holds exactly a payload whose header announces
/// `data_len` bytes: the header and the data.
pub open spec fn retry_size(data_len: u16) -> usize {
    (8 + data_len) as usize
}

/// Reading a reparse point: one read with a fixed buffer, and at most one
/// more with a buffer sized from the header the first read returned.
pub struct ReparseReader {
    pub retried: bool,
}

/// The step after `event`, for a reader that has or has not retried yet.
pub open spec fn reparse_next(retried: bool, event: ReparseEvent) -> ReparseStep {
    match event {
        ReparseEvent::Data(b) => ReparseStep::Done(b),
        ReparseEvent::MoreData(b) => if !retried && b@.len() >= 8 {
            ReparseStep::Read(retry_size(get_le16(b@, 4)))
        } else {
            ReparseStep::Failed
        },
        ReparseEvent::Error => ReparseStep::Failed,
    }
}

impl ReparseReader {
    /// A reader, with the first read to make.
    pub fn start() -> (r: (ReparseReader, ReparseStep))
        ensures
            !r.0.retried,
            r.1 == ReparseStep::Read(64),
    {
        (ReparseReader { retried: false }, ReparseStep::Read(REPARSE_BUF_SIZE_INIT))
    }

    /// What to do after `event`.
    pub fn next(&mut self, event: ReparseEvent) -> (r: ReparseStep)
        ensures
            r == reparse_next(old(self).retried, event),
            final(self).retried == (old(self).retried || r is Read),
    {
        match event {
            ReparseEvent::Data(b) => ReparseStep::Done(b),
            ReparseEvent::MoreData(b) => {
                if !self.retried && b.len() >= REPARSE_HEADER_SIZE {
                    self.retried = true;
                    let data_len = read_u16_le(b.as_slice(), 4);
                    ReparseStep::Read(REPARSE_HEADER_SIZE + data_len as usize)
                } else {
                    ReparseStep::Failed
                }
            },
            ReparseEvent::Error => ReparseStep::Failed,
        }
    }
}

/// A symlink payload too long for the first buffer is read whole after one
/// resized read: the first short read leads to a buffer of exactly its size,
/// the full read gives it back, and it reads as the target. A second short
/// read ends the attempt.
pub proof fn lemma_reparse_retry(target: Seq<u8>, first: Vec<u8>, full: Vec<u8>)
    requires
        target.len() + 4 <= 65535,
        lx_symlink_payload(target).len() > 64,
        first@ == lx_symlink_payload(target).subrange(0, 64),
        full@ == lx_symlink_payload(target),
    ensures
        reparse_next(false, ReparseEvent::MoreData(first)) == ReparseStep::Read(
            lx_symlink_payload(target).len() as usize,
        ),
        reparse_next(true, ReparseEvent::Data(full)) == ReparseStep::Done(full),
        reparse_next(true, ReparseEvent::MoreData(first)) == ReparseStep::Failed,
        decode_lx_symlink(full@) == Some(target),
{
    let p = lx_symlink_payload(target);
    let dl = (4 + target.len()) as u16;
    assert(p =~= le32(0xA000001D) + (le16(dl) + (le16(0) + (le32(2) + target))));
    assert(holds_at(first@, 4, le16(dl))) by {
        assert forall|k: int| 0 <= k < 2 implies #[trigger] first@[4 + k] == le16(dl)[k] by {
            assert(first@[4 + k] == p[4 + k]);
        }
    }
    lemma_le16(first@, 4, dl);
    lemma_lx_symlink_round_trip(target);
}

} // verus!
