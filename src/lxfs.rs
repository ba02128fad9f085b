//! The compact scheme: one fixed `LXATTRB` record holding owner, group, mode,
//! device and times, and an `LXXATTR` list of extended attributes.
use vstd::prelude::*;

use crate::bytes::{
    copy_range, get_le16, get_le32, get_le64, holds_at, le16, le32, le64, lemma_le16, lemma_le32,
    lemma_le64, push_all, push_u16_le, push_u32_le, push_u64_le, read_u16_le, read_u32_le,
    read_u64_le,
};
use crate::bytes::bytes_eq;
use crate::ea_parse::{records_of, EaEntry, EaRecord};
use crate::error::AttrError;
use crate::lxxattr::{
    decode_lxxattr, encode_lxxattr, parse_lxxattr, slot_of, slots_of, xattrs_fit, LxxattrEntry,
    XattrRecord, XattrSlot,
};
use crate::distro::FsType;
use crate::ea_parse::{encode_chain, EaOut};
use crate::lxxattr::{lemma_lxxattr_unpadded, xattrs_size, LxxattrOut, LXXATTR_RECORD_HEADER};
use crate::wsl_file::{first_index, lemma_first_index, Field, PosixMeta, WslFileAttributes};
use crate::posix::DEFAULT_MODE;
use crate::time_utils::{lxfs_time_of, u64_to_lxfs_time, FileBasicInfo};

verus! {

/// `LXATTRB`, the name of the fixed record's entry.
pub open spec fn lxattrb_key() -> Seq<u8> {
    seq![0x4cu8, 0x58u8, 0x41u8, 0x54u8, 0x54u8, 0x52u8, 0x42u8]
}

/// `LXXATTR`, the name of the extended-attribute list's entry.
pub open spec fn lxxattr_key() -> Seq<u8> {
    seq![0x4cu8, 0x58u8, 0x58u8, 0x41u8, 0x54u8, 0x54u8, 0x52u8]
}

pub fn lxattrb_name() -> (r: Vec<u8>)
    ensures
        r@ == lxattrb_key(),
{
    let r = vec![0x4cu8, 0x58u8, 0x41u8, 0x54u8, 0x54u8, 0x52u8, 0x42u8];
    assert(r@ =~= lxattrb_key());
    r
}

pub fn lxxattr_name() -> (r: Vec<u8>)
    ensures
        r@ == lxxattr_key(),
{
    let r = vec![0x4cu8, 0x58u8, 0x58u8, 0x41u8, 0x54u8, 0x54u8, 0x52u8];
    assert(r@ =~= lxxattr_key());
    r
}

/// Bytes of an encoded [`EaLxattrbV1`].
pub const LXATTRB_SIZE: usize = 56;

/// The fixed record of the compact scheme, version 1.
#[derive(Copy, Clone, Debug, PartialEq, Eq, Structural)]
pub struct EaLxattrbV1 {
    /// Always 0.
    pub flags: u16,
    /// Always 1.
    pub version: u16,
    pub st_mode: u32,
    pub st_uid: u32,
    pub st_gid: u32,
    /// Device number, major and minor packed by [`make_dev`].
    pub st_rdev: u32,
    pub st_atime_nsec: u32,
    pub st_mtime_nsec: u32,
    pub st_ctime_nsec: u32,
    pub st_atime: u64,
    pub st_mtime: u64,
    pub st_ctime: u64,
}

/// The on-disk bytes of `r`, fields in order, little-endian.
pub open spec fn lxattrb_bytes(r: EaLxattrbV1) -> Seq<u8> {
    le16(r.flags) + le16(r.version) + le32(r.st_mode) + le32(r.st_uid) + le32(r.st_gid) + le32(
        r.st_rdev,
    ) + le32(r.st_atime_nsec) + le32(r.st_mtime_nsec) + le32(r.st_ctime_nsec) + le64(r.st_atime)
        + le64(r.st_mtime) + le64(r.st_ctime)
}

/// The record read from the first 56 bytes of `b`.
pub open spec fn lxattrb_at(b: Seq<u8>) -> EaLxattrbV1 {
    EaLxattrbV1 {
        flags: get_le16(b, 0),
        version: get_le16(b, 2),
        st_mode: get_le32(b, 4),
        st_uid: get_le32(b, 8),
        st_gid: get_le32(b, 12),
        st_rdev: get_le32(b, 16),
        st_atime_nsec: get_le32(b, 20),
        st_mtime_nsec: get_le32(b, 24),
        st_ctime_nsec: get_le32(b, 28),
        st_atime: get_le64(b, 32),
        st_mtime: get_le64(b, 40),
        st_ctime: get_le64(b, 48),
    }
}

/// The record an `LXATTRB` value holds; values shorter than a record are
/// malformed.
pub open spec fn decode_lxattrb(b: Seq<u8>) -> Option<EaLxattrbV1> {
    if b.len() < 56 {
        None
    } else {
        Some(lxattrb_at(b))
    }
}

/// The record given to a file that had none.
pub open spec fn default_lxattrb(info: Option<FileBasicInfo>) -> EaLxattrbV1 {
    let base = EaLxattrbV1 {
        flags: 0,
        version: 1,
        st_mode: DEFAULT_MODE,
        st_uid: 0,
        st_gid: 0,
        st_rdev: 0,
        st_atime_nsec: 0,
        st_mtime_nsec: 0,
        st_ctime_nsec: 0,
        st_atime: 0,
        st_mtime: 0,
        st_ctime: 0,
    };
    match info {
        None => base,
        Some(fbi) => EaLxattrbV1 {
            st_atime: lxfs_time_of(fbi.last_access_time).tv_sec,
            st_atime_nsec: lxfs_time_of(fbi.last_access_time).tv_nsec,
            st_mtime: lxfs_time_of(fbi.last_write_time).tv_sec,
            st_mtime_nsec: lxfs_time_of(fbi.last_write_time).tv_nsec,
            st_ctime: lxfs_time_of(fbi.change_time).tv_sec,
            st_ctime_nsec: lxfs_time_of(fbi.change_time).tv_nsec,
            ..base
        },
    }
}

/// `f` placed right after `x` is found at `x.len()`, whatever follows.
proof fn lemma_holds_concat(x: Seq<u8>, f: Seq<u8>, y: Seq<u8>)
    ensures
        holds_at(x + f + y, x.len() as int, f),
{
    assert forall|k: int| 0 <= k < f.len() implies #[trigger] (x + f + y)[x.len() + k] == f[k] by {
        assert((x + f)[x.len() + k] == f[k]);
    }
}

/// The encoded record decodes to itself.
#[verifier::spinoff_prover]
#[verifier::rlimit(50)]
pub proof fn lemma_lxattrb_round_trip(r: EaLxattrbV1)
    ensures
        decode_lxattrb(lxattrb_bytes(r)) == Some(r),
{
    let b = lxattrb_bytes(r);
    let h1 = le16(r.flags);
    let h2 = h1 + le16(r.version);
    let h3 = h2 + le32(r.st_mode);
    let h4 = h3 + le32(r.st_uid);
    let h5 = h4 + le32(r.st_gid);
    let h6 = h5 + le32(r.st_rdev);
    let h7 = h6 + le32(r.st_atime_nsec);
    let h8 = h7 + le32(r.st_mtime_nsec);
    let h9 = h8 + le32(r.st_ctime_nsec);
    let h10 = h9 + le64(r.st_atime);
    let h11 = h10 + le64(r.st_mtime);
    assert(b == h11 + le64(r.st_ctime));
    assert(b.len() == 56);
    assert(b =~= seq![] + le16(r.flags) + b.subrange(2, 56));
    lemma_holds_concat(seq![], le16(r.flags), b.subrange(2, 56));
    lemma_le16(b, 0, r.flags);
    assert(b =~= h1 + le16(r.version) + b.subrange(4, 56));
    lemma_holds_concat(h1, le16(r.version), b.subrange(4, 56));
    lemma_le16(b, 2, r.version);
    assert(b =~= h2 + le32(r.st_mode) + b.subrange(8, 56));
    lemma_holds_concat(h2, le32(r.st_mode), b.subrange(8, 56));
    lemma_le32(b, 4, r.st_mode);
    assert(b =~= h3 + le32(r.st_uid) + b.subrange(12, 56));
    lemma_holds_concat(h3, le32(r.st_uid), b.subrange(12, 56));
    lemma_le32(b, 8, r.st_uid);
    assert(b =~= h4 + le32(r.st_gid) + b.subrange(16, 56));
    lemma_holds_concat(h4, le32(r.st_gid), b.subrange(16, 56));
    lemma_le32(b, 12, r.st_gid);
    assert(b =~= h5 + le32(r.st_rdev) + b.subrange(20, 56));
    lemma_holds_concat(h5, le32(r.st_rdev), b.subrange(20, 56));
    lemma_le32(b, 16, r.st_rdev);
    assert(b =~= h6 + le32(r.st_atime_nsec) + b.subrange(24, 56));
    lemma_holds_concat(h6, le32(r.st_atime_nsec), b.subrange(24, 56));
    lemma_le32(b, 20, r.st_atime_nsec);
    assert(b =~= h7 + le32(r.st_mtime_nsec) + b.subrange(28, 56));
    lemma_holds_concat(h7, le32(r.st_mtime_nsec), b.subrange(28, 56));
    lemma_le32(b, 24, r.st_mtime_nsec);
    assert(b =~= h8 + le32(r.st_ctime_nsec) + b.subrange(32, 56));
    lemma_holds_concat(h8, le32(r.st_ctime_nsec), b.subrange(32, 56));
    lemma_le32(b, 28, r.st_ctime_nsec);
    assert(b =~= h9 + le64(r.st_atime) + b.subrange(40, 56));
    lemma_holds_concat(h9, le64(r.st_atime), b.subrange(40, 56));
    lemma_le64(b, 32, r.st_atime);
    assert(b =~= h10 + le64(r.st_mtime) + b.subrange(48, 56));
    lemma_holds_concat(h10, le64(r.st_mtime), b.subrange(48, 56));
    lemma_le64(b, 40, r.st_mtime);
    assert(b =~= h11 + le64(r.st_ctime) + seq![]);
    lemma_holds_concat(h11, le64(r.st_ctime), seq![]);
    lemma_le64(b, 48, r.st_ctime);
}

impl EaLxattrbV1 {
    /// The record for a file that had none: regular file, `rw-r--r--`,
    /// owned by root, times taken from `basic_file_info` where known.
    pub fn new(basic_file_info: &Option<FileBasicInfo>) -> (r: Self)
        ensures
            r == default_lxattrb(*basic_file_info),
    {
        let mut lxattrb = EaLxattrbV1 {
            flags: 0,
            version: 1,
            st_mode: DEFAULT_MODE,
            st_uid: 0,
            st_gid: 0,
            st_rdev: 0,
            st_atime_nsec: 0,
            st_mtime_nsec: 0,
            st_ctime_nsec: 0,
            st_atime: 0,
            st_mtime: 0,
            st_ctime: 0,
        };
        if let Some(fbi) = basic_file_info {
            let a = u64_to_lxfs_time(fbi.last_access_time);
            let m = u64_to_lxfs_time(fbi.last_write_time);
            let c = u64_to_lxfs_time(fbi.change_time);
            lxattrb.st_atime = a.tv_sec;
            lxattrb.st_atime_nsec = a.tv_nsec;
            lxattrb.st_mtime = m.tv_sec;
            lxattrb.st_mtime_nsec = m.tv_nsec;
            lxattrb.st_ctime = c.tv_sec;
            lxattrb.st_ctime_nsec = c.tv_nsec;
        }
        lxattrb
    }

    /// The on-disk bytes of the record.
    pub fn to_bytes(&self) -> (r: Vec<u8>)
        ensures
            r@ == lxattrb_bytes(*self),
    {
        let mut b: Vec<u8> = Vec::new();
        push_u16_le(&mut b, self.flags);
        push_u16_le(&mut b, self.version);
        push_u32_le(&mut b, self.st_mode);
        push_u32_le(&mut b, self.st_uid);
        push_u32_le(&mut b, self.st_gid);
        push_u32_le(&mut b, self.st_rdev);
        push_u32_le(&mut b, self.st_atime_nsec);
        push_u32_le(&mut b, self.st_mtime_nsec);
        push_u32_le(&mut b, self.st_ctime_nsec);
        push_u64_le(&mut b, self.st_atime);
        push_u64_le(&mut b, self.st_mtime);
        push_u64_le(&mut b, self.st_ctime);
        assert(b@ =~= lxattrb_bytes(*self));
        b
    }

    /// Reads a record from an `LXATTRB` value; extra bytes are ignored.
    pub fn from_bytes(b: &[u8]) -> (r: Option<Self>)
        ensures
            r == decode_lxattrb(b@),
    {
        if b.len() < LXATTRB_SIZE {
            return None;
        }
        Some(
            EaLxattrbV1 {
                flags: read_u16_le(b, 0),
                version: read_u16_le(b, 2),
                st_mode: read_u32_le(b, 4),
                st_uid: read_u32_le(b, 8),
                st_gid: read_u32_le(b, 12),
                st_rdev: read_u32_le(b, 16),
                st_atime_nsec: read_u32_le(b, 20),
                st_mtime_nsec: read_u32_le(b, 24),
                st_ctime_nsec: read_u32_le(b, 28),
                st_atime: read_u64_le(b, 32),
                st_mtime: read_u64_le(b, 40),
                st_ctime: read_u64_le(b, 48),
            },
        )
    }
}

/// Bits of the minor number in a packed device number.
pub const MINORBITS: u32 = 20;

pub const MINORMASK: u32 = 0xfffff;

pub open spec fn dev_major_of(dev: u32) -> u32 {
    dev >> 20u32
}

pub open spec fn dev_minor_of(dev: u32) -> u32 {
    dev & 0xfffffu32
}

pub open spec fn make_dev_of(ma: u32, mi: u32) -> u32 {
    (ma << 20u32) | mi
}

/// The major number of a packed device number.
pub fn dev_major(dev: u32) -> (r: u32)
    ensures
        r == dev_major_of(dev),
{
    dev >> MINORBITS
}

/// The minor number of a packed device number.
pub fn dev_minor(dev: u32) -> (r: u32)
    ensures
        r == dev_minor_of(dev),
{
    dev & MINORMASK
}

/// Packs a major and a minor number into one device number.
pub fn make_dev(ma: u32, mi: u32) -> (r: u32)
    ensures
        r == make_dev_of(ma, mi),
{
    (ma << MINORBITS) | mi
}

/// Packing a major number below 2^12 and a minor number below 2^20, then
/// unpacking, gives both back.
pub proof fn lemma_dev_round_trip(ma: u32, mi: u32)
    requires
        ma < 0x1000,
        mi < 0x100000,
    ensures
        dev_major_of(make_dev_of(ma, mi)) == ma,
        dev_minor_of(make_dev_of(ma, mi)) == mi,
{
    assert(((ma << 20u32) | mi) >> 20u32 == ma) by (bit_vector)
        requires
            ma < 0x1000,
            mi < 0x100000,
    ;
    assert(((ma << 20u32) | mi) & 0xfffffu32 == mi) by (bit_vector)
        requires
            mi < 0x100000,
    ;
}

/// Repacking the two halves of a device number gives it back.
pub proof fn lemma_dev_split_join(dev: u32)
    ensures
        make_dev_of(dev_major_of(dev), dev_minor_of(dev)) == dev,
{
    assert(((dev >> 20u32) << 20u32) | (dev & 0xfffffu32) == dev) by (bit_vector);
}

/// The compact scheme's metadata of one file.
pub struct LxfsParsed {
    pub lxattrb: Option<Field<EaLxattrbV1>>,
    pub lxxattr: Option<Vec<LxxattrEntry>>,
    /// Set once the list differs from what was read; only a changed list is
    /// written back.
    pub lxxattr_changed: bool,
    /// A symlink's target, which this scheme keeps as the file's content.
    pub symlink: Option<Vec<u8>>,
    /// Times used when a record has to be created.
    pub basic_file_info: Option<FileBasicInfo>,
}

/// What the compact scheme reads from a file's entries: the last `LXATTRB`
/// record and the last `LXXATTR` list; any malformed one fails.
pub open spec fn lxfs_scan(s: Seq<EaRecord>) -> Result<
    (Option<EaLxattrbV1>, Option<Seq<XattrRecord>>),
    AttrError,
>
    decreases s.len(),
{
    if s.len() == 0 {
        Ok((None, None))
    } else {
        match lxfs_scan(s.drop_last()) {
            Err(e) => Err(e),
            Ok((a, x)) => {
                let e = s.last();
                if e.name == lxattrb_key() {
                    match decode_lxattrb(e.value) {
                        Some(r) => Ok((Some(r), x)),
                        None => Err(AttrError::MalformedChain),
                    }
                } else if e.name == lxxattr_key() {
                    match decode_lxxattr(e.value) {
                        Some(l) => Ok((a, Some(l))),
                        None => Err(AttrError::MalformedChain),
                    }
                } else {
                    Ok((a, x))
                }
            },
        }
    }
}

/// The entries of an optional EA buffer.
pub open spec fn entries_of(ea_parsed: Option<Vec<EaEntry>>) -> Seq<EaRecord> {
    match ea_parsed {
        Some(v) => records_of(v@),
        None => seq![],
    }
}

pub open spec fn slots_of_records(l: Seq<XattrRecord>) -> Seq<XattrSlot> {
    l.map_values(|x: XattrRecord| slot_of(x))
}

/// `slots` with the first slot named `name` given `value`, or with such a
/// slot appended.
pub open spec fn slot_upsert(slots: Seq<XattrSlot>, name: Seq<u8>, value: Seq<u8>) -> Seq<XattrSlot> {
    let i = first_index(slots.map_values(|x: XattrSlot| x.name), name);
    let slot = XattrSlot { name, value: Some(value) };
    if i >= 0 {
        slots.update(i, slot)
    } else {
        slots.push(slot)
    }
}

/// `slots` with the first slot named `name` marked for removal.
pub open spec fn slot_mark_removed(slots: Seq<XattrSlot>, name: Seq<u8>) -> Seq<XattrSlot> {
    let i = first_index(slots.map_values(|x: XattrSlot| x.name), name);
    if i >= 0 {
        slots.update(i, XattrSlot { name, value: None })
    } else {
        slots
    }
}

/// The attributes a list keeps when saved: those not marked for removal.
pub open spec fn kept_xattrs(slots: Seq<XattrSlot>) -> Seq<XattrRecord>
    decreases slots.len(),
{
    if slots.len() == 0 {
        seq![]
    } else {
        let rest = kept_xattrs(slots.drop_last());
        match slots.last().value {
            Some(v) => rest.push(XattrRecord { name: slots.last().name, value: v }),
            None => rest,
        }
    }
}

/// Once a prefix of the entries is rejected, all of them are, for the same
/// reason.
proof fn lemma_scan_err_prefix(s: Seq<EaRecord>, k: int)
    requires
        0 <= k <= s.len(),
        lxfs_scan(s.take(k)) is Err,
    ensures
        lxfs_scan(s) == lxfs_scan(s.take(k)),
    decreases s.len() - k,
{
    if k < s.len() {
        assert(s.take(k + 1).drop_last() =~= s.take(k));
        lemma_scan_err_prefix(s, k + 1);
    } else {
        assert(s.take(k) =~= s);
    }
}

impl LxfsParsed {
    pub open spec fn record(&self) -> Option<EaLxattrbV1> {
        match self.lxattrb {
            Some(f) => Some(f.value()),
            None => None,
        }
    }

    /// The record that a change starts from.
    pub open spec fn record_or_default(&self) -> EaLxattrbV1 {
        match self.lxattrb {
            Some(f) => f.value(),
            None => default_lxattrb(self.basic_file_info),
        }
    }

    pub open spec fn slots(&self) -> Option<Seq<XattrSlot>> {
        match self.lxxattr {
            Some(v) => Some(slots_of(v@)),
            None => None,
        }
    }

    pub open spec fn slots_or_empty(&self) -> Seq<XattrSlot> {
        match self.lxxattr {
            Some(v) => slots_of(v@),
            None => seq![],
        }
    }

    /// The entries that `save` writes: the record where it changed, then
    /// the list where there is one.
    pub open spec fn save_records(&self) -> Seq<EaRecord> {
        let a: Seq<EaRecord> = match self.lxattrb {
            Some(Field::Changed(r)) => seq![
                EaRecord { flags: 0, name: lxattrb_key(), value: lxattrb_bytes(r) },
            ],
            _ => seq![],
        };
        a + self.save_tail()
    }

    /// The list entry that `save` writes, if any.
    pub open spec fn save_tail(&self) -> Seq<EaRecord> {
        match self.lxxattr {
            Some(v) => if !self.lxxattr_changed {
                seq![]
            } else {
                seq![
                EaRecord {
                    flags: 0,
                    name: lxxattr_key(),
                    value: encode_lxxattr(kept_xattrs(slots_of(v@))),
                },
            ]
            },
            None => seq![],
        }
    }

    /// `save` can encode the list.
    pub open spec fn save_fits(&self) -> bool {
        match self.lxxattr {
            Some(v) => !self.lxxattr_changed || xattrs_fit(kept_xattrs(slots_of(v@))) && encode_lxxattr(
                kept_xattrs(slots_of(v@)),
            ).len() <= 65535,
            None => true,
        }
    }

    /// Reads the compact scheme's metadata out of a file's entries. The
    /// symlink target, kept as file content, is left for the caller to read.
    pub fn load(basic_file_info: Option<FileBasicInfo>, ea_parsed: &Option<Vec<EaEntry>>) -> (r:
        Result<Self, AttrError>)
        ensures
            r is Ok <==> lxfs_scan(entries_of(*ea_parsed)) is Ok,
            r is Err ==> r == Err::<Self, AttrError>(lxfs_scan(entries_of(*ea_parsed))->Err_0),
            r matches Ok(p) ==> {
                let (a, x) = lxfs_scan(entries_of(*ea_parsed))->Ok_0;
                &&& p.record() == a
                &&& p.lxattrb matches Some(f) ==> f is Loaded
                &&& p.slots() == match x {
                    Some(l) => Some(slots_of_records(l)),
                    None => None,
                }
                &&& !p.lxxattr_changed
                &&& p.symlink is None
                &&& p.basic_file_info == basic_file_info
            },
    {
        let mut lxattrb: Option<EaLxattrbV1> = None;
        let mut lxxattr: Option<Vec<LxxattrEntry>> = None;
        let ghost s = entries_of(*ea_parsed);
        let ghost mut xs: Option<Seq<XattrRecord>> = None;
        if let Some(entries) = ea_parsed {
            let key_b = lxattrb_name();
            let key_x = lxxattr_name();
            let mut i: usize = 0;
            assert(s.take(0) =~= seq![]);
            while i < entries.len()
                invariant
                    s == records_of(entries@),
                    s == entries_of(*ea_parsed),
                    key_b@ == lxattrb_key(),
                    key_x@ == lxxattr_key(),
                    i <= entries@.len(),
                    lxfs_scan(s.take(i as int)) == Ok::<
                        (Option<EaLxattrbV1>, Option<Seq<XattrRecord>>),
                        AttrError,
                    >((lxattrb, xs)),
                    lxxattr is Some <==> xs is Some,
                    lxxattr matches Some(v) ==> slots_of(v@) == slots_of_records(xs->Some_0),
                decreases entries@.len() - i,
            {
                assert(s.take(i + 1).drop_last() =~= s.take(i as int));
                assert(s.take(i + 1).last() == s[i as int]);
                let e = &entries[i];
                if bytes_eq(e.name.as_slice(), key_b.as_slice()) {
                    match EaLxattrbV1::from_bytes(e.value.as_slice()) {
                        Some(rec) => {
                            lxattrb = Some(rec);
                        },
                        None => {
                            proof {
                                lemma_scan_err_prefix(s, i + 1);
                            }
                            return Err(AttrError::MalformedChain);
                        },
                    }
                } else if bytes_eq(e.name.as_slice(), key_x.as_slice()) {
                    match parse_lxxattr(e.value.as_slice()) {
                        Ok(list) => {
                            proof {
                                xs = decode_lxxattr(e.value@);
                            }
                            lxxattr = Some(list);
                        },
                        Err(err) => {
                            proof {
                                lemma_scan_err_prefix(s, i + 1);
                            }
                            return Err(err);
                        },
                    }
                }
                i = i + 1;
            }
            assert(s.take(i as int) =~= s);
        } else {
            assert(s =~= seq![]);
        }
        let p = LxfsParsed {
            lxattrb: match lxattrb {
                Some(rec) => Some(Field::Loaded(rec)),
                None => None,
            },
            lxxattr,
            lxxattr_changed: false,
            symlink: None,
            basic_file_info,
        };
        Ok(p)
    }
}

proof fn lemma_xattrs_size_prefix(s: Seq<XattrRecord>, i: int)
    requires
        0 <= i <= s.len(),
    ensures
        xattrs_size(s.take(i)) <= xattrs_size(s),
    decreases s.len() - i,
{
    if i < s.len() {
        lemma_xattrs_size_prefix(s, i + 1);
        assert(s.take(i + 1).drop_last() =~= s.take(i));
    } else {
        assert(s.take(i) =~= s);
    }
}

/// The entries of `list` that are not marked for removal, copied.
fn kept_entries(list: &Vec<LxxattrEntry>) -> (r: Vec<LxxattrEntry>)
    ensures
        slots_of(r@) == slots_of_records(kept_xattrs(slots_of(list@))),
{
    let ghost slots = slots_of(list@);
    let mut kept: Vec<LxxattrEntry> = Vec::new();
    let mut i: usize = 0;
    assert(slots.take(0) =~= seq![]);
    assert(slots_of(kept@) =~= slots_of_records(kept_xattrs(slots.take(0))));
    while i < list.len()
        invariant
            i <= list@.len(),
            slots == slots_of(list@),
            slots_of(kept@) == slots_of_records(kept_xattrs(slots.take(i as int))),
        decreases list@.len() - i,
    {
        assert(slots.take(i + 1).drop_last() =~= slots.take(i as int));
        assert(slots.take(i + 1).last() == list@[i as int]@);
        let e = &list[i];
        match &e.value {
            Some(v) => {
                let ghost before = kept@;
                kept.push(
                    LxxattrEntry {
                        name: copy_range(e.name.as_slice(), 0, e.name.len()),
                        value: Some(copy_range(v.as_slice(), 0, v.len())),
                    },
                );
                proof {
                    let k0 = kept_xattrs(slots.take(i as int));
                    let x = XattrRecord { name: e.name@, value: v@ };
                    assert(e.name@.subrange(0, e.name@.len() as int) =~= e.name@);
                    assert(v@.subrange(0, v@.len() as int) =~= v@);
                    assert(slots_of(kept@) =~= slots_of(before).push(slot_of(x)));
                    assert(slots_of_records(k0.push(x)) =~= slots_of_records(k0).push(slot_of(x)));
                }
            },
            None => {},
        }
        i = i + 1;
    }
    assert(slots.take(i as int) =~= slots);
    kept
}

/// The records behind entries that all carry a value.
pub open spec fn records_of_kept(v: Seq<LxxattrEntry>) -> Seq<XattrRecord> {
    v.map_values(|e: LxxattrEntry| XattrRecord { name: e.name@, value: e.value.unwrap()@ })
}

proof fn lemma_kept_records(v: Seq<LxxattrEntry>, recs: Seq<XattrRecord>)
    requires
        slots_of(v) == slots_of_records(recs),
    ensures
        records_of_kept(v) == recs,
        forall|j: int| 0 <= j < v.len() ==> (#[trigger] v[j]).value is Some,
{
    assert(slots_of(v).len() == v.len());
    assert(slots_of_records(recs).len() == recs.len());
    assert forall|j: int| 0 <= j < v.len() implies (#[trigger] v[j]).value is Some by {
        assert(slots_of(v)[j] == v[j]@);
        assert(slots_of_records(recs)[j] == slot_of(recs[j]));
    }
    assert forall|j: int| 0 <= j < v.len() implies #[trigger] records_of_kept(v)[j] == recs[j] by {
        assert(slots_of(v)[j] == v[j]@);
        assert(slots_of_records(recs)[j] == slot_of(recs[j]));
        assert(v[j].value->Some_0@ == recs[j].value);
    }
    assert(records_of_kept(v) =~= recs);
}

/// Encodes a list whose entries all carry a value; `None` where it does not
/// fit an `LXXATTR` value.
pub fn encode_kept(kept: &Vec<LxxattrEntry>) -> (r: Option<Vec<u8>>)
    requires
        forall|j: int| 0 <= j < kept@.len() ==> (#[trigger] kept@[j]).value is Some,
    ensures
        r is Some <==> (xattrs_fit(records_of_kept(kept@)) && encode_lxxattr(
            records_of_kept(kept@),
        ).len() <= 65535),
        r matches Some(b) ==> b@ == encode_lxxattr(records_of_kept(kept@)),
{
    let ghost recs = records_of_kept(kept@);
    let mut out = LxxattrOut::new();
    let mut i: usize = 0;
    assert(recs.take(0) =~= seq![]);
    while i < kept.len()
        invariant
            i <= kept@.len(),
            recs == records_of_kept(kept@),
            forall|j: int| 0 <= j < kept@.len() ==> (#[trigger] kept@[j]).value is Some,
            out.wf(),
            out@ == recs.take(i as int),
            xattrs_fit(recs.take(i as int)),
            i > 0 ==> encode_lxxattr(recs.take(i as int)).len() <= 65535,
        decreases kept@.len() - i,
    {
        let e = &kept[i];
        let v = match &e.value {
            Some(v) => v,
            None => {
                return None;
            },
        };
        assert(recs[i as int] == XattrRecord { name: e.name@, value: v@ });
        if e.name.len() > 255 || v.len() > 65535 {
            assert(!recs[i as int].fits());
            return None;
        }
        let cur = out.buffer().len();
        let size = LXXATTR_RECORD_HEADER + e.name.len() + v.len();
        let header: usize = if i == 0 { 4 } else { 0 };
        proof {
            let t = recs.take(i + 1);
            assert(t.drop_last() =~= recs.take(i as int));
            assert(xattrs_fit(t));
            lemma_lxxattr_unpadded(t);
            if i > 0 {
                lemma_lxxattr_unpadded(recs.take(i as int));
            } else {
                assert(recs.take(0) =~= seq![]);
            }
            assert(encode_lxxattr(t).len() == cur + header + size);
        }
        if cur + header + size > 65535 {
            proof {
                let t = recs.take(i + 1);
                lemma_xattrs_size_prefix(recs, i + 1);
                if xattrs_fit(recs) {
                    lemma_lxxattr_unpadded(recs);
                }
            }
            return None;
        }
        out.add(e.name.as_slice(), v.as_slice());
        proof {
            assert(recs.take(i + 1) =~= recs.take(i as int).push(recs[i as int]));
        }
        i = i + 1;
    }
    assert(recs.take(i as int) =~= recs);
    Some(out.into_buffer())
}

impl WslFileAttributes for LxfsParsed {
    open spec fn meta(&self) -> PosixMeta {
        match self.record() {
            Some(r) => PosixMeta {
                uid: Some(r.st_uid),
                gid: Some(r.st_gid),
                mode: Some(r.st_mode),
                dev_major: Some(dev_major_of(r.st_rdev)),
                dev_minor: Some(dev_minor_of(r.st_rdev)),
            },
            None => PosixMeta { uid: None, gid: None, mode: None, dev_major: None, dev_minor: None },
        }
    }

    open spec fn claimed(&self) -> bool {
        self.lxattrb is Some
    }

    fn fs_type(&self) -> (r: FsType)
        ensures
            r == FsType::Lxfs,
    {
        FsType::Lxfs
    }

    fn maybe(&self) -> (r: bool) {
        self.lxattrb.is_some()
    }

    fn get_uid(&self) -> (r: Option<u32>) {
        match &self.lxattrb {
            Some(f) => Some(f.get().st_uid),
            None => None,
        }
    }

    fn get_gid(&self) -> (r: Option<u32>) {
        match &self.lxattrb {
            Some(f) => Some(f.get().st_gid),
            None => None,
        }
    }

    fn get_mode(&self) -> (r: Option<u32>) {
        match &self.lxattrb {
            Some(f) => Some(f.get().st_mode),
            None => None,
        }
    }

    fn get_dev_major(&self) -> (r: Option<u32>) {
        match &self.lxattrb {
            Some(f) => Some(dev_major(f.get().st_rdev)),
            None => None,
        }
    }

    fn get_dev_minor(&self) -> (r: Option<u32>) {
        match &self.lxattrb {
            Some(f) => Some(dev_minor(f.get().st_rdev)),
            None => None,
        }
    }

    fn set_uid(&mut self, uid: u32)
        ensures
            final(self).lxattrb == Some(
                Field::Changed(EaLxattrbV1 { st_uid: uid, ..old(self).record_or_default() }),
            ),
            final(self).lxxattr == old(self).lxxattr,
            final(self).lxxattr_changed == old(self).lxxattr_changed,
            final(self).symlink == old(self).symlink,
            final(self).basic_file_info == old(self).basic_file_info,
    {
        let mut rec = self.current_record();
        rec.st_uid = uid;
        self.lxattrb = Some(Field::Changed(rec));
    }

    fn set_gid(&mut self, gid: u32)
        ensures
            final(self).lxattrb == Some(
                Field::Changed(EaLxattrbV1 { st_gid: gid, ..old(self).record_or_default() }),
            ),
            final(self).lxxattr == old(self).lxxattr,
            final(self).lxxattr_changed == old(self).lxxattr_changed,
            final(self).symlink == old(self).symlink,
            final(self).basic_file_info == old(self).basic_file_info,
    {
        let mut rec = self.current_record();
        rec.st_gid = gid;
        self.lxattrb = Some(Field::Changed(rec));
    }

    fn set_mode(&mut self, mode: u32)
        ensures
            final(self).lxattrb == Some(
                Field::Changed(EaLxattrbV1 { st_mode: mode, ..old(self).record_or_default() }),
            ),
            final(self).lxxattr == old(self).lxxattr,
            final(self).lxxattr_changed == old(self).lxxattr_changed,
            final(self).symlink == old(self).symlink,
            final(self).basic_file_info == old(self).basic_file_info,
    {
        let mut rec = self.current_record();
        rec.st_mode = mode;
        self.lxattrb = Some(Field::Changed(rec));
    }

    fn set_dev_major(&mut self, dev_major: u32)
        ensures
            final(self).lxattrb == Some(
                Field::Changed(
                    EaLxattrbV1 {
                        st_rdev: make_dev_of(
                            dev_major,
                            dev_minor_of(old(self).record_or_default().st_rdev),
                        ),
                        ..old(self).record_or_default()
                    },
                ),
            ),
            final(self).lxxattr == old(self).lxxattr,
            final(self).lxxattr_changed == old(self).lxxattr_changed,
            final(self).symlink == old(self).symlink,
            final(self).basic_file_info == old(self).basic_file_info,
    {
        let mut rec = self.current_record();
        rec.st_rdev = make_dev(dev_major, dev_minor(rec.st_rdev));
        self.lxattrb = Some(Field::Changed(rec));
        proof {
            if dev_major < 0x1000 {
                assert(dev_minor_of(old(self).record_or_default().st_rdev) < 0x100000) by {
                    let d = old(self).record_or_default().st_rdev;
                    assert(d & 0xfffffu32 < 0x100000) by (bit_vector);
                }
                lemma_dev_round_trip(dev_major, dev_minor_of(old(self).record_or_default().st_rdev));
            }
        }
    }

    fn set_dev_minor(&mut self, dev_minor: u32)
        ensures
            final(self).lxattrb == Some(
                Field::Changed(
                    EaLxattrbV1 {
                        st_rdev: make_dev_of(
                            dev_major_of(old(self).record_or_default().st_rdev),
                            dev_minor,
                        ),
                        ..old(self).record_or_default()
                    },
                ),
            ),
            final(self).lxxattr == old(self).lxxattr,
            final(self).lxxattr_changed == old(self).lxxattr_changed,
            final(self).symlink == old(self).symlink,
            final(self).basic_file_info == old(self).basic_file_info,
    {
        let mut rec = self.current_record();
        rec.st_rdev = make_dev(dev_major(rec.st_rdev), dev_minor);
        self.lxattrb = Some(Field::Changed(rec));
        proof {
            if dev_minor < 0x100000 {
                let d = old(self).record_or_default().st_rdev;
                assert(((d >> 20u32) << 20u32 | dev_minor) & 0xfffffu32 == dev_minor) by (bit_vector)
                    requires
                        dev_minor < 0x100000,
                ;
            }
        }
    }

    fn set_attr(&mut self, name: &[u8], value: &[u8])
        ensures
            final(self).slots() == Some(slot_upsert(old(self).slots_or_empty(), name@, value@)),
            final(self).lxxattr_changed,
            final(self).lxattrb == old(self).lxattrb,
            final(self).symlink == old(self).symlink,
            final(self).basic_file_info == old(self).basic_file_info,
    {
        let mut list = match self.lxxattr.take() {
            Some(l) => l,
            None => Vec::new(),
        };
        let ghost slots0 = slots_of(list@);
        let ghost keys = slots0.map_values(|x: XattrSlot| x.name);
        assert(slots0 == old(self).slots_or_empty());
        let entry = LxxattrEntry {
            name: copy_range(name, 0, name.len()),
            value: Some(copy_range(value, 0, value.len())),
        };
        assert(name@.subrange(0, name@.len() as int) =~= name@);
        assert(value@.subrange(0, value@.len() as int) =~= value@);
        let mut i: usize = 0;
        while i < list.len()
            invariant
                i <= list@.len(),
                slots0 == slots_of(list@),
                keys == slots0.map_values(|x: XattrSlot| x.name),
                forall|j: int| 0 <= j < i ==> keys[j] != name@,
                entry@ == (XattrSlot { name: name@, value: Some(value@) }),
                slots0 == old(self).slots_or_empty(),
                self.lxattrb == old(self).lxattrb,
                self.lxxattr_changed == old(self).lxxattr_changed,
                self.symlink == old(self).symlink,
                self.basic_file_info == old(self).basic_file_info,
            decreases list@.len() - i,
        {
            if bytes_eq(list[i].name.as_slice(), name) {
                proof {
                    lemma_first_index(keys, name@, i as int);
                }
                let ghost before = list@;
                list[i] = entry;
                assert(slots_of(list@) =~= slots0.update(i as int, entry@));
                self.lxxattr = Some(list);
                self.lxxattr_changed = true;
                return;
            }
            i = i + 1;
        }
        proof {
            lemma_first_index(keys, name@, i as int);
        }
        let ghost before = list@;
        list.push(entry);
        assert(slots_of(list@) =~= slots0.push(entry@));
        self.lxxattr = Some(list);
        self.lxxattr_changed = true;
    }

    fn rm_attr(&mut self, name: &[u8])
        ensures
            final(self).slots() == Some(slot_mark_removed(old(self).slots_or_empty(), name@)),
            final(self).lxxattr_changed == (old(self).lxxattr_changed || first_index(
                old(self).slots_or_empty().map_values(|x: XattrSlot| x.name),
                name@,
            ) >= 0),
            final(self).lxattrb == old(self).lxattrb,
            final(self).symlink == old(self).symlink,
            final(self).basic_file_info == old(self).basic_file_info,
    {
        let mut list = match self.lxxattr.take() {
            Some(l) => l,
            None => Vec::new(),
        };
        let ghost slots0 = slots_of(list@);
        let ghost keys = slots0.map_values(|x: XattrSlot| x.name);
        assert(slots0 == old(self).slots_or_empty());
        let mut i: usize = 0;
        while i < list.len()
            invariant
                i <= list@.len(),
                slots0 == slots_of(list@),
                keys == slots0.map_values(|x: XattrSlot| x.name),
                forall|j: int| 0 <= j < i ==> keys[j] != name@,
                slots0 == old(self).slots_or_empty(),
                self.lxattrb == old(self).lxattrb,
                self.lxxattr_changed == old(self).lxxattr_changed,
                self.symlink == old(self).symlink,
                self.basic_file_info == old(self).basic_file_info,
            decreases list@.len() - i,
        {
            if bytes_eq(list[i].name.as_slice(), name) {
                proof {
                    lemma_first_index(keys, name@, i as int);
                }
                let entry = LxxattrEntry { name: copy_range(name, 0, name.len()), value: None };
                assert(name@.subrange(0, name@.len() as int) =~= name@);
                list[i] = entry;
                assert(slots_of(list@) =~= slots0.update(i as int, entry@));
                self.lxxattr = Some(list);
                self.lxxattr_changed = true;
                return;
            }
            i = i + 1;
        }
        proof {
            lemma_first_index(keys, name@, i as int);
        }
        self.lxxattr = Some(list);
    }

    #[verifier::spinoff_prover]
    #[verifier::rlimit(50)]
    fn save(&mut self) -> (r: Result<Vec<u8>, AttrError>)
        ensures
            r is Ok <==> old(self).save_fits(),
            r matches Ok(b) ==> b@ == encode_chain(old(self).save_records()),
            r is Ok ==> final(self).slots() == match old(self).lxxattr {
                Some(v) => if old(self).lxxattr_changed {
                    Some(slots_of_records(kept_xattrs(slots_of(v@))))
                } else {
                    Some(slots_of(v@))
                },
                None => None,
            },
            final(self).lxxattr_changed == old(self).lxxattr_changed,
            r is Err ==> r->Err_0 == AttrError::EntryTooLarge && final(self).slots()
                == old(self).slots(),
            final(self).lxattrb == old(self).lxattrb,
            final(self).symlink == old(self).symlink,
            final(self).basic_file_info == old(self).basic_file_info,
    {
        let mut ea_out = EaOut::new();
        let ghost mut recs: Seq<EaRecord> = seq![];
        if let Some(Field::Changed(rec)) = &self.lxattrb {
            let key = lxattrb_name();
            let bytes = rec.to_bytes();
            ea_out.add(key.as_slice(), bytes.as_slice());
            proof {
                recs = seq![EaRecord { flags: 0, name: lxattrb_key(), value: lxattrb_bytes(*rec) }];
                assert(seq![].push(recs[0]) =~= recs);
            }
        }
        assert(ea_out@ == recs);
        let mut kept_out: Option<Vec<LxxattrEntry>> = None;
        let ghost xs: Seq<EaRecord> = self.save_tail();
        if self.lxxattr_changed && self.lxxattr.is_some() {
            let list = self.lxxattr.as_ref().unwrap();
            let (encoded, kept) = match list_write(list) {
                Some(w) => w,
                None => {
                    return Err(AttrError::EntryTooLarge);
                },
            };
            let key = lxxattr_name();
            proof {
                lemma_ea_out_small(recs);
            }
            ea_out.add(key.as_slice(), encoded.as_slice());
            assert(ea_out@ =~= recs + xs);
            kept_out = Some(kept);
        } else {
            assert(recs + xs =~= recs);
        }
        let r = ea_out.into_buffer();
        if let Some(kept) = kept_out {
            self.lxxattr = Some(kept);
        }
        Ok(r)
    }
}

/// The `LXXATTR` value that saves `list`, and the entries the list keeps;
/// `None` where the list does not fit the value.
fn list_write(list: &Vec<LxxattrEntry>) -> (r: Option<(Vec<u8>, Vec<LxxattrEntry>)>)
    ensures
        r is Some <==> (xattrs_fit(kept_xattrs(slots_of(list@))) && encode_lxxattr(
            kept_xattrs(slots_of(list@)),
        ).len() <= 65535),
        r matches Some((b, k)) ==> b@ == encode_lxxattr(kept_xattrs(slots_of(list@))) && slots_of(
            k@,
        ) == slots_of_records(kept_xattrs(slots_of(list@))),
{
    let kept = kept_entries(list);
    proof {
        lemma_kept_records(kept@, kept_xattrs(slots_of(list@)));
    }
    match encode_kept(&kept) {
        Some(b) => Some((b, kept)),
        None => None,
    }
}

/// A chain of at most one record leaves room for another.
proof fn lemma_ea_out_small(recs: Seq<EaRecord>)
    requires
        recs.len() <= 1,
        recs.len() == 1 ==> recs[0].fits(),
    ensures
        encode_chain(recs).len() <= 65535 + 255 + 12,
{
    if recs.len() == 1 {
        assert(recs.drop_last() =~= seq![]);
        assert(encode_chain(recs) =~= recs[0].bytes(0));
    }
}

impl LxfsParsed {
    /// The record that a change starts from.
    fn current_record(&self) -> (r: EaLxattrbV1)
        ensures
            r == self.record_or_default(),
    {
        match &self.lxattrb {
            Some(f) => f.get(),
            None => EaLxattrbV1::new(&self.basic_file_info),
        }
    }
}

} // verus!
