//! The scattered scheme: four scalar entries (`$LXUID`, `$LXGID`, `$LXMOD`,
//! `$LXDEV`), one `LX.`-named entry per extended attribute, and a reparse
//! point recording special file types.
use vstd::prelude::*;

use crate::bytes::{bytes_eq, copy_range, get_le32, push_all, push_u32_le, read_u32_le, starts_with};
use crate::distro::FsType;
use crate::ea_parse::{encode_chain, encode_entries, records_of, EaEntry, EaRecord};
use crate::error::AttrError;
use crate::posix::StModeType;
use crate::escape_utils::{escape_bytes_octal, escaped_bytes};
use crate::text::{push_char, string_from_utf8, string_of};
use crate::wsl_file::{first_index, lemma_first_index, Field, PosixMeta, WslFileAttributes};

verus! {

pub open spec fn lxuid_key() -> Seq<u8> {
    seq![0x24u8, 0x4cu8, 0x58u8, 0x55u8, 0x49u8, 0x44u8]
}

pub open spec fn lxgid_key() -> Seq<u8> {
    seq![0x24u8, 0x4cu8, 0x58u8, 0x47u8, 0x49u8, 0x44u8]
}

pub open spec fn lxmod_key() -> Seq<u8> {
    seq![0x24u8, 0x4cu8, 0x58u8, 0x4du8, 0x4fu8, 0x44u8]
}

pub open spec fn lxdev_key() -> Seq<u8> {
    seq![0x24u8, 0x4cu8, 0x58u8, 0x44u8, 0x45u8, 0x56u8]
}

/// `LX.`, the prefix of the entries that hold extended attributes.
pub open spec fn lx_dot() -> Seq<u8> {
    seq![0x4cu8, 0x58u8, 0x2eu8]
}

/// `lxea`, the marker in front of each extended attribute's value.
pub open spec fn lxea() -> Seq<u8> {
    seq![0x6cu8, 0x78u8, 0x65u8, 0x61u8]
}

/// `$LXUID`
pub fn lxuid_name() -> (r: Vec<u8>)
    ensures
        r@ == lxuid_key(),
{
    let r = vec![0x24u8, 0x4cu8, 0x58u8, 0x55u8, 0x49u8, 0x44u8];
    assert(r@ =~= lxuid_key());
    r
}

/// `$LXGID`
pub fn lxgid_name() -> (r: Vec<u8>)
    ensures
        r@ == lxgid_key(),
{
    let r = vec![0x24u8, 0x4cu8, 0x58u8, 0x47u8, 0x49u8, 0x44u8];
    assert(r@ =~= lxgid_key());
    r
}

/// `$LXMOD`
pub fn lxmod_name() -> (r: Vec<u8>)
    ensures
        r@ == lxmod_key(),
{
    let r = vec![0x24u8, 0x4cu8, 0x58u8, 0x4du8, 0x4fu8, 0x44u8];
    assert(r@ =~= lxmod_key());
    r
}

/// `$LXDEV`
pub fn lxdev_name() -> (r: Vec<u8>)
    ensures
        r@ == lxdev_key(),
{
    let r = vec![0x24u8, 0x4cu8, 0x58u8, 0x44u8, 0x45u8, 0x56u8];
    assert(r@ =~= lxdev_key());
    r
}

fn lx_dot_prefix() -> (r: Vec<u8>)
    ensures
        r@ == lx_dot(),
{
    let r = vec![0x4cu8, 0x58u8, 0x2eu8];
    assert(r@ =~= lx_dot());
    r
}

fn lxea_marker() -> (r: Vec<u8>)
    ensures
        r@ == lxea(),
{
    let r = vec![0x6cu8, 0x78u8, 0x65u8, 0x61u8];
    assert(r@ =~= lxea());
    r
}

/// A device number as the scattered scheme stores it.
#[derive(Clone, Copy, Debug, Default, PartialEq, Eq, Structural)]
pub struct Lxdev {
    pub major: u32,
    pub minor: u32,
}

/// `b` with ASCII capitals made small.
pub open spec fn ascii_lower(b: Seq<u8>) -> Seq<u8> {
    b.map_values(|c: u8| if 65 <= c <= 90 { (c + 32) as u8 } else { c })
}

/// The attribute name an `LX.` entry name stands for: the prefix dropped,
/// lower case.
pub open spec fn dot_name(name_ea: Seq<u8>) -> Seq<u8> {
    if name_ea.len() >= 3 {
        ascii_lower(name_ea.subrange(3, name_ea.len() as int))
    } else {
        seq![]
    }
}

/// The attribute value an `LX.` entry value stands for: the marker dropped
/// where it is present.
pub open spec fn dot_value(value_ea: Seq<u8>) -> Seq<u8> {
    if value_ea.len() >= 4 && value_ea.subrange(0, 4) == lxea() {
        value_ea.subrange(4, value_ea.len() as int)
    } else {
        value_ea
    }
}

/// One extended attribute of the scattered scheme: its whole EA entry.
pub struct LxDotAttr {
    pub ea: EaEntry,
    /// Set once the value differs from what was read; only changed
    /// attributes are written back.
    pub changed: bool,
}

pub struct DotView {
    pub ea: EaRecord,
    pub changed: bool,
}

impl View for LxDotAttr {
    type V = DotView;

    open spec fn view(&self) -> DotView {
        DotView { ea: self.ea@, changed: self.changed }
    }
}

pub open spec fn dots_of(v: Seq<LxDotAttr>) -> Seq<DotView> {
    v.map_values(|d: LxDotAttr| d@)
}

/// The attribute names of a list, as compared by `set_attr` and `rm_attr`.
pub open spec fn dot_keys(ds: Seq<DotView>) -> Seq<Seq<u8>> {
    ds.map_values(|d: DotView| dot_name(d.ea.name))
}

/// `p` followed by `s`, copied.
fn concat(p: &[u8], s: &[u8]) -> (r: Vec<u8>)
    ensures
        r@ == p@ + s@,
{
    let mut r: Vec<u8> = Vec::new();
    push_all(&mut r, p);
    push_all(&mut r, s);
    assert(r@ =~= p@ + s@);
    r
}

/// ASCII capitals made small.
fn to_ascii_lower(b: &[u8]) -> (r: Vec<u8>)
    ensures
        r@ == ascii_lower(b@),
{
    let mut r: Vec<u8> = Vec::new();
    let mut i: usize = 0;
    while i < b.len()
        invariant
            i <= b@.len(),
            r@ == ascii_lower(b@.subrange(0, i as int)),
        decreases b@.len() - i,
    {
        let c = b[i];
        let d = if 65 <= c && c <= 90 {
            c + 32
        } else {
            c
        };
        r.push(d);
        i = i + 1;
        assert(r@ =~= ascii_lower(b@.subrange(0, i as int)));
    }
    assert(b@.subrange(0, b@.len() as int) =~= b@);
    r
}

impl LxDotAttr {
    /// A new attribute `name` holding `value`.
    pub fn new_owned(name: &[u8], value: &[u8]) -> (r: Self)
        ensures
            r@ == (DotView {
                ea: EaRecord { flags: 0, name: lx_dot() + name@, value: lxea() + value@ },
                changed: true,
            }),
    {
        let p = lx_dot_prefix();
        let m = lxea_marker();
        LxDotAttr {
            ea: EaEntry { flags: 0, name: concat(p.as_slice(), name), value: concat(m.as_slice(), value) },
            changed: true,
        }
    }

    pub fn set_value(&mut self, value: &[u8])
        ensures
            final(self)@ == (DotView {
                ea: EaRecord { value: lxea() + value@, ..old(self)@.ea },
                changed: true,
            }),
    {
        let m = lxea_marker();
        self.ea.value = concat(m.as_slice(), value);
        self.changed = true;
    }

    /// Empties the value, which deletes the entry when saved.
    pub fn set_value_to_rm(&mut self)
        ensures
            final(self)@ == (DotView {
                ea: EaRecord { value: Seq::empty(), ..old(self)@.ea },
                changed: true,
            }),
    {
        self.ea.value = Vec::new();
        self.changed = true;
    }

    /// The EA name, `LX.` included.
    pub fn name_ea(&self) -> (r: &[u8])
        ensures
            r@ == self.ea.name@,
    {
        self.ea.name.as_slice()
    }

    /// The attribute name: `LX.` dropped, lower case.
    pub fn name(&self) -> (r: Vec<u8>)
        ensures
            r@ == dot_name(self.ea.name@),
    {
        if self.ea.name.len() >= 3 {
            let rest = copy_range(self.ea.name.as_slice(), 3, self.ea.name.len());
            to_ascii_lower(rest.as_slice())
        } else {
            let r = Vec::new();
            assert(r@ =~= dot_name(self.ea.name@));
            r
        }
    }

    /// The attribute name for display; `NAME_ERROR` where it is not UTF-8.
    pub fn name_display(&self) -> (r: String)
        ensures
            r@ == (if vstd::utf8::valid_utf8(dot_name(self.ea.name@)) {
                vstd::utf8::decode_utf8(dot_name(self.ea.name@))
            } else {
                "NAME_ERROR"@
            }),
    {
        match string_from_utf8(self.name()) {
            Some(s) => s,
            None => string_of("NAME_ERROR"),
        }
    }

    /// The attribute value for display: quoted and escaped, marked
    /// `INVALID: ` where the value lacks its marker.
    pub fn value_display(&self) -> (r: String)
        ensures
            r@ == (if self.ea.value@.len() >= 4 && self.ea.value@.subrange(0, 4) == lxea() {
                seq!['"'] + escaped_bytes(dot_value(self.ea.value@), true) + seq!['"']
            } else {
                "INVALID: "@ + seq!['"'] + escaped_bytes(self.ea.value@, true) + seq!['"']
            }),
    {
        let m = lxea_marker();
        let mut out = if starts_with(self.ea.value.as_slice(), m.as_slice()) {
            String::new()
        } else {
            string_of("INVALID: ")
        };
        let bytes = if starts_with(self.ea.value.as_slice(), m.as_slice()) {
            self.value()
        } else {
            copy_range(self.ea.value.as_slice(), 0, self.ea.value.len())
        };
        assert(bytes@ =~= dot_value(self.ea.value@) || !(self.ea.value@.len() >= 4
            && self.ea.value@.subrange(0, 4) == lxea()));
        let ghost start = out@;
        push_char(&mut out, '"');
        escape_bytes_octal(bytes.as_slice(), &mut out, true);
        push_char(&mut out, '"');
        proof {
            if !(self.ea.value@.len() >= 4 && self.ea.value@.subrange(0, 4) == lxea()) {
                assert(bytes@ =~= self.ea.value@);
            }
            assert(out@ =~= start + seq!['"'] + escaped_bytes(bytes@, true) + seq!['"']);
        }
        out
    }

    /// The attribute value: the marker dropped where present.
    pub fn value(&self) -> (r: Vec<u8>)
        ensures
            r@ == dot_value(self.ea.value@),
    {
        let m = lxea_marker();
        if starts_with(self.ea.value.as_slice(), m.as_slice()) {
            copy_range(self.ea.value.as_slice(), 4, self.ea.value.len())
        } else {
            let r = copy_range(self.ea.value.as_slice(), 0, self.ea.value.len());
            assert(r@ =~= self.ea.value@);
            r
        }
    }
}

/// What the scattered scheme reads from a file's entries.
pub struct WslfsScan {
    pub uid: Option<u32>,
    pub gid: Option<u32>,
    pub mode: Option<u32>,
    pub dev: Option<Lxdev>,
    pub dots: Seq<EaRecord>,
}

/// A scalar value: its first four bytes, little-endian.
pub open spec fn decode_scalar(v: Seq<u8>) -> Option<u32> {
    if v.len() < 4 {
        None
    } else {
        Some(get_le32(v, 0))
    }
}

/// A device value: major then minor, four bytes each.
pub open spec fn decode_lxdev(v: Seq<u8>) -> Option<Lxdev> {
    if v.len() < 8 {
        None
    } else {
        Some(Lxdev { major: get_le32(v, 0), minor: get_le32(v, 4) })
    }
}

/// The last value of each scalar entry and every `LX.` entry, in order; a
/// scalar value too short to hold its number fails.
pub open spec fn wslfs_scan(s: Seq<EaRecord>) -> Result<WslfsScan, AttrError>
    decreases s.len(),
{
    if s.len() == 0 {
        Ok(WslfsScan { uid: None, gid: None, mode: None, dev: None, dots: seq![] })
    } else {
        match wslfs_scan(s.drop_last()) {
            Err(e) => Err(e),
            Ok(p) => {
                let e = s.last();
                if e.name == lxuid_key() {
                    match decode_scalar(e.value) {
                        Some(x) => Ok(WslfsScan { uid: Some(x), ..p }),
                        None => Err(AttrError::MalformedChain),
                    }
                } else if e.name == lxgid_key() {
                    match decode_scalar(e.value) {
                        Some(x) => Ok(WslfsScan { gid: Some(x), ..p }),
                        None => Err(AttrError::MalformedChain),
                    }
                } else if e.name == lxmod_key() {
                    match decode_scalar(e.value) {
                        Some(x) => Ok(WslfsScan { mode: Some(x), ..p }),
                        None => Err(AttrError::MalformedChain),
                    }
                } else if e.name == lxdev_key() {
                    match decode_lxdev(e.value) {
                        Some(x) => Ok(WslfsScan { dev: Some(x), ..p }),
                        None => Err(AttrError::MalformedChain),
                    }
                } else if e.name.len() >= 3 && e.name.subrange(0, 3) == lx_dot() {
                    Ok(WslfsScan { dots: p.dots.push(e), ..p })
                } else {
                    Ok(p)
                }
            },
        }
    }
}

proof fn lemma_wslfs_scan_err_prefix(s: Seq<EaRecord>, k: int)
    requires
        0 <= k <= s.len(),
        wslfs_scan(s.take(k)) is Err,
    ensures
        wslfs_scan(s) == wslfs_scan(s.take(k)),
    decreases s.len() - k,
{
    if k < s.len() {
        assert(s.take(k + 1).drop_last() =~= s.take(k));
        lemma_wslfs_scan_err_prefix(s, k + 1);
    } else {
        assert(s.take(k) =~= s);
    }
}

pub open spec fn field_value<T>(f: Option<Field<T>>) -> Option<T> {
    match f {
        Some(Field::Loaded(v)) => Some(v),
        Some(Field::Changed(v)) => Some(v),
        None => None,
    }
}

/// The scattered scheme's metadata of one file.
pub struct WslfsParsed {
    pub lxuid: Option<Field<u32>>,
    pub lxgid: Option<Field<u32>>,
    pub lxmod: Option<Field<u32>>,
    pub lxdev: Option<Field<Lxdev>>,
    pub lx_dot_ea: Vec<LxDotAttr>,
    /// The file type a reparse point records.
    pub reparse_tag: Option<StModeType>,
    /// A symlink's target, kept in the reparse point.
    pub symlink: Option<Vec<u8>>,
}

/// The record written for a changed scalar.
pub open spec fn changed_scalar(key: Seq<u8>, f: Option<Field<u32>>) -> Seq<EaRecord> {
    match f {
        Some(Field::Changed(x)) => seq![EaRecord { flags: 0, name: key, value: crate::bytes::le32(x) }],
        _ => seq![],
    }
}

/// The entries of the attributes that changed, in order.
pub open spec fn changed_dots(ds: Seq<DotView>) -> Seq<EaRecord>
    decreases ds.len(),
{
    if ds.len() == 0 {
        seq![]
    } else if ds.last().changed {
        changed_dots(ds.drop_last()).push(ds.last().ea)
    } else {
        changed_dots(ds.drop_last())
    }
}

/// The attributes left after a save: all but those emptied for removal.
pub open spec fn kept_dots(ds: Seq<DotView>) -> Seq<DotView>
    decreases ds.len(),
{
    if ds.len() == 0 {
        seq![]
    } else if ds.last().changed && ds.last().ea.value.len() == 0 {
        kept_dots(ds.drop_last())
    } else {
        kept_dots(ds.drop_last()).push(ds.last())
    }
}

impl WslfsParsed {
    pub open spec fn dots(&self) -> Seq<DotView> {
        dots_of(self.lx_dot_ea@)
    }

    /// The entries that `save` writes.
    pub open spec fn save_records(&self) -> Seq<EaRecord> {
        let dev: Seq<EaRecord> = match self.lxdev {
            Some(Field::Changed(d)) => seq![
                EaRecord {
                    flags: 0,
                    name: lxdev_key(),
                    value: crate::bytes::le32(d.major) + crate::bytes::le32(d.minor),
                },
            ],
            _ => seq![],
        };
        changed_scalar(lxuid_key(), self.lxuid) + changed_scalar(lxgid_key(), self.lxgid)
            + changed_scalar(lxmod_key(), self.lxmod) + dev + changed_dots(self.dots())
    }

    /// Reads the scattered scheme's metadata out of a file's entries and its
    /// reparse tag. A symlink's target, kept in the reparse point, is left
    /// for the caller to read.
    pub fn load(reparse_tag: Option<u32>, ea_parsed: &Option<Vec<EaEntry>>) -> (r: Result<
        Self,
        AttrError,
    >)
        ensures
            r is Ok <==> wslfs_scan(crate::lxfs::entries_of(*ea_parsed)) is Ok,
            r is Err ==> r == Err::<Self, AttrError>(
                wslfs_scan(crate::lxfs::entries_of(*ea_parsed))->Err_0,
            ),
            r matches Ok(p) ==> {
                let sc = wslfs_scan(crate::lxfs::entries_of(*ea_parsed))->Ok_0;
                &&& field_value(p.lxuid) == sc.uid
                &&& field_value(p.lxgid) == sc.gid
                &&& field_value(p.lxmod) == sc.mode
                &&& field_value(p.lxdev) == sc.dev
                &&& !(p.lxuid matches Some(Field::Changed(_)))
                &&& !(p.lxgid matches Some(Field::Changed(_)))
                &&& !(p.lxmod matches Some(Field::Changed(_)))
                &&& !(p.lxdev matches Some(Field::Changed(_)))
                &&& p.dots() == sc.dots.map_values(|e: EaRecord| DotView { ea: e, changed: false })
                &&& p.reparse_tag == match reparse_tag {
                    Some(t) => Some(tag_type(t)),
                    None => None,
                }
                &&& p.symlink is None
            },
    {
        let ghost s = crate::lxfs::entries_of(*ea_parsed);
        let mut uid: Option<u32> = None;
        let mut gid: Option<u32> = None;
        let mut mode: Option<u32> = None;
        let mut dev: Option<Lxdev> = None;
        let mut dots: Vec<LxDotAttr> = Vec::new();
        if let Some(entries) = ea_parsed {
            let k_uid = lxuid_name();
            let k_gid = lxgid_name();
            let k_mod = lxmod_name();
            let k_dev = lxdev_name();
            let k_dot = lx_dot_prefix();
            let mut i: usize = 0;
            assert(s.take(0) =~= seq![]);
            assert(dots_of(dots@) =~= seq![]);
            while i < entries.len()
                invariant
                    s == records_of(entries@),
                    s == crate::lxfs::entries_of(*ea_parsed),
                    k_uid@ == lxuid_key(),
                    k_gid@ == lxgid_key(),
                    k_mod@ == lxmod_key(),
                    k_dev@ == lxdev_key(),
                    k_dot@ == lx_dot(),
                    i <= entries@.len(),
                    wslfs_scan(s.take(i as int)) is Ok,
                    ({
                        let sc = wslfs_scan(s.take(i as int))->Ok_0;
                        &&& sc.uid == uid
                        &&& sc.gid == gid
                        &&& sc.mode == mode
                        &&& sc.dev == dev
                        &&& dots_of(dots@) == sc.dots.map_values(
                            |e: EaRecord| DotView { ea: e, changed: false },
                        )
                    }),
                decreases entries@.len() - i,
            {
                assert(s.take(i + 1).drop_last() =~= s.take(i as int));
                assert(s.take(i + 1).last() == s[i as int]);
                let e = &entries[i];
                let name = e.name.as_slice();
                if bytes_eq(name, k_uid.as_slice()) {
                    if e.value.len() < 4 {
                        proof {
                            lemma_wslfs_scan_err_prefix(s, i + 1);
                        }
                        return Err(AttrError::MalformedChain);
                    }
                    uid = Some(read_u32_le(e.value.as_slice(), 0));
                } else if bytes_eq(name, k_gid.as_slice()) {
                    if e.value.len() < 4 {
                        proof {
                            lemma_wslfs_scan_err_prefix(s, i + 1);
                        }
                        return Err(AttrError::MalformedChain);
                    }
                    gid = Some(read_u32_le(e.value.as_slice(), 0));
                } else if bytes_eq(name, k_mod.as_slice()) {
                    if e.value.len() < 4 {
                        proof {
                            lemma_wslfs_scan_err_prefix(s, i + 1);
                        }
                        return Err(AttrError::MalformedChain);
                    }
                    mode = Some(read_u32_le(e.value.as_slice(), 0));
                } else if bytes_eq(name, k_dev.as_slice()) {
                    if e.value.len() < 8 {
                        proof {
                            lemma_wslfs_scan_err_prefix(s, i + 1);
                        }
                        return Err(AttrError::MalformedChain);
                    }
                    dev = Some(
                        Lxdev {
                            major: read_u32_le(e.value.as_slice(), 0),
                            minor: read_u32_le(e.value.as_slice(), 4),
                        },
                    );
                } else if starts_with(name, k_dot.as_slice()) {
                    let ghost before = dots@;
                    let d = LxDotAttr { ea: e.copy(), changed: false };
                    dots.push(d);
                    proof {
                        let sc = wslfs_scan(s.take(i as int))->Ok_0;
                        let f = |x: EaRecord| DotView { ea: x, changed: false };
                        assert(dots_of(dots@) =~= dots_of(before).push(d@));
                        assert(sc.dots.push(e@).map_values(f) =~= sc.dots.map_values(f).push(
                            f(e@),
                        ));
                    }
                }
                i = i + 1;
            }
            assert(s.take(i as int) =~= s);
        } else {
            assert(s =~= seq![]);
            assert(dots_of(dots@) =~= seq![]);
        }
        let tag = match reparse_tag {
            Some(t) => Some(StModeType::from_tag_id(t)),
            None => None,
        };
        Ok(
            WslfsParsed {
                lxuid: match uid {
                    Some(x) => Some(Field::Loaded(x)),
                    None => None,
                },
                lxgid: match gid {
                    Some(x) => Some(Field::Loaded(x)),
                    None => None,
                },
                lxmod: match mode {
                    Some(x) => Some(Field::Loaded(x)),
                    None => None,
                },
                lxdev: match dev {
                    Some(x) => Some(Field::Loaded(x)),
                    None => None,
                },
                lx_dot_ea: dots,
                reparse_tag: tag,
                symlink: None,
            },
        )
    }
}

pub const IO_REPARSE_TAG_LX_SYMLINK: u32 = 0xA000001D;

pub const IO_REPARSE_TAG_AF_UNIX: u32 = 0x80000023;

pub const IO_REPARSE_TAG_LX_FIFO: u32 = 0x80000024;

pub const IO_REPARSE_TAG_LX_CHR: u32 = 0x80000025;

pub const IO_REPARSE_TAG_LX_BLK: u32 = 0x80000026;

/// The file type a reparse tag records; other tags record none.
pub open spec fn tag_type(tag_id: u32) -> StModeType {
    if tag_id == 0xA000001D {
        StModeType::LNK
    } else if tag_id == 0x80000023 {
        StModeType::SOCK
    } else if tag_id == 0x80000024 {
        StModeType::FIFO
    } else if tag_id == 0x80000025 {
        StModeType::CHR
    } else if tag_id == 0x80000026 {
        StModeType::BLK
    } else {
        StModeType::UNKNOWN
    }
}

/// The reparse tag recording a file type; 0 for types that have none.
pub open spec fn type_tag(t: StModeType) -> u32 {
    match t {
        StModeType::LNK => 0xA000001D,
        StModeType::FIFO => 0x80000024,
        StModeType::CHR => 0x80000025,
        StModeType::BLK => 0x80000026,
        StModeType::SOCK => 0x80000023,
        _ => 0,
    }
}

/// File types that the scattered scheme records in a reparse point.
pub trait WslfsReparseTag: Sized {
    spec fn spec_tag_id(&self) -> u32;

    spec fn spec_from_tag_id(tag_id: u32) -> Self;

    fn tag_id(&self) -> (r: u32)
        ensures
            r == self.spec_tag_id(),
    ;

    fn from_tag_id(tag_id: u32) -> (r: Self)
        ensures
            r == Self::spec_from_tag_id(tag_id),
    ;
}

impl WslfsReparseTag for StModeType {
    open spec fn spec_tag_id(&self) -> u32 {
        type_tag(*self)
    }

    open spec fn spec_from_tag_id(tag_id: u32) -> Self {
        tag_type(tag_id)
    }

    fn tag_id(&self) -> (r: u32) {
        match self {
            StModeType::LNK => IO_REPARSE_TAG_LX_SYMLINK,
            StModeType::FIFO => IO_REPARSE_TAG_LX_FIFO,
            StModeType::CHR => IO_REPARSE_TAG_LX_CHR,
            StModeType::BLK => IO_REPARSE_TAG_LX_BLK,
            StModeType::SOCK => IO_REPARSE_TAG_AF_UNIX,
            _ => 0,
        }
    }

    fn from_tag_id(tag_id: u32) -> (r: Self) {
        if tag_id == IO_REPARSE_TAG_LX_SYMLINK {
            StModeType::LNK
        } else if tag_id == IO_REPARSE_TAG_AF_UNIX {
            StModeType::SOCK
        } else if tag_id == IO_REPARSE_TAG_LX_FIFO {
            StModeType::FIFO
        } else if tag_id == IO_REPARSE_TAG_LX_CHR {
            StModeType::CHR
        } else if tag_id == IO_REPARSE_TAG_LX_BLK {
            StModeType::BLK
        } else {
            StModeType::UNKNOWN
        }
    }
}

/// `ds` with the first attribute named `name` set to `value`, or with a new
/// attribute appended.
pub open spec fn dot_upsert(ds: Seq<DotView>, name: Seq<u8>, value: Seq<u8>) -> Seq<DotView> {
    let i = first_index(dot_keys(ds), name);
    if i >= 0 {
        ds.update(i, DotView { ea: EaRecord { value: lxea() + value, ..ds[i].ea }, changed: true })
    } else {
        ds.push(
            DotView {
                ea: EaRecord { flags: 0, name: lx_dot() + name, value: lxea() + value },
                changed: true,
            },
        )
    }
}

/// `ds` with the first attribute named `name` emptied for removal.
pub open spec fn dot_mark_removed(ds: Seq<DotView>, name: Seq<u8>) -> Seq<DotView> {
    let i = first_index(dot_keys(ds), name);
    if i >= 0 {
        ds.update(i, DotView { ea: EaRecord { value: Seq::empty(), ..ds[i].ea }, changed: true })
    } else {
        ds
    }
}

impl WslfsParsed {
    /// Index of the first attribute whose name is `name`.
    fn find_dot(&self, name: &[u8]) -> (r: Option<usize>)
        ensures
            r matches Some(i) ==> first_index(dot_keys(self.dots()), name@) == i && i
                < self.lx_dot_ea@.len(),
            r is None ==> first_index(dot_keys(self.dots()), name@) == -1,
    {
        let ghost keys = dot_keys(self.dots());
        let mut i: usize = 0;
        while i < self.lx_dot_ea.len()
            invariant
                i <= self.lx_dot_ea@.len(),
                keys == dot_keys(self.dots()),
                forall|j: int| 0 <= j < i ==> keys[j] != name@,
            decreases self.lx_dot_ea@.len() - i,
        {
            let n = self.lx_dot_ea[i].name();
            assert(keys[i as int] == dot_name(self.lx_dot_ea@[i as int].ea.name@));
            if bytes_eq(n.as_slice(), name) {
                proof {
                    lemma_first_index(keys, name@, i as int);
                }
                return Some(i);
            }
            i = i + 1;
        }
        proof {
            lemma_first_index(keys, name@, i as int);
        }
        None
    }
}

/// The entry that writes a scalar.
fn scalar_entry(key: Vec<u8>, x: u32) -> (r: EaEntry)
    ensures
        r@ == (EaRecord { flags: 0, name: key@, value: crate::bytes::le32(x) }),
{
    let mut v: Vec<u8> = Vec::new();
    push_u32_le(&mut v, x);
    assert(v@ =~= crate::bytes::le32(x));
    EaEntry { flags: 0, name: key, value: v }
}

impl WslfsParsed {
    /// The scalar entries that changed.
    fn scalar_writes(&self) -> (r: Vec<EaEntry>)
        ensures
            records_of(r@) == changed_scalar(lxuid_key(), self.lxuid) + changed_scalar(
                lxgid_key(),
                self.lxgid,
            ) + changed_scalar(lxmod_key(), self.lxmod) + match self.lxdev {
                Some(Field::Changed(d)) => seq![
                    EaRecord {
                        flags: 0,
                        name: lxdev_key(),
                        value: crate::bytes::le32(d.major) + crate::bytes::le32(d.minor),
                    },
                ],
                _ => Seq::<EaRecord>::empty(),
            },
    {
        let mut writes: Vec<EaEntry> = Vec::new();
        if let Some(Field::Changed(x)) = &self.lxuid {
            writes.push(scalar_entry(lxuid_name(), *x));
        }
        if let Some(Field::Changed(x)) = &self.lxgid {
            writes.push(scalar_entry(lxgid_name(), *x));
        }
        if let Some(Field::Changed(x)) = &self.lxmod {
            writes.push(scalar_entry(lxmod_name(), *x));
        }
        let ghost head = changed_scalar(lxuid_key(), self.lxuid) + changed_scalar(
            lxgid_key(),
            self.lxgid,
        ) + changed_scalar(lxmod_key(), self.lxmod);
        assert(records_of(writes@) =~= head);
        if let Some(Field::Changed(d)) = &self.lxdev {
            let mut v: Vec<u8> = Vec::new();
            push_u32_le(&mut v, d.major);
            push_u32_le(&mut v, d.minor);
            let ghost before = writes@;
            writes.push(EaEntry { flags: 0, name: lxdev_name(), value: v });
            assert(records_of(writes@) =~= records_of(before).push(writes@.last()@));
        } else {
            assert(head + Seq::<EaRecord>::empty() =~= head);
        }
        writes
    }

    /// The entries of the attributes that changed, and copies of the
    /// attributes that a save keeps.
    fn dot_writes(&self) -> (r: (Vec<EaEntry>, Vec<LxDotAttr>))
        ensures
            records_of(r.0@) == changed_dots(self.dots()),
            dots_of(r.1@) == kept_dots(self.dots()),
    {
        let ghost ds = self.dots();
        let mut writes: Vec<EaEntry> = Vec::new();
        let mut kept: Vec<LxDotAttr> = Vec::new();
        let mut i: usize = 0;
        assert(ds.take(0) =~= seq![]);
        assert(dots_of(kept@) =~= seq![]);
        assert(records_of(writes@) =~= seq![]);
        while i < self.lx_dot_ea.len()
            invariant
                i <= self.lx_dot_ea@.len(),
                ds == self.dots(),
                records_of(writes@) == changed_dots(ds.take(i as int)),
                dots_of(kept@) == kept_dots(ds.take(i as int)),
            decreases self.lx_dot_ea@.len() - i,
        {
            assert(ds.take(i + 1).drop_last() =~= ds.take(i as int));
            assert(ds.take(i + 1).last() == self.lx_dot_ea@[i as int]@);
            let d = &self.lx_dot_ea[i];
            if d.changed {
                let ghost before = writes@;
                writes.push(d.ea.copy());
                assert(records_of(writes@) =~= records_of(before).push(d.ea@));
            }
            if !(d.changed && d.ea.value.len() == 0) {
                let ghost before = kept@;
                let c = LxDotAttr { ea: d.ea.copy(), changed: d.changed };
                kept.push(c);
                assert(dots_of(kept@) =~= dots_of(before).push(c@));
            }
            i = i + 1;
        }
        assert(ds.take(i as int) =~= ds);
        (writes, kept)
    }
}

impl WslFileAttributes for WslfsParsed {
    open spec fn meta(&self) -> PosixMeta {
        PosixMeta {
            uid: field_value(self.lxuid),
            gid: field_value(self.lxgid),
            mode: field_value(self.lxmod),
            dev_major: match field_value(self.lxdev) {
                Some(d) => Some(d.major),
                None => None,
            },
            dev_minor: match field_value(self.lxdev) {
                Some(d) => Some(d.minor),
                None => None,
            },
        }
    }

    open spec fn claimed(&self) -> bool {
        self.lxuid is Some || self.lxgid is Some || self.lxmod is Some || self.lxdev is Some
            || self.reparse_tag is Some || self.lx_dot_ea@.len() > 0
    }

    fn fs_type(&self) -> (r: FsType)
        ensures
            r == FsType::Wslfs,
    {
        FsType::Wslfs
    }

    fn maybe(&self) -> (r: bool) {
        self.lxuid.is_some() || self.lxgid.is_some() || self.lxmod.is_some() || self.lxdev.is_some()
            || self.reparse_tag.is_some() || self.lx_dot_ea.len() > 0
    }

    fn get_uid(&self) -> (r: Option<u32>) {
        match &self.lxuid {
            Some(f) => Some(f.get()),
            None => None,
        }
    }

    fn get_gid(&self) -> (r: Option<u32>) {
        match &self.lxgid {
            Some(f) => Some(f.get()),
            None => None,
        }
    }

    fn get_mode(&self) -> (r: Option<u32>) {
        match &self.lxmod {
            Some(f) => Some(f.get()),
            None => None,
        }
    }

    fn get_dev_major(&self) -> (r: Option<u32>) {
        match &self.lxdev {
            Some(f) => Some(f.get().major),
            None => None,
        }
    }

    fn get_dev_minor(&self) -> (r: Option<u32>) {
        match &self.lxdev {
            Some(f) => Some(f.get().minor),
            None => None,
        }
    }

    fn set_uid(&mut self, uid: u32)
        ensures
            final(self).lxuid == Some(Field::Changed(uid)),
            final(self).lxgid == old(self).lxgid,
            final(self).lxmod == old(self).lxmod,
            final(self).lxdev == old(self).lxdev,
            final(self).lx_dot_ea == old(self).lx_dot_ea,
            final(self).reparse_tag == old(self).reparse_tag,
            final(self).symlink == old(self).symlink,
    {
        self.lxuid = Some(Field::Changed(uid));
    }

    fn set_gid(&mut self, gid: u32)
        ensures
            final(self).lxgid == Some(Field::Changed(gid)),
            final(self).lxuid == old(self).lxuid,
            final(self).lxmod == old(self).lxmod,
            final(self).lxdev == old(self).lxdev,
            final(self).lx_dot_ea == old(self).lx_dot_ea,
            final(self).reparse_tag == old(self).reparse_tag,
            final(self).symlink == old(self).symlink,
    {
        self.lxgid = Some(Field::Changed(gid));
    }

    fn set_mode(&mut self, mode: u32)
        ensures
            final(self).lxmod == Some(Field::Changed(mode)),
            final(self).lxuid == old(self).lxuid,
            final(self).lxgid == old(self).lxgid,
            final(self).lxdev == old(self).lxdev,
            final(self).lx_dot_ea == old(self).lx_dot_ea,
            final(self).reparse_tag == old(self).reparse_tag,
            final(self).symlink == old(self).symlink,
    {
        self.lxmod = Some(Field::Changed(mode));
    }

    fn set_dev_major(&mut self, dev_major: u32)
        ensures
            final(self).lxdev == Some(
                Field::Changed(
                    Lxdev {
                        major: dev_major,
                        minor: match field_value(old(self).lxdev) {
                            Some(d) => d.minor,
                            None => 0,
                        },
                    },
                ),
            ),
            final(self).lxuid == old(self).lxuid,
            final(self).lxgid == old(self).lxgid,
            final(self).lxmod == old(self).lxmod,
            final(self).lx_dot_ea == old(self).lx_dot_ea,
            final(self).reparse_tag == old(self).reparse_tag,
            final(self).symlink == old(self).symlink,
    {
        let minor = match &self.lxdev {
            Some(f) => f.get().minor,
            None => 0,
        };
        self.lxdev = Some(Field::Changed(Lxdev { major: dev_major, minor }));
    }

    fn set_dev_minor(&mut self, dev_minor: u32)
        ensures
            final(self).lxdev == Some(
                Field::Changed(
                    Lxdev {
                        major: match field_value(old(self).lxdev) {
                            Some(d) => d.major,
                            None => 0,
                        },
                        minor: dev_minor,
                    },
                ),
            ),
            final(self).lxuid == old(self).lxuid,
            final(self).lxgid == old(self).lxgid,
            final(self).lxmod == old(self).lxmod,
            final(self).lx_dot_ea == old(self).lx_dot_ea,
            final(self).reparse_tag == old(self).reparse_tag,
            final(self).symlink == old(self).symlink,
    {
        let major = match &self.lxdev {
            Some(f) => f.get().major,
            None => 0,
        };
        self.lxdev = Some(Field::Changed(Lxdev { major, minor: dev_minor }));
    }

    fn set_attr(&mut self, name: &[u8], value: &[u8])
        ensures
            final(self).dots() == dot_upsert(old(self).dots(), name@, value@),
            final(self).lxuid == old(self).lxuid,
            final(self).lxgid == old(self).lxgid,
            final(self).lxmod == old(self).lxmod,
            final(self).lxdev == old(self).lxdev,
            final(self).reparse_tag == old(self).reparse_tag,
            final(self).symlink == old(self).symlink,
    {
        match self.find_dot(name) {
            Some(i) => {
                let old_ea = &self.lx_dot_ea[i].ea;
                let m = lxea_marker();
                let d = LxDotAttr {
                    ea: EaEntry {
                        flags: old_ea.flags,
                        name: copy_range(old_ea.name.as_slice(), 0, old_ea.name.len()),
                        value: concat(m.as_slice(), value),
                    },
                    changed: true,
                };
                assert(d.ea.name@ =~= old_ea.name@);
                self.lx_dot_ea[i] = d;
                assert(self.dots() =~= old(self).dots().update(
                    i as int,
                    DotView {
                        ea: EaRecord { value: lxea() + value@, ..old(self).dots()[i as int].ea },
                        changed: true,
                    },
                ));
            },
            None => {
                let d = LxDotAttr::new_owned(name, value);
                self.lx_dot_ea.push(d);
                assert(self.dots() =~= old(self).dots().push(d@));
            },
        }
    }

    fn rm_attr(&mut self, name: &[u8])
        ensures
            final(self).dots() == dot_mark_removed(old(self).dots(), name@),
            final(self).lxuid == old(self).lxuid,
            final(self).lxgid == old(self).lxgid,
            final(self).lxmod == old(self).lxmod,
            final(self).lxdev == old(self).lxdev,
            final(self).reparse_tag == old(self).reparse_tag,
            final(self).symlink == old(self).symlink,
    {
        match self.find_dot(name) {
            Some(i) => {
                let old_ea = &self.lx_dot_ea[i].ea;
                let d = LxDotAttr {
                    ea: EaEntry {
                        flags: old_ea.flags,
                        name: copy_range(old_ea.name.as_slice(), 0, old_ea.name.len()),
                        value: Vec::new(),
                    },
                    changed: true,
                };
                assert(d.ea.name@ =~= old_ea.name@);
                self.lx_dot_ea[i] = d;
                assert(self.dots() =~= old(self).dots().update(
                    i as int,
                    DotView {
                        ea: EaRecord { value: Seq::empty(), ..old(self).dots()[i as int].ea },
                        changed: true,
                    },
                ));
            },
            None => {},
        }
    }

    fn save(&mut self) -> (r: Result<Vec<u8>, AttrError>)
        ensures
            r is Ok <==> (crate::ea_parse::all_fit(old(self).save_records()) && encode_chain(
                old(self).save_records(),
            ).len() <= usize::MAX),
            r matches Ok(b) ==> b@ == encode_chain(old(self).save_records()),
            r is Ok ==> final(self).dots() == kept_dots(old(self).dots()),
            r is Err ==> r->Err_0 == AttrError::EntryTooLarge && final(self).dots()
                == old(self).dots(),
            final(self).lxuid == old(self).lxuid,
            final(self).lxgid == old(self).lxgid,
            final(self).lxmod == old(self).lxmod,
            final(self).lxdev == old(self).lxdev,
            final(self).reparse_tag == old(self).reparse_tag,
            final(self).symlink == old(self).symlink,
    {
        let mut writes = self.scalar_writes();
        let (dot_writes, kept) = self.dot_writes();
        let ghost head = records_of(writes@);
        let mut dw = dot_writes;
        writes.append(&mut dw);
        assert(records_of(writes@) =~= head + records_of(dot_writes@));
        match encode_entries(&writes) {
            Some(b) => {
                self.lx_dot_ea = kept;
                Ok(b)
            },
            None => Err(AttrError::EntryTooLarge),
        }
    }
}

} // verus!
