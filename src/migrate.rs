//! Migration of one file from the scattered scheme to the compact scheme.
use vstd::prelude::*;

use crate::ea_parse::{all_fit, encode_chain, encode_entries, records_of, EaEntry, EaRecord};
use crate::error::AttrError;
use crate::lxfs::{
    default_lxattrb, encode_kept, lxattrb_bytes, lxattrb_key, lxattrb_name, lxxattr_key,
    lxxattr_name, make_dev, make_dev_of, records_of_kept, EaLxattrbV1, LxfsParsed,
};
use crate::lxxattr::{encode_lxxattr, xattrs_fit, LxxattrEntry, XattrRecord};
use crate::posix::StModeType;
use crate::wsl_file::WslFileAttributes;
use crate::wslfs::{
    dot_name, dot_value, dots_of, lxdev_key, lxdev_name, lxgid_key, lxgid_name, lxmod_key,
    lxmod_name, lxuid_key, lxuid_name, type_tag, DotView, WslfsParsed, WslfsReparseTag,
};

verus! {

/// What migrating one file takes: one EA write, then optionally deleting a
/// reparse point and writing a symlink target as the file's content.
pub struct DowngradePlan {
    /// Writes the compact record and list, and empties every scattered
    /// entry, in one call.
    pub ea_buffer: Vec<u8>,
    /// The reparse tag to delete.
    pub delete_reparse_tag: Option<u32>,
    /// The symlink target to write as the file's content.
    pub symlink_content: Option<Vec<u8>>,
}

/// The outcome of migrating one file.
pub enum Migration {
    /// The file already carries compact metadata; nothing is to be done.
    AlreadyMigrated,
    Convert(DowngradePlan),
}

/// The bytes an optional buffer holds.
pub open spec fn opt_bytes(o: Option<Vec<u8>>) -> Option<Seq<u8>> {
    match o {
        Some(v) => Some(v@),
        None => None,
    }
}

/// The value of an optional field, or 0.
pub open spec fn or_zero(x: Option<u32>) -> u32 {
    match x {
        Some(v) => v,
        None => 0,
    }
}

/// The compact record built from the scattered values; absent values are 0.
pub open spec fn downgrade_record(w: &WslfsParsed, l: &LxfsParsed) -> EaLxattrbV1 {
    let m = w.meta();
    EaLxattrbV1 {
        st_uid: or_zero(m.uid),
        st_gid: or_zero(m.gid),
        st_mode: or_zero(m.mode),
        st_rdev: make_dev_of(or_zero(m.dev_major), or_zero(m.dev_minor)),
        ..default_lxattrb(l.basic_file_info)
    }
}

/// The compact list built from the `LX.` entries: names without the prefix,
/// values without the marker.
pub open spec fn downgrade_xattrs(ds: Seq<DotView>) -> Seq<XattrRecord> {
    ds.map_values(|d: DotView| XattrRecord { name: dot_name(d.ea.name), value: dot_value(d.ea.value) })
}

/// An entry that deletes `name`.
pub open spec fn removal(name: Seq<u8>) -> EaRecord {
    EaRecord { flags: 0, name, value: Seq::empty() }
}

/// The first entries of the migration's EA write: the compact record and
/// list, then the removal of the four scalars.
pub open spec fn downgrade_head(rec: EaLxattrbV1, list: Seq<u8>) -> Seq<EaRecord> {
    seq![
        EaRecord { flags: 0, name: lxattrb_key(), value: lxattrb_bytes(rec) },
        EaRecord { flags: 0, name: lxxattr_key(), value: list },
        removal(lxuid_key()),
        removal(lxgid_key()),
        removal(lxmod_key()),
        removal(lxdev_key()),
    ]
}

/// The entries of the migration's EA write, in order: the head, then the
/// removal of every `LX.` entry.
pub open spec fn downgrade_entries(w: &WslfsParsed, l: &LxfsParsed) -> Seq<EaRecord> {
    downgrade_head(downgrade_record(w, l), encode_lxxattr(downgrade_xattrs(w.dots())))
        + w.dots().map_values(|d: DotView| removal(d.ea.name))
}

/// The reparse tag the migration deletes: that of a recognised file type.
pub open spec fn downgrade_reparse(w: &WslfsParsed) -> Option<u32> {
    match w.reparse_tag {
        Some(t) => if t != StModeType::UNKNOWN {
            Some(type_tag(t))
        } else {
            None
        },
        None => None,
    }
}

/// Entries of the migration's EA write fit their length fields and memory.
pub open spec fn downgrade_fits(w: &WslfsParsed, l: &LxfsParsed) -> bool {
    &&& xattrs_fit(downgrade_xattrs(w.dots()))
    &&& encode_lxxattr(downgrade_xattrs(w.dots())).len() <= 65535
    &&& all_fit(downgrade_entries(w, l))
    &&& encode_chain(downgrade_entries(w, l)).len() <= usize::MAX
}

/// Plans the migration of one file from its two parsed views: refuses a
/// file both schemes claim, leaves alone one already compact, and otherwise
/// builds the compact metadata from the scattered one.
#[verifier::spinoff_prover]
#[verifier::rlimit(80)]
pub fn downgrade(wslfs: &WslfsParsed, lxfs: &LxfsParsed) -> (r: Result<Migration, AttrError>)
    ensures
        wslfs.claimed() && lxfs.claimed() ==> r == Err::<Migration, AttrError>(
            AttrError::AmbiguousScheme,
        ),
        !wslfs.claimed() && lxfs.claimed() ==> r matches Ok(Migration::AlreadyMigrated),
        !lxfs.claimed() ==> (r is Ok <==> downgrade_fits(wslfs, lxfs)),
        !lxfs.claimed() && downgrade_fits(wslfs, lxfs) ==> r matches Ok(Migration::Convert(_)),
        !lxfs.claimed() && !downgrade_fits(wslfs, lxfs) ==> r == Err::<Migration, AttrError>(
            AttrError::EntryTooLarge,
        ),
        r matches Ok(Migration::Convert(p)) ==> {
            &&& !lxfs.claimed()
            &&& p.ea_buffer@ == encode_chain(downgrade_entries(wslfs, lxfs))
            &&& p.delete_reparse_tag == downgrade_reparse(wslfs)
            &&& opt_bytes(p.symlink_content) == opt_bytes(wslfs.symlink)
        },
{
    let w_claims = wslfs.maybe();
    let l_claims = lxfs.maybe();
    if w_claims && l_claims {
        return Err(AttrError::AmbiguousScheme);
    }
    if l_claims {
        return Ok(Migration::AlreadyMigrated);
    }
    let rec = downgrade_record_exec(wslfs, lxfs);
    let list = downgrade_list(wslfs);
    let encoded = match encode_kept(&list) {
        Some(b) => b,
        None => {
            return Err(AttrError::EntryTooLarge);
        },
    };
    let mut writes = head_writes(&rec, encoded);
    push_removals(wslfs, &mut writes);
    let ea_buffer = match encode_entries(&writes) {
        Some(b) => b,
        None => {
            return Err(AttrError::EntryTooLarge);
        },
    };
    let delete_reparse_tag = match wslfs.reparse_tag {
        Some(t) => if t != StModeType::UNKNOWN {
            Some(t.tag_id())
        } else {
            None
        },
        None => None,
    };
    let symlink_content = match &wslfs.symlink {
        Some(s) => {
            let c = crate::bytes::copy_range(s.as_slice(), 0, s.len());
            assert(c@ =~= s@);
            Some(c)
        },
        None => None,
    };
    Ok(Migration::Convert(DowngradePlan { ea_buffer, delete_reparse_tag, symlink_content }))
}

/// The first entries of the migration's EA write.
fn head_writes(rec: &EaLxattrbV1, encoded: Vec<u8>) -> (r: Vec<EaEntry>)
    ensures
        records_of(r@) == downgrade_head(*rec, encoded@),
{
    let mut writes: Vec<EaEntry> = Vec::new();
    writes.push(EaEntry { flags: 0, name: lxattrb_name(), value: rec.to_bytes() });
    writes.push(EaEntry { flags: 0, name: lxxattr_name(), value: encoded });
    writes.push(EaEntry { flags: 0, name: lxuid_name(), value: Vec::new() });
    writes.push(EaEntry { flags: 0, name: lxgid_name(), value: Vec::new() });
    writes.push(EaEntry { flags: 0, name: lxmod_name(), value: Vec::new() });
    writes.push(EaEntry { flags: 0, name: lxdev_name(), value: Vec::new() });
    assert(records_of(writes@) =~= downgrade_head(*rec, encoded@));
    writes
}

/// Appends an entry removing each `LX.` entry of `wslfs`.
fn push_removals(wslfs: &WslfsParsed, writes: &mut Vec<EaEntry>)
    ensures
        records_of(final(writes)@) == records_of(old(writes)@) + wslfs.dots().map_values(
            |d: DotView| removal(d.ea.name),
        ),
{
    let ghost head = records_of(writes@);
    let ghost ds = wslfs.dots();
    let mut i: usize = 0;
    assert(ds.take(0).map_values(|d: DotView| removal(d.ea.name)) =~= seq![]);
    assert(head + seq![] =~= head);
    while i < wslfs.lx_dot_ea.len()
        invariant
            i <= wslfs.lx_dot_ea@.len(),
            ds == wslfs.dots(),
            head == records_of(old(writes)@),
            records_of(writes@) == head + ds.take(i as int).map_values(
                |d: DotView| removal(d.ea.name),
            ),
        decreases wslfs.lx_dot_ea@.len() - i,
    {
        let name = wslfs.lx_dot_ea[i].name_ea();
        let ghost before = writes@;
        writes.push(
            EaEntry {
                flags: 0,
                name: crate::bytes::copy_range(name, 0, name.len()),
                value: Vec::new(),
            },
        );
        proof {
            assert(name@.subrange(0, name@.len() as int) =~= name@);
            assert(ds[i as int].ea.name == name@);
            assert(ds.take(i + 1).map_values(|d: DotView| removal(d.ea.name)) =~= ds.take(
                i as int,
            ).map_values(|d: DotView| removal(d.ea.name)).push(removal(name@)));
            assert(records_of(writes@) =~= records_of(before).push(removal(name@)));
        }
        i = i + 1;
    }
    assert(ds.take(i as int) =~= ds);
}

/// The compact record built from the scattered values.
fn downgrade_record_exec(wslfs: &WslfsParsed, lxfs: &LxfsParsed) -> (r: EaLxattrbV1)
    ensures
        r == downgrade_record(wslfs, lxfs),
{
    let mut rec = EaLxattrbV1::new(&lxfs.basic_file_info);
    rec.st_uid = or_zero_exec(wslfs.get_uid());
    rec.st_gid = or_zero_exec(wslfs.get_gid());
    rec.st_mode = or_zero_exec(wslfs.get_mode());
    rec.st_rdev = make_dev(or_zero_exec(wslfs.get_dev_major()), or_zero_exec(wslfs.get_dev_minor()));
    rec
}

fn or_zero_exec(x: Option<u32>) -> (r: u32)
    ensures
        r == or_zero(x),
{
    match x {
        Some(v) => v,
        None => 0,
    }
}

/// The compact list entries for the `LX.` entries of `wslfs`.
fn downgrade_list(wslfs: &WslfsParsed) -> (r: Vec<LxxattrEntry>)
    ensures
        forall|j: int| 0 <= j < r@.len() ==> (#[trigger] r@[j]).value is Some,
        records_of_kept(r@) == downgrade_xattrs(wslfs.dots()),
{
    let ghost ds = wslfs.dots();
    let mut list: Vec<LxxattrEntry> = Vec::new();
    let mut i: usize = 0;
    assert(records_of_kept(list@) =~= downgrade_xattrs(ds.take(0)));
    while i < wslfs.lx_dot_ea.len()
        invariant
            i <= wslfs.lx_dot_ea@.len(),
            ds == wslfs.dots(),
            forall|j: int| 0 <= j < list@.len() ==> (#[trigger] list@[j]).value is Some,
            records_of_kept(list@) == downgrade_xattrs(ds.take(i as int)),
        decreases wslfs.lx_dot_ea@.len() - i,
    {
        let d = &wslfs.lx_dot_ea[i];
        let e = LxxattrEntry { name: d.name(), value: Some(d.value()) };
        let ghost before = list@;
        list.push(e);
        proof {
            assert(ds[i as int] == d@);
            assert(records_of_kept(list@) =~= records_of_kept(before).push(
                XattrRecord { name: dot_name(d.ea.name@), value: dot_value(d.ea.value@) },
            ));
            assert(downgrade_xattrs(ds.take(i + 1)) =~= downgrade_xattrs(ds.take(i as int)).push(
                XattrRecord { name: dot_name(d.ea.name@), value: dot_value(d.ea.value@) },
            ));
        }
        i = i + 1;
    }
    assert(ds.take(i as int) =~= ds);
    list
}

} // verus!
