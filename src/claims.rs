//! Which scheme claims a file, as a function of its entries.
use vstd::prelude::*;

use crate::ea_parse::EaRecord;
use crate::lxfs::{lemma_lxattrb_round_trip, lxattrb_bytes};
use crate::lxxattr::{encode_lxxattr, lemma_lxxattr_round_trip};
use crate::migrate::{downgrade_entries, downgrade_fits, downgrade_record, downgrade_xattrs};
use crate::wslfs::DotView;
use crate::lxfs::{lxattrb_key, lxfs_scan, lxxattr_key, LxfsParsed};
use crate::wsl_file::WslFileAttributes;
use crate::wslfs::{
    field_value, lx_dot, lxdev_key, lxgid_key, lxmod_key, lxuid_key, wslfs_scan, WslfsParsed,
};

verus! {

/// A name the scattered scheme reads.
pub open spec fn is_scattered_name(n: Seq<u8>) -> bool {
    n == lxuid_key() || n == lxgid_key() || n == lxmod_key() || n == lxdev_key() || (n.len() >= 3
        && n.subrange(0, 3) == lx_dot())
}

/// Some entry is the compact scheme's record, `LXATTRB`.
pub open spec fn has_record_entry(s: Seq<EaRecord>) -> bool {
    exists|i: int| 0 <= i < s.len() && #[trigger] s[i].name == lxattrb_key()
}


pub open spec fn has_scattered_entry(s: Seq<EaRecord>) -> bool {
    exists|i: int| 0 <= i < s.len() && is_scattered_name(#[trigger] s[i].name)
}

proof fn lemma_lxfs_scan_claims(s: Seq<EaRecord>)
    requires
        lxfs_scan(s) is Ok,
    ensures
        lxfs_scan(s)->Ok_0.0 is Some <==> has_record_entry(s),
    decreases s.len(),
{
    if s.len() > 0 {
        let t = s.drop_last();
        lemma_lxfs_scan_claims(t);
        if has_record_entry(t) {
            let i = choose|i: int| 0 <= i < t.len() && #[trigger] t[i].name == lxattrb_key();
            assert(s[i] == t[i]);
        }
        if has_record_entry(s) && s.last().name != lxattrb_key() {
            let i = choose|i: int| 0 <= i < s.len() && #[trigger] s[i].name == lxattrb_key();
            assert(i < t.len());
            assert(t[i] == s[i]);
        }
        if s.last().name == lxattrb_key() {
            assert(s[s.len() - 1].name == lxattrb_key());
        }
    }
}

proof fn lemma_wslfs_scan_claims(s: Seq<EaRecord>)
    requires
        wslfs_scan(s) is Ok,
    ensures
        ({
            let w = wslfs_scan(s)->Ok_0;
            (w.uid is Some || w.gid is Some || w.mode is Some || w.dev is Some || w.dots.len() > 0)
                <==> has_scattered_entry(s)
        }),
    decreases s.len(),
{
    if s.len() > 0 {
        let t = s.drop_last();
        lemma_wslfs_scan_claims(t);
        if has_scattered_entry(t) {
            let i = choose|i: int| 0 <= i < t.len() && is_scattered_name(#[trigger] t[i].name);
            assert(s[i] == t[i]);
        }
        if has_scattered_entry(s) && !is_scattered_name(s.last().name) {
            let i = choose|i: int| 0 <= i < s.len() && is_scattered_name(#[trigger] s[i].name);
            assert(i < t.len());
            assert(t[i] == s[i]);
        }
        if is_scattered_name(s.last().name) {
            assert(is_scattered_name(s[s.len() - 1].name));
        }
    }
}

/// The compact scheme claims a file read from entries `s` exactly when one
/// of them is its record, `LXATTRB`.
pub proof fn lemma_compact_claim(p: LxfsParsed, s: Seq<EaRecord>)
    requires
        lxfs_scan(s) is Ok,
        p.record() == lxfs_scan(s)->Ok_0.0,
    ensures
        p.claimed() <==> has_record_entry(s),
{
    lemma_lxfs_scan_claims(s);
}

/// The scattered scheme claims a file read from entries `s` and a reparse
/// tag exactly when there is a tag or one of the entries is a scattered
/// scalar or an `LX.` attribute.
pub proof fn lemma_scattered_claim(p: WslfsParsed, s: Seq<EaRecord>)
    requires
        wslfs_scan(s) is Ok,
        field_value(p.lxuid) == wslfs_scan(s)->Ok_0.uid,
        field_value(p.lxgid) == wslfs_scan(s)->Ok_0.gid,
        field_value(p.lxmod) == wslfs_scan(s)->Ok_0.mode,
        field_value(p.lxdev) == wslfs_scan(s)->Ok_0.dev,
        p.dots().len() == wslfs_scan(s)->Ok_0.dots.len(),
    ensures
        p.claimed() <==> (p.reparse_tag is Some || has_scattered_entry(s)),
{
    lemma_wslfs_scan_claims(s);
}

/// `d` without the entries named `name`.
pub open spec fn remove_named(d: Seq<EaRecord>, name: Seq<u8>) -> Seq<EaRecord>
    decreases d.len(),
{
    if d.len() == 0 {
        d
    } else {
        let r = remove_named(d.drop_last(), name);
        if d.last().name == name {
            r
        } else {
            r.push(d.last())
        }
    }
}

/// What a file holds after an EA write: each written entry replaces the
/// entries of its name, and one with an empty value only deletes them.
pub open spec fn apply_ea_write(disk: Seq<EaRecord>, writes: Seq<EaRecord>) -> Seq<EaRecord>
    decreases writes.len(),
{
    if writes.len() == 0 {
        disk
    } else {
        let kept = remove_named(apply_ea_write(disk, writes.drop_last()), writes.last().name);
        if writes.last().value.len() == 0 {
            kept
        } else {
            kept.push(writes.last())
        }
    }
}

/// No entry of `w` is named `n`.
pub open spec fn names_absent(w: Seq<EaRecord>, n: Seq<u8>) -> bool {
    forall|k: int| 0 <= k < w.len() ==> (#[trigger] w[k]).name != n
}

proof fn lemma_remove_named(d: Seq<EaRecord>, name: Seq<u8>)
    ensures
        forall|i: int|
            0 <= i < remove_named(d, name).len() ==> (#[trigger] remove_named(d, name)[i]).name
                != name && d.contains(remove_named(d, name)[i]),
        forall|i: int| 0 <= i < d.len() && d[i].name != name ==> remove_named(d, name).contains(
            #[trigger] d[i],
        ),
    decreases d.len(),
{
    if d.len() > 0 {
        let t = d.drop_last();
        lemma_remove_named(t, name);
        let r = remove_named(t, name);
        assert forall|i: int| 0 <= i < remove_named(d, name).len() implies (#[trigger] remove_named(
            d,
            name,
        )[i]).name != name && d.contains(remove_named(d, name)[i]) by {
            if i < r.len() {
                assert(remove_named(d, name)[i] == r[i]);
                let j = choose|j: int| 0 <= j < t.len() && t[j] == r[i];
                assert(d[j] == t[j]);
            } else {
                assert(d[d.len() - 1] == d.last());
            }
        }
        assert forall|i: int| 0 <= i < d.len() && d[i].name != name implies remove_named(
            d,
            name,
        ).contains(#[trigger] d[i]) by {
            if i < t.len() {
                assert(t[i] == d[i]);
                let j = choose|j: int| 0 <= j < r.len() && r[j] == t[i];
                if d.last().name != name {
                    assert(remove_named(d, name)[j] == r[j]);
                }
            } else {
                assert(remove_named(d, name)[r.len() as int] == d.last());
            }
        }
    }
}

/// Every entry after a write is an entry of the disk whose name was not
/// written, or a written entry with a value whose name was not written again.
proof fn lemma_apply_elements(d: Seq<EaRecord>, w: Seq<EaRecord>)
    ensures
        forall|i: int|
            0 <= i < apply_ea_write(d, w).len() ==> ({
                let e = #[trigger] apply_ea_write(d, w)[i];
                (d.contains(e) && names_absent(w, e.name)) || (exists|k: int|
                    0 <= k < w.len() && w[k] == e && e.value.len() > 0)
            }),
    decreases w.len(),
{
    if w.len() > 0 {
        let t = w.drop_last();
        lemma_apply_elements(d, t);
        let prev = apply_ea_write(d, t);
        let last = w.last();
        lemma_remove_named(prev, last.name);
        let kept = remove_named(prev, last.name);
        assert forall|i: int| 0 <= i < apply_ea_write(d, w).len() implies ({
            let e = #[trigger] apply_ea_write(d, w)[i];
            (d.contains(e) && names_absent(w, e.name)) || (exists|k: int|
                0 <= k < w.len() && w[k] == e && e.value.len() > 0)
        }) by {
            let e = apply_ea_write(d, w)[i];
            if i < kept.len() {
                assert(e == kept[i]);
                assert(e.name != last.name);
                let j = choose|j: int| 0 <= j < prev.len() && prev[j] == e;
                if d.contains(e) && names_absent(t, e.name) {
                    assert forall|k: int| 0 <= k < w.len() implies (#[trigger] w[k]).name != e.name by {
                        if k < t.len() {
                            assert(w[k] == t[k]);
                        }
                    }
                } else {
                    let k = choose|k: int| 0 <= k < t.len() && t[k] == prev[j] && prev[j].value.len() > 0;
                    assert(w[k] == t[k]);
                }
            } else {
                assert(e == last);
                assert(w[w.len() - 1] == last);
            }
        }
    }
}

/// A written entry with a value stays when no later entry has its name.
proof fn lemma_apply_keeps(d: Seq<EaRecord>, w: Seq<EaRecord>, k: int)
    requires
        0 <= k < w.len(),
        w[k].value.len() > 0,
        forall|j: int| k < j < w.len() ==> (#[trigger] w[j]).name != w[k].name,
    ensures
        apply_ea_write(d, w).contains(w[k]),
    decreases w.len(),
{
    let t = w.drop_last();
    if k == w.len() - 1 {
        let kept = remove_named(apply_ea_write(d, t), w.last().name);
        assert(apply_ea_write(d, w)[kept.len() as int] == w[k]);
    } else {
        assert forall|j: int| k < j < t.len() implies (#[trigger] t[j]).name != t[k].name by {
            assert(t[j] == w[j]);
        }
        lemma_apply_keeps(d, t, k);
        let prev = apply_ea_write(d, t);
        lemma_remove_named(prev, w.last().name);
        let i = choose|i: int| 0 <= i < prev.len() && prev[i] == w[k];
        assert(w[w.len() - 1].name != w[k].name);
        let kept = remove_named(prev, w.last().name);
        assert(kept.contains(prev[i]));
        let j = choose|j: int| 0 <= j < kept.len() && kept[j] == prev[i];
        if w.last().value.len() > 0 {
            assert(apply_ea_write(d, w)[j] == kept[j]);
        }
    }
}

/// The `LX.` entries the scattered scheme collects are entries of `s` named
/// with the prefix, and every scattered entry of `s` is a scalar or one of
/// them.
proof fn lemma_scan_dots(s: Seq<EaRecord>)
    requires
        wslfs_scan(s) is Ok,
    ensures
        ({
            let dots = wslfs_scan(s)->Ok_0.dots;
            &&& forall|j: int|
                0 <= j < dots.len() ==> (#[trigger] dots[j]).name.len() >= 3 && dots[j].name.subrange(
                    0,
                    3,
                ) == lx_dot()
            &&& forall|i: int|
                0 <= i < s.len() && is_scattered_name(#[trigger] s[i].name) ==> (s[i].name
                    == lxuid_key() || s[i].name == lxgid_key() || s[i].name == lxmod_key()
                    || s[i].name == lxdev_key() || exists|j: int|
                    0 <= j < dots.len() && (#[trigger] dots[j]).name == s[i].name)
        }),
    decreases s.len(),
{
    if s.len() > 0 {
        let t = s.drop_last();
        lemma_scan_dots(t);
        let pd = wslfs_scan(t)->Ok_0.dots;
        let dots = wslfs_scan(s)->Ok_0.dots;
        assert forall|i: int| 0 <= i < s.len() && is_scattered_name(#[trigger] s[i].name) implies (
        s[i].name == lxuid_key() || s[i].name == lxgid_key() || s[i].name == lxmod_key()
            || s[i].name == lxdev_key() || exists|j: int|
            0 <= j < dots.len() && (#[trigger] dots[j]).name == s[i].name) by {
            if i < t.len() {
                assert(t[i] == s[i]);
                if !(s[i].name == lxuid_key() || s[i].name == lxgid_key() || s[i].name
                    == lxmod_key() || s[i].name == lxdev_key()) {
                    let j = choose|j: int| 0 <= j < pd.len() && (#[trigger] pd[j]).name == t[i].name;
                    assert(dots[j] == pd[j]);
                }
            } else {
                assert(s[i] == s.last());
                if !(s[i].name == lxuid_key() || s[i].name == lxgid_key() || s[i].name
                    == lxmod_key() || s[i].name == lxdev_key()) {
                    assert(dots[dots.len() - 1] == s.last());
                }
            }
        }
    }
}

/// Entries with no scattered name give the scattered scheme nothing.
proof fn lemma_scan_no_scattered(s: Seq<EaRecord>)
    requires
        !has_scattered_entry(s),
    ensures
        wslfs_scan(s) is Ok,
    decreases s.len(),
{
    if s.len() > 0 {
        let t = s.drop_last();
        assert forall|i: int| 0 <= i < t.len() implies !is_scattered_name(#[trigger] t[i].name) by {
            assert(t[i] == s[i]);
        }
        lemma_scan_no_scattered(t);
        assert(s[s.len() - 1] == s.last());
    }
}

/// Entries whose compact records all decode give the compact scheme no
/// error.
proof fn lemma_scan_compact_ok(s: Seq<EaRecord>)
    requires
        forall|i: int|
            0 <= i < s.len() ==> (#[trigger] s[i].name == lxattrb_key() ==> crate::lxfs::decode_lxattrb(
                s[i].value,
            ) is Some) && (s[i].name == lxxattr_key() ==> crate::lxxattr::decode_lxxattr(
                s[i].value,
            ) is Some),
    ensures
        lxfs_scan(s) is Ok,
    decreases s.len(),
{
    if s.len() > 0 {
        let t = s.drop_last();
        assert forall|i: int| 0 <= i < t.len() implies (#[trigger] t[i].name == lxattrb_key()
            ==> crate::lxfs::decode_lxattrb(t[i].value) is Some) && (t[i].name == lxxattr_key()
            ==> crate::lxxattr::decode_lxxattr(t[i].value) is Some) by {
            assert(t[i] == s[i]);
        }
        lemma_scan_compact_ok(t);
        assert(s[s.len() - 1] == s.last());
    }
}

/// A name with the `LX.` prefix is none of the fixed names.
proof fn lemma_names_differ(n: Seq<u8>)
    ensures
        n.len() >= 3 && n.subrange(0, 3) == lx_dot() ==> n != lxattrb_key() && n != lxxattr_key(),
        lxattrb_key() != lxxattr_key(),
        !is_scattered_name(lxattrb_key()),
        !is_scattered_name(lxxattr_key()),
{
    if n.len() >= 3 && n.subrange(0, 3) == lx_dot() {
        assert(n.subrange(0, 3)[2] == n[2]);
        assert(lxattrb_key()[2] != lx_dot()[2]);
        assert(lxxattr_key()[2] != lx_dot()[2]);
    }
    assert(lxattrb_key()[2] != lxxattr_key()[2]);
    assert(lxattrb_key()[0] != lxuid_key()[0]);
    assert(lxxattr_key()[0] != lxuid_key()[0]);
    assert(lxattrb_key()[0] != lxgid_key()[0]);
    assert(lxxattr_key()[0] != lxgid_key()[0]);
    assert(lxattrb_key()[0] != lxmod_key()[0]);
    assert(lxxattr_key()[0] != lxmod_key()[0]);
    assert(lxattrb_key()[0] != lxdev_key()[0]);
    assert(lxxattr_key()[0] != lxdev_key()[0]);
    assert(lxattrb_key().subrange(0, 3)[2] != lx_dot()[2]);
    assert(lxxattr_key().subrange(0, 3)[2] != lx_dot()[2]);
}

/// The entries of the migration's write: the record, the list, then empty
/// values for the four scalars and for each `LX.` entry.
proof fn lemma_write_entries(w: WslfsParsed, l: LxfsParsed, dots: Seq<EaRecord>)
    requires
        w.dots() == dots.map_values(|e: EaRecord| DotView { ea: e, changed: false }),
    ensures
        ({
            let wr = downgrade_entries(&w, &l);
            &&& wr.len() == 6 + dots.len()
            &&& wr[0] == EaRecord {
                flags: 0,
                name: lxattrb_key(),
                value: lxattrb_bytes(downgrade_record(&w, &l)),
            }
            &&& wr[1] == EaRecord {
                flags: 0,
                name: lxxattr_key(),
                value: encode_lxxattr(downgrade_xattrs(w.dots())),
            }
            &&& wr[2].name == lxuid_key()
            &&& wr[3].name == lxgid_key()
            &&& wr[4].name == lxmod_key()
            &&& wr[5].name == lxdev_key()
            &&& forall|j: int| 0 <= j < dots.len() ==> wr[6 + j].name == (#[trigger] dots[j]).name
            &&& forall|k: int| 2 <= k < wr.len() ==> (#[trigger] wr[k]).value.len() == 0
        }),
{
    let wr = downgrade_entries(&w, &l);
    assert forall|j: int| 0 <= j < dots.len() implies wr[6 + j].name == (#[trigger] dots[j]).name by {
        assert(w.dots()[j].ea == dots[j]);
    }
    assert forall|k: int| 2 <= k < wr.len() implies (#[trigger] wr[k]).value.len() == 0 by {
        if k >= 6 {
            assert(w.dots()[k - 6].ea == dots[k - 6]);
        }
    }
}

/// What the migration's write leaves has no scattered name, and its
/// compact entries decode.
#[verifier::spinoff_prover]
#[verifier::rlimit(60)]
proof fn lemma_after_entries(s: Seq<EaRecord>, w: WslfsParsed, l: LxfsParsed)
    requires
        wslfs_scan(s) is Ok,
        w.dots() == wslfs_scan(s)->Ok_0.dots.map_values(
            |e: EaRecord| DotView { ea: e, changed: false },
        ),
        downgrade_fits(&w, &l),
    ensures
        ({
            let after = apply_ea_write(s, downgrade_entries(&w, &l));
            forall|i: int|
                0 <= i < after.len() ==> !is_scattered_name(#[trigger] after[i].name) && (
                after[i].name == lxattrb_key() ==> crate::lxfs::decode_lxattrb(after[i].value)
                    is Some) && (after[i].name == lxxattr_key() ==> crate::lxxattr::decode_lxxattr(
                after[i].value,
            ) is Some)
        }),
{
    let wr = downgrade_entries(&w, &l);
    let after = apply_ea_write(s, wr);
    let dots = wslfs_scan(s)->Ok_0.dots;
    lemma_scan_dots(s);
    lemma_write_entries(w, l, dots);
    lemma_apply_elements(s, wr);
    lemma_names_differ(seq![]);
    lemma_lxattrb_round_trip(downgrade_record(&w, &l));
    lemma_lxxattr_round_trip(downgrade_xattrs(w.dots()));
    assert forall|i: int| 0 <= i < after.len() implies !is_scattered_name(#[trigger] after[i].name)
        && (after[i].name == lxattrb_key() ==> crate::lxfs::decode_lxattrb(after[i].value) is Some)
        && (after[i].name == lxxattr_key() ==> crate::lxxattr::decode_lxxattr(after[i].value)
        is Some) by {
        let e = after[i];
        if s.contains(e) && names_absent(wr, e.name) {
            let j0 = choose|j: int| 0 <= j < s.len() && s[j] == e;
            assert(wr[0].name != e.name && wr[1].name != e.name);
            if is_scattered_name(e.name) {
                assert(is_scattered_name(s[j0].name));
                assert(wr[2].name != e.name && wr[3].name != e.name && wr[4].name != e.name
                    && wr[5].name != e.name);
                let j = choose|j: int| 0 <= j < dots.len() && (#[trigger] dots[j]).name == s[j0].name;
                assert(wr[6 + j].name != e.name);
            }
        } else {
            let k = choose|k: int| 0 <= k < wr.len() && wr[k] == e && e.value.len() > 0;
            assert(k == 0 || k == 1);
        }
    }
}

/// The migration's write leaves its `LXATTRB` entry in place.
#[verifier::spinoff_prover]
#[verifier::rlimit(60)]
proof fn lemma_after_has_record(s: Seq<EaRecord>, w: WslfsParsed, l: LxfsParsed)
    requires
        wslfs_scan(s) is Ok,
        w.dots() == wslfs_scan(s)->Ok_0.dots.map_values(
            |e: EaRecord| DotView { ea: e, changed: false },
        ),
    ensures
        has_record_entry(apply_ea_write(s, downgrade_entries(&w, &l))),
{
    let wr = downgrade_entries(&w, &l);
    let dots = wslfs_scan(s)->Ok_0.dots;
    lemma_scan_dots(s);
    lemma_write_entries(w, l, dots);
    lemma_names_differ(seq![]);
    assert(lxattrb_bytes(downgrade_record(&w, &l)).len() > 0);
    assert forall|j: int| 0 < j < wr.len() implies (#[trigger] wr[j]).name != wr[0].name by {
        if j >= 6 {
            assert(wr[j].name == dots[j - 6].name);
            lemma_names_differ(dots[j - 6].name);
        }
    }
    lemma_apply_keeps(s, wr, 0);
    let after = apply_ea_write(s, wr);
    let i = choose|i: int| 0 <= i < after.len() && after[i] == wr[0];
    assert(after[i].name == lxattrb_key());
}

/// After the EA write that migrates a scattered file, the file holds
/// compact metadata that reads back without error and no scattered
/// metadata; with its reparse point deleted, migrating it again finds it
/// already migrated.
pub proof fn lemma_migration_idempotent(s: Seq<EaRecord>, w: WslfsParsed, l: LxfsParsed)
    requires
        wslfs_scan(s) is Ok,
        w.dots() == wslfs_scan(s)->Ok_0.dots.map_values(
            |e: EaRecord| DotView { ea: e, changed: false },
        ),
        downgrade_fits(&w, &l),
    ensures
        ({
            let after = apply_ea_write(s, downgrade_entries(&w, &l));
            &&& lxfs_scan(after) is Ok
            &&& has_record_entry(after)
            &&& wslfs_scan(after) is Ok
            &&& !has_scattered_entry(after)
        }),
{
    let after = apply_ea_write(s, downgrade_entries(&w, &l));
    lemma_after_entries(s, w, l);
    lemma_after_has_record(s, w, l);
    lemma_scan_no_scattered(after);
    lemma_scan_compact_ok(after);
}

/// Migrating a file a second time, from fresh reads of what the first
/// migration left (its reparse point deleted), finds the compact scheme
/// claiming the file and the scattered scheme not: `downgrade` then returns
/// `AlreadyMigrated` and plans no write, so the file stays as it is.
pub proof fn lemma_second_run_already_migrated(
    s: Seq<EaRecord>,
    w: WslfsParsed,
    l: LxfsParsed,
    w2: WslfsParsed,
    l2: LxfsParsed,
)
    requires
        wslfs_scan(s) is Ok,
        w.dots() == wslfs_scan(s)->Ok_0.dots.map_values(
            |e: EaRecord| DotView { ea: e, changed: false },
        ),
        downgrade_fits(&w, &l),
        l2.record() == lxfs_scan(apply_ea_write(s, downgrade_entries(&w, &l)))->Ok_0.0,
        field_value(w2.lxuid) == wslfs_scan(apply_ea_write(s, downgrade_entries(&w, &l)))->Ok_0.uid,
        field_value(w2.lxgid) == wslfs_scan(apply_ea_write(s, downgrade_entries(&w, &l)))->Ok_0.gid,
        field_value(w2.lxmod) == wslfs_scan(apply_ea_write(s, downgrade_entries(&w, &l)))->Ok_0.mode,
        field_value(w2.lxdev) == wslfs_scan(apply_ea_write(s, downgrade_entries(&w, &l)))->Ok_0.dev,
        w2.dots().len() == wslfs_scan(apply_ea_write(s, downgrade_entries(&w, &l)))->Ok_0.dots.len(),
        w2.reparse_tag is None,
    ensures
        l2.claimed(),
        !w2.claimed(),
{
    let after = apply_ea_write(s, downgrade_entries(&w, &l));
    lemma_migration_idempotent(s, w, l);
    lemma_compact_claim(l2, after);
    lemma_scattered_claim(w2, after);
}

} // verus!
