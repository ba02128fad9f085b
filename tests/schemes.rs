use wslattr::reparse::{build_lx_symlink, build_lx_type, plan_reparse_change};
use wslattr::wslfs::IO_REPARSE_TAG_LX_FIFO;
use wslattr::ea_parse::{parse_ea, EaEntry, EaOut};
use wslattr::error::AttrError;
use wslattr::lxfs::{make_dev, EaLxattrbV1, LxfsParsed};
use wslattr::lxxattr::parse_lxxattr;
use wslattr::migrate::{downgrade, Migration};
use wslattr::posix::StModeType;
use wslattr::time_utils::FileBasicInfo;
use wslattr::wsl_file::{Field, WslFileAttributes};
use wslattr::wslfs::{WslfsParsed, IO_REPARSE_TAG_LX_CHR, IO_REPARSE_TAG_LX_SYMLINK};

fn chain(entries: &[(&[u8], Vec<u8>)]) -> Vec<EaEntry> {
    let mut out = EaOut::new();
    for (name, value) in entries {
        out.add(name, value);
    }
    parse_ea(&out.into_buffer()).unwrap()
}

fn scattered_entries() -> Vec<EaEntry> {
    chain(&[
        (b"$LXUID", 1000u32.to_le_bytes().to_vec()),
        (b"$LXGID", 100u32.to_le_bytes().to_vec()),
        (b"$LXMOD", 0o100755u32.to_le_bytes().to_vec()),
        (b"$LXDEV", vec![0; 8]),
        (b"LX.USER.TEST", b"lxeahello".to_vec()),
    ])
}

fn compact_entries() -> Vec<EaEntry> {
    let mut rec = EaLxattrbV1::new(&None);
    rec.st_uid = 1000;
    chain(&[(b"LXATTRB", rec.to_bytes())])
}

fn find<'a>(entries: &'a [EaEntry], name: &[u8]) -> Option<&'a EaEntry> {
    entries.iter().find(|e| e.name == name)
}

#[test]
fn compact_only_file_is_claimed_by_compact_scheme() {
    let entries = Some(compact_entries());
    let lxfs = LxfsParsed::load(None, &entries).unwrap();
    let wslfs = WslfsParsed::load(None, &entries).unwrap();
    assert!(lxfs.maybe());
    assert!(!wslfs.maybe());
    assert_eq!(lxfs.get_uid(), Some(1000));
    assert_eq!(lxfs.get_mode(), Some(0o100644));
    assert_eq!(wslfs.get_uid(), None);
}

#[test]
fn scattered_only_file_is_claimed_by_scattered_scheme() {
    let entries = Some(scattered_entries());
    let lxfs = LxfsParsed::load(None, &entries).unwrap();
    let wslfs = WslfsParsed::load(None, &entries).unwrap();
    assert!(!lxfs.maybe());
    assert!(wslfs.maybe());
    assert_eq!(wslfs.get_uid(), Some(1000));
    assert_eq!(wslfs.get_gid(), Some(100));
    assert_eq!(wslfs.get_mode(), Some(0o100755));
    assert_eq!(wslfs.get_dev_major(), Some(0));
    assert_eq!(wslfs.lx_dot_ea.len(), 1);
    assert_eq!(wslfs.lx_dot_ea[0].name(), b"user.test");
    assert_eq!(wslfs.lx_dot_ea[0].value(), b"hello");
    assert_eq!(lxfs.get_uid(), None);
}

#[test]
fn file_with_both_schemes_is_refused() {
    let mut both = scattered_entries();
    both.extend(compact_entries());
    let entries = Some(both);
    let lxfs = LxfsParsed::load(None, &entries).unwrap();
    let wslfs = WslfsParsed::load(None, &entries).unwrap();
    assert!(lxfs.maybe());
    assert!(wslfs.maybe());
    assert_eq!(downgrade(&wslfs, &lxfs).err(), Some(AttrError::AmbiguousScheme));
}

#[test]
fn reparse_tag_alone_claims_scattered_scheme() {
    let wslfs = WslfsParsed::load(Some(IO_REPARSE_TAG_LX_CHR), &None).unwrap();
    assert!(wslfs.maybe());
    assert_eq!(wslfs.reparse_tag, Some(StModeType::CHR));
    let lxfs = LxfsParsed::load(None, &None).unwrap();
    assert!(!lxfs.maybe());
}

#[test]
fn short_scalar_is_malformed() {
    let entries = Some(chain(&[(b"$LXUID", vec![1, 2])]));
    assert_eq!(WslfsParsed::load(None, &entries).err(), Some(AttrError::MalformedChain));
    let entries = Some(chain(&[(b"LXATTRB", vec![0; 10])]));
    assert_eq!(LxfsParsed::load(None, &entries).err(), Some(AttrError::MalformedChain));
    let entries = Some(chain(&[(b"LXXATTR", vec![0, 0, 1])]));
    assert_eq!(LxfsParsed::load(None, &entries).err(), Some(AttrError::MalformedChain));
}

#[test]
fn migration_keeps_owner_mode_and_attributes() {
    let entries = Some(scattered_entries());
    let info = FileBasicInfo {
        creation_time: 0,
        last_access_time: 116444736000000000 + 10000000 * 5,
        last_write_time: 116444736000000000 + 10000000 * 6,
        change_time: 116444736000000000 + 10000000 * 7,
    };
    let lxfs = LxfsParsed::load(Some(info), &entries).unwrap();
    let wslfs = WslfsParsed::load(None, &entries).unwrap();
    let plan = match downgrade(&wslfs, &lxfs).unwrap() {
        Migration::Convert(p) => p,
        Migration::AlreadyMigrated => panic!("not migrated"),
    };
    assert_eq!(plan.delete_reparse_tag, None);
    assert_eq!(plan.symlink_content, None);
    let written = parse_ea(&plan.ea_buffer).unwrap();
    let rec = EaLxattrbV1::from_bytes(&find(&written, b"LXATTRB").unwrap().value).unwrap();
    assert_eq!(rec.st_uid, 1000);
    assert_eq!(rec.st_gid, 100);
    assert_eq!(rec.st_mode, 0o100755);
    assert_eq!(rec.st_rdev, 0);
    assert_eq!((rec.st_atime, rec.st_mtime, rec.st_ctime), (5, 6, 7));
    let list = parse_lxxattr(&find(&written, b"LXXATTR").unwrap().value).unwrap();
    assert_eq!(list.len(), 1);
    assert_eq!(list[0].name, b"user.test");
    assert_eq!(list[0].value, Some(b"hello".to_vec()));
    for name in [&b"$LXUID"[..], b"$LXGID", b"$LXMOD", b"$LXDEV", b"LX.USER.TEST"] {
        assert!(find(&written, name).unwrap().value.is_empty());
    }
}

#[test]
fn migration_repacks_device_and_drops_reparse_point() {
    let entries = Some(chain(&[(b"$LXDEV", [37u32.to_le_bytes(), 13u32.to_le_bytes()].concat())]));
    let lxfs = LxfsParsed::load(None, &entries).unwrap();
    let mut wslfs = WslfsParsed::load(Some(IO_REPARSE_TAG_LX_SYMLINK), &entries).unwrap();
    wslfs.symlink = Some(b"/target".to_vec());
    let plan = match downgrade(&wslfs, &lxfs).unwrap() {
        Migration::Convert(p) => p,
        Migration::AlreadyMigrated => panic!("not migrated"),
    };
    assert_eq!(plan.delete_reparse_tag, Some(IO_REPARSE_TAG_LX_SYMLINK));
    assert_eq!(plan.symlink_content, Some(b"/target".to_vec()));
    let written = parse_ea(&plan.ea_buffer).unwrap();
    let rec = EaLxattrbV1::from_bytes(&find(&written, b"LXATTRB").unwrap().value).unwrap();
    assert_eq!(rec.st_rdev, make_dev(37, 13));
    assert_eq!(rec.st_mode, 0);
    assert!(find(&written, b"LXXATTR").unwrap().value.is_empty());
}

/// What the file holds after an EA write: an empty value deletes an entry,
/// any other replaces or adds it.
fn apply_write(disk: &[EaEntry], buf: &[u8]) -> Vec<EaEntry> {
    let mut out: Vec<EaEntry> = disk.iter().map(|e| e.copy()).collect();
    for w in parse_ea(buf).unwrap() {
        out.retain(|e| e.name != w.name);
        if !w.value.is_empty() {
            out.push(w);
        }
    }
    out
}

#[test]
fn migration_twice_is_a_no_op() {
    let disk = scattered_entries();
    let entries = Some(disk.iter().map(|e| e.copy()).collect::<Vec<_>>());
    let lxfs = LxfsParsed::load(None, &entries).unwrap();
    let wslfs = WslfsParsed::load(None, &entries).unwrap();
    let plan = match downgrade(&wslfs, &lxfs).unwrap() {
        Migration::Convert(p) => p,
        Migration::AlreadyMigrated => panic!("not migrated"),
    };
    let after = Some(apply_write(&disk, &plan.ea_buffer));
    let lxfs = LxfsParsed::load(None, &after).unwrap();
    let wslfs = WslfsParsed::load(None, &after).unwrap();
    assert!(lxfs.maybe());
    assert!(!wslfs.maybe());
    for _ in 0..2 {
        assert!(matches!(downgrade(&wslfs, &lxfs), Ok(Migration::AlreadyMigrated)));
    }
}

#[test]
fn compact_setters_create_a_record() {
    let info = FileBasicInfo {
        creation_time: 0,
        last_access_time: 116444736000000000,
        last_write_time: 116444736000000000,
        change_time: 116444736000000000,
    };
    let mut lxfs = LxfsParsed::load(Some(info), &None).unwrap();
    assert!(!lxfs.maybe());
    lxfs.set_uid(7);
    assert!(lxfs.maybe());
    assert_eq!(lxfs.get_uid(), Some(7));
    assert_eq!(lxfs.get_gid(), Some(0));
    assert_eq!(lxfs.get_mode(), Some(0o100644));
    lxfs.set_dev_major(37);
    lxfs.set_dev_minor(13);
    assert_eq!((lxfs.get_dev_major(), lxfs.get_dev_minor()), (Some(37), Some(13)));
    let buf = lxfs.save().unwrap();
    let written = parse_ea(&buf).unwrap();
    assert_eq!(written.len(), 1);
    let rec = EaLxattrbV1::from_bytes(&written[0].value).unwrap();
    assert_eq!(rec.st_uid, 7);
    assert_eq!(rec.st_rdev, make_dev(37, 13));
}

#[test]
fn compact_attributes_set_remove_save() {
    let entries = Some(compact_entries());
    let mut lxfs = LxfsParsed::load(None, &entries).unwrap();
    assert!(matches!(lxfs.lxattrb, Some(Field::Loaded(_))));
    lxfs.set_attr(b"user.a", b"1");
    lxfs.set_attr(b"user.b", b"2");
    lxfs.set_attr(b"user.a", b"3");
    lxfs.rm_attr(b"user.b");
    let buf = lxfs.save().unwrap();
    // the unchanged record is not written
    let written = parse_ea(&buf).unwrap();
    assert_eq!(written.len(), 1);
    assert_eq!(written[0].name, b"LXXATTR");
    let list = parse_lxxattr(&written[0].value).unwrap();
    assert_eq!(list.len(), 1);
    assert_eq!(list[0].name, b"user.a");
    assert_eq!(list[0].value, Some(b"3".to_vec()));
    assert_eq!(lxfs.lxxattr.as_ref().unwrap().len(), 1);
}

#[test]
fn scattered_set_remove_save() {
    let entries = Some(scattered_entries());
    let mut wslfs = WslfsParsed::load(None, &entries).unwrap();
    // nothing changed: nothing written
    assert!(parse_ea(&wslfs.save().unwrap()).unwrap().is_empty());
    wslfs.set_gid(5);
    wslfs.set_attr(b"user.test", b"bye");
    wslfs.set_attr(b"user.new", b"x");
    let written = parse_ea(&wslfs.save().unwrap()).unwrap();
    assert_eq!(written.len(), 3);
    assert_eq!(written[0].name, b"$LXGID");
    assert_eq!(written[0].value, 5u32.to_le_bytes());
    assert_eq!(written[1].name, b"LX.USER.TEST");
    assert_eq!(written[1].value, b"lxeabye");
    assert_eq!(written[2].name, b"LX.user.new");
    assert_eq!(written[2].value, b"lxeax");
    wslfs.rm_attr(b"user.test");
    let written = parse_ea(&wslfs.save().unwrap()).unwrap();
    assert!(find(&written, b"LX.USER.TEST").unwrap().value.is_empty());
    assert_eq!(wslfs.lx_dot_ea.len(), 1);
    assert_eq!(wslfs.get_gid(), Some(5));
}

#[test]
fn oversized_attribute_is_refused_on_save() {
    let mut lxfs = LxfsParsed::load(None, &None).unwrap();
    lxfs.set_attr(&[b'a'; 300], b"v");
    assert_eq!(lxfs.save().err(), Some(AttrError::EntryTooLarge));
    let mut wslfs = WslfsParsed::load(None, &None).unwrap();
    wslfs.set_attr(&[b'a'; 300], b"v");
    assert_eq!(wslfs.save().err(), Some(AttrError::EntryTooLarge));
}

use wslattr::vec_ex::VecPushGetMut;
use wslattr::wslfs::LxDotAttr;

#[test]
fn dot_attribute_display() {
    let a = LxDotAttr::new_owned(b"user.Name", b"v\n\xff");
    assert_eq!(a.name_ea(), b"LX.user.Name");
    assert_eq!(a.name(), b"user.name");
    assert_eq!(a.name_display(), "user.name");
    assert_eq!(a.value(), b"v\n\xff");
    assert_eq!(a.value_display(), "\"v\\012\\377\"");
    let bad = LxDotAttr {
        ea: EaEntry { flags: 0, name: b"LX.\xff".to_vec(), value: b"raw".to_vec() },
        changed: false,
    };
    assert_eq!(bad.name_display(), "NAME_ERROR");
    assert_eq!(bad.value(), b"raw");
    assert_eq!(bad.value_display(), "INVALID: \"raw\"");
}

#[test]
fn vec_push_get_mut_and_find() {
    let mut v: Vec<u32> = vec![1, 2, 3];
    *v.push_get_mut(4) += 10;
    assert_eq!(v, vec![1, 2, 3, 14]);
    *v.find_or_push(|x| *x == 2, || 0) = 20;
    assert_eq!(v, vec![1, 20, 3, 14]);
    *v.find_or_push(|x| *x == 99, || 5) += 1;
    assert_eq!(v, vec![1, 20, 3, 14, 6]);
}

use wslattr::distro::FsType;
use wslattr::wsl_file::select_scheme;

#[test]
fn scheme_selection() {
    assert_eq!(select_scheme(None, true, false), Ok(FsType::Wslfs));
    assert_eq!(select_scheme(None, false, true), Ok(FsType::Lxfs));
    assert_eq!(select_scheme(None, true, true), Err(AttrError::AmbiguousScheme));
    assert_eq!(select_scheme(None, false, false), Err(AttrError::UnsupportedSchemeless));
    assert_eq!(select_scheme(Some(FsType::Lxfs), true, true), Ok(FsType::Lxfs));
}

#[test]
fn list_without_record_is_not_compact() {
    let mut list = wslattr::lxxattr::LxxattrOut::new();
    list.add(b"user.a", b"1");
    let entries = Some(chain(&[(b"LXXATTR", list.into_buffer())]));
    let lxfs = LxfsParsed::load(None, &entries).unwrap();
    assert!(!lxfs.maybe());
    assert_eq!(lxfs.get_uid(), None);
    assert_eq!(lxfs.lxxattr.as_ref().unwrap().len(), 1);
}

#[test]
fn unchanged_list_is_not_rewritten() {
    let mut list = wslattr::lxxattr::LxxattrOut::new();
    list.add(b"user.a", b"1");
    let mut rec = EaLxattrbV1::new(&None);
    rec.st_uid = 3;
    let entries = Some(chain(&[(b"LXATTRB", rec.to_bytes()), (b"LXXATTR", list.into_buffer())]));
    let mut lxfs = LxfsParsed::load(None, &entries).unwrap();
    assert!(parse_ea(&lxfs.save().unwrap()).unwrap().is_empty());
    lxfs.set_uid(4);
    let written = parse_ea(&lxfs.save().unwrap()).unwrap();
    assert_eq!(written.len(), 1);
    assert_eq!(written[0].name, b"LXATTRB");
    lxfs.rm_attr(b"user.none");
    assert!(!lxfs.lxxattr_changed);
    lxfs.rm_attr(b"user.a");
    let written = parse_ea(&lxfs.save().unwrap()).unwrap();
    assert_eq!(written.len(), 2);
    assert_eq!(written[1].name, b"LXXATTR");
    assert!(written[1].value.is_empty());
}

#[test]
fn reparse_change_plans() {
    assert_eq!(plan_reparse_change(None, StModeType::FIFO, None), Err(AttrError::NoReparsePoint));
    assert_eq!(
        plan_reparse_change(Some(IO_REPARSE_TAG_LX_CHR), StModeType::FIFO, None),
        Ok((Some(IO_REPARSE_TAG_LX_CHR), build_lx_type(IO_REPARSE_TAG_LX_FIFO)))
    );
    assert_eq!(
        plan_reparse_change(Some(IO_REPARSE_TAG_LX_SYMLINK), StModeType::LNK, Some(b"/t")),
        Ok((None, build_lx_symlink(b"/t")))
    );
    assert_eq!(
        plan_reparse_change(Some(IO_REPARSE_TAG_LX_CHR), StModeType::LNK, None),
        Err(AttrError::NoSymlinkTarget)
    );
    assert_eq!(
        plan_reparse_change(Some(IO_REPARSE_TAG_LX_CHR), StModeType::LNK, Some(&vec![b'a'; 65532])),
        Err(AttrError::EntryTooLarge)
    );
}
