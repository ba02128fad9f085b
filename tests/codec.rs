use wslattr::ea_parse::{ea_entry_size_inner, parse_ea, EaEntry, EaOut};
use wslattr::error::AttrError;
use wslattr::lxfs::{dev_major, dev_minor, make_dev, EaLxattrbV1};
use wslattr::lxxattr::{parse_lxxattr, LxxattrOut};
use wslattr::reparse::{build_lx_symlink, parse_lx_symlink, ReparseEvent, ReparseReader, ReparseStep};
use wslattr::time_utils::{
    filetime_to_lxfs_time, lxfs_time_to_filetime, lxfs_time_to_u64, u64_to_lxfs_time, LxfsTime,
};

#[test]
fn test_ea_entry_size_inner() {
    assert_eq!(ea_entry_size_inner(1, 0), 12); // 10
    assert_eq!(ea_entry_size_inner(1, 1), 12); // 11
    assert_eq!(ea_entry_size_inner(1, 2), 12); // 12
    assert_eq!(ea_entry_size_inner(2, 2), 16); // 13
    assert_eq!(ea_entry_size_inner(2, 3), 16); // 14
}

#[test]
fn test_convert() {
    let tv = LxfsTime { tv_sec: 1729741525, tv_nsec: 3480100 };
    let ft = lxfs_time_to_filetime(tv);

    assert_eq!(tv, filetime_to_lxfs_time(ft));
}

#[test]
fn test_display() {
    let tv = LxfsTime::new(1729741525, 3480100);
    assert_eq!(Some("2024-10-24 03:45:25.0034801 UTC".to_string()), tv.to_display_string());
}

#[test]
fn ticks_of_epoch_and_before() {
    assert_eq!(lxfs_time_to_u64(LxfsTime::new(0, 0)), 116444736000000000);
    assert_eq!(u64_to_lxfs_time(116444736000000000), LxfsTime::new(0, 0));
    // one second before 1970 is -1 in two's complement
    assert_eq!(u64_to_lxfs_time(116444736000000000 - 10000000), LxfsTime::new(u64::MAX, 0));
    assert_eq!(u64_to_lxfs_time(116444736000000123), LxfsTime::new(0, 12300));
}

fn sample_entries() -> Vec<(u8, Vec<u8>, Vec<u8>)> {
    vec![
        (0, b"A".to_vec(), vec![]),
        (0x80, b"LXATTRB".to_vec(), (0u8..56).collect()),
        (0, b"$LXUID".to_vec(), vec![1, 2, 3, 4]),
        (0, b"LX.USER.XDG.ORIGIN.URL".to_vec(), b"lxeahttp://example.url".to_vec()),
    ]
}

#[test]
fn chain_round_trip() {
    let mut out = EaOut::new();
    for (flags, name, value) in sample_entries() {
        out.add_entry(&EaEntry { flags, name, value });
    }
    assert_eq!(out.count(), 4);
    let buf = out.into_buffer();
    let parsed = parse_ea(&buf).unwrap();
    assert_eq!(parsed.len(), 4);
    for (e, (flags, name, value)) in parsed.iter().zip(sample_entries()) {
        assert_eq!(e.flags, flags);
        assert_eq!(e.name, name);
        assert_eq!(e.value, value);
    }
}

#[test]
fn chain_empty_round_trip() {
    let out = EaOut::default();
    assert_eq!(out.count(), 0);
    let buf = out.into_buffer();
    assert!(buf.is_empty());
    assert_eq!(parse_ea(&buf).unwrap().len(), 0);
}

#[test]
fn chain_records_aligned() {
    let mut out = EaOut::new();
    out.add(b"A", b"");
    assert_eq!(out.buffer().len(), 12);
    out.add(b"BC", b"xyz");
    assert_eq!(out.buffer().len(), 28);
    let buf = out.into_buffer();
    // the first record links to the second, 12 bytes on
    assert_eq!(&buf[0..4], &[12, 0, 0, 0]);
    // the second record is the last
    assert_eq!(&buf[12..16], &[0, 0, 0, 0]);
    assert_eq!(buf[12 + 5], 2);
    assert_eq!(&buf[12 + 8..12 + 10], b"BC");
    assert_eq!(buf[12 + 10], 0);
    assert_eq!(&buf[12 + 11..12 + 14], b"xyz");
}

#[test]
fn chain_truncations_rejected() {
    let mut out = EaOut::new();
    for (flags, name, value) in sample_entries() {
        out.add_entry(&EaEntry { flags, name, value });
    }
    let buf = out.into_buffer();
    for k in 1..buf.len() {
        assert_eq!(parse_ea(&buf[..k]).err(), Some(AttrError::MalformedChain), "prefix {}", k);
    }
}

#[test]
fn chain_bad_offsets_rejected() {
    let mut out = EaOut::new();
    out.add(b"A", b"1");
    out.add(b"B", b"2");
    let mut buf = out.into_buffer();
    // next offset past the end
    buf[0] = 200;
    assert_eq!(parse_ea(&buf).err(), Some(AttrError::MalformedChain));
    // next offset not a multiple of 4
    buf[0] = 13;
    assert_eq!(parse_ea(&buf).err(), Some(AttrError::MalformedChain));
    // value length past the end
    buf[0] = 12;
    buf[6] = 0xff;
    assert_eq!(parse_ea(&buf).err(), Some(AttrError::MalformedChain));
}

#[test]
fn lxxattr_round_trip_unpadded() {
    let mut out = LxxattrOut::new();
    out.add(b"user.a", b"1");
    out.add(b"user.bb", b"");
    assert_eq!(out.count(), 2);
    let buf = out.into_buffer();
    assert_eq!(&buf[0..4], &[0, 0, 1, 0]);
    // header, then 7 + 6 + 1 and 7 + 7 + 0 bytes, with no padding
    assert_eq!(buf.len(), 4 + 14 + 14);
    assert_eq!(&buf[4..8], &[14, 0, 0, 0]);
    let list = parse_lxxattr(&buf).unwrap();
    assert_eq!(list.len(), 2);
    assert_eq!(list[0].name, b"user.a");
    assert_eq!(list[0].value, Some(b"1".to_vec()));
    assert_eq!(list[1].name, b"user.bb");
    assert_eq!(list[1].value, Some(vec![]));
}

#[test]
fn lxxattr_bad_header_rejected() {
    assert_eq!(parse_lxxattr(&[0, 0, 2, 0, 0, 0, 0, 0, 0, 0, 0]).err(), Some(AttrError::MalformedChain));
    assert_eq!(parse_lxxattr(&[0, 0, 1]).err(), Some(AttrError::MalformedChain));
    assert_eq!(parse_lxxattr(&[0, 0, 1, 0]).err(), Some(AttrError::MalformedChain));
    assert_eq!(parse_lxxattr(&[]).unwrap().len(), 0);
}

#[test]
fn lxattrb_round_trip() {
    let mut rec = EaLxattrbV1::new(&None);
    assert_eq!(rec.st_mode, 0o100644);
    assert_eq!(rec.version, 1);
    rec.st_uid = 1000;
    rec.st_gid = 100;
    rec.st_rdev = make_dev(37, 13);
    rec.st_mtime = 1729741525;
    rec.st_mtime_nsec = 3480100;
    let bytes = rec.to_bytes();
    assert_eq!(bytes.len(), 56);
    assert_eq!(&bytes[0..4], &[0, 0, 1, 0]);
    assert_eq!(EaLxattrbV1::from_bytes(&bytes), Some(rec));
    assert_eq!(EaLxattrbV1::from_bytes(&bytes[..55]), None);
}

#[test]
fn dev_packing_round_trip() {
    let dev = make_dev(37, 13);
    assert_eq!(dev, (37 << 20) | 13);
    assert_eq!((dev_major(dev), dev_minor(dev)), (37, 13));
}

#[test]
fn symlink_payload_round_trip() {
    let payload = build_lx_symlink(b"x");
    assert_eq!(payload, vec![0x1d, 0, 0, 0xa0, 5, 0, 0, 0, 2, 0, 0, 0, b'x']);
    assert_eq!(parse_lx_symlink(&payload).unwrap(), b"x");
}

#[test]
fn symlink_payload_rejects_bad_fields() {
    let mut payload = build_lx_symlink(b"target");
    payload[8] = 3;
    assert_eq!(parse_lx_symlink(&payload).err(), Some(AttrError::MalformedReparseData));
    let mut payload = build_lx_symlink(b"target");
    payload[0] = 0x1e;
    assert_eq!(parse_lx_symlink(&payload).err(), Some(AttrError::MalformedReparseData));
    let payload = build_lx_symlink(b"target");
    assert_eq!(parse_lx_symlink(&payload[..payload.len() - 1]).err(), Some(AttrError::MalformedReparseData));
}

#[test]
fn reparse_read_retries_once() {
    let target: Vec<u8> = (0..100).map(|i| b'a' + (i % 26) as u8).collect();
    let payload = build_lx_symlink(&target);
    let (mut reader, first) = ReparseReader::start();
    let size = match first {
        ReparseStep::Read(n) => n,
        other => panic!("unexpected {:?}", other),
    };
    assert!(size < payload.len());
    let size = match reader.next(ReparseEvent::MoreData(payload[..size].to_vec())) {
        ReparseStep::Read(n) => n,
        other => panic!("unexpected {:?}", other),
    };
    assert_eq!(size, payload.len());
    let got = match reader.next(ReparseEvent::Data(payload.clone())) {
        ReparseStep::Done(b) => b,
        other => panic!("unexpected {:?}", other),
    };
    assert_eq!(parse_lx_symlink(&got).unwrap(), target);
    // a second short read is not retried
    assert_eq!(reader.next(ReparseEvent::MoreData(payload[..64].to_vec())), ReparseStep::Failed);
}

#[test]
fn chain_largest_entry_round_trip() {
    let name = vec![b'N'; 255];
    let value: Vec<u8> = (0..65535u32).map(|i| (i % 251) as u8).collect();
    let mut out = EaOut::new();
    out.add(&name, &value);
    out.add(b"B", b"");
    let buf = out.into_buffer();
    assert_eq!(buf.len() % 4, 0);
    assert_eq!(buf.len(), ea_entry_size_inner(255, 65535) + 12);
    let parsed = parse_ea(&buf).unwrap();
    assert_eq!(parsed.len(), 2);
    assert_eq!(parsed[0].name, name);
    assert_eq!(parsed[0].value, value);
    assert_eq!(parsed[1].name, b"B");
}

#[test]
fn lxfs_time_conversions() {
    let t: LxfsTime = 116444736000000000u64.into();
    assert_eq!(t, LxfsTime::new(0, 0));
    let p: LxfsTime = (5u64, 7u32).into();
    assert_eq!(p.into_pair(), (5, 7));
    let ft = wslattr::time_utils::u64_to_filetime(116444736000000000 + 10000000);
    assert_eq!(wslattr::time_utils::filetime_to_u64(ft), 116444736000000000 + 10000000);
    let f: LxfsTime = ft.into();
    assert_eq!(f, LxfsTime::new(1, 0));
}
