use wslattr::distro::{Distro, DistroSource, FsType};
use wslattr::escape_utils::{
    escape_bytes_base64, escape_bytes_hex, escape_bytes_octal, escape_char_octal, unescape,
    unescape_hex, unescape_octal,
};
use wslattr::posix::{chmod_bit, lsperms, Group, StModeType, User};

#[test]
fn test_unescape() {
    let a = unescape("0x61625c745c6e1b24").unwrap();
    let b = unescape("0sYWJcdFxuGyQ=").unwrap();

    assert_eq!(a, b);

    let c = unescape(r#"ab\\t\\n\033$"#).unwrap();
    assert_eq!(a, c);
}

#[test]
fn test_escape() {
    let v = unescape("0x61625c745c6e1b24").unwrap();

    let mut repr = String::new();
    escape_bytes_hex(v.as_slice(), &mut repr);
    assert_eq!("61625c745c6e1b24", repr);

    let mut repr = String::new();
    escape_bytes_base64(v.as_slice(), &mut repr);
    assert_eq!("YWJcdFxuGyQ=", repr);

    let mut repr = String::new();
    escape_bytes_octal(v.as_slice(), &mut repr, false);
    assert_eq!(r#"ab\\t\\n\033$"#, repr);
}

#[test]
fn escape_keeps_or_escapes_utf8() {
    let bytes = "é\u{85}x\"".as_bytes();
    let mut kept = String::new();
    escape_bytes_octal(bytes, &mut kept, true);
    assert_eq!(kept, "é\\302\\205x\\\"");
    let mut escaped = String::new();
    escape_bytes_octal(bytes, &mut escaped, false);
    assert_eq!(escaped, "\\303\\251\\302\\205x\\\"");
    let mut invalid = String::new();
    escape_bytes_octal(&[0xff, b'a', 0xe2, 0x82], &mut invalid, true);
    assert_eq!(invalid, "\\377a\\342\\202");
    let mut one = String::new();
    escape_char_octal('\n', &mut one, true);
    escape_char_octal('\\', &mut one, true);
    assert_eq!(one, "\\012\\\\");
}

#[test]
fn unescape_rejects_bad_input() {
    assert_eq!(unescape("0x123"), None);
    assert_eq!(unescape("0xzz"), None);
    assert_eq!(unescape("0s!!"), None);
    assert_eq!(unescape("ab\\"), None);
    assert_eq!(unescape("\\777"), None);
    assert_eq!(unescape("plain"), Some(b"plain".to_vec()));
    assert_eq!(unescape_hex("+f0A"), Ok(vec![15, 10]));
    assert_eq!(unescape_octal("\\\"\\101"), Ok(b"\"A".to_vec()));
}

#[test]
fn lsperms_shows_type_and_bits() {
    assert_eq!(lsperms(0o100755), "-rwxr-xr-x");
    assert_eq!(lsperms(0o060644), "brw-r--r--");
    assert_eq!(lsperms(0o104755), "-rwsr-xr-x");
    assert_eq!(lsperms(0o043744), "drwxr-Sr-T");
    assert_eq!(lsperms(0o121777), "lrwxrwxrwt");
}

#[test]
fn chmod_bits() {
    assert_eq!(chmod_bit(0o100644, 'u', '+', 'x'), 0o100744);
    assert_eq!(chmod_bit(0o100777, 'a', '-', 'w'), 0o100555);
    assert_eq!(chmod_bit(0o100644, 'o', '+', 't'), 0o101644);
    assert_eq!(chmod_bit(0o100644, 'u', '+', 't'), 0o100644);
    assert_eq!(chmod_bit(0o104644, 'u', '-', 's'), 0o100644);
}

#[test]
fn mode_types() {
    assert_eq!(StModeType::from_mode(0o120777), StModeType::LNK);
    assert_eq!(StModeType::from_mode(0o777), StModeType::UNKNOWN);
    assert_eq!(StModeType::LNK.name(), ("SYMLINK", 'l'));
    assert_eq!(StModeType::SOCK.mode_bits(), 0o140000);
}

#[test]
fn distro_lookups() {
    let mut d = Distro {
        name: "Arch".to_string(),
        base_path: "C:\\wsl\\arch".to_string(),
        fs_type: Some(FsType::Wslfs),
        source: DistroSource::Arg,
        users: Some(vec![
            User { name: "root".to_string(), uid: 0 },
            User { name: "me".to_string(), uid: 1000 },
        ]),
        groups: Some(vec![Group { name: "users".to_string(), gid: 100 }]),
    };
    assert_eq!(d.uid("me"), Some(1000));
    assert_eq!(d.uid("nobody"), None);
    assert_eq!(d.gid("users"), Some(100));
    assert_eq!(d.user_name(0), Some("root"));
    assert_eq!(d.group_name(5), None);
    d.set_fs_type(Some(FsType::Lxfs));
    assert_eq!(d.fs_type, Some(FsType::Lxfs));
    assert_eq!(FsType::Lxfs.version(), 1);
    assert_eq!(FsType::from_version(2), Some(FsType::Wslfs));
}

use wslattr::posix::{chmod_all, chmod_part, line_parse};

#[test]
fn chmod_octal_keeps_type() {
    assert_eq!(chmod_all(0o100644, "755"), Ok(0o100755));
    assert_eq!(chmod_all(0o040755, "1777"), Ok(0o041777));
    assert_eq!(chmod_all(0o100644, "+600"), Ok(0o100600));
    assert_eq!(chmod_all(0o100644, "+0600"), Err(()));
    assert_eq!(chmod_all(0o100644, "00755"), Err(()));
}

#[test]
fn chmod_symbolic_changes() {
    assert_eq!(chmod_all(0o100644, "u+x,g-r"), Ok(0o100704));
    assert_eq!(chmod_all(0o100644, " a+x , o-r "), Ok(0o100751));
    assert_eq!(chmod_all(0o100644, "+t"), Ok(0o101644));
    assert_eq!(chmod_all(0o100644, "ug+s"), Err(()));
    assert_eq!(chmod_all(0o100644, "+x"), Err(()));
    assert_eq!(chmod_all(0o100644, "u+x,"), Err(()));
    assert_eq!(chmod_all(0o100644, "u=x"), Err(()));
    assert_eq!(chmod_part(0o100644, "g+wx"), Ok(0o100674));
    assert_eq!(chmod_part(0o100644, "u+q"), Err(()));
}

#[test]
fn passwd_lines() {
    assert_eq!(line_parse("root:x:0:0:root:/root:/bin/bash"), Ok(("root".to_string(), 0)));
    assert_eq!(line_parse("users:x:100:"), Ok(("users".to_string(), 100)));
    assert_eq!(line_parse("broken:x"), Err(()));
    assert_eq!(line_parse("bad:x:abc:"), Err(()));
    assert_eq!(line_parse("big:x:4294967296"), Err(()));
}
