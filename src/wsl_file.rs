//! What both schemes offer: owner, group, mode, device numbers and named
//! attributes of one file, read and changed in memory and then saved as one
//! EA buffer.
use vstd::prelude::*;

use crate::distro::FsType;
use crate::error::AttrError;

verus! {

/// A value read from disk, or one changed in memory since. Only changed
/// values are written back.
#[derive(Clone, Copy, Debug, PartialEq, Eq)]
pub enum Field<T> {
    Loaded(T),
    Changed(T),
}

impl<T: Copy> Field<T> {
    pub open spec fn value(self) -> T {
        match self {
            Field::Loaded(v) => v,
            Field::Changed(v) => v,
        }
    }

    pub fn get(&self) -> (r: T)
        ensures
            r == self.value(),
    {
        match self {
            Field::Loaded(v) => *v,
            Field::Changed(v) => *v,
        }
    }
}

/// Owner, group, mode and device numbers as a scheme records them; `None`
/// where the scheme holds no value.
pub struct PosixMeta {
    pub uid: Option<u32>,
    pub gid: Option<u32>,
    pub mode: Option<u32>,
    pub dev_major: Option<u32>,
    pub dev_minor: Option<u32>,
}

/// One scheme's view of a file's Linux metadata.
pub trait WslFileAttributes {
    /// The values the getters return.
    spec fn meta(&self) -> PosixMeta;

    /// The file carries metadata of this scheme.
    spec fn claimed(&self) -> bool;

    fn fs_type(&self) -> FsType;

    fn maybe(&self) -> (r: bool)
        ensures
            r == self.claimed(),
    ;

    fn get_uid(&self) -> (r: Option<u32>)
        ensures
            r == self.meta().uid,
    ;

    fn get_gid(&self) -> (r: Option<u32>)
        ensures
            r == self.meta().gid,
    ;

    fn get_mode(&self) -> (r: Option<u32>)
        ensures
            r == self.meta().mode,
    ;

    fn get_dev_major(&self) -> (r: Option<u32>)
        ensures
            r == self.meta().dev_major,
    ;

    fn get_dev_minor(&self) -> (r: Option<u32>)
        ensures
            r == self.meta().dev_minor,
    ;

    fn set_uid(&mut self, uid: u32)
        ensures
            final(self).meta().uid == Some(uid),
            final(self).claimed(),
    ;

    fn set_gid(&mut self, gid: u32)
        ensures
            final(self).meta().gid == Some(gid),
            final(self).claimed(),
    ;

    fn set_mode(&mut self, mode: u32)
        ensures
            final(self).meta().mode == Some(mode),
            final(self).claimed(),
    ;

    fn set_dev_major(&mut self, dev_major: u32)
        ensures
            dev_major < 0x1000 ==> final(self).meta().dev_major == Some(dev_major),
            final(self).claimed(),
    ;

    fn set_dev_minor(&mut self, dev_minor: u32)
        ensures
            dev_minor < 0x100000 ==> final(self).meta().dev_minor == Some(dev_minor),
            final(self).claimed(),
    ;

    /// Adds the attribute `name`, or replaces its value.
    fn set_attr(&mut self, name: &[u8], value: &[u8]);

    /// Marks the attribute `name` for removal at the next save.
    fn rm_attr(&mut self, name: &[u8]);

    /// The EA buffer that writes what changed; entries with an empty value
    /// delete what the file had under that name.
    fn save(&mut self) -> Result<Vec<u8>, AttrError>;
}

/// Index of the first key equal to `key`, or -1.
pub open spec fn first_index(keys: Seq<Seq<u8>>, key: Seq<u8>) -> int
    decreases keys.len(),
{
    if keys.len() == 0 {
        -1
    } else if keys[0] == key {
        0
    } else {
        let k = first_index(keys.drop_first(), key);
        if k < 0 {
            -1
        } else {
            k + 1
        }
    }
}

/// `first_index` is the first position holding `key`, or -1 when none does.
pub proof fn lemma_first_index(keys: Seq<Seq<u8>>, key: Seq<u8>, i: int)
    requires
        0 <= i <= keys.len(),
        forall|j: int| 0 <= j < i ==> keys[j] != key,
        i < keys.len() ==> keys[i] == key,
    ensures
        first_index(keys, key) == (if i < keys.len() {
            i
        } else {
            -1
        }),
    decreases keys.len(),
{
    if keys.len() > 0 && i > 0 {
        let t = keys.drop_first();
        assert(keys[0] != key);
        assert forall|j: int| 0 <= j < i - 1 implies t[j] != key by {
            assert(t[j] == keys[j + 1]);
        }
        if i < keys.len() {
            assert(t[i - 1] == keys[i]);
        }
        lemma_first_index(t, key, i - 1);
    }
}

/// The scheme to change a file through: the one given, else the one that
/// claims the file; refused where both or neither claim it.
pub fn select_scheme(given: Option<FsType>, wslfs_claims: bool, lxfs_claims: bool) -> (r: Result<
    FsType,
    AttrError,
>)
    ensures
        given matches Some(t) ==> r == Ok::<FsType, AttrError>(t),
        given is None ==> r == (if wslfs_claims && lxfs_claims {
            Err(AttrError::AmbiguousScheme)
        } else if wslfs_claims {
            Ok(FsType::Wslfs)
        } else if lxfs_claims {
            Ok(FsType::Lxfs)
        } else {
            Err(AttrError::UnsupportedSchemeless)
        }),
{
    match given {
        Some(t) => Ok(t),
        None => if wslfs_claims && lxfs_claims {
            Err(AttrError::AmbiguousScheme)
        } else if wslfs_claims {
            Ok(FsType::Wslfs)
        } else if lxfs_claims {
            Ok(FsType::Lxfs)
        } else {
            Err(AttrError::UnsupportedSchemeless)
        },
    }
}

/// How a file was opened: directly, or as the reparse point itself.
#[derive(Clone, Copy, Debug, PartialEq, Eq, Structural)]
pub enum OpenFileType {
    Normal,
    ReparsePoint,
}

} // verus!
