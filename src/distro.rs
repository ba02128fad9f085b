//! A WSL installation: its scheme and its user and group tables.
use vstd::prelude::*;

use crate::posix::{Group, User};
use crate::text::str_eq;

verus! {

/// The WSL1 file-system scheme of an installation.
#[derive(Clone, Copy, Debug, PartialEq, Eq, Structural)]
pub enum FsType {
    /// The compact scheme (`LXATTRB` and `LXXATTR`).
    Lxfs,
    /// The scattered scheme (`$LXUID`, ..., `LX.*` and reparse points).
    Wslfs,
}

impl FsType {
    /// The number the registry stores for the scheme.
    pub fn version(&self) -> (r: u32)
        ensures
            *self == FsType::Lxfs ==> r == 1,
            *self == FsType::Wslfs ==> r == 2,
    {
        match self {
            FsType::Lxfs => 1,
            FsType::Wslfs => 2,
        }
    }

    /// The scheme a registry version number names.
    pub fn from_version(v: u32) -> (r: Option<FsType>)
        ensures
            r == (if v == 1 {
                Some(FsType::Lxfs)
            } else if v == 2 {
                Some(FsType::Wslfs)
            } else {
                None
            }),
    {
        if v == 1 {
            Some(FsType::Lxfs)
        } else if v == 2 {
            Some(FsType::Wslfs)
        } else {
            None
        }
    }
}

/// Where the installation was found.
#[derive(Clone, Copy, Debug, PartialEq, Eq, Structural)]
pub enum DistroSource {
    Unknown,
    Arg,
    Default,
    CurrentDir,
    FilePath,
}

/// A WSL installation, with the user and group tables of its root file
/// system where they could be read.
#[derive(Debug)]
pub struct Distro {
    pub name: String,
    pub base_path: String,
    /// `None` for a WSL2 installation.
    pub fs_type: Option<FsType>,
    pub source: DistroSource,
    pub users: Option<Vec<User>>,
    pub groups: Option<Vec<Group>>,
}

/// The number of the first user named `name`.
pub open spec fn uid_of(users: Seq<User>, name: Seq<char>) -> Option<u32>
    decreases users.len(),
{
    if users.len() == 0 {
        None
    } else if users[0].name@ == name {
        Some(users[0].uid)
    } else {
        uid_of(users.drop_first(), name)
    }
}

/// The name of the first user numbered `uid`.
pub open spec fn user_name_of(users: Seq<User>, uid: u32) -> Option<Seq<char>>
    decreases users.len(),
{
    if users.len() == 0 {
        None
    } else if users[0].uid == uid {
        Some(users[0].name@)
    } else {
        user_name_of(users.drop_first(), uid)
    }
}

/// The number of the first group named `name`.
pub open spec fn gid_of(groups: Seq<Group>, name: Seq<char>) -> Option<u32>
    decreases groups.len(),
{
    if groups.len() == 0 {
        None
    } else if groups[0].name@ == name {
        Some(groups[0].gid)
    } else {
        gid_of(groups.drop_first(), name)
    }
}

/// The name of the first group numbered `gid`.
pub open spec fn group_name_of(groups: Seq<Group>, gid: u32) -> Option<Seq<char>>
    decreases groups.len(),
{
    if groups.len() == 0 {
        None
    } else if groups[0].gid == gid {
        Some(groups[0].name@)
    } else {
        group_name_of(groups.drop_first(), gid)
    }
}

impl Distro {
    /// Records the scheme; the caller stores it in the registry.
    pub fn set_fs_type(&mut self, fs_type: Option<FsType>)
        ensures
            final(self).fs_type == fs_type,
            final(self).name == old(self).name,
            final(self).base_path == old(self).base_path,
            final(self).source == old(self).source,
            final(self).users == old(self).users,
            final(self).groups == old(self).groups,
    {
        self.fs_type = fs_type;
    }

    pub fn uid(&self, user_name: &str) -> (r: Option<u32>)
        ensures
            r == match self.users {
                Some(u) => uid_of(u@, user_name@),
                None => None,
            },
    {
        match &self.users {
            None => None,
            Some(users) => {
                let mut i: usize = 0;
                assert(users@.subrange(0, users@.len() as int) =~= users@);
                while i < users.len()
                    invariant
                        i <= users@.len(),
                        self.users == Some(*users),
                        uid_of(users@, user_name@) == uid_of(users@.subrange(i as int, users@.len() as int), user_name@),
                    decreases users@.len() - i,
                {
                    let ghost rest = users@.subrange(i as int, users@.len() as int);
                    assert(rest.drop_first() =~= users@.subrange(i + 1, users@.len() as int));
                    assert(rest[0] == users@[i as int]);
                    if str_eq(users[i].name.as_str(), user_name) {
                        return Some(users[i].uid);
                    }
                    i = i + 1;
                }
                None
            },
        }
    }

    pub fn gid(&self, group_name: &str) -> (r: Option<u32>)
        ensures
            r == match self.groups {
                Some(g) => gid_of(g@, group_name@),
                None => None,
            },
    {
        match &self.groups {
            None => None,
            Some(groups) => {
                let mut i: usize = 0;
                assert(groups@.subrange(0, groups@.len() as int) =~= groups@);
                while i < groups.len()
                    invariant
                        i <= groups@.len(),
                        self.groups == Some(*groups),
                        gid_of(groups@, group_name@) == gid_of(groups@.subrange(i as int, groups@.len() as int), group_name@),
                    decreases groups@.len() - i,
                {
                    let ghost rest = groups@.subrange(i as int, groups@.len() as int);
                    assert(rest.drop_first() =~= groups@.subrange(i + 1, groups@.len() as int));
                    assert(rest[0] == groups@[i as int]);
                    if str_eq(groups[i].name.as_str(), group_name) {
                        return Some(groups[i].gid);
                    }
                    i = i + 1;
                }
                None
            },
        }
    }

    pub fn user_name(&self, uid: u32) -> (r: Option<&str>)
        ensures
            match r {
                Some(s) => Some(s@),
                None => None,
            } == match self.users {
                Some(u) => user_name_of(u@, uid),
                None => None,
            },
    {
        match &self.users {
            None => None,
            Some(users) => {
                let mut i: usize = 0;
                assert(users@.subrange(0, users@.len() as int) =~= users@);
                while i < users.len()
                    invariant
                        i <= users@.len(),
                        self.users == Some(*users),
                        user_name_of(users@, uid) == user_name_of(users@.subrange(i as int, users@.len() as int), uid),
                    decreases users@.len() - i,
                {
                    let ghost rest = users@.subrange(i as int, users@.len() as int);
                    assert(rest.drop_first() =~= users@.subrange(i + 1, users@.len() as int));
                    assert(rest[0] == users@[i as int]);
                    if users[i].uid == uid {
                        return Some(users[i].name.as_str());
                    }
                    i = i + 1;
                }
                None
            },
        }
    }

    pub fn group_name(&self, gid: u32) -> (r: Option<&str>)
        ensures
            match r {
                Some(s) => Some(s@),
                None => None,
            } == match self.groups {
                Some(g) => group_name_of(g@, gid),
                None => None,
            },
    {
        match &self.groups {
            None => None,
            Some(groups) => {
                let mut i: usize = 0;
                assert(groups@.subrange(0, groups@.len() as int) =~= groups@);
                while i < groups.len()
                    invariant
                        i <= groups@.len(),
                        self.groups == Some(*groups),
                        group_name_of(groups@, gid) == group_name_of(groups@.subrange(i as int, groups@.len() as int), gid),
                    decreases groups@.len() - i,
                {
                    let ghost rest = groups@.subrange(i as int, groups@.len() as int);
                    assert(rest.drop_first() =~= groups@.subrange(i + 1, groups@.len() as int));
                    assert(rest[0] == groups@[i as int]);
                    if groups[i].gid == gid {
                        return Some(groups[i].name.as_str());
                    }
                    i = i + 1;
                }
                None
            },
        }
    }
}

} // verus!
