//! What a run decides before it touches the filesystem: the identifiers and
//! modes it will apply, checked in full first, and the change for each entry.
use vstd::prelude::*;
use vstd::string::StringSliceAdditionalSpecFns;
use crate::number::{NumberError, number_value, parse_u32};
use crate::identity::{IdentityError, IdentityFault, IdentityMap, database_of, parse_identity_db};

verus! {

/// The largest mode: read, write and execute for owner, group and others.
pub const MAX_MODE: u32 = 511;

/// Why a requested mode cannot be used.
#[derive(Debug, Clone, Copy, PartialEq, Eq, Structural)]
pub enum ModeError {
    /// The text is not an octal number that fits in a `u32`.
    NotOctal(NumberError),
    /// The value is above `0o777`.
    TooLarge(u32),
}

/// What a requested mode text stands for.
pub open spec fn mode_of(s: Seq<u8>) -> Result<u32, ModeError> {
    match number_value(s, 8) {
        Err(e) => Err(ModeError::NotOctal(e)),
        Ok(v) => if v > MAX_MODE {
            Err(ModeError::TooLarge(v))
        } else {
            Ok(v)
        },
    }
}

/// Reads a mode written in octal, at most `777`.
pub fn parse_mode(s: &str) -> (r: Result<u32, ModeError>)
    ensures
        r == mode_of(s.spec_bytes()),
{
    match parse_u32(s.as_bytes(), 8) {
        Err(e) => Err(ModeError::NotOctal(e)),
        Ok(v) => if v > MAX_MODE {
            Err(ModeError::TooLarge(v))
        } else {
            Ok(v)
        },
    }
}

/// The owner and the modes that a run applies.
#[derive(Debug, Clone, Copy, PartialEq, Eq, Structural)]
pub struct Plan {
    pub uid: u32,
    pub gid: u32,
    pub file_mode: u32,
    pub directory_mode: u32,
}

/// Why a run stops before it touches anything.
#[derive(Debug, PartialEq, Eq)]
pub enum RunError {
    /// The account database has a bad record.
    Users(IdentityError),
    /// The group database has a bad record.
    Groups(IdentityError),
    /// The account database has no such user.
    UnknownUser,
    /// The group database has no such group.
    UnknownGroup,
    /// The requested file mode is not usable.
    FileMode(ModeError),
    /// The requested directory mode is not usable.
    DirectoryMode(ModeError),
}

/// What a [`RunError`] says, over plain values.
pub enum RunFault {
    Users(IdentityFault),
    Groups(IdentityFault),
    UnknownUser,
    UnknownGroup,
    FileMode(ModeError),
    DirectoryMode(ModeError),
}

impl View for RunError {
    type V = RunFault;

    open spec fn view(&self) -> RunFault {
        match self {
            RunError::Users(e) => RunFault::Users(e@),
            RunError::Groups(e) => RunFault::Groups(e@),
            RunError::UnknownUser => RunFault::UnknownUser,
            RunError::UnknownGroup => RunFault::UnknownGroup,
            RunError::FileMode(e) => RunFault::FileMode(*e),
            RunError::DirectoryMode(e) => RunFault::DirectoryMode(*e),
        }
    }
}

/// The checks of a run, in order: the account database, the group database,
/// the user, the group, the file mode, the directory mode. The first that
/// fails decides the error.
pub open spec fn plan_of(
    users_db: Seq<u8>,
    groups_db: Seq<u8>,
    user: Seq<u8>,
    group: Seq<u8>,
    file_mode: Seq<u8>,
    directory_mode: Seq<u8>,
) -> Result<Plan, RunFault> {
    match database_of(users_db) {
        Err(e) => Err(RunFault::Users(e)),
        Ok(users) => match database_of(groups_db) {
            Err(e) => Err(RunFault::Groups(e)),
            Ok(groups) => if !users.contains_key(user) {
                Err(RunFault::UnknownUser)
            } else if !groups.contains_key(group) {
                Err(RunFault::UnknownGroup)
            } else {
                match mode_of(file_mode) {
                    Err(e) => Err(RunFault::FileMode(e)),
                    Ok(fm) => match mode_of(directory_mode) {
                        Err(e) => Err(RunFault::DirectoryMode(e)),
                        Ok(dm) => Ok(
                            Plan { uid: users[user], gid: groups[group], file_mode: fm, directory_mode: dm },
                        ),
                    },
                }
            },
        },
    }
}

/// Makes every check a run needs before it may touch the filesystem: reads
/// both databases, resolves the user and the group, and reads both modes.
pub fn prepare(
    users_db: &str,
    groups_db: &str,
    user: &str,
    group: &str,
    file_mode: &str,
    directory_mode: &str,
) -> (r: Result<Plan, RunError>)
    ensures
        r is Ok <==> plan_of(users_db.spec_bytes(), groups_db.spec_bytes(), user.spec_bytes(),
            group.spec_bytes(), file_mode.spec_bytes(), directory_mode.spec_bytes()) is Ok,
        r matches Ok(p) ==> plan_of(users_db.spec_bytes(), groups_db.spec_bytes(), user.spec_bytes(),
            group.spec_bytes(), file_mode.spec_bytes(), directory_mode.spec_bytes()) == Ok::<Plan, RunFault>(p),
        r matches Err(e) ==> plan_of(users_db.spec_bytes(), groups_db.spec_bytes(), user.spec_bytes(),
            group.spec_bytes(), file_mode.spec_bytes(), directory_mode.spec_bytes()) == Err::<Plan, RunFault>(e@),
{
    let users: IdentityMap = match parse_identity_db(users_db) {
        Err(e) => return Err(RunError::Users(e)),
        Ok(m) => m,
    };
    let groups: IdentityMap = match parse_identity_db(groups_db) {
        Err(e) => return Err(RunError::Groups(e)),
        Ok(m) => m,
    };
    let uid = match users.get(user) {
        None => return Err(RunError::UnknownUser),
        Some(id) => id,
    };
    let gid = match groups.get(group) {
        None => return Err(RunError::UnknownGroup),
        Some(id) => id,
    };
    let fm = match parse_mode(file_mode) {
        Err(e) => return Err(RunError::FileMode(e)),
        Ok(m) => m,
    };
    let dm = match parse_mode(directory_mode) {
        Err(e) => return Err(RunError::DirectoryMode(e)),
        Ok(m) => m,
    };
    Ok(Plan { uid, gid, file_mode: fm, directory_mode: dm })
}

/// The mode and owner to give one filesystem entry.
#[derive(Debug)]
pub struct Change {
    pub path: String,
    pub mode: u32,
    pub uid: u32,
    pub gid: u32,
}

impl Plan {
    /// One change for every file, with the file mode, then one for every
    /// directory, with the directory mode; all with the plan's owner. Each
    /// change stands on its own: one that fails keeps none of the others from
    /// being made.
    pub fn changes(&self, files: &Vec<String>, directories: &Vec<String>) -> (r: Vec<Change>)
        requires
            files@.len() + directories@.len() <= usize::MAX,
        ensures
            r@.len() == files@.len() + directories@.len(),
            forall|i: int| 0 <= i < files@.len() ==> (#[trigger] r@[i]).path@ == files@[i]@
                && r@[i].mode == self.file_mode && r@[i].uid == self.uid && r@[i].gid == self.gid,
            forall|j: int| 0 <= j < directories@.len() ==> (#[trigger] r@[files@.len() + j]).path@ == directories@[j]@
                && r@[files@.len() + j].mode == self.directory_mode && r@[files@.len() + j].uid == self.uid
                && r@[files@.len() + j].gid == self.gid,
    {
        let mut r: Vec<Change> = Vec::new();
        let mut i: usize = 0;
        while i < files.len()
            invariant
                i <= files@.len(),
                r@.len() == i,
                forall|k: int| 0 <= k < i ==> (#[trigger] r@[k]).path@ == files@[k]@
                    && r@[k].mode == self.file_mode && r@[k].uid == self.uid && r@[k].gid == self.gid,
            decreases files@.len() - i,
        {
            r.push(Change { path: files[i].clone(), mode: self.file_mode, uid: self.uid, gid: self.gid });
            i = i + 1;
        }
        let mut j: usize = 0;
        while j < directories.len()
            invariant
                j <= directories@.len(),
                files@.len() + directories@.len() <= usize::MAX,
                r@.len() == files@.len() + j,
                forall|k: int| 0 <= k < files@.len() ==> (#[trigger] r@[k]).path@ == files@[k]@
                    && r@[k].mode == self.file_mode && r@[k].uid == self.uid && r@[k].gid == self.gid,
                forall|k: int| 0 <= k < j ==> (#[trigger] r@[files@.len() + k]).path@ == directories@[k]@
                    && r@[files@.len() + k].mode == self.directory_mode && r@[files@.len() + k].uid == self.uid
                    && r@[files@.len() + k].gid == self.gid,
            decreases directories@.len() - j,
        {
            r.push(Change {
                path: directories[j].clone(),
                mode: self.directory_mode,
                uid: self.uid,
                gid: self.gid,
            });
            j = j + 1;
        }
        r
    }
}

} // verus!
