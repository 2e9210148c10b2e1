//! The per-secret materialisation protocol as a state machine. The caller
//! performs each action on the file system and reports whether it succeeded;
//! the machine answers with the next action. The order it imposes: create the
//! file for owner write only, write the plaintext, remove every permission,
//! change the owner and group, set the final permission bits. A failure after
//! the file exists removes it; the plaintext is wiped on every way out.
use crate::provision::{FileDesc, Principal, CREATE_MODE, LOCKED_MODE};
use vstd::prelude::*;

verus! {

/// What has been done to a secret's file so far.
#[derive(Debug, Clone, Copy, PartialEq, Eq, Structural)]
pub enum Stage {
    /// Nothing yet: the file is to be created.
    Fresh,
    /// The file exists, owner write only, and is empty.
    Created,
    /// The plaintext is written.
    Written,
    /// Every permission bit is cleared.
    Locked,
    /// Owner and group are the final ones.
    Owned,
    /// The final permission bits are set: the file is final.
    Done,
    /// A step failed; the file, if it was created, is removed.
    Failed,
}

/// The next thing to do to a secret's file.
#[derive(Debug, Clone, Copy, PartialEq, Eq, Structural)]
pub enum Action {
    /// Create the file for writing with these permission bits; it must not
    /// exist yet, and when it does, creation fails and leaves it untouched.
    Create { mode: u32 },
    /// Write the whole plaintext to it.
    WriteAll,
    /// Set its permission bits.
    SetMode { mode: u32 },
    /// Change its owner and group.
    Chown { uid: u32, gid: u32 },
    /// Remove the file, then wipe the plaintext.
    RemoveAndWipe,
    /// Wipe the plaintext.
    Wipe,
    /// Nothing is left to do.
    Nothing,
}

/// The owner, group and permission bits a secret's file ends with.
#[derive(Debug, Clone, Copy, PartialEq, Eq, Structural)]
pub struct Target {
    pub uid: u32,
    pub gid: u32,
    pub mode: u32,
}

/// The action that materialisation starts with.
pub open spec fn first_action() -> Action {
    Action::Create { mode: CREATE_MODE }
}

/// The stage reached and the action to perform, after the action due at
/// `stage` succeeded or failed.
pub open spec fn step_of(stage: Stage, t: Target, ok: bool) -> (Stage, Action) {
    match stage {
        Stage::Fresh => if ok {
            (Stage::Created, Action::WriteAll)
        } else {
            (Stage::Failed, Action::Wipe)
        },
        Stage::Created => if ok {
            (Stage::Written, Action::SetMode { mode: LOCKED_MODE })
        } else {
            (Stage::Failed, Action::RemoveAndWipe)
        },
        Stage::Written => if ok {
            (Stage::Locked, Action::Chown { uid: t.uid, gid: t.gid })
        } else {
            (Stage::Failed, Action::RemoveAndWipe)
        },
        Stage::Locked => if ok {
            (Stage::Owned, Action::SetMode { mode: t.mode })
        } else {
            (Stage::Failed, Action::RemoveAndWipe)
        },
        Stage::Owned => if ok {
            (Stage::Done, Action::Wipe)
        } else {
            (Stage::Failed, Action::RemoveAndWipe)
        },
        Stage::Done => (Stage::Done, Action::Nothing),
        Stage::Failed => (Stage::Failed, Action::Nothing),
    }
}

/// The stage and action that materialisation starts with.
pub fn start() -> (r: (Stage, Action))
    ensures
        r == (Stage::Fresh, first_action()),
{
    (Stage::Fresh, Action::Create { mode: CREATE_MODE })
}

/// The next stage and action, once the action due at `stage` has been
/// performed, successfully or not.
pub fn step(stage: Stage, t: Target, ok: bool) -> (r: (Stage, Action))
    ensures
        r == step_of(stage, t, ok),
{
    match stage {
        Stage::Fresh => if ok {
            (Stage::Created, Action::WriteAll)
        } else {
            (Stage::Failed, Action::Wipe)
        },
        Stage::Created => if ok {
            (Stage::Written, Action::SetMode { mode: LOCKED_MODE })
        } else {
            (Stage::Failed, Action::RemoveAndWipe)
        },
        Stage::Written => if ok {
            (Stage::Locked, Action::Chown { uid: t.uid, gid: t.gid })
        } else {
            (Stage::Failed, Action::RemoveAndWipe)
        },
        Stage::Locked => if ok {
            (Stage::Owned, Action::SetMode { mode: t.mode })
        } else {
            (Stage::Failed, Action::RemoveAndWipe)
        },
        Stage::Owned => if ok {
            (Stage::Done, Action::Wipe)
        } else {
            (Stage::Failed, Action::RemoveAndWipe)
        },
        Stage::Done => (Stage::Done, Action::Nothing),
        Stage::Failed => (Stage::Failed, Action::Nothing),
    }
}

/// The file exists and is not yet final.
pub open spec fn in_progress(stage: Stage) -> bool {
    stage is Created || stage is Written || stage is Locked || stage is Owned
}

/// Whether the file belongs to its final owner and group at `stage`.
pub open spec fn owned_by_target(stage: Stage) -> bool {
    stage is Owned || stage is Done
}

/// The permission bits of the file at `stage`, while it exists.
pub open spec fn mode_at(stage: Stage, t: Target) -> u32 {
    match stage {
        Stage::Created => CREATE_MODE,
        Stage::Written => CREATE_MODE,
        Stage::Done => t.mode,
        _ => LOCKED_MODE,
    }
}

/// A failure while the file exists and is not final removes it, whatever
/// step failed, and nothing removes a file that is final.
pub proof fn lemma_failure_removes(stage: Stage, t: Target)
    ensures
        in_progress(stage) ==> step_of(stage, t, false) == (Stage::Failed, Action::RemoveAndWipe),
        !in_progress(stage) ==> step_of(stage, t, false).1 != Action::RemoveAndWipe,
        step_of(Stage::Done, t, false) == (Stage::Done, Action::Nothing),
{
}

/// At no stage is the file readable by anyone before it belongs to its final
/// owner and group, and from then on it has no permission bits until the
/// final ones are set: no one but the final owner ever reads it, and the
/// final owner not through wider bits than the final ones.
pub proof fn lemma_never_exposed(stage: Stage, t: Target)
    requires
        in_progress(stage) || stage is Done,
    ensures
        !owned_by_target(stage) ==> mode_at(stage, t) & 0o444 == 0,
        owned_by_target(stage) && !(stage is Done) ==> mode_at(stage, t) == 0,
        stage is Done ==> mode_at(stage, t) == t.mode,
{
    assert(CREATE_MODE & 0o444 == 0) by (bit_vector);
    assert(LOCKED_MODE & 0o444 == 0) by (bit_vector);
}

/// Every way through the machine passes the stages in their one order, ends
/// in `Done` or `Failed`, and wipes the plaintext once when it ends.
pub proof fn lemma_order(stage: Stage, t: Target, ok: bool)
    ensures
        ok && !(stage is Done) && !(stage is Failed) ==> step_of(stage, t, ok).0 == match stage {
            Stage::Fresh => Stage::Created,
            Stage::Created => Stage::Written,
            Stage::Written => Stage::Locked,
            Stage::Locked => Stage::Owned,
            _ => Stage::Done,
        },
        !ok && !(stage is Done) ==> step_of(stage, t, ok).0 == Stage::Failed,
        (step_of(stage, t, ok).1 is Wipe || step_of(stage, t, ok).1 is RemoveAndWipe) <==> (!(
        stage is Done) && !(stage is Failed) && (step_of(stage, t, ok).0 is Done || step_of(
            stage,
            t,
            ok,
        ).0 is Failed)),
{
}

// ----- the cleanup guard -----

/// Whether a partly materialised file is still to be removed if the
/// protocol stops: armed when the file is created, defused once it is final.
pub struct Defer {
    armed: bool,
}

impl Defer {
    pub closed spec fn is_armed(&self) -> bool {
        self.armed
    }

    /// A guard that will remove the file.
    pub fn new() -> (r: Self)
        ensures
            r.is_armed(),
    {
        Defer { armed: true }
    }

    /// Cancels the cleanup: the file is final.
    pub fn defuse(&mut self)
        ensures
            !final(self).is_armed(),
    {
        self.armed = false;
    }

    /// Whether the cleanup is still due.
    pub fn pending(&self) -> (r: bool)
        ensures
            r == self.is_armed(),
    {
        self.armed
    }
}

// ----- owners and groups -----

/// Why an owner or a group could not be resolved to its number.
#[derive(Debug, Clone, Copy, PartialEq, Eq, Structural)]
pub enum PrincipalError {
    /// No user of that name exists.
    NoSuchUser,
    /// No group of that name exists.
    NoSuchGroup,
    /// The user or group database could not be read.
    LookupFailed,
}

#[verifier::external_type_specification]
#[verifier::external_body]
pub struct ExErrno(nix::errno::Errno);

/// Relies on nix::unistd::User::from_name (getpwnam_r): the number of the
/// user of that name, if there is one.
#[verifier::external_body]
fn lookup_user(name: &str) -> (r: Result<Option<u32>, nix::errno::Errno>) {
    match nix::unistd::User::from_name(name) {
        Ok(Some(user)) => Ok(Some(user.uid.as_raw())),
        Ok(None) => Ok(None),
        Err(e) => Err(e),
    }
}

/// Relies on nix::unistd::Group::from_name (getgrnam_r): the number of the
/// group of that name, if there is one.
#[verifier::external_body]
fn lookup_group(name: &str) -> (r: Result<Option<u32>, nix::errno::Errno>) {
    match nix::unistd::Group::from_name(name) {
        Ok(Some(group)) => Ok(Some(group.gid.as_raw())),
        Ok(None) => Ok(None),
        Err(e) => Err(e),
    }
}

/// What resolving a principal to `r` may give: a number is itself; a name
/// gives what some outcome of its lookup resolves to.
pub open spec fn resolved(p: Principal, r: Result<u32, PrincipalError>, missing: PrincipalError) -> bool {
    match p {
        Principal::Id(n) => r == Ok::<u32, PrincipalError>(n),
        Principal::Name(_) => exists|found: Option<Option<u32>>| r == #[trigger] found_result(found, missing),
    }
}

/// What a lookup that found `found` resolves to: `None` is a lookup that
/// failed, `Some(None)` a name that does not exist, `Some(Some(n))` a name
/// whose number is `n`.
pub open spec fn found_result(found: Option<Option<u32>>, missing: PrincipalError) -> Result<u32, PrincipalError> {
    match found {
        Some(Some(n)) => Ok(n),
        Some(None) => Err(missing),
        None => Err(PrincipalError::LookupFailed),
    }
}

/// Resolves the outcome of looking a name up in the user or group database.
pub fn resolve_found(found: Option<Option<u32>>, missing: PrincipalError) -> (r: Result<u32, PrincipalError>)
    ensures
        r == found_result(found, missing),
{
    match found {
        Some(Some(n)) => Ok(n),
        Some(None) => Err(missing),
        None => Err(PrincipalError::LookupFailed),
    }
}

impl FileDesc {
    /// The number of the file's owner.
    pub fn uid(&self) -> (r: Result<u32, PrincipalError>)
        ensures
            resolved(self.user, r, PrincipalError::NoSuchUser),
    {
        match &self.user {
            Principal::Id(n) => Ok(*n),
            Principal::Name(name) => {
                let found = match lookup_user(name.as_str()) {
                    Ok(x) => Some(x),
                    Err(_) => None,
                };
                resolve_found(found, PrincipalError::NoSuchUser)
            },
        }
    }

    /// The number of the file's group.
    pub fn gid(&self) -> (r: Result<u32, PrincipalError>)
        ensures
            resolved(self.group, r, PrincipalError::NoSuchGroup),
    {
        match &self.group {
            Principal::Id(n) => Ok(*n),
            Principal::Name(name) => {
                let found = match lookup_group(name.as_str()) {
                    Ok(x) => Some(x),
                    Err(_) => None,
                };
                resolve_found(found, PrincipalError::NoSuchGroup)
            },
        }
    }

    /// The owner, group and permission bits the file ends with.
    pub fn target(&self) -> (r: Result<Target, PrincipalError>)
        ensures
            r is Ok ==> r->Ok_0.mode == self.mode,
            self.user is Id && r is Ok ==> r->Ok_0.uid == self.user->Id_0,
            self.group is Id && r is Ok ==> r->Ok_0.gid == self.group->Id_0,
            r is Ok ==> resolved(self.user, Ok::<u32, PrincipalError>(r->Ok_0.uid), PrincipalError::NoSuchUser),
            r is Ok ==> resolved(self.group, Ok::<u32, PrincipalError>(r->Ok_0.gid), PrincipalError::NoSuchGroup),
            self.user is Id && self.group is Id ==> r == Ok::<Target, PrincipalError>(
                Target { uid: self.user->Id_0, gid: self.group->Id_0, mode: self.mode },
            ),
            r == Err::<Target, PrincipalError>(PrincipalError::NoSuchUser) ==> self.user is Name,
            r == Err::<Target, PrincipalError>(PrincipalError::NoSuchGroup) ==> self.group is Name,
            r == Err::<Target, PrincipalError>(PrincipalError::LookupFailed) ==> self.user is Name
                || self.group is Name,
    {
        let uid = match self.uid() {
            Ok(n) => n,
            Err(e) => {
                return Err(e);
            },
        };
        let gid = match self.gid() {
            Ok(n) => n,
            Err(e) => {
                return Err(e);
            },
        };
        Ok(Target { uid, gid, mode: self.mode })
    }
}

} // verus!
