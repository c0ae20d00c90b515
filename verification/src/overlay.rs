//! Which fragments a unit has, and which may be added or removed.
//!
//! A unit has at most one profiling fragment and at most one hardening
//! fragment. A profiling fragment is not added to a unit that has either: the
//! options of a hardening fragment may break the tracer.

use crate::error::Error;
use vstd::prelude::*;

verus! {

/// The fragments of this tool that a unit has.
#[derive(Debug, Clone, Copy, PartialEq, Eq, Structural)]
pub struct Fragments {
    pub profiling: bool,
    pub hardening: bool,
}

/// What adding a profiling fragment leads to.
pub open spec fn profile_added(before: Fragments) -> Result<Fragments, Error> {
    if before.profiling {
        Err(Error::ProfileFragmentExists)
    } else if before.hardening {
        Err(Error::HardeningFragmentExists)
    } else {
        Ok(Fragments { profiling: true, hardening: false })
    }
}

/// What removing the profiling fragment leads to.
pub open spec fn profile_removed(before: Fragments) -> Result<Fragments, Error> {
    if before.profiling {
        Ok(Fragments { profiling: false, hardening: before.hardening })
    } else {
        Err(Error::FragmentMissing)
    }
}

/// What adding a hardening fragment leads to: it takes the place of the one
/// that was there, if any, and is added whatever else the unit has.
pub open spec fn hardening_added(before: Fragments) -> Fragments {
    Fragments { profiling: before.profiling, hardening: true }
}

/// What removing the hardening fragment leads to.
pub open spec fn hardening_removed(before: Fragments) -> Result<Fragments, Error> {
    if before.hardening {
        Ok(Fragments { profiling: before.profiling, hardening: false })
    } else {
        Err(Error::FragmentMissing)
    }
}

/// What is left of `before` where the operation was refused, and what the
/// operation has made of it where it was not.
pub open spec fn outcome(before: Fragments, res: Result<Fragments, Error>) -> Fragments {
    match res {
        Ok(after) => after,
        Err(_) => before,
    }
}

impl Fragments {
    /// Records a new profiling fragment, unless the unit must not get one.
    pub fn add_profile(&mut self) -> (res: Result<(), Error>)
        ensures
            res is Ok <==> profile_added(*old(self)) is Ok,
            res is Err ==> Err::<Fragments, Error>(res->Err_0) == profile_added(*old(self)),
            *final(self) == outcome(*old(self), profile_added(*old(self))),
    {
        if self.profiling {
            Err(Error::ProfileFragmentExists)
        } else if self.hardening {
            Err(Error::HardeningFragmentExists)
        } else {
            self.profiling = true;
            Ok(())
        }
    }

    /// Records that the profiling fragment is gone, if there was one.
    pub fn remove_profile(&mut self) -> (res: Result<(), Error>)
        ensures
            res is Ok <==> profile_removed(*old(self)) is Ok,
            res is Err ==> Err::<Fragments, Error>(res->Err_0) == profile_removed(*old(self)),
            *final(self) == outcome(*old(self), profile_removed(*old(self))),
    {
        if self.profiling {
            self.profiling = false;
            Ok(())
        } else {
            Err(Error::FragmentMissing)
        }
    }

    /// Records a new hardening fragment.
    pub fn add_hardening(&mut self)
        ensures
            *final(self) == hardening_added(*old(self)),
    {
        self.hardening = true;
    }

    /// Records that the hardening fragment is gone, if there was one.
    pub fn remove_hardening(&mut self) -> (res: Result<(), Error>)
        ensures
            res is Ok <==> hardening_removed(*old(self)) is Ok,
            res is Err ==> Err::<Fragments, Error>(res->Err_0) == hardening_removed(*old(self)),
            *final(self) == outcome(*old(self), hardening_removed(*old(self))),
    {
        if self.hardening {
            self.hardening = false;
            Ok(())
        } else {
            Err(Error::FragmentMissing)
        }
    }
}

/// A profiling fragment that was added can be removed, and then the unit
/// has none: it is as it was before.
pub proof fn lemma_add_then_remove(before: Fragments)
    requires
        profile_added(before) is Ok,
    ensures
        profile_removed(profile_added(before)->Ok_0) is Ok,
        !(profile_removed(profile_added(before)->Ok_0)->Ok_0).profiling,
        profile_removed(profile_added(before)->Ok_0)->Ok_0 == before,
{
}

/// A second profiling fragment is refused, and the first stays as it is.
pub proof fn lemma_add_twice(before: Fragments)
    requires
        profile_added(before) is Ok,
    ensures
        profile_added(profile_added(before)->Ok_0) == Err::<Fragments, Error>(
            Error::ProfileFragmentExists,
        ),
        outcome(profile_added(before)->Ok_0, profile_added(profile_added(before)->Ok_0))
            == profile_added(before)->Ok_0,
{
}

/// A profiling fragment is only ever added to a unit that has no fragment,
/// so adding one never leaves a unit with both kinds.
pub proof fn lemma_profile_excludes_hardening(before: Fragments)
    ensures
        profile_added(before) matches Ok(after) ==> after.profiling && !after.hardening,
        profile_added(before) is Ok <==> !before.profiling && !before.hardening,
{
}

} // verus!
