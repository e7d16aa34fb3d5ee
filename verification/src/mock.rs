//! The registration of a mock in the command search path, and its release.
//!
//! Nothing here reads or writes the variable itself, or looks at the file
//! system. Every function takes the variable's current value, `None` where it
//! is not set, and gives back the value to write. Where a directory is taken
//! out, the caller also hands in what each entry of the value resolves to.
//! The caller reads, resolves, calls and writes while it holds the one lock
//! that guards the variable.

use crate::error::MockError;
use crate::search_path::{
    entries, joinable, prepend, prepended, release_resolved, released, remove_resolved, removed,
};
use vstd::prelude::*;
use vstd::slice::slice_to_vec;

verus! {

/// Whether the variable is set and `resolved` holds one path for each of its
/// entries.
pub open spec fn resolved_for(search_path: Option<&[u8]>, resolved: Seq<Seq<u8>>) -> bool {
    match search_path {
        Some(current) => resolved.len() == entries(current@).len(),
        None => false,
    }
}

/// A mocked command whose directory stands in the search path until it is
/// released.
#[derive(Debug)]
pub struct BinaryMock {
    bin_dir: Vec<u8>,
    resolved_dir: Vec<u8>,
    registered: bool,
}

impl BinaryMock {
    /// The directory that holds the script, as it was put in the search path.
    pub closed spec fn dir(&self) -> Seq<u8> {
        self.bin_dir@
    }

    /// The path that the directory resolves to.
    pub closed spec fn resolved(&self) -> Seq<u8> {
        self.resolved_dir@
    }

    /// Whether the directory is still registered: it was put in the search
    /// path and not yet taken out.
    pub closed spec fn registered(&self) -> bool {
        self.registered
    }

    /// A directory that is registered is one that can be an entry.
    #[verifier::type_invariant]
    spec fn well_formed(&self) -> bool {
        self.registered ==> joinable(self.bin_dir@)
    }

    /// The value of the search path variable with `path` as its new first
    /// entry.
    ///
    /// It fails where the variable is not set, and where `path` holds the
    /// separator and so cannot be an entry.
    pub fn add_path_dir(search_path: Option<&[u8]>, path: &[u8]) -> (new_value: Result<
        Vec<u8>,
        MockError,
    >)
        ensures
            match new_value {
                Ok(value) => search_path matches Some(current) && joinable(path@) && value@
                    == prepended(current@, path@),
                Err(error) => error == MockError::Environment && (search_path is None || !joinable(
                    path@,
                )),
            },
    {
        match search_path {
            None => Err(MockError::Environment),
            Some(current) => match prepend(current, path) {
                Some(value) => Ok(value),
                None => Err(MockError::Environment),
            },
        }
    }

    /// The value of the search path variable without the entries that name
    /// the directory, all of them; the other entries stay as they are
    /// spelled, in their order.
    ///
    /// `resolved` holds the path that each entry resolves to, in order, and
    /// `resolved_path` the path that the directory resolves to. An entry goes
    /// when the two name the same directory, however the entry is spelled.
    ///
    /// It fails where the variable is not set, and where `resolved` is not
    /// one path for each entry. That no entry names the directory is no
    /// failure: the value then stays as it is.
    pub fn remove_path_dir(
        search_path: Option<&[u8]>,
        resolved: &Vec<Vec<u8>>,
        resolved_path: &[u8],
    ) -> (new_value: Result<Vec<u8>, MockError>)
        ensures
            match new_value {
                Ok(value) => search_path matches Some(current) && resolved.len() == entries(
                    current@,
                ).len() && value@ == removed(current@, resolved.deep_view(), resolved_path@),
                Err(error) => error == MockError::Environment && !resolved_for(
                    search_path,
                    resolved.deep_view(),
                ),
            },
    {
        match search_path {
            None => Err(MockError::Environment),
            Some(current) => match remove_resolved(current, resolved, resolved_path) {
                Some(value) => Ok(value),
                None => Err(MockError::Environment),
            },
        }
    }

    /// Registers the directory of a mock whose script is in place: the mock,
    /// and the value to write to the search path variable. `resolved_dir` is
    /// the path that `bin_dir` resolves to.
    ///
    /// Where it fails there is no mock and nothing to write.
    pub fn new(search_path: Option<&[u8]>, bin_dir: &[u8], resolved_dir: &[u8]) -> (made: Result<
        (BinaryMock, Vec<u8>),
        MockError,
    >)
        ensures
            match made {
                Ok((mock, value)) => {
                    &&& search_path matches Some(current) && value@ == prepended(
                        current@,
                        bin_dir@,
                    )
                    &&& joinable(bin_dir@)
                    &&& mock.dir() == bin_dir@
                    &&& mock.resolved() == resolved_dir@
                    &&& mock.registered()
                },
                Err(error) => error == MockError::Environment && (search_path is None || !joinable(
                    bin_dir@,
                )),
            },
    {
        match Self::add_path_dir(search_path, bin_dir) {
            Ok(value) => {
                let mock = BinaryMock {
                    bin_dir: slice_to_vec(bin_dir),
                    resolved_dir: slice_to_vec(resolved_dir),
                    registered: true,
                };
                Ok((mock, value))
            },
            Err(error) => Err(error),
        }
    }

    /// Releases the mock: the value to write to the search path variable, if
    /// there is one to write. `resolved` holds the path that each entry of
    /// the variable resolves to, in order.
    ///
    /// The first release takes one entry out of the search path: the first
    /// that names the mock's directory, however it is spelled. It fails where
    /// the variable is not set, and where `resolved` is not one path for each
    /// entry. Whatever comes of it, the mock is released afterwards, and a
    /// later release writes nothing and does not fail.
    pub fn release(&mut self, search_path: Option<&[u8]>, resolved: &Vec<Vec<u8>>) -> (new_value:
        Result<Option<Vec<u8>>, MockError>)
        ensures
            final(self).dir() == old(self).dir(),
            final(self).resolved() == old(self).resolved(),
            !final(self).registered(),
            !old(self).registered() ==> new_value matches Ok(None),
            match new_value {
                Ok(Some(value)) => search_path matches Some(current) && old(self).registered()
                    && resolved.len() == entries(current@).len() && value@ == released(
                    current@,
                    resolved.deep_view(),
                    old(self).resolved(),
                ),
                Ok(None) => !old(self).registered(),
                Err(error) => error == MockError::Environment && old(self).registered()
                    && !resolved_for(search_path, resolved.deep_view()),
            },
    {
        if !self.registered {
            return Ok(None);
        }
        self.registered = false;
        match search_path {
            None => Err(MockError::Environment),
            Some(current) => match release_resolved(
                current,
                resolved,
                self.resolved_dir.as_slice(),
            ) {
                Some(value) => Ok(Some(value)),
                None => Err(MockError::Environment),
            },
        }
    }

    /// The directory that holds the script, as it was put in the search path.
    pub fn bin_dir(&self) -> (dir: &[u8])
        ensures
            dir@ == self.dir(),
    {
        self.bin_dir.as_slice()
    }

    /// The path that the directory resolves to.
    pub fn resolved_dir(&self) -> (dir: &[u8])
        ensures
            dir@ == self.resolved(),
    {
        self.resolved_dir.as_slice()
    }

    /// Whether the directory is still registered. One that is can be an
    /// entry of the search path.
    pub fn is_registered(&self) -> (registered: bool)
        ensures
            registered == self.registered(),
            registered ==> joinable(self.dir()),
    {
        proof {
            use_type_invariant(self);
        }
        self.registered
    }
}

} // verus!
