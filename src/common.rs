use vstd::prelude::*;

verus! {

/// A stable identifier: a 64-bit integer that never takes the value `u64::MAX`.
#[derive(Clone, Copy, Debug, PartialEq, Eq, Structural)]
pub struct Id {
    value: u64,
}

/// The identifier space is exhausted: the next value would be the reserved one.
#[derive(Clone, Copy, Debug, PartialEq, Eq, Structural)]
pub struct IdRangeError {
    pub value: u64,
}

impl View for Id {
    type V = u64;

    closed spec fn view(&self) -> u64 {
        self.value
    }
}

impl Id {
    #[verifier::type_invariant]
    spec fn inv(self) -> bool {
        self.value != u64::MAX
    }

    /// The lowest valid identifier.
    pub fn lowest() -> (r: Id)
        ensures
            r@ == 0,
    {
        Id { value: 0 }
    }

    /// The identifier after this one, or an error where that would be the
    /// reserved value.
    pub fn next(self) -> (r: Result<Id, IdRangeError>)
        ensures
            r is Ok ==> r->Ok_0@ == self@ + 1,
            r is Err <==> self@ + 1 >= u64::MAX,
            r is Err ==> r->Err_0.value == self@,
    {
        proof {
            use_type_invariant(&self);
        }
        if self.value + 1 == u64::MAX {
            Err(IdRangeError { value: self.value })
        } else {
            Ok(Id { value: self.value + 1 })
        }
    }

    pub fn get(self) -> (r: u64)
        ensures
            r == self@,
            r != u64::MAX,
    {
        proof {
            use_type_invariant(&self);
        }
        self.value
    }

    /// Checked constructor: every value but `u64::MAX` is an identifier.
    pub fn try_from(value: u64) -> (r: Result<Id, IdRangeError>)
        ensures
            r is Ok ==> r->Ok_0@ == value,
            r is Err <==> value == u64::MAX,
            r is Err ==> r->Err_0.value == value,
    {
        if value == u64::MAX {
            Err(IdRangeError { value })
        } else {
            Ok(Id { value })
        }
    }
}

/// A byte offset from a version's base address.
#[derive(Clone, Copy, Debug, PartialEq, Eq, Structural)]
pub struct Offset(pub u32);

/// A release: (major, minor, patch, build).
#[derive(Clone, Copy, Debug, PartialEq, Eq, Structural)]
pub struct Version {
    pub major: u16,
    pub minor: u16,
    pub patch: u16,
    pub build: u16,
}

impl Version {
    pub fn new(major: u16, minor: u16, patch: u16, build: u16) -> (r: Version)
        ensures
            r == (Version { major, minor, patch, build }),
    {
        Version { major, minor, patch, build }
    }

    pub open spec fn spec_index(self, i: int) -> u16 {
        if i == 0 {
            self.major
        } else if i == 1 {
            self.minor
        } else if i == 2 {
            self.patch
        } else {
            self.build
        }
    }

    /// The component at position `i`, major first.
    pub fn index(&self, i: usize) -> (r: u16)
        requires
            i < 4,
        ensures
            r == self.spec_index(i as int),
    {
        if i == 0 {
            self.major
        } else if i == 1 {
            self.minor
        } else if i == 2 {
            self.patch
        } else {
            self.build
        }
    }

    /// Versions are ordered by their components, major first.
    pub open spec fn spec_lt(self, other: Version) -> bool {
        self.major < other.major || (self.major == other.major && (self.minor < other.minor || (
        self.minor == other.minor && (self.patch < other.patch || (self.patch == other.patch
            && self.build < other.build)))))
    }

    pub fn lt(&self, other: &Version) -> (r: bool)
        ensures
            r == self.spec_lt(*other),
    {
        if self.major != other.major {
            self.major < other.major
        } else if self.minor != other.minor {
            self.minor < other.minor
        } else if self.patch != other.patch {
            self.patch < other.patch
        } else {
            self.build < other.build
        }
    }
}

/// Why the input directory cannot be used.
#[derive(Clone, Copy, Debug, PartialEq, Eq, Structural)]
pub enum InputDirError {
    Missing,
    NotADirectory,
}

/// Accepts an input path that exists and is a directory.
pub fn input_directory_validator(exists: bool, is_dir: bool) -> (r: Result<(), InputDirError>)
    ensures
        !exists ==> r == Err::<(), InputDirError>(InputDirError::Missing),
        exists && !is_dir ==> r == Err::<(), InputDirError>(InputDirError::NotADirectory),
        exists && is_dir ==> r is Ok,
{
    if !exists {
        Err(InputDirError::Missing)
    } else if !is_dir {
        Err(InputDirError::NotADirectory)
    } else {
        Ok(())
    }
}

} // verus!
