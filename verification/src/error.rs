//! Why an operation did not take place.

use vstd::prelude::*;
use crate::store::TablesView;

verus! {

/// What the store itself refuses.
#[derive(Clone, Copy, Debug, PartialEq, Eq, Structural)]
pub enum StoreFault {
    /// Two nodes of one kind would share a path.
    DuplicatePath,
    /// A table has given out its last id.
    IdsExhausted,
    /// A position would leave the range that the store can hold.
    PositionOutOfRange,
    /// A row would belong to a node or a cell that the store does not hold.
    BrokenReference,
}

/// Why an operation did not take place. Whatever the reason, the store is as
/// it was before the call.
#[derive(Clone, Copy, Debug, PartialEq, Eq, Structural)]
pub enum ServiceError {
    /// A name is blank.
    EmptyName,
    /// Content that comes from outside cannot be cleaned.
    MalformedContent,
    /// A node of that kind already stands at the path.
    AlreadyExists,
    /// The destination already holds a node of that name.
    NameCollision,
    /// A folder cannot move into itself.
    InvalidMove,
    /// No row has the id.
    NotFound,
    /// The store refused a write.
    Persistence(StoreFault),
}

/// Whether a call that was to lead to `expected` did so: on success the
/// tables are the expected ones and the expected id is returned; on failure
/// the tables are as before and the expected error is returned.
pub open spec fn delivers_id(
    before: TablesView,
    after: TablesView,
    result: Result<i32, ServiceError>,
    expected: Result<(TablesView, int), ServiceError>,
) -> bool {
    match expected {
        Ok((next, id)) => after == next && result is Ok && result->Ok_0 as int == id,
        Err(error) => after == before && result == Err::<i32, ServiceError>(error),
    }
}

/// Whether a call that was to lead to `expected` did so: on success the
/// tables are the expected ones; on failure they are as before and the
/// expected error is returned.
pub open spec fn delivers(
    before: TablesView,
    after: TablesView,
    result: Result<(), ServiceError>,
    expected: Result<TablesView, ServiceError>,
) -> bool {
    match expected {
        Ok(next) => after == next && result is Ok,
        Err(error) => after == before && result == Err::<(), ServiceError>(error),
    }
}

/// The four families of errors.
#[derive(Clone, Copy, Debug, PartialEq, Eq, Structural)]
pub enum ErrorKind {
    Validation,
    Conflict,
    NotFound,
    Persistence,
}

impl ServiceError {
    /// The family of `self`.
    pub open spec fn family(self) -> ErrorKind {
        match self {
            ServiceError::EmptyName => ErrorKind::Validation,
            ServiceError::MalformedContent => ErrorKind::Validation,
            ServiceError::AlreadyExists => ErrorKind::Conflict,
            ServiceError::NameCollision => ErrorKind::Conflict,
            ServiceError::InvalidMove => ErrorKind::Conflict,
            ServiceError::NotFound => ErrorKind::NotFound,
            ServiceError::Persistence(_) => ErrorKind::Persistence,
        }
    }

    /// The family of `self`.
    pub fn kind(&self) -> (kind: ErrorKind)
        ensures
            kind == self.family(),
    {
        match self {
            ServiceError::EmptyName => ErrorKind::Validation,
            ServiceError::MalformedContent => ErrorKind::Validation,
            ServiceError::AlreadyExists => ErrorKind::Conflict,
            ServiceError::NameCollision => ErrorKind::Conflict,
            ServiceError::InvalidMove => ErrorKind::Conflict,
            ServiceError::NotFound => ErrorKind::NotFound,
            ServiceError::Persistence(_) => ErrorKind::Persistence,
        }
    }
}

} // verus!
