use vstd::prelude::*;

verus! {

/// The errors that can come out of reading a device tree.
#[derive(Debug, Clone, Copy, PartialEq, Eq, Structural)]
pub enum Error {
    /// The requested node or property does not exist.
    NotFound,
    /// Attempted to create a node or property which already exists.
    Exists,
    /// A fixed-size output buffer was too small.
    NoSpace,
    /// A structure block offset is out of bounds, or points to an
    /// unsuitable part of the structure for the operation.
    BadOffset,
    /// A badly formatted path (e.g. missing the leading `/`).
    BadPath,
    /// An invalid phandle: the value was either 0 or -1, which are not permitted.
    BadPhandle,
    /// An incomplete device tree.
    BadState,
    /// Decoding would read past the end of a block.
    Truncated,
    /// The blob does not start with the device tree magic number.
    BadMagic,
    /// The blob's format version is not supported.
    BadVersion,
    /// The structure block holds a token that makes no sense where it stands.
    BadStructure,
    /// The blocks of the blob are laid out inconsistently.
    BadLayout,
    /// An internal inconsistency.
    Internal,
    /// A cell-count property is malformed.
    BadNCells,
    /// A property holds an unexpected value.
    BadValue,
    /// A malformed overlay.
    BadOverlay,
    /// No phandle is available.
    NoPhandle,
    /// Invalid flags.
    BadFlags,
    /// A block is not correctly aligned.
    Alignment,
    /// A status code that has no variant of its own.
    Unknown(i32),
}

/// The error that the status code `code` (a positive number) stands for.
pub open spec fn error_of_code(code: int, ret: i32) -> Error {
    if code == 1 {
        Error::NotFound
    } else if code == 2 {
        Error::Exists
    } else if code == 3 {
        Error::NoSpace
    } else if code == 4 {
        Error::BadOffset
    } else if code == 5 {
        Error::BadPath
    } else if code == 6 {
        Error::BadPhandle
    } else if code == 7 {
        Error::BadState
    } else if code == 8 {
        Error::Truncated
    } else if code == 9 {
        Error::BadMagic
    } else if code == 10 {
        Error::BadVersion
    } else if code == 11 {
        Error::BadStructure
    } else if code == 12 {
        Error::BadLayout
    } else if code == 13 {
        Error::Internal
    } else if code == 14 {
        Error::BadNCells
    } else if code == 15 {
        Error::BadValue
    } else if code == 16 {
        Error::BadOverlay
    } else if code == 17 {
        Error::NoPhandle
    } else if code == 18 {
        Error::BadFlags
    } else if code == 19 {
        Error::Alignment
    } else {
        Error::Unknown(ret)
    }
}

impl Error {
    /// Interprets a status code as C device tree libraries return it: a non-negative value is a result,
    /// a negative one is the negated code of an error.
    pub fn parse(ret: i32) -> (r: Result<i32, Error>)
        ensures
            ret >= 0 ==> r == Ok::<i32, Error>(ret),
            ret < 0 ==> r == Err::<i32, Error>(error_of_code(-ret, ret)),
    {
        if ret >= 0 {
            return Ok(ret);
        }
        let code: i64 = -(ret as i64);
        let e = if code == 1 {
            Error::NotFound
        } else if code == 2 {
            Error::Exists
        } else if code == 3 {
            Error::NoSpace
        } else if code == 4 {
            Error::BadOffset
        } else if code == 5 {
            Error::BadPath
        } else if code == 6 {
            Error::BadPhandle
        } else if code == 7 {
            Error::BadState
        } else if code == 8 {
            Error::Truncated
        } else if code == 9 {
            Error::BadMagic
        } else if code == 10 {
            Error::BadVersion
        } else if code == 11 {
            Error::BadStructure
        } else if code == 12 {
            Error::BadLayout
        } else if code == 13 {
            Error::Internal
        } else if code == 14 {
            Error::BadNCells
        } else if code == 15 {
            Error::BadValue
        } else if code == 16 {
            Error::BadOverlay
        } else if code == 17 {
            Error::NoPhandle
        } else if code == 18 {
            Error::BadFlags
        } else if code == 19 {
            Error::Alignment
        } else {
            Error::Unknown(ret)
        };
        Err(e)
    }
}

} // verus!
