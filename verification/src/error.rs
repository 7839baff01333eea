//! The errors of boot-entry management and the messages shown for them.
use vstd::prelude::*;

verus! {

/// What can go wrong while reading or changing the boot configuration.
#[derive(Debug)]
pub enum BootError {
    UnsupportedPlatform,
    NotUefi,
    PermissionDenied,
    CommandNotFound(String),
    CommandFailed(String),
    ParseError(String),
    InvalidBootId(String),
    BootEntryNotFound(String),
    RebootFailed(String),
    Unknown(String),
}

pub type BootResult<T> = Result<T, BootError>;

/// The mathematical value of a [`BootError`].
pub enum ErrorModel {
    UnsupportedPlatform,
    NotUefi,
    PermissionDenied,
    CommandNotFound(Seq<char>),
    CommandFailed(Seq<char>),
    ParseError(Seq<char>),
    InvalidBootId(Seq<char>),
    BootEntryNotFound(Seq<char>),
    RebootFailed(Seq<char>),
    Unknown(Seq<char>),
}

impl View for BootError {
    type V = ErrorModel;

    open spec fn view(&self) -> ErrorModel {
        match self {
            BootError::UnsupportedPlatform => ErrorModel::UnsupportedPlatform,
            BootError::NotUefi => ErrorModel::NotUefi,
            BootError::PermissionDenied => ErrorModel::PermissionDenied,
            BootError::CommandNotFound(s) => ErrorModel::CommandNotFound(s@),
            BootError::CommandFailed(s) => ErrorModel::CommandFailed(s@),
            BootError::ParseError(s) => ErrorModel::ParseError(s@),
            BootError::InvalidBootId(s) => ErrorModel::InvalidBootId(s@),
            BootError::BootEntryNotFound(s) => ErrorModel::BootEntryNotFound(s@),
            BootError::RebootFailed(s) => ErrorModel::RebootFailed(s@),
            BootError::Unknown(s) => ErrorModel::Unknown(s@),
        }
    }
}

} // verus!

verus! {

/// The mathematical value of a result.
pub open spec fn outcome<T: View>(r: BootResult<T>) -> Result<T::V, ErrorModel> {
    match r {
        Ok(v) => Ok(v@),
        Err(e) => Err(e@),
    }
}

} // verus!
