use vstd::prelude::*;

verus! {

/// Spec-level image of an [`Error`]: the same variants, with the offending
/// keyword of `UnknownCommand` as a byte sequence.
pub enum ErrorSpec {
    MalformedHeader,
    MalformedRangeSet,
    UnknownCommand(Seq<u8>),
    EmptyTransferList,
    TruncatedSource,
}

/// The ways parsing or replay planning can fail.
///
/// `MalformedHeader`: the version or new-block-count header line is missing or
/// not a number of the expected width. `MalformedRangeSet`: a range-set
/// encoding has a bad token or a bad declared count. `UnknownCommand` carries
/// the unrecognized keyword. `EmptyTransferList`: no range at all, so no image
/// size exists. `TruncatedSource`: the data stream ends before the bytes a
/// `new` command needs.
#[derive(Debug, Clone)]
pub enum Error {
    MalformedHeader,
    MalformedRangeSet,
    UnknownCommand(Vec<u8>),
    EmptyTransferList,
    TruncatedSource,
}

impl View for Error {
    type V = ErrorSpec;

    open spec fn view(&self) -> ErrorSpec {
        match self {
            Error::MalformedHeader => ErrorSpec::MalformedHeader,
            Error::MalformedRangeSet => ErrorSpec::MalformedRangeSet,
            Error::UnknownCommand(kw) => ErrorSpec::UnknownCommand(kw@),
            Error::EmptyTransferList => ErrorSpec::EmptyTransferList,
            Error::TruncatedSource => ErrorSpec::TruncatedSource,
        }
    }
}

impl Error {
    /// Short name of the error kind, for messages shown outside the library.
    pub fn kind_name(&self) -> (r: &'static str)
        ensures
            r@ == match self@ {
                ErrorSpec::MalformedHeader => "MalformedHeader"@,
                ErrorSpec::MalformedRangeSet => "MalformedRangeSet"@,
                ErrorSpec::UnknownCommand(_) => "UnknownCommand"@,
                ErrorSpec::EmptyTransferList => "EmptyTransferList"@,
                ErrorSpec::TruncatedSource => "TruncatedSource"@,
            },
    {
        match self {
            Error::MalformedHeader => "MalformedHeader",
            Error::MalformedRangeSet => "MalformedRangeSet",
            Error::UnknownCommand(_) => "UnknownCommand",
            Error::EmptyTransferList => "EmptyTransferList",
            Error::TruncatedSource => "TruncatedSource",
        }
    }
}

} // verus!
