//! The reasons for which loading a catalog fails.

use vstd::prelude::*;

verus! {

/// Why a load failed. Each reason has a one-line message.
#[derive(Debug, Clone, Copy, PartialEq, Eq, Structural)]
pub enum ResourceError {
    /// The input is shorter than the magic header.
    ShortHeader,
    /// The first eight bytes are not the magic header of a known version.
    UnrecognizedFormat,
    /// The input ends before the count of blob sections.
    ShortBlobSectionCount,
    /// The input ends within the length of the blob index.
    ShortBlobIndexLength,
    /// The input ends within the count of resources.
    ShortResourcesCount,
    /// The input ends within the length of the resources index.
    ShortResourcesIndexLength,
    /// The input ends where a record of the blob index should begin.
    ShortBlobField,
    /// The blob index ends before the announced number of records.
    EarlyEndOfBlobIndex,
    /// The input ends within the length of a blob section.
    ShortBlobLength,
    /// The length of a blob section does not fit in `usize`.
    BlobLengthTooLarge,
    /// A record of the blob index names a field that has no blob section.
    UnhandledBlobField,
    /// The input ends where the blob index should be closed.
    ShortBlobIndexEnd,
    /// The blob index is not closed by an end-of-index field.
    UnclosedBlobIndex,
    /// The input ends where a field of the resources index should begin.
    ShortFieldType,
    /// An entry ends without having been given a name.
    MissingName,
    /// The input ends within the length of a resource name.
    ShortNameLength,
    /// The input ends within the length of source code.
    ShortSourceLength,
    /// The input ends within the length of bytecode.
    ShortBytecodeLength,
    /// The input ends within the length of an extension module.
    ShortExtensionModuleLength,
    /// The input ends within the number of resource files.
    ShortResourcesLength,
    /// The input ends within the length of the name of a resource file.
    ShortResourceName,
    /// The input ends within the length of a resource file.
    ShortResourceLength,
    /// The input ends within the number of distribution files.
    ShortDistributionLength,
    /// The input ends within the length of the name of a distribution file.
    ShortDistributionName,
    /// The input ends within the length of a distribution file.
    ShortDistributionResourceLength,
    /// The input ends within the length of a shared library.
    ShortSharedLibraryLength,
    /// The input ends within the number of library dependencies.
    ShortDependencyNamesLength,
    /// The input ends within the length of the name of a library dependency.
    ShortDependencyNameLength,
    /// A field of the resources index has an unknown type.
    InvalidFieldType,
    /// The resources index starts another number of entries than the header
    /// announces.
    CountMismatch,
    /// An entry claims bytes beyond the end of the input.
    OutOfBounds,
    /// A name in the input is not UTF-8.
    InvalidName,
    /// A name in the interpreter's table of builtin modules is not UTF-8.
    InvalidBuiltinName,
    /// A name in the interpreter's table of frozen modules is not UTF-8.
    InvalidFrozenName,
}

impl ResourceError {
    /// The characters of the message of each reason.
    pub open spec fn message_text(self) -> Seq<char> {
        match self {
            ResourceError::ShortHeader => "error reading 8 byte header"@,
            ResourceError::UnrecognizedFormat => "unrecognized file format"@,
            ResourceError::ShortBlobSectionCount => "failed reading blob section count"@,
            ResourceError::ShortBlobIndexLength => "failed reading blob index length"@,
            ResourceError::ShortResourcesCount => "failed reading resources count"@,
            ResourceError::ShortResourcesIndexLength => "failed reading resources index length"@,
            ResourceError::ShortBlobField => "failed reading blob length field type"@,
            ResourceError::EarlyEndOfBlobIndex => "unexpected end of blob index"@,
            ResourceError::ShortBlobLength => "failed reading field blob length"@,
            ResourceError::BlobLengthTooLarge => "failed to convert blob size to usize"@,
            ResourceError::UnhandledBlobField => "unhandled field in blob length index"@,
            ResourceError::ShortBlobIndexEnd => "failed to read end of blob index field"@,
            ResourceError::UnclosedBlobIndex => "unexpected value at end of blob index"@,
            ResourceError::ShortFieldType => "failed reading field type"@,
            ResourceError::MissingName => "resource name field is required"@,
            ResourceError::ShortNameLength => "failed reading resource name length"@,
            ResourceError::ShortSourceLength => "failed reading source length"@,
            ResourceError::ShortBytecodeLength => "failed reading bytecode length"@,
            ResourceError::ShortExtensionModuleLength => "failed reading extension module length"@,
            ResourceError::ShortResourcesLength => "failed reading resources length"@,
            ResourceError::ShortResourceName => "failed reading resource name"@,
            ResourceError::ShortResourceLength => "failed reading resource length"@,
            ResourceError::ShortDistributionLength => "failed reading package distribution length"@,
            ResourceError::ShortDistributionName => "failed reading distribution metadata name"@,
            ResourceError::ShortDistributionResourceLength => "failed reading package distribution resource length"@,
            ResourceError::ShortSharedLibraryLength => "failed reading in-memory shared library length"@,
            ResourceError::ShortDependencyNamesLength => "failed reading shared library dependency names length"@,
            ResourceError::ShortDependencyNameLength => "failed reading shared library dependency name length"@,
            ResourceError::InvalidFieldType => "invalid field type"@,
            ResourceError::CountMismatch => "mismatch between advertised index count and actual"@,
            ResourceError::OutOfBounds => "resource data extends beyond end of input"@,
            ResourceError::InvalidName => "resource name is not valid UTF-8"@,
            ResourceError::InvalidBuiltinName => "unable to parse PyImport_Inittab"@,
            ResourceError::InvalidFrozenName => "unable to parse PyImport_FrozenModules"@,
        }
    }

    /// The message of this reason.
    pub fn message(&self) -> (r: &'static str)
        ensures
            r@ == self.message_text(),
    {
        match self {
            ResourceError::ShortHeader => "error reading 8 byte header",
            ResourceError::UnrecognizedFormat => "unrecognized file format",
            ResourceError::ShortBlobSectionCount => "failed reading blob section count",
            ResourceError::ShortBlobIndexLength => "failed reading blob index length",
            ResourceError::ShortResourcesCount => "failed reading resources count",
            ResourceError::ShortResourcesIndexLength => "failed reading resources index length",
            ResourceError::ShortBlobField => "failed reading blob length field type",
            ResourceError::EarlyEndOfBlobIndex => "unexpected end of blob index",
            ResourceError::ShortBlobLength => "failed reading field blob length",
            ResourceError::BlobLengthTooLarge => "failed to convert blob size to usize",
            ResourceError::UnhandledBlobField => "unhandled field in blob length index",
            ResourceError::ShortBlobIndexEnd => "failed to read end of blob index field",
            ResourceError::UnclosedBlobIndex => "unexpected value at end of blob index",
            ResourceError::ShortFieldType => "failed reading field type",
            ResourceError::MissingName => "resource name field is required",
            ResourceError::ShortNameLength => "failed reading resource name length",
            ResourceError::ShortSourceLength => "failed reading source length",
            ResourceError::ShortBytecodeLength => "failed reading bytecode length",
            ResourceError::ShortExtensionModuleLength => "failed reading extension module length",
            ResourceError::ShortResourcesLength => "failed reading resources length",
            ResourceError::ShortResourceName => "failed reading resource name",
            ResourceError::ShortResourceLength => "failed reading resource length",
            ResourceError::ShortDistributionLength => "failed reading package distribution length",
            ResourceError::ShortDistributionName => "failed reading distribution metadata name",
            ResourceError::ShortDistributionResourceLength => "failed reading package distribution resource length",
            ResourceError::ShortSharedLibraryLength => "failed reading in-memory shared library length",
            ResourceError::ShortDependencyNamesLength => "failed reading shared library dependency names length",
            ResourceError::ShortDependencyNameLength => "failed reading shared library dependency name length",
            ResourceError::InvalidFieldType => "invalid field type",
            ResourceError::CountMismatch => "mismatch between advertised index count and actual",
            ResourceError::OutOfBounds => "resource data extends beyond end of input",
            ResourceError::InvalidName => "resource name is not valid UTF-8",
            ResourceError::InvalidBuiltinName => "unable to parse PyImport_Inittab",
            ResourceError::InvalidFrozenName => "unable to parse PyImport_FrozenModules",
        }
    }
}

} // verus!
