use vstd::prelude::*;

verus! {

/// Why the page-table mapper refused to map a page.
#[derive(Clone, Copy, Debug, PartialEq, Eq, Structural)]
pub enum MapError {
    /// No frame was left for a page table the walk had to create.
    FrameAllocationFailed,
    /// A table on the way down is a huge-page entry.
    ParentEntryHugePage,
    /// The page is already mapped, to the frame at this physical address.
    PageAlreadyMapped(u64),
}

/// Why setting up the heap failed.
#[derive(Clone, Copy, Debug, PartialEq, Eq, Structural)]
pub enum Error {
    /// The frame source ran out of frames.
    OutOfFrames,
    /// Writing a page-table entry failed.
    MapTo(MapError),
}

impl From<MapError> for Error {
    fn from(other: MapError) -> (r: Error)
        ensures
            r == Error::MapTo(other),
    {
        Error::MapTo(other)
    }
}

impl vstd::std_specs::convert::FromSpecImpl<MapError> for Error {
    open spec fn obeys_from_spec() -> bool {
        true
    }

    open spec fn from_spec(other: MapError) -> Error {
        Error::MapTo(other)
    }
}

} // verus!
