//! Where the parts of a serialized bitmap lie.

use vstd::prelude::*;

use crate::bitmap::bytes::{le16, read_u16_at, read_u32_at};
use crate::bitmap::container::{payload_ok, ContainerKind, ARRAY_LIMIT};
use crate::bitmap::entry::ContainerEntry;
use crate::bitmap::error::ParseError;
use crate::bitmap::format::{
    parse_header, Header, DESCRIPTION_BYTES, MAX_CONTAINERS, NO_OFFSET_THRESHOLD, OFFSET_BYTES,
    SERIAL_COOKIE, SERIAL_COOKIE_NO_RUNCONTAINER,
};
use crate::bitmap::parse::{
    read_u16_at_abs, read_u32, take, validate_array, validate_bitmap, validate_container_count,
    validate_run,
};

verus! {

/// The places of the tables and of the payloads, once the tables are known to be there.
#[derive(Copy, Clone)]
pub(crate) struct Layout {
    pub(crate) size: usize,
    pub(crate) run_flags: Option<usize>,
    pub(crate) descriptions_offset: usize,
    pub(crate) has_offsets: bool,
    pub(crate) offsets_offset: usize,
    pub(crate) payloads_offset: usize,
}

impl Layout {
    /// The header that the layout was read from.
    pub(crate) open spec fn header(self) -> Header {
        Header {
            count: self.size as int,
            run_flags: match self.run_flags {
                Some(at) => Some(at as int),
                None => None,
            },
            descriptions: self.descriptions_offset as int,
            has_offsets: self.has_offsets,
        }
    }

    /// The tables lie within the bytes, one after the other.
    pub(crate) open spec fn wf(self, bytes: Seq<u8>) -> bool {
        &&& self.size <= MAX_CONTAINERS
        &&& self.offsets_offset == self.header().offsets()
        &&& self.payloads_offset == self.header().payloads()
        &&& self.payloads_offset <= bytes.len()
        &&& match self.run_flags {
            Some(at) => at + (self.size + 7) / 8 <= self.descriptions_offset,
            None => true,
        }
    }

    /// Reads the cookie and finds the tables.
    pub(crate) fn read(bytes: &[u8]) -> (layout: Result<Self, ParseError>)
        ensures
            match parse_header(bytes@) {
                Ok(h) => layout matches Ok(l) && l.header() == h && l.wf(bytes@),
                Err(e) => layout == Err::<Self, ParseError>(e),
            },
    {
        assert(bytes@.len() == bytes.len());
        let mut offset: usize = 0;
        let cookie: u32 = match read_u32(bytes, &mut offset) {
            Ok(cookie) => cookie,
            Err(e) => {
                return Err(e);
            },
        };
        let low: u16 = (cookie % 0x1_0000) as u16;
        let high: u16 = (cookie / 0x1_0000) as u16;
        assert(low == le16(bytes@, 0) && high == le16(bytes@, 2));
        let size: usize;
        let run_flags: Option<usize>;
        let has_offsets: bool;
        if cookie == SERIAL_COOKIE_NO_RUNCONTAINER {
            let count: u32 = match read_u32(bytes, &mut offset) {
                Ok(count) => count,
                Err(e) => {
                    return Err(e);
                },
            };
            match validate_container_count(count as u64) {
                Err(e) => {
                    return Err(e);
                },
                Ok(()) => {},
            }
            size = count as usize;
            run_flags = None;
            has_offsets = true;
        } else if low == SERIAL_COOKIE {
            let count: u64 = high as u64 + 1;
            match validate_container_count(count) {
                Err(e) => {
                    return Err(e);
                },
                Ok(()) => {},
            }
            size = count as usize;
            run_flags = Some(offset);
            has_offsets = size >= NO_OFFSET_THRESHOLD;
            match take(bytes, &mut offset, (size + 7) / 8) {
                Err(e) => {
                    return Err(e);
                },
                Ok(_) => {},
            }
        } else {
            return Err(ParseError::BadCookie { got: cookie });
        }
        let descriptions_offset: usize = offset;
        match take(bytes, &mut offset, size * DESCRIPTION_BYTES) {
            Err(e) => {
                return Err(e);
            },
            Ok(_) => {},
        }
        let offsets_offset: usize = offset;
        if has_offsets {
            match take(bytes, &mut offset, size * OFFSET_BYTES) {
                Err(e) => {
                    return Err(e);
                },
                Ok(_) => {},
            }
        }
        Ok(
            Layout {
                size,
                run_flags,
                descriptions_offset,
                has_offsets,
                offsets_offset,
                payloads_offset: offset,
            },
        )
    }

    /// Whether container `index` is marked as a run container.
    fn is_run(&self, bytes: &[u8], index: usize) -> (marked: bool)
        requires
            self.wf(bytes@),
            index < self.size,
        ensures
            marked == self.header().is_run(bytes@, index as int),
    {
        match self.run_flags {
            Some(at) => {
                let flags: u8 = bytes[at + index / 8];
                (flags >> ((index % 8) as u8)) & 1u8 == 1u8
            },
            None => false,
        }
    }

    /// Checks the payload of container `index` and tells its kind.
    fn read_kind(
        &self,
        bytes: &[u8],
        index: usize,
        payload_offset: usize,
        cardinality: u32,
    ) -> (kind: Result<ContainerKind, ParseError>)
        requires
            self.wf(bytes@),
            index < self.size,
            payload_offset == self.header().payload_at(bytes@, index as int),
            payload_offset <= bytes@.len(),
            cardinality == self.header().cardinality(bytes@, index as int),
        ensures
            match self.header().payload_error(bytes@, index as int) {
                Some(e) => kind == Err::<ContainerKind, ParseError>(e),
                None => {
                    &&& kind == Ok::<ContainerKind, ParseError>(
                        self.header().kind(bytes@, index as int),
                    )
                    &&& self.header().payload_at(bytes@, index + 1) <= bytes@.len()
                    &&& payload_ok(
                        self.header().kind(bytes@, index as int),
                        cardinality as int,
                        self.header().payload(bytes@, index as int),
                    )
                },
            },
    {
        reveal(Header::payload_error);
        let kind: ContainerKind;
        if self.is_run(bytes, index) {
            let runs: u16 = match read_u16_at_abs(bytes, payload_offset) {
                Ok(runs) => runs,
                Err(e) => {
                    return Err(e);
                },
            };
            if runs == 0 {
                return Err(
                    ParseError::InvalidRun {
                        offset: payload_offset,
                        detail: "run container with zero runs",
                    },
                );
            }
            match validate_run(bytes, payload_offset, runs, cardinality) {
                Err(e) => {
                    return Err(e);
                },
                Ok(()) => {},
            }
            kind = ContainerKind::Run { runs };
        } else if cardinality as u64 <= ARRAY_LIMIT {
            match validate_array(bytes, payload_offset, cardinality) {
                Err(e) => {
                    return Err(e);
                },
                Ok(()) => {},
            }
            kind = ContainerKind::Array;
        } else {
            match validate_bitmap(bytes, payload_offset, cardinality) {
                Err(e) => {
                    return Err(e);
                },
                Ok(()) => {},
            }
            kind = ContainerKind::Bitmap;
        }
        Ok(kind)
    }

    /// Reads container `index`, whose payload has to start at `payload_offset`.
    pub(crate) fn read_container(
        &self,
        bytes: &[u8],
        index: usize,
        payload_offset: usize,
        last_key: Option<u16>,
    ) -> (entry: Result<ContainerEntry, ParseError>)
        requires
            self.wf(bytes@),
            index < self.size,
            payload_offset == self.header().payload_at(bytes@, index as int),
            self.payloads_offset <= payload_offset <= bytes@.len(),
            match last_key {
                Some(last) => index > 0 && last == self.header().key(bytes@, index - 1),
                None => index == 0,
            },
        ensures
            match self.header().container_error(bytes@, index as int) {
                Some(e) => entry == Err::<ContainerEntry, ParseError>(e),
                None => {
                    &&& entry matches Ok(found)
                    &&& found.wf(bytes@)
                    &&& found.key == self.header().key(bytes@, index as int)
                    &&& found.cardinality == self.header().cardinality(bytes@, index as int)
                    &&& found.kind == self.header().kind(bytes@, index as int)
                    &&& found.payload_offset == payload_offset
                    &&& last_key matches Some(last) ==> last < found.key
                },
            },
    {
        assert(bytes@.len() == bytes.len());
        reveal(Header::container_error);
        reveal(ContainerEntry::wf);
        let description_offset: usize = self.descriptions_offset + index * DESCRIPTION_BYTES;
        let key: u16 = read_u16_at(bytes, description_offset);
        match last_key {
            Some(last) => {
                if key <= last {
                    return Err(
                        ParseError::InvalidContainer {
                            offset: description_offset,
                            detail: "container keys are not sorted",
                        },
                    );
                }
            },
            None => {},
        }
        let cardinality: u32 = read_u16_at(bytes, description_offset + 2) as u32 + 1;

        if self.has_offsets {
            let offset_at: usize = self.offsets_offset + index * OFFSET_BYTES;
            let stored: usize = read_u32_at(bytes, offset_at) as usize;
            if stored < self.payloads_offset {
                return Err(
                    ParseError::InvalidContainer {
                        offset: offset_at,
                        detail: "container offset points into header",
                    },
                );
            }
            if stored != payload_offset {
                return Err(
                    ParseError::InvalidContainer {
                        offset: offset_at,
                        detail: "container offset does not match payload layout",
                    },
                );
            }
        }
        match self.read_kind(bytes, index, payload_offset, cardinality) {
            Ok(kind) => Ok(ContainerEntry { key, cardinality, kind, payload_offset }),
            Err(e) => Err(e),
        }
    }
}

} // verus!
