//! The portable serialization format.
//!
//! A bitmap is a header, one description for each container, in most cases one offset for each
//! container, and the payloads of the containers, one after the other. [`parse`] says what bytes
//! stand for, and otherwise what is wrong with them: of several faults, the first.

use vstd::prelude::*;

use crate::bitmap::array::array_at;
use crate::bitmap::bits::byte_bit;
use crate::bitmap::bitset::{bitmap_set, BITMAP_BYTES};
use crate::bitmap::bytes::{le16, le32};
use crate::bitmap::chunk::Chunk;
use crate::bitmap::container::{payload_len, payload_set, ContainerKind, ARRAY_LIMIT};
use crate::bitmap::count::count;
use crate::bitmap::error::ParseError;
use crate::bitmap::run::{run_end, run_set, run_start, RUN_ELEMENT_BYTES, RUN_NUM_BYTES};

verus! {

/// The cookie of bitmaps without run containers.
pub const SERIAL_COOKIE_NO_RUNCONTAINER: u32 = 12346;

/// The lower half of the cookie of bitmaps that may have run containers.
pub const SERIAL_COOKIE: u16 = 12347;

/// Bitmaps that may have run containers hold offsets from this number of containers on.
pub const NO_OFFSET_THRESHOLD: usize = 4;

/// The number of bytes that describe one container.
pub const DESCRIPTION_BYTES: usize = 4;

/// The number of bytes of one container offset.
pub const OFFSET_BYTES: usize = 4;

/// The largest number of containers.
pub const MAX_CONTAINERS: u64 = 65536;

/// The first index below `n` at which `p` holds, or `n`.
pub open spec fn first(n: int, p: spec_fn(int) -> bool) -> int {
    first_from(0, n, p)
}

/// The first index from `i` on and below `n` at which `p` holds, or `n`.
pub open spec fn first_from(i: int, n: int, p: spec_fn(int) -> bool) -> int
    decreases n - i,
{
    if i >= n {
        n
    } else if p(i) {
        i
    } else {
        first_from(i + 1, n, p)
    }
}

/// The error for `needed` bytes at `at` that are not all there.
pub open spec fn short(b: Seq<u8>, at: int, needed: int) -> ParseError {
    ParseError::Truncated {
        offset: at as usize,
        needed: needed as usize,
        got: if at <= b.len() {
            (b.len() - at) as usize
        } else {
            0
        },
    }
}

/// Where the tables of a bitmap lie.
pub struct Header {
    /// The number of containers.
    pub count: int,
    /// Where the bits that tell run containers apart start, if there are any.
    pub run_flags: Option<int>,
    /// Where the descriptions of the containers start.
    pub descriptions: int,
    /// Whether the offsets of the payloads follow the descriptions.
    pub has_offsets: bool,
}

impl Header {
    /// Where the offsets of the payloads start, if there are any.
    pub open spec fn offsets(self) -> int {
        self.descriptions + DESCRIPTION_BYTES * self.count
    }

    /// Where the payloads start.
    pub open spec fn payloads(self) -> int {
        if self.has_offsets {
            self.offsets() + OFFSET_BYTES * self.count
        } else {
            self.offsets()
        }
    }

    /// The upper 16 bits of the values of container `i`.
    pub open spec fn key(self, b: Seq<u8>, i: int) -> int {
        le16(b, self.descriptions + DESCRIPTION_BYTES * i)
    }

    /// The number of values of container `i`.
    pub open spec fn cardinality(self, b: Seq<u8>, i: int) -> int {
        le16(b, self.descriptions + DESCRIPTION_BYTES * i + 2) + 1
    }

    /// Whether container `i` is a run container.
    pub open spec fn is_run(self, b: Seq<u8>, i: int) -> bool {
        match self.run_flags {
            Some(at) => byte_bit(b[at + i / 8], i % 8),
            None => false,
        }
    }

    /// The offset that is stored for container `i`.
    pub open spec fn offset(self, b: Seq<u8>, i: int) -> int {
        le32(b, self.offsets() + OFFSET_BYTES * i)
    }

    /// The kind of container `i`, whose payload starts at `at`.
    pub open spec fn kind_at(self, b: Seq<u8>, i: int, at: int) -> ContainerKind {
        if self.is_run(b, i) {
            ContainerKind::Run { runs: le16(b, at) as u16 }
        } else if self.cardinality(b, i) <= ARRAY_LIMIT {
            ContainerKind::Array
        } else {
            ContainerKind::Bitmap
        }
    }

    /// Where the payload of container `i` starts: right after those before it.
    pub open spec fn payload_at(self, b: Seq<u8>, i: int) -> int
        decreases i,
    {
        if i <= 0 {
            self.payloads()
        } else {
            self.payload_at(b, i - 1) + payload_len(
                self.kind_at(b, i - 1, self.payload_at(b, i - 1)),
                self.cardinality(b, i - 1),
            )
        }
    }

    /// The kind of container `i`.
    pub open spec fn kind(self, b: Seq<u8>, i: int) -> ContainerKind {
        self.kind_at(b, i, self.payload_at(b, i))
    }

    /// The payload of container `i`.
    pub open spec fn payload(self, b: Seq<u8>, i: int) -> Seq<u8> {
        b.subrange(self.payload_at(b, i), self.payload_at(b, i + 1))
    }

    /// What container `i` stands for.
    pub open spec fn chunk(self, b: Seq<u8>, i: int) -> Chunk {
        Chunk {
            key: self.key(b, i),
            values: payload_set(self.kind(b, i), self.payload(b, i)),
        }
    }

    /// What is wrong with the payload of container `i`.
    #[verifier::opaque]
    pub open spec fn payload_error(self, b: Seq<u8>, i: int) -> Option<ParseError> {
        let at = self.payload_at(b, i);
        if self.is_run(b, i) {
            run_error(b, at, self.cardinality(b, i))
        } else if self.cardinality(b, i) <= ARRAY_LIMIT {
            array_error(b, at, self.cardinality(b, i))
        } else {
            bitmap_error(b, at, self.cardinality(b, i))
        }
    }

    /// What is wrong with container `i`, if the ones before it are in order.
    #[verifier::opaque]
    pub open spec fn container_error(self, b: Seq<u8>, i: int) -> Option<ParseError> {
        let at = self.payload_at(b, i);
        let offset_at = (self.offsets() + OFFSET_BYTES * i) as usize;
        if i > 0 && self.key(b, i) <= self.key(b, i - 1) {
            Some(
                ParseError::InvalidContainer {
                    offset: (self.descriptions + DESCRIPTION_BYTES * i) as usize,
                    detail: "container keys are not sorted",
                },
            )
        } else if self.has_offsets && self.offset(b, i) < self.payloads() {
            Some(
                ParseError::InvalidContainer {
                    offset: offset_at,
                    detail: "container offset points into header",
                },
            )
        } else if self.has_offsets && self.offset(b, i) != at {
            Some(
                ParseError::InvalidContainer {
                    offset: offset_at,
                    detail: "container offset does not match payload layout",
                },
            )
        } else {
            self.payload_error(b, i)
        }
    }

    /// The containers with something wrong.
    pub open spec fn faulty(self, b: Seq<u8>) -> spec_fn(int) -> bool {
        |i: int| self.container_error(b, i) is Some
    }
}

/// The positions of an array payload whose value does not exceed the one before.
pub open spec fn array_faults(p: Seq<u8>) -> spec_fn(int) -> bool {
    |j: int| j > 0 && array_at(p, j) <= array_at(p, j - 1)
}

/// What is wrong with an array payload of `cardinality` values at `at`.
pub open spec fn array_error(b: Seq<u8>, at: int, cardinality: int) -> Option<ParseError> {
    let needed = 2 * cardinality;
    let p = b.subrange(at, at + needed);
    let j = first(cardinality, array_faults(p));
    if needed > 0 && b.len() < at + needed {
        Some(short(b, at, needed))
    } else if j < cardinality {
        Some(
            ParseError::InvalidContainer {
                offset: (at + 2 * j) as usize,
                detail: "array container values are not sorted and unique",
            },
        )
    } else {
        None
    }
}

/// What is wrong with a bitmap payload of `cardinality` values at `at`.
pub open spec fn bitmap_error(b: Seq<u8>, at: int, cardinality: int) -> Option<ParseError> {
    if b.len() < at + BITMAP_BYTES {
        Some(short(b, at, BITMAP_BYTES as int))
    } else if count(bitmap_set(b.subrange(at, at + BITMAP_BYTES)), 0, 0x1_0000) != cardinality {
        Some(
            ParseError::InvalidContainer {
                offset: at as usize,
                detail: "bitmap container cardinality does not match payload",
            },
        )
    } else {
        None
    }
}

/// The runs that leave the 16-bit values, or do not leave a gap after the run before.
pub open spec fn run_faults(p: Seq<u8>) -> spec_fn(int) -> bool {
    |r: int| run_end(p, r) >= 0x1_0000 || (r > 0 && run_start(p, r) <= run_end(p, r - 1) + 1)
}

/// What is wrong with a run payload of `runs` runs and `cardinality` values at `at`.
pub open spec fn run_list_error(b: Seq<u8>, at: int, runs: int, cardinality: int) -> Option<
    ParseError,
> {
    let needed = RUN_NUM_BYTES + runs * RUN_ELEMENT_BYTES;
    let p = b.subrange(at, at + needed);
    let r = first(runs, run_faults(p));
    if b.len() < at + needed {
        Some(short(b, at, needed))
    } else if r < runs && run_end(p, r) >= 0x1_0000 {
        Some(
            ParseError::InvalidRun {
                offset: at as usize,
                detail: "run length overflows container",
            },
        )
    } else if r < runs {
        Some(
            ParseError::InvalidRun {
                offset: at as usize,
                detail: "runs overlap or are contiguous",
            },
        )
    } else if count(run_set(p, runs), 0, 0x1_0000) != cardinality {
        Some(
            ParseError::InvalidRun {
                offset: at as usize,
                detail: "run container cardinality does not match payload",
            },
        )
    } else {
        None
    }
}

/// What is wrong with a run payload of `cardinality` values at `at`.
pub open spec fn run_error(b: Seq<u8>, at: int, cardinality: int) -> Option<ParseError> {
    if b.len() < at + 2 {
        Some(short(b, at, 2))
    } else if le16(b, at) == 0 {
        Some(
            ParseError::InvalidRun { offset: at as usize, detail: "run container with zero runs" },
        )
    } else {
        run_list_error(b, at, le16(b, at), cardinality)
    }
}

/// The header with its tables, if they are all there.
pub open spec fn check_tables(b: Seq<u8>, h: Header) -> Result<Header, ParseError> {
    if b.len() < h.offsets() {
        Err(short(b, h.descriptions, DESCRIPTION_BYTES * h.count))
    } else if b.len() < h.payloads() {
        Err(short(b, h.offsets(), OFFSET_BYTES * h.count))
    } else {
        Ok(h)
    }
}

/// The header of a bitmap, or what is wrong with it.
pub open spec fn parse_header(b: Seq<u8>) -> Result<Header, ParseError> {
    if b.len() < 4 {
        Err(short(b, 0, 4))
    } else if le32(b, 0) == SERIAL_COOKIE_NO_RUNCONTAINER {
        if b.len() < 8 {
            Err(short(b, 4, 4))
        } else if le32(b, 4) > MAX_CONTAINERS {
            Err(
                ParseError::TooManyContainers {
                    count: le32(b, 4) as u64,
                    max: MAX_CONTAINERS,
                },
            )
        } else {
            check_tables(
                b,
                Header {
                    count: le32(b, 4),
                    run_flags: None,
                    descriptions: 8,
                    has_offsets: true,
                },
            )
        }
    } else if le16(b, 0) == SERIAL_COOKIE {
        let count = le16(b, 2) + 1;
        let flag_bytes = (count + 7) / 8;
        if b.len() < 4 + flag_bytes {
            Err(short(b, 4, flag_bytes))
        } else {
            check_tables(
                b,
                Header {
                    count,
                    run_flags: Some(4),
                    descriptions: 4 + flag_bytes,
                    has_offsets: count >= NO_OFFSET_THRESHOLD,
                },
            )
        }
    } else {
        Err(ParseError::BadCookie { got: le32(b, 0) as u32 })
    }
}

/// The chunks that bytes stand for, or what is wrong with them.
///
/// Bytes after the last payload do not matter.
pub open spec fn parse(b: Seq<u8>) -> Result<Seq<Chunk>, ParseError> {
    match parse_header(b) {
        Err(e) => Err(e),
        Ok(h) => {
            let i = first(h.count, h.faulty(b));
            if i < h.count {
                Err(h.container_error(b, i).unwrap())
            } else {
                Ok(Seq::new(h.count as nat, |i: int| h.chunk(b, i)))
            }
        },
    }
}

} // verus!
