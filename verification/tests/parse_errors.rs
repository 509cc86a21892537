//! What is wrong with bytes that are no bitmap, and the messages for it.

use roaring::{ParseError, RoaringBitmapView};

fn halves(values: &[u16]) -> Vec<u8> {
    values.iter().flat_map(|value| value.to_le_bytes()).collect()
}

fn error_of(bytes: &[u8]) -> ParseError {
    RoaringBitmapView::try_new(bytes).unwrap_err()
}

/// Two array containers, the second with key 4: 8 header bytes, 8 bytes of descriptions, 8 bytes
/// of offsets, and payloads at 24 and 30.
fn two_arrays() -> Vec<u8> {
    halves(&[12346, 0, 2, 0, 1, 2, 4, 1, 24, 0, 30, 0, 5, 9, 11, 7, 8])
}

/// One run container at 9: cookie, one flag byte, and one description.
fn one_run(cardinality: u16, runs: &[u16]) -> Vec<u8> {
    let mut bytes = halves(&[12347, 0]);
    bytes.push(1);
    bytes.extend(halves(&[3, cardinality - 1]));
    bytes.extend(halves(runs));
    bytes
}

#[test]
fn accepts_hand_written_bytes() {
    let bytes = two_arrays();
    let view = RoaringBitmapView::try_new(&bytes).unwrap();
    assert_eq!(view.len(), 5);
    for value in [0x1_0005, 0x1_0009, 0x1_000b, 0x4_0007, 0x4_0008] {
        assert!(view.contains(value));
    }
    let bytes = one_run(5, &[2, 10, 1, 20, 2]);
    let view = RoaringBitmapView::try_new(&bytes).unwrap();
    assert_eq!(view.len(), 5);
    assert_eq!(view.min(), Some(0x3_000a));
    assert_eq!(view.max(), Some(0x3_0016));
}

#[test]
fn truncated_header() {
    assert_eq!(error_of(&[]), ParseError::Truncated { offset: 0, needed: 4, got: 0 });
    assert_eq!(error_of(&[0x3a, 0x30, 0]), ParseError::Truncated { offset: 0, needed: 4, got: 3 });
    assert_eq!(
        error_of(&halves(&[12346, 0, 1])),
        ParseError::Truncated { offset: 4, needed: 4, got: 2 }
    );
    // Nine containers have two bytes of flags.
    assert_eq!(
        error_of(&halves(&[12347, 8])),
        ParseError::Truncated { offset: 4, needed: 2, got: 0 }
    );
}

#[test]
fn truncated_tables() {
    let bytes = two_arrays();
    assert_eq!(error_of(&bytes[..15]), ParseError::Truncated { offset: 8, needed: 8, got: 7 });
    assert_eq!(error_of(&bytes[..20]), ParseError::Truncated { offset: 16, needed: 8, got: 4 });
    assert_eq!(
        error_of(&one_run(1, &[])[..8]),
        ParseError::Truncated { offset: 5, needed: 4, got: 3 }
    );
}

#[test]
fn truncated_payloads() {
    let bytes = two_arrays();
    assert_eq!(error_of(&bytes[..24]), ParseError::Truncated { offset: 24, needed: 6, got: 0 });
    assert_eq!(error_of(&bytes[..33]), ParseError::Truncated { offset: 30, needed: 4, got: 3 });
    assert_eq!(error_of(&one_run(1, &[])), ParseError::Truncated { offset: 9, needed: 2, got: 0 });
    assert_eq!(
        error_of(&one_run(5, &[2, 10, 1, 20])),
        ParseError::Truncated { offset: 9, needed: 10, got: 8 }
    );
    let mut bitmap = halves(&[12346, 0, 1, 0, 0, 4999, 16, 0]);
    bitmap.extend(vec![0xffu8; 100]);
    assert_eq!(error_of(&bitmap), ParseError::Truncated { offset: 16, needed: 8192, got: 100 });
}

#[test]
fn bad_cookies() {
    assert_eq!(error_of(&[0x3a, 0x30, 1, 0]), ParseError::BadCookie { got: 0x0001_303a });
    assert_eq!(error_of(&[0xff; 4]), ParseError::BadCookie { got: u32::MAX });
}

#[test]
fn too_many_containers() {
    assert_eq!(
        error_of(&halves(&[12346, 0, 1, 1])),
        ParseError::TooManyContainers { count: 65_537, max: 65_536 }
    );
    assert_eq!(
        error_of(&halves(&[12346, 0, 0, 1])),
        ParseError::Truncated { offset: 8, needed: 262_144, got: 0 }
    );
}

#[test]
fn keys_must_increase() {
    for key in [0, 1] {
        let mut bytes = two_arrays();
        bytes[12] = key;
        assert_eq!(
            error_of(&bytes),
            ParseError::InvalidContainer { offset: 12, detail: "container keys are not sorted" }
        );
    }
}

#[test]
fn offsets_must_match() {
    let mut bytes = two_arrays();
    bytes[16] = 23;
    assert_eq!(
        error_of(&bytes),
        ParseError::InvalidContainer { offset: 16, detail: "container offset points into header" }
    );
    let mut bytes = two_arrays();
    bytes[20] = 31;
    assert_eq!(
        error_of(&bytes),
        ParseError::InvalidContainer {
            offset: 20,
            detail: "container offset does not match payload layout",
        }
    );
    let mut bytes = two_arrays();
    bytes[23] = 1;
    assert_eq!(
        error_of(&bytes),
        ParseError::InvalidContainer {
            offset: 20,
            detail: "container offset does not match payload layout",
        }
    );
}

#[test]
fn arrays_must_increase() {
    for value in [4, 5] {
        let mut bytes = two_arrays();
        bytes[26] = value;
        assert_eq!(
            error_of(&bytes),
            ParseError::InvalidContainer {
                offset: 26,
                detail: "array container values are not sorted and unique",
            }
        );
    }
}

#[test]
fn bitmap_cardinality_must_match() {
    let mut bytes = halves(&[12346, 0, 1, 0, 0, 4999, 16, 0]);
    bytes.extend(vec![0xffu8; 625]);
    bytes.resize(16 + 8192, 0);
    assert_eq!(RoaringBitmapView::try_new(&bytes).unwrap().len(), 5000);
    bytes[16 + 8191] = 0x80;
    assert_eq!(
        error_of(&bytes),
        ParseError::InvalidContainer {
            offset: 16,
            detail: "bitmap container cardinality does not match payload",
        }
    );
}

#[test]
fn runs_must_be_in_order() {
    assert_eq!(
        error_of(&one_run(1, &[0])),
        ParseError::InvalidRun { offset: 9, detail: "run container with zero runs" }
    );
    assert_eq!(
        error_of(&one_run(3, &[1, 65_534, 2])),
        ParseError::InvalidRun { offset: 9, detail: "run length overflows container" }
    );
    for start in [5, 11, 12] {
        assert_eq!(
            error_of(&one_run(5, &[2, 10, 1, start, 2])),
            ParseError::InvalidRun { offset: 9, detail: "runs overlap or are contiguous" }
        );
    }
    assert!(RoaringBitmapView::try_new(&one_run(5, &[2, 10, 1, 13, 2])).is_ok());
    assert_eq!(
        error_of(&one_run(4, &[2, 10, 1, 20, 2])),
        ParseError::InvalidRun {
            offset: 9,
            detail: "run container cardinality does not match payload",
        }
    );
    assert_eq!(
        error_of(&one_run(5, &[2, 65_530, 5, 65_535, 0])),
        ParseError::InvalidRun { offset: 9, detail: "runs overlap or are contiguous" }
    );
    assert!(RoaringBitmapView::try_new(&one_run(2, &[1, 65_534, 1])).is_ok());
}

#[test]
fn messages() {
    assert_eq!(
        ParseError::Truncated { offset: 24, needed: 8192, got: 0 }.to_string(),
        "input too short: needed 8192 bytes at offset 24, got 0"
    );
    assert_eq!(
        ParseError::BadCookie { got: 0x0403_0201 }.to_string(),
        "bad cookie: expected 0x303a or 0x303b, got 0x4030201"
    );
    assert_eq!(
        ParseError::BadCookie { got: 0xdead_beef }.to_string(),
        "bad cookie: expected 0x303a or 0x303b, got 0xdeadbeef"
    );
    assert_eq!(
        ParseError::TooManyContainers { count: 65_537, max: 65_536 }.to_string(),
        "container count overflow: 65537 containers exceeds maximum 65536"
    );
    assert_eq!(
        ParseError::InvalidRun { offset: 9, detail: "run container with zero runs" }.to_string(),
        "invalid run container at offset 9: run container with zero runs"
    );
    assert_eq!(
        ParseError::InvalidContainer { offset: 12, detail: "container keys are not sorted" }
            .to_string(),
        "invalid container at offset 12: container keys are not sorted"
    );
}

#[test]
fn cloned_errors_are_equal() {
    for error in [
        ParseError::Truncated { offset: 1, needed: 2, got: 3 },
        ParseError::BadCookie { got: 4 },
        ParseError::TooManyContainers { count: 5, max: 6 },
        ParseError::InvalidRun { offset: 7, detail: "a" },
        ParseError::InvalidContainer { offset: 8, detail: "b" },
    ] {
        assert_eq!(error.clone(), error);
    }
}
