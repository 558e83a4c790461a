use notebook::position::{offset_position, offset_range};
use notebook::{NotebookError, Position, Range};

fn at(line: u32, character: u32) -> Position {
    Position { line, character }
}

#[test]
fn a_positive_offset_moves_down() {
    assert_eq!(offset_position(at(3, 7), 2), Ok(at(5, 7)));
    assert_eq!(offset_position(at(0, 0), 0), Ok(at(0, 0)));
    assert_eq!(offset_position(at(0, 9), i32::MAX), Ok(at(i32::MAX as u32, 9)));
}

#[test]
fn a_negative_offset_moves_up() {
    assert_eq!(offset_position(at(5, 7), -2), Ok(at(3, 7)));
    assert_eq!(offset_position(at(5, 7), -5), Ok(at(0, 7)));
    assert_eq!(offset_position(at(u32::MAX, 1), i32::MIN), Ok(at(u32::MAX - (1 << 31), 1)));
}

#[test]
fn the_character_is_kept() {
    assert_eq!(offset_position(at(1, u32::MAX), 1), Ok(at(2, u32::MAX)));
    assert_eq!(offset_position(at(1, 0), 1), Ok(at(2, 0)));
}

#[test]
fn leaving_the_range_is_an_overflow() {
    assert_eq!(offset_position(at(u32::MAX, 0), 1), Err(NotebookError::ArithmeticOverflow));
    assert_eq!(offset_position(at(u32::MAX - 1, 0), 2), Err(NotebookError::ArithmeticOverflow));
    assert_eq!(offset_position(at(0, 0), -1), Err(NotebookError::ArithmeticOverflow));
    assert_eq!(offset_position(at(4, 0), -5), Err(NotebookError::ArithmeticOverflow));
    assert_eq!(offset_position(at(0, 0), i32::MIN), Err(NotebookError::ArithmeticOverflow));
    assert_eq!(offset_position(at(u32::MAX, 0), i32::MAX), Err(NotebookError::ArithmeticOverflow));
}

#[test]
fn lines_above_the_signed_range_are_not_wrapped() {
    assert_eq!(offset_position(at(3_000_000_000, 0), 5), Ok(at(3_000_000_005, 0)));
    assert_eq!(offset_position(at(3_000_000_000, 0), -5), Ok(at(2_999_999_995, 0)));
    assert_eq!(offset_position(at(u32::MAX - 1, 0), 1), Ok(at(u32::MAX, 0)));
}

#[test]
fn there_and_back_is_the_same_position() {
    let lines = [0u32, 1, 2, 100, 65535, 1 << 31, u32::MAX - 1, u32::MAX];
    let offsets = [0i32, 1, 2, 99, 65536, i32::MAX, -1, -2, -99, -65536, -i32::MAX];
    for line in lines {
        for offset in offsets {
            let start = at(line, 17);
            if let Ok(moved) = offset_position(start, offset) {
                assert_eq!(moved.line as i64, line as i64 + offset as i64);
                assert_eq!(offset_position(moved, -offset), Ok(start));
            } else {
                let target = line as i64 + offset as i64;
                assert!(target < 0 || target > u32::MAX as i64);
            }
        }
    }
}

#[test]
fn a_range_moves_as_its_ends_do() {
    let range = Range { start: at(1, 2), end: at(3, 4) };
    assert_eq!(offset_range(range, 10), Ok(Range { start: at(11, 2), end: at(13, 4) }));
    assert_eq!(offset_range(range, -1), Ok(Range { start: at(0, 2), end: at(2, 4) }));
    assert_eq!(offset_range(range, 0), Ok(range));
}

#[test]
fn a_range_overflows_when_either_end_does() {
    let range = Range { start: at(1, 2), end: at(3, 4) };
    assert_eq!(offset_range(range, -2), Err(NotebookError::ArithmeticOverflow));
    assert_eq!(offset_range(range, -4), Err(NotebookError::ArithmeticOverflow));
    let high = Range { start: at(1, 2), end: at(u32::MAX, 4) };
    assert_eq!(offset_range(high, 1), Err(NotebookError::ArithmeticOverflow));
    let backwards = Range { start: at(u32::MAX, 2), end: at(0, 4) };
    assert_eq!(offset_range(backwards, 1), Err(NotebookError::ArithmeticOverflow));
}

#[test]
fn a_range_goes_there_and_back() {
    let range = Range { start: at(10, 2), end: at(30, 4) };
    for offset in [-10, -1, 0, 1, 1000, i32::MAX] {
        let moved = offset_range(range, offset).unwrap();
        assert_eq!(offset_range(moved, -offset), Ok(range));
    }
}

#[test]
fn to_synthetic_adds_the_offset() {
    assert_eq!(at(3, 7).to_synthetic(2), Ok(at(5, 7)));
    assert_eq!(at(0, 0).to_synthetic(0), Ok(at(0, 0)));
    assert_eq!(at(1, 5).to_synthetic(u32::MAX - 1), Ok(at(u32::MAX, 5)));
    assert_eq!(at(1, 5).to_synthetic(u32::MAX), Err(NotebookError::ArithmeticOverflow));
    assert_eq!(at(u32::MAX, 5).to_synthetic(1), Err(NotebookError::ArithmeticOverflow));
}

#[test]
fn to_local_takes_the_offset_off() {
    assert_eq!(at(5, 7).to_local(2), Ok(at(3, 7)));
    assert_eq!(at(5, 7).to_local(5), Ok(at(0, 7)));
    assert_eq!(at(u32::MAX, 7).to_local(u32::MAX), Ok(at(0, 7)));
    assert_eq!(at(5, 7).to_local(6), Err(NotebookError::ArithmeticOverflow));
    assert_eq!(at(0, 7).to_local(1), Err(NotebookError::ArithmeticOverflow));
}

#[test]
fn to_local_undoes_to_synthetic() {
    let lines = [0u32, 1, 2, 100, 65535, 1 << 31, u32::MAX - 1, u32::MAX];
    let offsets = [0u32, 1, 2, 100, 65535, 1 << 31, u32::MAX - 1, u32::MAX];
    for line in lines {
        for offset in offsets {
            let start = at(line, 3);
            match start.to_synthetic(offset) {
                Ok(moved) => {
                    assert_eq!(moved, at(line + offset, 3));
                    assert_eq!(moved.to_local(offset), Ok(start));
                }
                Err(error) => {
                    assert_eq!(error, NotebookError::ArithmeticOverflow);
                    assert!(line as u64 + offset as u64 > u32::MAX as u64);
                }
            }
        }
    }
}

#[test]
fn ranges_go_to_the_document_and_back() {
    let range = Range { start: at(1, 2), end: at(3, 4) };
    let moved = range.to_synthetic(10).unwrap();
    assert_eq!(moved, Range { start: at(11, 2), end: at(13, 4) });
    assert_eq!(moved.to_local(10), Ok(range));
    assert_eq!(range.to_local(1), Ok(Range { start: at(0, 2), end: at(2, 4) }));
    assert_eq!(range.to_local(2), Err(NotebookError::ArithmeticOverflow));
    assert_eq!(range.to_synthetic(u32::MAX - 2), Err(NotebookError::ArithmeticOverflow));
    assert_eq!(
        range.to_synthetic(u32::MAX - 3),
        Ok(Range { start: at(u32::MAX - 2, 2), end: at(u32::MAX, 4) })
    );
}

#[test]
fn to_synthetic_agrees_with_a_signed_offset() {
    for line in [0u32, 7, 1 << 20] {
        for offset in [0u32, 1, 99, i32::MAX as u32] {
            assert_eq!(at(line, 1).to_synthetic(offset), offset_position(at(line, 1), offset as i32));
            assert_eq!(at(line, 1).to_local(offset), offset_position(at(line, 1), -(offset as i32)));
        }
    }
}
