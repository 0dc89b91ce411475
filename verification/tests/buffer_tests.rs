use ftg::buffer::Buffer;
use ftg::error::Error;
use ftg::position::Position;

#[test]
fn char_idx_clamps_into_empty_line() {
    // line lengths [5, 0, 3]: "aaaaa", "", "bbb"
    let buffer = Buffer::from_text(1, "aaaaa\n\nbbb");
    let lci = buffer.char_idx(1, 4);
    // the empty line holds only its newline, so begin == last there
    assert_eq!(lci.begin, lci.last);
    assert_eq!(lci.query, 6);
}

#[test]
fn char_idx_clamps_row_and_col() {
    let buffer = Buffer::from_text(1, "aaaaa\n\nbbb");
    // row past the end clamps to the last line, column past the end to its
    // last character
    let lci = buffer.char_idx(9, 9);
    assert_eq!(lci.begin, 7);
    assert_eq!(lci.last, 9);
    assert_eq!(lci.query, 9);
    // in-range lookups resolve exactly
    let lci = buffer.char_idx(0, 2);
    assert_eq!(lci.query, 2);
    assert_eq!(lci.begin, 0);
    assert_eq!(lci.last, 5);
}

#[test]
fn row_col_inverts_char_idx() {
    let buffer = Buffer::from_text(1, "aaaaa\n\nbbb");
    assert_eq!(buffer.row_col(0), (0, 0));
    assert_eq!(buffer.row_col(3), (0, 3));
    assert_eq!(buffer.row_col(6), (1, 0));
    assert_eq!(buffer.row_col(8), (2, 1));
}

#[test]
fn len_lines_counts_the_final_line() {
    assert_eq!(Buffer::from_text(1, "").len_lines(), 1);
    assert_eq!(Buffer::from_text(1, "a").len_lines(), 1);
    assert_eq!(Buffer::from_text(1, "a\n").len_lines(), 2);
    assert_eq!(Buffer::from_text(1, "aaaaa\n\nbbb").len_lines(), 3);
}

#[test]
fn insert_char_rejects_out_of_bounds() {
    let mut buffer = Buffer::from_text(1, "abc");
    match buffer.insert_char(4, 'x') {
        Err(Error::OutOfBounds { offset, len }) => {
            assert_eq!(offset, 4);
            assert_eq!(len, 3);
        }
        _ => panic!("expected an out-of-bounds failure"),
    }
    assert_eq!(buffer.content(), "abc");
}

#[test]
fn insert_char_at_valid_offsets() {
    let mut buffer = Buffer::from_text(1, "abc");
    buffer.insert_char(1, 'x').unwrap();
    assert_eq!(buffer.content(), "axbc");
    buffer.insert_char(4, 'y').unwrap();
    assert_eq!(buffer.content(), "axbcy");
}

#[test]
fn sub_lines_clip_to_the_viewport() {
    let buffer = Buffer::from_text(1, "abcdef\nghi\n\nlast");
    let subs = buffer.sub_lines(&Position { x: 1, y: 0 }, 3, 3);
    assert_eq!(subs.len(), 3);
    assert_eq!(subs[0].text, "bcd");
    assert_eq!((subs[0].begin, subs[0].end), (1, 4));
    assert_eq!(subs[1].text, "hi\n");
    assert_eq!((subs[1].begin, subs[1].end), (8, 11));
    assert_eq!(subs[2].text, "");
    assert_eq!((subs[2].begin, subs[2].end), (12, 12));
}

#[test]
fn empty_slices_carry_no_region() {
    // an empty buffer shows one empty row with no region, offset zero included
    let buffer = Buffer::from_text(1, "");
    let subs = buffer.sub_lines(&Position { x: 0, y: 0 }, 10, 10);
    assert_eq!(subs.len(), 1);
    assert_eq!(subs[0].text, "");
    assert_eq!((subs[0].begin, subs[0].end), (0, 0));
    assert!(subs[0].region.is_none());
    // a zero-width viewport on line 0 clips every row empty
    let buffer = Buffer::from_text(1, "abc");
    let subs = buffer.sub_lines(&Position { x: 0, y: 0 }, 0, 10);
    assert!(subs[0].region.is_none());
}

#[test]
fn sub_lines_stop_at_the_last_line() {
    let buffer = Buffer::from_text(1, "a\nb");
    let subs = buffer.sub_lines(&Position { x: 0, y: 1 }, 10, 10);
    assert_eq!(subs.len(), 1);
    assert_eq!(subs[0].text, "b");
    let none = buffer.sub_lines(&Position { x: 0, y: 5 }, 10, 10);
    assert_eq!(none.len(), 0);
}
