use arraydiff::{FlatReader, FlatWriter};

#[test]
fn a_reader_hands_out_the_buffer_window_by_window() {
    let mut reader = FlatReader { buffer: vec![10, 11, 12, 13, 14, 15], offset: 0 };
    assert_eq!(reader.remaining(), 6);
    assert_eq!(reader.read_buf(2), &[10, 11]);
    assert_eq!(reader.offset, 2);
    assert_eq!(reader.read_buf(0), &[] as &[i32]);
    assert_eq!(reader.offset, 2);
    assert_eq!(reader.read_buf(3), &[12, 13, 14]);
    assert_eq!(reader.remaining(), 1);
    assert_eq!(reader.read_buf(1), &[15]);
    assert_eq!(reader.remaining(), 0);
    assert_eq!(reader.offset, 6);
    assert_eq!(reader.buffer, vec![10, 11, 12, 13, 14, 15]);
}

#[test]
fn a_reader_starts_where_its_offset_says() {
    let mut reader = FlatReader { buffer: vec![1u8, 2, 3], offset: 1 };
    assert_eq!(reader.remaining(), 2);
    assert_eq!(reader.read_buf(2), &[2, 3]);
    let spent = FlatReader { buffer: vec![1u8], offset: 5 };
    assert_eq!(spent.remaining(), 0);
}

#[test]
fn a_writer_fills_the_buffer_window_by_window() {
    let mut writer = FlatWriter { buffer: vec![0; 5], offset: 0 };
    assert_eq!(writer.remaining(), 5);
    let window = writer.write_buf(2);
    assert_eq!(window.len(), 2);
    window[0] = 7;
    window[1] = 8;
    assert_eq!(writer.offset, 2);
    assert_eq!(writer.buffer, vec![7, 8, 0, 0, 0]);
    writer.write_buf(1)[0] = 9;
    assert_eq!(writer.buffer, vec![7, 8, 9, 0, 0]);
    assert_eq!(writer.remaining(), 2);
    let window = writer.write_buf(2);
    window.copy_from_slice(&[1, 2]);
    assert_eq!(writer.buffer, vec![7, 8, 9, 1, 2]);
    assert_eq!(writer.remaining(), 0);
    assert_eq!(writer.write_buf(0).len(), 0);
    assert_eq!(writer.offset, 5);
}

#[test]
fn a_window_shows_what_the_buffer_held() {
    let mut writer = FlatWriter { buffer: vec![4, 5, 6], offset: 1 };
    let window = writer.write_buf(2);
    assert_eq!(window, &[5, 6]);
    window[1] = 0;
    assert_eq!(writer.buffer, vec![4, 5, 0]);
}
