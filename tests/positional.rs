use kvs::{TrackingBufReader, TrackingBufWriter};

#[test]
fn reads_lines_and_tracks_offset() {
    let mut r = TrackingBufReader::new(b"ab\ncd\nef".to_vec());
    let mut buf = Vec::new();
    assert_eq!(r.read_line(&mut buf), 3);
    assert_eq!(buf, b"ab\n".to_vec());
    assert_eq!(r.position(), 3);
    assert_eq!(r.read_line(&mut buf), 3);
    assert_eq!(buf, b"ab\ncd\n".to_vec());
    assert_eq!(r.read_line(&mut buf), 2);
    assert_eq!(r.position(), 8);
    assert_eq!(r.read_line(&mut buf), 0);
}

#[test]
fn seeks_and_reads() {
    let mut r = TrackingBufReader::new(b"0123456789".to_vec());
    assert_eq!(r.seek(4), 4);
    assert_eq!(r.read(3), b"456".to_vec());
    assert_eq!(r.position(), 7);
    assert_eq!(r.read(10), b"789".to_vec());
    assert_eq!(r.position(), 10);
    assert_eq!(r.read_at(2, 2), b"23".to_vec());
    r.append(b"ab");
    assert_eq!(r.len(), 12);
    assert_eq!(r.read(5), b"ab".to_vec());
}

#[test]
fn writer_counts_bytes() {
    let mut w = TrackingBufWriter::new(5);
    assert_eq!(w.write(b"abc"), 3);
    assert_eq!(w.position(), 8);
    assert_eq!(w.write(b"\n"), 1);
    assert_eq!(w.flush(), b"abc\n".to_vec());
    assert_eq!(w.position(), 9);
    assert_eq!(w.flush(), Vec::<u8>::new());
}

#[test]
fn read_at_past_the_end() {
    let r = TrackingBufReader::new(b"0123".to_vec());
    assert_eq!(r.read_at(2, 10), b"23".to_vec());
    assert_eq!(r.read_at(4, 1), Vec::<u8>::new());
    assert_eq!(r.read_at(9, 1), Vec::<u8>::new());
}
