use gif::io::{BufRead, BufReader, ErrorKind, IoError, Read, Write};
use gif::traits::WriteBytesExt;

#[test]
fn io_error_keeps_kind() {
    assert_eq!(IoError::new(ErrorKind::TimedOut).kind(), ErrorKind::TimedOut);
}

#[test]
fn vec_sink_appends() {
    let mut v = vec![1u8];
    v.write_all(&[2, 3]).unwrap();
    assert_eq!(Write::write(&mut v, &[4]).unwrap(), 1);
    Write::flush(&mut v).unwrap();
    assert_eq!(v, vec![1, 2, 3, 4]);
}

#[test]
fn write_le_integers() {
    let mut v: Vec<u8> = Vec::new();
    v.write_le(0xABu8).unwrap();
    v.write_le(0x1234u16).unwrap();
    v.write_le(0x0102_0304u32).unwrap();
    v.write_le(0x0102_0304_0506_0708u64).unwrap();
    assert_eq!(
        v,
        vec![0xAB, 0x34, 0x12, 0x04, 0x03, 0x02, 0x01, 8, 7, 6, 5, 4, 3, 2, 1]
    );
}

#[test]
fn slice_reader_reads_prefix() {
    let mut src: &[u8] = &[1, 2, 3, 4, 5];
    let mut buf = [0u8; 3];
    assert_eq!(Read::read(&mut src, &mut buf).unwrap(), 3);
    assert_eq!(buf, [1, 2, 3]);
    assert_eq!(src, &[4, 5]);
    let mut exact = [0u8; 2];
    src.read_exact(&mut exact).unwrap();
    assert_eq!(exact, [4, 5]);
    let mut more = [0u8; 1];
    assert_eq!(src.read_exact(&mut more).unwrap_err().kind(), ErrorKind::Other);
}

#[test]
fn slice_buf_read() {
    let mut src: &[u8] = &[9, 8, 7];
    assert_eq!(BufRead::fill_buf(&mut src).unwrap(), &[9, 8, 7]);
    BufRead::consume(&mut src, 2);
    assert_eq!(src, &[7]);
    BufRead::consume(&mut src, 5);
    assert!(src.is_empty());
}

#[test]
fn buf_reader_reads_through_buffer() {
    let data: Vec<u8> = (0..20).collect();
    let mut reader = BufReader::with_capacity(8, &data[..]);
    let mut buf = [0u8; 3];
    assert_eq!(reader.read(&mut buf).unwrap(), 3);
    assert_eq!(buf, [0, 1, 2]);
    assert_eq!(reader.fill_buf().unwrap(), &[3, 4, 5, 6, 7]);
    reader.consume(4);
    assert_eq!(reader.fill_buf().unwrap(), &[7]);
    reader.consume(1);
    let mut big = [0u8; 10];
    assert_eq!(reader.read(&mut big).unwrap(), 10);
    assert_eq!(big, [8, 9, 10, 11, 12, 13, 14, 15, 16, 17]);
    let mut rest = [0u8; 2];
    reader.read_exact(&mut rest).unwrap();
    assert_eq!(rest, [18, 19]);
    assert!(reader.get_ref().is_empty());
}

#[test]
fn buf_reader_default_and_inner() {
    let data = [1u8, 2];
    let mut reader = BufReader::new(&data[..]);
    assert_eq!(reader.get_mut().len(), 2);
    let inner = reader.into_inner();
    assert_eq!(inner, &[1, 2]);
}

#[test]
fn io_error_from_kind() {
    let err = IoError::from(ErrorKind::NotFound);
    assert_eq!(err.kind(), ErrorKind::NotFound);
}

#[test]
fn std_kind_conversions() {
    assert_eq!(gif::io::kind_from_std(std::io::ErrorKind::BrokenPipe), ErrorKind::BrokenPipe);
    assert_eq!(gif::io::kind_from_std(std::io::ErrorKind::UnexpectedEof), ErrorKind::Other);
    assert_eq!(gif::io::kind_to_std(ErrorKind::WriteZero), std::io::ErrorKind::WriteZero);
    assert_eq!(gif::io::kind_to_std(ErrorKind::Unsupported), std::io::ErrorKind::Other);
}

#[test]
fn slice_sink_fills_front() {
    let mut storage = [0u8; 4];
    {
        let mut sink: &mut [u8] = &mut storage;
        assert_eq!(Write::write(&mut sink, &[1, 2, 3]).unwrap(), 3);
        assert_eq!(sink.len(), 1);
        assert_eq!(Write::write(&mut sink, &[4, 5]).unwrap(), 1);
        assert_eq!(sink.write_all(&[6]).unwrap_err().kind(), ErrorKind::WriteZero);
    }
    assert_eq!(storage, [1, 2, 3, 4]);
}

#[test]
fn borrowed_vec_sink_appends() {
    let mut v = vec![9u8];
    {
        let mut sink = &mut v;
        sink.write_all(&[1, 2]).unwrap();
    }
    assert_eq!(v, vec![9, 1, 2]);
}
