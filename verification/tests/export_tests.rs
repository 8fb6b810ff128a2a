use logcore::export::{write_raw_line, ExportSummary};
use std::io::{self, Write};

struct FailingWriter;

impl Write for FailingWriter {
    fn write(&mut self, _buf: &[u8]) -> io::Result<usize> {
        Err(io::Error::other("boom"))
    }

    fn flush(&mut self) -> io::Result<()> {
        Ok(())
    }
}

#[test]
fn write_raw_line_preserves_bytes_and_reports_written_length() {
    let mut out = Vec::new();
    let bytes = b"raw line\xff\n";

    let written = write_raw_line(&mut out, bytes).unwrap();

    assert_eq!(written, bytes.len() as u64);
    assert_eq!(out, bytes);
}

#[test]
fn write_raw_line_propagates_writer_errors() {
    let mut writer = FailingWriter;

    let err = write_raw_line(&mut writer, b"line").unwrap_err();

    assert_eq!(err.kind(), io::ErrorKind::Other);
}

#[test]
fn empty_line_writes_nothing_and_summary_compares_by_fields() {
    let mut out = Vec::new();
    assert_eq!(write_raw_line(&mut out, b"").unwrap(), 0);
    assert!(out.is_empty());
    let a = ExportSummary { written_lines: 2, written_bytes: 10 };
    assert_eq!(a, ExportSummary { written_lines: 2, written_bytes: 10 });
}
