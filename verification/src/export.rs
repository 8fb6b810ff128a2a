use vstd::prelude::*;
use std::io::Write;

verus! {

#[verifier::external_type_specification]
#[verifier::external_body]
pub struct ExIoError(std::io::Error);

/// What an export wrote: how many lines, and how many bytes.
#[derive(Debug, Clone, Copy, PartialEq, Eq, Structural)]
pub struct ExportSummary {
    pub written_lines: usize,
    pub written_bytes: u64,
}

/// `Write::write_all` on `writer`. Whether it succeeds is up to the writer; nothing is
/// claimed about what a failed call left written.
#[verifier::external_body]
fn write_all_to<W: Write>(writer: &mut W, bytes: &[u8]) -> (r: Result<(), std::io::Error>) {
    writer.write_all(bytes)
}

/// Writes the raw bytes of one line as they are and returns how many were written; an error
/// of the writer is passed on.
pub fn write_raw_line<W: Write>(writer: &mut W, bytes: &[u8]) -> (r: Result<u64, std::io::Error>)
    ensures
        r matches Ok(n) ==> n == bytes@.len(),
{
    match write_all_to(writer, bytes) {
        Ok(()) => Ok(bytes.len() as u64),
        Err(e) => Err(e),
    }
}

} // verus!
