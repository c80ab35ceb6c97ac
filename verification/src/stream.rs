//! The byte streams that the adapters read from and write to, and what is
//! taken on trust about them.

use vstd::prelude::*;
use acid_io::ErrorKind;
use acid_io::Read;
use no_std_io::io::Write;

verus! {

/// What a byte source answered to a request for an exact number of bytes.
#[derive(Debug, Clone, Copy, PartialEq, Eq, Structural)]
pub enum ReadOutcome {
    /// The buffer was filled.
    Filled,
    /// The stream ended before the buffer was full.
    EndOfStream,
    /// The source failed in another way; the buffer holds what it holds.
    Failed,
}

/// `acid_io::Read::read_exact` on any source. Which of the three answers
/// comes back, and what then stands in the buffer, is the source's matter:
/// the contract only says that the buffer keeps its length.
#[verifier::external_body]
pub(crate) fn read_exact_from<R: Read>(source: &mut R, buf: &mut [u8]) -> (outcome: ReadOutcome)
    ensures
        final(buf)@.len() == old(buf)@.len(),
{
    match source.read_exact(buf) {
        Ok(()) => ReadOutcome::Filled,
        Err(e) => if e.kind() == ErrorKind::UnexpectedEof {
            ReadOutcome::EndOfStream
        } else {
            ReadOutcome::Failed
        },
    }
}

/// `no_std_io::io::Write::write_all` on any sink: whether the sink took the
/// whole buffer. Nothing is claimed of the answer.
#[verifier::external_body]
pub(crate) fn write_all_to<W: Write>(sink: &mut W, buf: &[u8]) -> (ok: bool) {
    sink.write_all(buf).is_ok()
}

} // verus!
