//! Extraction of the document text out of a container file's bytes.

use vstd::prelude::*;

verus! {

/// Why an extraction failed: the bytes are not a valid gzip stream, or the
/// decompressed payload is not text.
#[derive(Debug, Clone, PartialEq)]
pub enum ExtractError {
    Decode,
}

/// What the gzip decoder yields for given bytes: `None` where the bytes
/// are not a gzip-framed text payload, otherwise the decompressed text.
pub uninterp spec fn gunzip_of(b: Seq<u8>) -> Option<Seq<char>>;

/// Relies on flate2::read::GzDecoder, read through
/// std::io::Read::read_to_string: whether an in-memory byte stream
/// inflates to valid text, and the text it inflates to, depend on the
/// bytes alone.  Any framing or payload fault comes back as an error.
#[verifier::external_body]
fn gunzip(bytes: &Vec<u8>) -> (r: Option<String>)
    ensures
        r is Some <==> gunzip_of(bytes@) is Some,
        r matches Some(s) ==> s@ == gunzip_of(bytes@).unwrap(),
{
    let mut decoder = flate2::read::GzDecoder::new(&bytes[..]);
    let mut text = String::new();
    match std::io::Read::read_to_string(&mut decoder, &mut text) {
        Ok(_) => Some(text),
        Err(_) => None,
    }
}

/// Decodes the whole gzip-framed byte stream of one container file to its
/// document text, eagerly; no partial decompression is returned.  The
/// caller reads the file; this layer knows nothing of the payload's
/// schema.
pub fn extract(bytes: &Vec<u8>) -> (r: Result<String, ExtractError>)
    ensures
        match r {
            Ok(s) => gunzip_of(bytes@) == Some(s@),
            Err(e) => gunzip_of(bytes@) is None && e == ExtractError::Decode,
        },
{
    match gunzip(bytes) {
        Some(s) => Ok(s),
        None => Err(ExtractError::Decode),
    }
}

} // verus!
