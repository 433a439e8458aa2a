use vstd::prelude::*;
use vstd::utf8::valid_utf8;
use crate::archive::clean_rel_path;

verus! {

/// An in-memory tar builder; the verifier sees it only through the
/// trusted wrappers below.
#[verifier::external_body]
pub struct TarPacker {
    inner: tar::Builder<Vec<u8>>,
}

/// The entries appended so far to an in-memory tar builder: each a
/// relative name with file bytes, or a directory mark, in order.
pub uninterp spec fn tar_entries(b: TarPacker) -> Seq<(Seq<u8>, Option<Seq<u8>>)>;

/// What reading a tar byte stream yields: its entries in order, or
/// nothing when the stream is malformed.
pub uninterp spec fn tar_parse_of(data: Seq<u8>) -> Option<Seq<(Seq<u8>, Option<Seq<u8>>)>>;

/// The finished tar stream for an entry list. The bytes are a function
/// of the entries alone: the wrappers below fix every header field they
/// touch and leave the rest zeroed.
pub uninterp spec fn tar_bytes_of(entries: Seq<(Seq<u8>, Option<Seq<u8>>)>) -> Seq<u8>;

/// Relies on tar::Builder::new: a fresh in-memory builder holds no
/// entries.
#[verifier::external_body]
pub(crate) fn tar_new() -> (b: TarPacker)
    ensures
        tar_entries(b) == Seq::<(Seq<u8>, Option<Seq<u8>>)>::empty(),
{
    TarPacker { inner: tar::Builder::new(Vec::new()) }
}

/// Relies on tar::Builder::append_data: appending a header of regular
/// file type under a clean relative path stores that path and the file
/// bytes, and reading the archive back yields them unchanged. Writes go
/// to a vector, so on a clean UTF-8 name the call cannot fail; a clean
/// name that is not UTF-8 is refused here, since the header API takes
/// string paths.
#[verifier::external_body]
pub(crate) fn tar_append_file(
    b: &mut TarPacker,
    name: &Vec<u8>,
    content: &Vec<u8>,
) -> (r: Result<(), std::io::Error>)
    requires
        clean_rel_path(name@),
    ensures
        r matches Ok(u) ==> tar_entries(*final(b)) == tar_entries(*old(b)).push(
            (name@, Some(content@)),
        ),
        valid_utf8(name@) ==> r is Ok,
{
    let mut h = tar::Header::new_gnu();
    h.set_size(content.len() as u64);
    h.set_mode(0o644);
    match std::str::from_utf8(name.as_slice()) {
        Ok(p) => b.inner.append_data(&mut h, p, content.as_slice()),
        Err(e) => Err(std::io::Error::new(std::io::ErrorKind::InvalidData, e)),
    }
}

/// Relies on tar::Builder::append_data: appending a header of directory
/// type under a clean relative path stores exactly that entry; as with
/// files, a clean UTF-8 name cannot fail against a vector writer.
#[verifier::external_body]
pub(crate) fn tar_append_dir(b: &mut TarPacker, name: &Vec<u8>) -> (r: Result<
    (),
    std::io::Error,
>)
    requires
        clean_rel_path(name@),
    ensures
        r matches Ok(u) ==> tar_entries(*final(b)) == tar_entries(*old(b)).push(
            (name@, None),
        ),
        valid_utf8(name@) ==> r is Ok,
{
    let mut h = tar::Header::new_gnu();
    h.set_entry_type(tar::EntryType::dir());
    h.set_size(0);
    h.set_mode(0o755);
    match std::str::from_utf8(name.as_slice()) {
        Ok(p) => b.inner.append_data(&mut h, p, std::io::empty()),
        Err(e) => Err(std::io::Error::new(std::io::ErrorKind::InvalidData, e)),
    }
}

/// Relies on tar::Builder::into_inner: finishing writes the terminating
/// blocks into the vector, which cannot fail; the bytes are determined
/// by the appended entries, and reading the finished stream back yields
/// exactly those entries.
#[verifier::external_body]
pub(crate) fn tar_finish(b: TarPacker) -> (r: Result<Vec<u8>, std::io::Error>)
    ensures
        r is Ok,
        r matches Ok(v) ==> v@ == tar_bytes_of(tar_entries(b)),
        r matches Ok(v) ==> tar_parse_of(v@) == Some(tar_entries(b)),
{
    b.inner.into_inner()
}

} // verus!
