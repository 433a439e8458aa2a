//! Package files and directories into one marker-framed, line-wrapped,
//! base-64 text block that survives a terminal scrollback buffer, and
//! recover the archived bytes from such a block again.
#![allow(unused_imports)]
use vstd::prelude::*;

pub mod archive;
pub mod b64;
pub mod codec;
pub mod errors;
pub mod gz;
pub mod markers;
pub mod search;
pub mod tarball;
pub mod wrap;

use crate::archive::{entries_view, entry_view, plan_entries, plan_vec, pack_entries, Entry,
    EntryV, SourceItem};
use crate::b64::{b64_decode_of, b64_of, is_b64_byte};
use crate::codec::{base64_decode, base64_encode, frame_spec, lemma_frame_ascii,
    lemma_frame_round_trip, lemma_noise_tolerance, spec_extract};
use crate::errors::SbError;
use crate::gz::{gunzip_of, gzip_compress, gzip_decompress, gzip_of};
use crate::markers::lemma_marker_facts;
use crate::tarball::{tar_bytes_of, tar_parse_of};
use crate::wrap::{lemma_wrap_line_lengths, split_lines, wrap_spec};
use vstd::utf8::{encode_utf8, valid_utf8};

verus! {

/// `text` is the framed encoding of a compressed blob that decompresses
/// to a tar stream holding exactly `entries`.
pub open spec fn encodes(text: Seq<u8>, entries: Seq<EntryV>) -> bool {
    exists|blob: Seq<u8>, tb: Seq<u8>|
        {
            &&& (forall|i: int|
                0 <= i < b64_of(blob).len() ==> is_b64_byte(#[trigger] b64_of(blob)[i]))
            &&& text == frame_spec(wrap_spec(b64_of(blob)))
            &&& b64_decode_of(b64_of(blob)) == Some(blob)
            &&& #[trigger] gunzip_of(blob) == Some(tb)
            &&& #[trigger] tar_parse_of(tb) == Some(entries)
        }
}

/// The one text that encode produces for a planned entry list: the tar
/// stream of the entries, gzip-compressed, base-64 encoded, wrapped and
/// framed.
pub open spec fn encoded_text_of(es: Seq<EntryV>) -> Seq<u8> {
    frame_spec(wrap_spec(b64_of(gzip_of(tar_bytes_of(es)))))
}

/// The base-64 output size for `n` input bytes stays within `usize`.
pub open spec fn b64_len_fits(n: int) -> bool {
    ((n + 2) / 3) * 4 <= usize::MAX as int
}

/// Every entry name in the list is valid UTF-8, so the tar header API
/// can carry it.
pub open spec fn all_names_utf8(es: Seq<EntryV>) -> bool {
    forall|k: int| 0 <= k < es.len() ==> valid_utf8(#[trigger] es[k].0)
}

/// What decode returns, pinned for every input: marker errors exactly as
/// marker search finds them, then the base-64 decoder's verdict on the
/// payload, then the gzip decoder's verdict on the blob.
pub open spec fn decode_post(t: Seq<u8>, r: Result<Vec<u8>, SbError>) -> bool {
    match spec_extract(t) {
        Result::Err(e) => r == Result::Err::<Vec<u8>, SbError>(e),
        Result::Ok(s) => match b64_decode_of(s) {
            Option::None => r == Result::Err::<Vec<u8>, SbError>(
                SbError::Base64DecodingFailed,
            ),
            Option::Some(blob) => match gunzip_of(blob) {
                Option::None => r == Result::Err::<Vec<u8>, SbError>(
                    SbError::DecompressionFailed,
                ),
                Option::Some(tb) => r matches Ok(v) && v@ == tb,
            },
        },
    }
}

/// Build the whole encoded text for the sources: plan the archive, pack
/// it, compress, base-64 encode, wrap and frame. Success is owed
/// whenever the plan succeeds, every entry name is UTF-8, and the
/// compressed blob fits the base-64 encoder; the produced text is then
/// exactly `encoded_text_of` of the planned entries.
pub fn encode_bytes(sources: &Vec<SourceItem>, pwd: &Vec<u8>) -> (r: Result<Vec<u8>, SbError>)
    ensures
        match r {
            Ok(v) => {
                &&& sources@.len() > 0
                &&& plan_entries(sources@, pwd@) matches Ok(es) && encodes(v@, es) && v@
                    == encoded_text_of(es)
                &&& forall|i: int| 0 <= i < v@.len() ==> v@[i] < 128
            },
            Err(e) => {
                if sources@.len() == 0 {
                    e == SbError::EmptyPathList
                } else {
                    match plan_entries(sources@, pwd@) {
                        Result::Err(pe) => e == pe,
                        Result::Ok(es) => e == SbError::ArchivePackFailed,
                    }
                }
            },
        },
        (sources@.len() > 0 && (plan_entries(sources@, pwd@) matches Ok(es)
            && all_names_utf8(es) && b64_len_fits(
            gzip_of(tar_bytes_of(es)).len() as int,
        ))) ==> r is Ok,
{
    if sources.len() == 0 {
        return Err(SbError::EmptyPathList);
    }
    let entries = match plan_vec(sources, pwd) {
        Ok(v) => v,
        Err(e) => {
            return Err(e);
        },
    };
    let ghost es = plan_entries(sources@, pwd@)->Ok_0;
    proof {
        assert forall|i: int| 0 <= i < entries@.len() && all_names_utf8(es) implies
            valid_utf8(#[trigger] entries@[i].name@) by {
            assert(entries_view(entries@)[i] == entry_view(entries@[i]));
            assert(es[i].0 == entries@[i].name@);
        }
    }
    let tarbytes = match pack_entries(&entries) {
        Ok(v) => v,
        Err(e) => {
            proof {
                if all_names_utf8(es) {
                    assert(forall|i: int|
                        0 <= i < entries@.len() ==> valid_utf8(
                            #[trigger] entries@[i].name@,
                        ));
                    assert(false);
                }
            }
            return Err(e);
        },
    };
    let blob = match gzip_compress(&tarbytes) {
        Ok(v) => v,
        Err(e) => {
            return Err(SbError::ArchivePackFailed);
        },
    };
    proof {
        assert(tarbytes@ == tar_bytes_of(es));
        assert(blob@ == gzip_of(tar_bytes_of(es)));
    }
    if !(((blob.len() as u128) + 2) / 3 * 4 <= usize::MAX as u128) {
        proof {
            assert(!b64_len_fits(blob@.len() as int));
        }
        return Err(SbError::ArchivePackFailed);
    }
    proof {
        assert(b64_len_fits(blob@.len() as int));
    }
    let text = base64_encode(&blob);
    proof {
        assert((forall|i: int|
            0 <= i < b64_of(blob@).len() ==> is_b64_byte(#[trigger] b64_of(blob@)[i]))
            && text@ == frame_spec(wrap_spec(b64_of(blob@))) && b64_decode_of(b64_of(blob@))
            == Some(blob@) && gunzip_of(blob@) == Some(tarbytes@) && tar_parse_of(tarbytes@)
            == Some(es));
        assert(encodes(text@, es));
        assert(text@ == encoded_text_of(es));
        lemma_frame_ascii(b64_of(blob@));
    }
    Ok(text)
}

/// Decode framed base-64 text, given as bytes, into the archive byte
/// stream it holds.
pub fn decode_bytes(txt: &Vec<u8>) -> (r: Result<Vec<u8>, SbError>)
    ensures
        decode_post(txt@, r),
{
    let blob = match base64_decode(txt) {
        Ok(v) => v,
        Err(e) => {
            return Err(e);
        },
    };
    match gzip_decompress(&blob) {
        Ok(v) => Ok(v),
        Err(e) => Err(SbError::DecompressionFailed),
    }
}

/// Relies on String::from_utf8: ASCII bytes form a string whose UTF-8
/// encoding is exactly those bytes.
#[verifier::external_body]
fn ascii_text(v: Vec<u8>) -> (r: String)
    requires
        forall|i: int| 0 <= i < v@.len() ==> v@[i] < 128,
    ensures
        encode_utf8(r@) == v@,
{
    match String::from_utf8(v) {
        Ok(s) => s,
        Err(e) => String::new(),
    }
}

/// Copy files through the terminal scrollback buffer: encode file sets
/// into one framed text block, and decode such blocks back into the
/// archive byte stream they hold.
pub struct Sbfiles {
    /// The archive (tar) byte stream that the last `decode_as_tar`
    /// recovered from a pasted block.
    pub decoded_tar: Vec<u8>,
}

impl Sbfiles {
    /// Fresh decoder state holding no recovered archive bytes.
    pub fn new() -> (s: Self)
        ensures
            s.decoded_tar@ == Seq::<u8>::empty(),
    {
        Sbfiles { decoded_tar: Vec::new() }
    }

    /// Encode the sources as one framed, line-wrapped base-64 text block.
    pub fn encode(sources: &Vec<SourceItem>, pwd: &Vec<u8>) -> (r: Result<String, SbError>)
        ensures
            match r {
                Ok(t) => sources@.len() > 0 && (plan_entries(sources@, pwd@) matches Ok(es)
                    && encodes(encode_utf8(t@), es) && encode_utf8(t@) == encoded_text_of(
                    es,
                )),
                Err(e) => {
                    if sources@.len() == 0 {
                        e == SbError::EmptyPathList
                    } else {
                        match plan_entries(sources@, pwd@) {
                            Result::Err(pe) => e == pe,
                            Result::Ok(es) => e == SbError::ArchivePackFailed,
                        }
                    }
                },
            },
            (sources@.len() > 0 && (plan_entries(sources@, pwd@) matches Ok(es)
                && all_names_utf8(es) && b64_len_fits(
                gzip_of(tar_bytes_of(es)).len() as int,
            ))) ==> r is Ok,
    {
        match encode_bytes(sources, pwd) {
            Ok(v) => Ok(ascii_text(v)),
            Err(e) => Err(e),
        }
    }

    /// Decode a framed text block into the archive byte stream it holds.
    pub fn decode(txt: &str) -> (r: Result<Vec<u8>, SbError>)
        ensures
            decode_post(encode_utf8(txt@), r),
    {
        let bytes = txt.as_bytes_vec();
        proof {
            assert(bytes@ == encode_utf8(txt@));
        }
        decode_bytes(&bytes)
    }

    /// Decode a framed text block and keep the recovered archive byte
    /// stream in `self`.
    pub fn decode_as_tar(&mut self, txt: &str) -> (r: Result<(), SbError>)
        ensures
            ({
                let rb: Result<Vec<u8>, SbError> = match r {
                    Result::Ok(u) => Result::Ok(final(self).decoded_tar),
                    Result::Err(e) => Result::Err(e),
                };
                decode_post(encode_utf8(txt@), rb)
            }),
            r is Err ==> final(self).decoded_tar == old(self).decoded_tar,
    {
        match Self::decode(txt) {
            Ok(v) => {
                self.decoded_tar = v;
                Ok(())
            },
            Err(e) => Err(e),
        }
    }
}

/// Round-trip law: a text that encode produced always decodes, and the
/// recovered byte stream parses back to exactly the entries that were
/// packed.
pub proof fn lemma_round_trip(text: Seq<u8>, entries: Seq<EntryV>)
    requires
        encodes(text, entries),
    ensures
        spec_extract(text) is Ok,
        forall|r: Result<Vec<u8>, SbError>|
            #[trigger] decode_post(text, r) ==> (r matches Ok(v) && tar_parse_of(v@)
                == Some(entries)),
{
    let (blob, tb) = choose|blob: Seq<u8>, tb: Seq<u8>|
        {
            &&& (forall|i: int|
                0 <= i < b64_of(blob).len() ==> is_b64_byte(#[trigger] b64_of(blob)[i]))
            &&& text == frame_spec(wrap_spec(b64_of(blob)))
            &&& b64_decode_of(b64_of(blob)) == Some(blob)
            &&& #[trigger] gunzip_of(blob) == Some(tb)
            &&& #[trigger] tar_parse_of(tb) == Some(entries)
        };
    lemma_frame_round_trip(b64_of(blob));
    assert forall|r: Result<Vec<u8>, SbError>| #[trigger] decode_post(text, r) implies (
    r matches Ok(v) && tar_parse_of(v@) == Some(entries)) by {
        assert(spec_extract(text) == Ok::<Seq<u8>, SbError>(b64_of(blob)));
        assert(gunzip_of(blob) == Some(tb));
    }
}

/// Line-wrap law: the payload an encoded text carries between its
/// sentinels splits at newlines into lines of exactly 76 bytes, then
/// the remainder line, then the empty line after the final newline.
pub proof fn lemma_encoded_line_lengths(text: Seq<u8>, entries: Seq<EntryV>)
    requires
        encodes(text, entries),
    ensures
        ({
            let lines = split_lines(text.subrange(35, text.len() - 37));
            &&& text.len() >= 73
            &&& lines.len() >= 2
            &&& forall|i: int| 0 <= i < lines.len() - 2 ==> #[trigger] lines[i].len() == 76
            &&& lines[lines.len() - 2].len() < 76
            &&& lines[lines.len() - 1].len() == 0
        }),
{
    lemma_marker_facts();
    let (blob, tb) = choose|blob: Seq<u8>, tb: Seq<u8>|
        {
            &&& (forall|i: int|
                0 <= i < b64_of(blob).len() ==> is_b64_byte(#[trigger] b64_of(blob)[i]))
            &&& text == frame_spec(wrap_spec(b64_of(blob)))
            &&& b64_decode_of(b64_of(blob)) == Some(blob)
            &&& #[trigger] gunzip_of(blob) == Some(tb)
            &&& #[trigger] tar_parse_of(tb) == Some(entries)
        };
    let s = b64_of(blob);
    let w = wrap_spec(s);
    assert(forall|i: int| 0 <= i < s.len() ==> s[i] != 10);
    assert(text.subrange(35, text.len() - 37) =~= w);
    lemma_wrap_line_lengths(s);
}

/// Noise-tolerance law: text before the block, and text after it that
/// holds neither a caret nor an at-sign byte, leave the marker search
/// and with it the whole decode result unchanged.
pub proof fn lemma_decode_noise_tolerance(
    pre: Seq<u8>,
    text: Seq<u8>,
    post: Seq<u8>,
    entries: Seq<EntryV>,
)
    requires
        encodes(text, entries),
        forall|i: int| 0 <= i < post.len() ==> post[i] != 94 && post[i] != 64,
    ensures
        spec_extract(pre + text + post) == spec_extract(text),
        forall|r: Result<Vec<u8>, SbError>|
            #[trigger] decode_post(pre + text + post, r) <==> decode_post(text, r),
{
    let (blob, tb) = choose|blob: Seq<u8>, tb: Seq<u8>|
        {
            &&& (forall|i: int|
                0 <= i < b64_of(blob).len() ==> is_b64_byte(#[trigger] b64_of(blob)[i]))
            &&& text == frame_spec(wrap_spec(b64_of(blob)))
            &&& b64_decode_of(b64_of(blob)) == Some(blob)
            &&& #[trigger] gunzip_of(blob) == Some(tb)
            &&& #[trigger] tar_parse_of(tb) == Some(entries)
        };
    lemma_noise_tolerance(pre, b64_of(blob), post);
}

} // verus!
