//! The e-book container and its rewrite, entry by entry.

use crate::chars::{chars_end_with, ends_with, to_chars};
use crate::scanner::{render, rewrite_of, settled, Transformer};
use std::io::Cursor;
use std::io::Write;
use std::io::Read;
use vstd::prelude::*;
use vstd::utf8::{decode_utf8, encode_utf8, valid_utf8};
use vstd::string::{StrSliceExecFns, StringExecFns, StringSliceAdditionalSpecFns};
use zip::result::ZipError;
use zip::write::FileOptions;
use zip::DateTime;
use zip::ZipArchive;
use zip::ZipWriter;

verus! {

/// `zip::ZipArchive`, an opened zip container; nothing inside it is visible
/// here.
#[verifier::external_type_specification]
#[verifier::external_body]
#[verifier::reject_recursive_types(R)]
pub struct ExZipArchive<R>(ZipArchive<R>);

/// The destination container while it is written: a `ZipWriter` over an
/// in-memory buffer.
#[verifier::external_body]
pub struct ArchiveWriter {
    inner: ZipWriter<Cursor<Vec<u8>>>,
}

/// `std::io::Cursor`, the in-memory reader that the archive is opened on.
#[verifier::external_type_specification]
#[verifier::external_body]
#[verifier::reject_recursive_types(T)]
pub struct ExCursor<T>(Cursor<T>);

/// `zip::result::ZipError`, the failure of a call into the zip crate.
#[verifier::external_type_specification]
#[verifier::external_body]
pub struct ExZipError(ZipError);

/// What can go wrong while a container is rewritten.
#[derive(Clone, Copy, Debug, PartialEq, Eq, Structural)]
pub enum EpubError {
    /// The source is not a valid zip container.
    ArchiveOpen,
    /// An entry of the source cannot be read.
    ArchiveRead,
    /// A text-bearing entry is not valid UTF-8.
    Decoding,
    /// The destination cannot be written or finished.
    ArchiveWrite,
}

/// A failed call: what failed, at which entry of the source, and why.
#[derive(Debug, PartialEq, Eq)]
pub struct EpubFailure {
    /// The kind of the failure.
    pub kind: EpubError,
    /// The position of the entry at which the rewrite stopped; `None` where
    /// the source could not be opened or the destination not be finished.
    pub entry: Option<usize>,
    /// The underlying cause, in words.
    pub cause: String,
}

/// The entries of an opened archive, in its order: the name and the payload of
/// each, or `None` for an entry that cannot be read.
pub uninterp spec fn archive_entries(zip: ZipArchive<Cursor<Vec<u8>>>) -> Seq<
    Option<(Seq<char>, Seq<u8>)>,
>;

/// The entries of the archive that `data` holds, or `None` where `data` is no
/// valid zip container.
pub uninterp spec fn parsed(data: Seq<u8>) -> Option<Seq<Option<(Seq<char>, Seq<u8>)>>>;

/// The entries given to a writer so far: the name and the payload of each.
pub uninterp spec fn written(writer: ArchiveWriter) -> Seq<(Seq<char>, Seq<u8>)>;

/// Whether the writer still takes entries: it was not finished and none of its
/// calls has failed.
pub uninterp spec fn writable(writer: ArchiveWriter) -> bool;

/// Whether a writer that holds `before` refuses to start an entry of this
/// name.
pub uninterp spec fn start_refused(before: Seq<(Seq<char>, Seq<u8>)>, name: Seq<char>) -> bool;

/// Whether a writer that holds `before`, its newest entry still empty, refuses
/// `data` as the payload of that entry.
pub uninterp spec fn write_refused(before: Seq<(Seq<char>, Seq<u8>)>, data: Seq<u8>) -> bool;

/// The bytes of the zip container that holds `entries`, each written in one
/// piece with the default options and the default time stamp, or `None` where
/// the writer cannot finish it.
pub uninterp spec fn packed(entries: Seq<(Seq<char>, Seq<u8>)>) -> Option<Seq<u8>>;

/// `ZipArchive::new` on an in-memory reader: it parses the central directory
/// of `data`, and fails where `data` is no valid zip container.
#[verifier::external_body]
fn parse_archive(data: Vec<u8>) -> (r: Result<ZipArchive<Cursor<Vec<u8>>>, ZipError>)
    ensures
        match r {
            Ok(zip) => parsed(data@) == Some(archive_entries(zip)),
            Err(_) => parsed(data@) is None,
        },
{
    ZipArchive::new(Cursor::new(data))
}

/// `ZipArchive::len`: the number of entries.
#[verifier::external_body]
fn entry_count(zip: &ZipArchive<Cursor<Vec<u8>>>) -> (n: usize)
    ensures
        n == archive_entries(*zip).len(),
{
    zip.len()
}

/// `ZipArchive::by_index_decrypt` with an empty password, then `ZipFile::name`
/// and `read_to_end`: the name and the whole payload of one entry, or the
/// error of the first call that fails (an unsupported method, damaged data, a
/// password that the entry does not accept). `by_index_decrypt` stands in for
/// `by_index`, which panics on an entry that carries an AES record without
/// being marked as encrypted. The price: an entry encrypted under the empty
/// password is read, and since the container format checks a password by one
/// byte only, another encrypted entry is now and then taken for such a one
/// and fails only at its checksum. The archive's entries are what this call
/// yields, and reading leaves them as they are.
#[verifier::external_body]
fn read_entry(zip: &mut ZipArchive<Cursor<Vec<u8>>>, index: usize) -> (r: Result<
    (String, Vec<u8>),
    ZipError,
>)
    requires
        index < archive_entries(*old(zip)).len(),
    ensures
        archive_entries(*final(zip)) == archive_entries(*old(zip)),
        match r {
            Ok((name, payload)) => archive_entries(*old(zip))[index as int] == Some(
                (name@, payload@),
            ),
            Err(_) => archive_entries(*old(zip))[index as int] is None,
        },
{
    let mut file = match zip.by_index_decrypt(index, &[])? {
        Ok(file) => file,
        Err(_) => return Err(ZipError::UnsupportedArchive(ZipError::PASSWORD_REQUIRED)),
    };
    let name = file.name().to_string();
    let mut payload = Vec::new();
    file.read_to_end(&mut payload)?;
    Ok((name, payload))
}

/// The text of a `ZipError`, as its `Display` gives it.
#[verifier::external_body]
fn describe(error: &ZipError) -> (text: String) {
    format!("{}", error)
}

/// `ZipWriter::new` on an empty in-memory buffer: a writer without entries.
#[verifier::external_body]
fn new_writer() -> (writer: ArchiveWriter)
    ensures
        writable(writer),
        written(writer) == Seq::<(Seq<char>, Seq<u8>)>::empty(),
{
    ArchiveWriter { inner: ZipWriter::new(Cursor::new(Vec::new())) }
}

/// `ZipWriter::start_file` with the default options and the default time
/// stamp: on success the writer has one more entry, of that name and still
/// empty. The writer works in memory, so whether it fails depends on what it
/// holds and on the name alone.
#[verifier::external_body]
fn start_entry(writer: &mut ArchiveWriter, name: &str) -> (r: Result<(), ZipError>)
    requires
        writable(*old(writer)),
    ensures
        r is Err <==> start_refused(written(*old(writer)), name@),
        r is Ok ==> writable(*final(writer)) && written(*final(writer)) == written(
            *old(writer),
        ).push((name@, Seq::empty())),
{
    let options = FileOptions::default().last_modified_time(DateTime::default());
    writer.inner.start_file(name, options)
}

/// `write_all` on a `ZipWriter`: on success the newest entry, empty until
/// then, has `data` for its payload. Whether it fails depends on what the
/// writer holds and on `data` alone.
#[verifier::external_body]
fn write_entry(writer: &mut ArchiveWriter, data: &[u8]) -> (r: Result<(), ZipError>)
    requires
        writable(*old(writer)),
        written(*old(writer)).len() > 0,
        written(*old(writer)).last().1.len() == 0,
    ensures
        r is Err <==> write_refused(written(*old(writer)), data@),
        r is Ok ==> writable(*final(writer)) && written(*final(writer)) == written(
            *old(writer),
        ).drop_last().push((written(*old(writer)).last().0, data@)),
{
    Ok(writer.inner.write_all(data)?)
}

/// `ZipWriter::finish`: it writes the central directory and hands back the
/// buffer, which then holds the whole container. Whether it fails depends on
/// the entries alone; with no entry there is only the closing record to write
/// into memory, which does not fail.
#[verifier::external_body]
fn finish_archive(writer: ArchiveWriter) -> (r: Result<Vec<u8>, ZipError>)
    requires
        writable(writer),
    ensures
        match r {
            Ok(bytes) => packed(written(writer)) == Some(bytes@),
            Err(_) => packed(written(writer)) is None,
        },
        written(writer).len() == 0 ==> r is Ok,
{
    let mut writer = writer;
    Ok(writer.inner.finish()?.into_inner())
}

/// `std::str::from_utf8`: the text that `bytes` encode, or `None` where they
/// are not valid UTF-8.
#[verifier::external_body]
fn decode_text(bytes: &[u8]) -> (r: Option<&str>)
    ensures
        r is Some <==> valid_utf8(bytes@),
        r is Some ==> r->0@ == decode_utf8(bytes@),
{
    match std::str::from_utf8(bytes) {
        Ok(text) => Some(text),
        Err(_) => None,
    }
}

/// The name suffix of the text-bearing entries.
pub open spec fn text_suffix() -> Seq<char> {
    seq!['.', 'x', 'h', 't', 'm', 'l']
}

/// Whether an entry of this name is rewritten; every other entry is copied.
pub open spec fn is_text_entry(name: Seq<char>) -> bool {
    ends_with(name, text_suffix())
}

/// Why one entry stops the rewrite, if it does.
pub open spec fn entry_failure(entry: Option<(Seq<char>, Seq<u8>)>) -> Option<EpubError> {
    match entry {
        None => Some(EpubError::ArchiveRead),
        Some((name, payload)) => if is_text_entry(name) && !valid_utf8(payload) {
            Some(EpubError::Decoding)
        } else {
            None
        },
    }
}

/// The failure of the first entry that stops the rewrite, if one does.
pub open spec fn first_failure(entries: Seq<Option<(Seq<char>, Seq<u8>)>>) -> Option<EpubError>
    decreases entries.len(),
{
    if entries.len() == 0 {
        None
    } else {
        match first_failure(entries.drop_last()) {
            Some(e) => Some(e),
            None => entry_failure(entries.last()),
        }
    }
}

/// One entry of the destination: a text-bearing entry has its prose rewritten
/// by `f`, any other entry keeps its payload.
pub open spec fn rewritten_entry(
    name: Seq<char>,
    payload: Seq<u8>,
    f: spec_fn(Seq<char>) -> Seq<char>,
) -> (Seq<char>, Seq<u8>) {
    if is_text_entry(name) {
        (name, encode_utf8(render(settled(decode_utf8(payload)), f)))
    } else {
        (name, payload)
    }
}

/// The entries of the destination, one for each entry of the source and in the
/// same order.
pub open spec fn rewritten_entries(
    entries: Seq<Option<(Seq<char>, Seq<u8>)>>,
    f: spec_fn(Seq<char>) -> Seq<char>,
) -> Seq<(Seq<char>, Seq<u8>)> {
    Seq::new(
        entries.len(),
        |i: int|
            {
                let (name, payload) = entries[i]->0;
                rewritten_entry(name, payload, f)
            },
    )
}

/// Whether the destination takes every entry of `out`, one after the other:
/// it starts each and takes its payload.
pub open spec fn destination_accepts(out: Seq<(Seq<char>, Seq<u8>)>) -> bool
    decreases out.len(),
{
    if out.len() == 0 {
        true
    } else {
        let before = out.drop_last();
        let (name, stored) = out.last();
        &&& destination_accepts(before)
        &&& !start_refused(before, name)
        &&& !write_refused(before.push((name, Seq::empty())), stored)
    }
}

/// Whether the destination refuses `out`: one of its entries, or to finish.
pub open spec fn destination_refuses(out: Seq<(Seq<char>, Seq<u8>)>) -> bool {
    !destination_accepts(out) || packed(out) is None
}

/// What one entry of the source does to a destination that holds `before`:
/// the entry is read, started under its name, rewritten and stored, and the
/// first of these steps that fails gives the error.
pub open spec fn entry_outcome(
    before: Seq<(Seq<char>, Seq<u8>)>,
    entry: Option<(Seq<char>, Seq<u8>)>,
    f: spec_fn(Seq<char>) -> Seq<char>,
) -> Result<Seq<(Seq<char>, Seq<u8>)>, EpubError> {
    match entry {
        None => Err(EpubError::ArchiveRead),
        Some((name, payload)) => {
            let stored = rewritten_entry(name, payload, f).1;
            if start_refused(before, name) {
                Err(EpubError::ArchiveWrite)
            } else if is_text_entry(name) && !valid_utf8(payload) {
                Err(EpubError::Decoding)
            } else if write_refused(before.push((name, Seq::empty())), stored) {
                Err(EpubError::ArchiveWrite)
            } else {
                Ok(before.push((name, stored)))
            }
        },
    }
}

/// What the entries of the source do to an empty destination, in their
/// order: the entries that it then holds, or the first error.
pub open spec fn entries_outcome(
    entries: Seq<Option<(Seq<char>, Seq<u8>)>>,
    f: spec_fn(Seq<char>) -> Seq<char>,
) -> Result<Seq<(Seq<char>, Seq<u8>)>, EpubError>
    decreases entries.len(),
{
    if entries.len() == 0 {
        Ok(Seq::empty())
    } else {
        match entries_outcome(entries.drop_last(), f) {
            Err(e) => Err(e),
            Ok(before) => entry_outcome(before, entries.last(), f),
        }
    }
}

/// The result of a rewrite: the bytes of the finished destination, or the
/// first error; a destination that cannot be finished gives `ArchiveWrite`.
pub open spec fn rewrite_outcome(
    entries: Seq<Option<(Seq<char>, Seq<u8>)>>,
    f: spec_fn(Seq<char>) -> Seq<char>,
) -> Result<Seq<u8>, EpubError> {
    match entries_outcome(entries, f) {
        Err(e) => Err(e),
        Ok(out) => match packed(out) {
            Some(bytes) => Ok(bytes),
            None => Err(EpubError::ArchiveWrite),
        },
    }
}

/// Whether the rewrite stops at the entry at position `k`: the entries before
/// it go through, and this one fails or is refused.
pub open spec fn stops_at(
    entries: Seq<Option<(Seq<char>, Seq<u8>)>>,
    f: spec_fn(Seq<char>) -> Seq<char>,
    k: int,
) -> bool {
    &&& 0 <= k < entries.len()
    &&& entries_outcome(entries.take(k), f) is Ok
    &&& entries_outcome(entries.take(k + 1), f) is Err
}

/// An e-book: a zip container of documents.
pub struct EpubDocument {
    zip: ZipArchive<Cursor<Vec<u8>>>,
}

impl EpubDocument {
    /// The entries of the container, in its order: the name and the payload of
    /// each, or `None` for an entry that cannot be read.
    pub closed spec fn entries(&self) -> Seq<Option<(Seq<char>, Seq<u8>)>> {
        archive_entries(self.zip)
    }

    /// Opens the container that `data` holds.
    ///
    /// Fails with `ArchiveOpen` exactly where `data` is no valid zip container;
    /// the failure carries what the container library said.
    pub fn open(data: Vec<u8>) -> (r: Result<EpubDocument, EpubFailure>)
        ensures
            match r {
                Ok(doc) => parsed(data@) == Some(doc.entries()),
                Err(e) => e.kind == EpubError::ArchiveOpen && e.entry is None && parsed(data@)
                    is None,
            },
    {
        match parse_archive(data) {
            Ok(zip) => Ok(EpubDocument { zip }),
            Err(e) => Err(
                EpubFailure { kind: EpubError::ArchiveOpen, entry: None, cause: describe(&e) },
            ),
        }
    }

    /// The payload that the destination stores for one entry of the source.
    ///
    /// An entry whose name ends in `.xhtml` is decoded as UTF-8, scanned with
    /// `transformer` and encoded again, and fails with `Decoding` exactly
    /// where its payload is not valid UTF-8. Every other entry keeps its
    /// payload.
    pub fn rewrite_entry<T: Transformer>(name: &str, payload: Vec<u8>, transformer: &T) -> (r:
        Result<Vec<u8>, EpubError>)
        ensures
            match r {
                Ok(stored) => entry_failure(Some((name@, payload@))) is None && (name@, stored@)
                    == rewritten_entry(name@, payload@, rewrite_of(transformer)),
                Err(e) => entry_failure(Some((name@, payload@))) == Some(e),
            },
    {
        let suffix: Vec<char> = vec!['.', 'x', 'h', 't', 'm', 'l'];
        assert(suffix@ =~= text_suffix());
        let name_chars = to_chars(name);
        if chars_end_with(&name_chars, &suffix) {
            match decode_text(payload.as_slice()) {
                Some(content) => {
                    let styled = Self::transform_html(content, transformer);
                    Ok(styled.as_str().as_bytes_vec())
                },
                None => Err(EpubError::Decoding),
            }
        } else {
            Ok(payload)
        }
    }

    /// Rewrites the container and returns the bytes of the new one.
    ///
    /// The entries are taken in their order. Each is read, started in the
    /// destination under its name, rewritten as `rewrite_entry` says and
    /// stored; at the end the destination is finished. The first step that
    /// fails ends the rewrite: an entry that cannot be read gives
    /// `ArchiveRead`, a text-bearing entry that is not valid UTF-8 gives
    /// `Decoding`, and a refusal of the destination gives `ArchiveWrite`. The
    /// failure names the position of the entry at which the rewrite stopped.
    /// Where nothing fails, the new container has an entry for every entry of
    /// the source, under the same name and in the same order, and an entry
    /// that is not text-bearing keeps its payload byte for byte. A container
    /// without entries always gives an empty container.
    pub fn transform<T: Transformer>(&mut self, transformer: T) -> (r: Result<
        Vec<u8>,
        EpubFailure,
    >)
        ensures
            final(self).entries() == old(self).entries(),
            match r {
                Ok(bytes) => rewrite_outcome(old(self).entries(), rewrite_of(&transformer))
                    == Ok::<Seq<u8>, EpubError>(bytes@),
                Err(e) => rewrite_outcome(old(self).entries(), rewrite_of(&transformer))
                    == Err::<Seq<u8>, EpubError>(e.kind),
            },
            r is Err ==> match r->Err_0.entry {
                Some(k) => stops_at(old(self).entries(), rewrite_of(&transformer), k as int),
                None => entries_outcome(old(self).entries(), rewrite_of(&transformer)) is Ok,
            },
            r is Ok <==> first_failure(old(self).entries()) is None && !destination_refuses(
                rewritten_entries(old(self).entries(), rewrite_of(&transformer)),
            ),
            r is Ok ==> packed(rewritten_entries(old(self).entries(), rewrite_of(&transformer)))
                == Some(r->Ok_0@),
            r is Err && r->Err_0.kind != EpubError::ArchiveWrite ==> first_failure(
                old(self).entries(),
            ) == Some(r->Err_0.kind),
            old(self).entries().len() == 0 ==> r is Ok,
    {
        let ghost entries = self.entries();
        let ghost f = rewrite_of(&transformer);
        let mut writer = new_writer();
        let n = entry_count(&self.zip);
        let mut i: usize = 0;
        assert(entries.take(0) =~= Seq::empty());
        while i < n
            invariant
                i <= n,
                n == entries.len(),
                self.entries() == entries,
                entries == old(self).entries(),
                f == rewrite_of(&transformer),
                writable(writer),
                entries_outcome(entries.take(i as int), f) == Ok::<
                    Seq<(Seq<char>, Seq<u8>)>,
                    EpubError,
                >(written(writer)),
            decreases n - i,
        {
            proof {
                assert(entries.take(i + 1).drop_last() =~= entries.take(i as int));
                assert(entries.take(i + 1).last() == entries[i as int]);
                lemma_outcome_meaning(entries, f);
            }
            let (name, payload) = match read_entry(&mut self.zip, i) {
                Ok(entry) => entry,
                Err(e) => {
                    proof {
                        lemma_outcome_stays(entries, i + 1, f);
                    }
                    return Err(
                        EpubFailure {
                            kind: EpubError::ArchiveRead,
                            entry: Some(i),
                            cause: describe(&e),
                        },
                    );
                },
            };
            if let Err(e) = start_entry(&mut writer, name.as_str()) {
                proof {
                    lemma_outcome_stays(entries, i + 1, f);
                }
                return Err(
                    EpubFailure {
                        kind: EpubError::ArchiveWrite,
                        entry: Some(i),
                        cause: describe(&e),
                    },
                );
            }
            let stored = match Self::rewrite_entry(name.as_str(), payload, &transformer) {
                Ok(stored) => stored,
                Err(kind) => {
                    proof {
                        lemma_outcome_stays(entries, i + 1, f);
                    }
                    return Err(
                        EpubFailure {
                            kind,
                            entry: Some(i),
                            cause: String::from_str("the entry is not valid UTF-8"),
                        },
                    );
                },
            };
            if let Err(e) = write_entry(&mut writer, stored.as_slice()) {
                proof {
                    lemma_outcome_stays(entries, i + 1, f);
                }
                return Err(
                    EpubFailure {
                        kind: EpubError::ArchiveWrite,
                        entry: Some(i),
                        cause: describe(&e),
                    },
                );
            }
            proof {
                assert(written(writer) =~= entries_outcome(entries.take(i as int), f)->Ok_0.push(
                    (name@, stored@),
                ));
            }
            i += 1;
        }
        proof {
            assert(entries.take(n as int) =~= entries);
            lemma_outcome_meaning(entries, f);
        }
        match finish_archive(writer) {
            Ok(bytes) => Ok(bytes),
            Err(e) => Err(
                EpubFailure { kind: EpubError::ArchiveWrite, entry: None, cause: describe(&e) },
            ),
        }
    }
}

/// An error among the first `k` entries is the outcome of the whole list.
pub proof fn lemma_outcome_stays(
    entries: Seq<Option<(Seq<char>, Seq<u8>)>>,
    k: int,
    f: spec_fn(Seq<char>) -> Seq<char>,
)
    requires
        0 <= k <= entries.len(),
        entries_outcome(entries.take(k), f) is Err,
    ensures
        entries_outcome(entries, f) == entries_outcome(entries.take(k), f),
    decreases entries.len() - k,
{
    if k < entries.len() {
        assert(entries.take(k + 1).drop_last() =~= entries.take(k));
        lemma_outcome_stays(entries, k + 1, f);
    } else {
        assert(entries.take(k) =~= entries);
    }
}

/// What the outcome of the entries means. Where it is a destination, no entry
/// fails, the destination holds `rewritten_entries` and has accepted each of
/// them. Where it is `ArchiveRead` or `Decoding`, that is the failure of the
/// first failing entry. Where no entry fails and the destination accepts
/// every rewritten entry, the outcome is no error.
pub proof fn lemma_outcome_meaning(
    entries: Seq<Option<(Seq<char>, Seq<u8>)>>,
    f: spec_fn(Seq<char>) -> Seq<char>,
)
    ensures
        match entries_outcome(entries, f) {
            Ok(out) => first_failure(entries) is None && out == rewritten_entries(entries, f)
                && destination_accepts(out),
            Err(e) => (e != EpubError::ArchiveWrite ==> first_failure(entries) == Some(e)) && (
            first_failure(entries) is None ==> !destination_accepts(
                rewritten_entries(entries, f),
            )),
        },
    decreases entries.len(),
{
    let all = rewritten_entries(entries, f);
    if entries.len() == 0 {
        assert(all =~= Seq::empty());
    } else {
        let init = entries.drop_last();
        lemma_outcome_meaning(init, f);
        assert(all.drop_last() =~= rewritten_entries(init, f));
        match entries_outcome(init, f) {
            Ok(before) => {
                match entries.last() {
                    Some((name, payload)) => {
                        assert(all.last() == rewritten_entry(name, payload, f));
                        assert(before.push(all.last()) =~= all);
                    },
                    None => {},
                }
            },
            Err(_) => {},
        }
    }
}

/// The destination keeps the shape of the source: it has as many entries, each
/// under the name of the source entry at its place; an entry that is not
/// text-bearing keeps its payload byte for byte, and a text-bearing entry
/// holds the encoding of its scanned document.
pub proof fn lemma_archive_fidelity(
    entries: Seq<Option<(Seq<char>, Seq<u8>)>>,
    f: spec_fn(Seq<char>) -> Seq<char>,
)
    ensures
        rewritten_entries(entries, f).len() == entries.len(),
        forall|i: int|
            0 <= i < entries.len() && entries[i] is Some ==> {
                let (name, payload) = entries[i]->0;
                let stored = #[trigger] rewritten_entries(entries, f)[i];
                &&& stored.0 == name
                &&& !is_text_entry(name) ==> stored.1 == payload
                &&& is_text_entry(name) ==> stored.1 == encode_utf8(
                    render(settled(decode_utf8(payload)), f),
                )
            },
{
}

} // verus!
