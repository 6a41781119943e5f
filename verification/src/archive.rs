//! The package archive engine: a gzip-compressed tar stream.
//!
//! Packing and unpacking work on in-memory bytes; reading an archive file
//! and writing the unpacked tree to disk happen outside the library. No
//! entry path may contain a parent-directory component or start with `/`:
//! extraction refuses such archives.

use vstd::prelude::*;

use crate::paths::{check_entry_path, is_safe_entry_path};
use crate::UhpmError;

verus! {

/// One entry of a package archive.
#[derive(Debug)]
pub struct ArchiveEntry {
    pub path: String,
    pub data: Vec<u8>,
    pub is_dir: bool,
}

pub struct SpecArchiveEntry {
    pub path: Seq<char>,
    pub data: Seq<u8>,
    pub is_dir: bool,
}

impl View for ArchiveEntry {
    type V = SpecArchiveEntry;

    open spec fn view(&self) -> SpecArchiveEntry {
        SpecArchiveEntry { path: self.path@, data: self.data@, is_dir: self.is_dir }
    }
}

impl Clone for ArchiveEntry {
    fn clone(&self) -> (r: Self)
        ensures
            r@ == self@,
    {
        let d = self.data.clone();
        proof {
            assert(d@ =~= self.data@);
        }
        ArchiveEntry { path: self.path.clone(), data: d, is_dir: self.is_dir }
    }
}

/// The views of an entry vector, as plain tuples.
pub open spec fn entry_views(es: Seq<ArchiveEntry>) -> Seq<(Seq<char>, Seq<u8>, bool)> {
    es.map_values(|e: ArchiveEntry| (e.path@, e.data@, e.is_dir))
}

/// The bytes of the tar stream that carries the given entries, in order.
pub uninterp spec fn tar_of(entries: Seq<(Seq<char>, Seq<u8>, bool)>) -> Seq<u8>;

/// The entries carried by a tar stream, or nothing for a malformed stream.
pub uninterp spec fn untar_of(bytes: Seq<u8>) -> Option<Seq<(Seq<char>, Seq<u8>, bool)>>;

/// The gzip compression of the bytes, at the default level.
pub uninterp spec fn gzip_of(bytes: Seq<u8>) -> Seq<u8>;

/// The gzip decompression of the bytes, or nothing for a malformed stream.
pub uninterp spec fn gunzip_of(bytes: Seq<u8>) -> Option<Seq<u8>>;

/// A path free of NUL characters, which a tar header can carry.
pub open spec fn nul_free(s: Seq<char>) -> bool {
    forall|i: int| 0 <= i < s.len() ==> s[i] != '\0'
}

/// Every entry path is safe and free of NUL characters.
pub open spec fn all_entries_encodable(es: Seq<SpecArchiveEntry>) -> bool {
    forall|i: int|
        0 <= i < es.len() ==> is_safe_entry_path((#[trigger] es[i]).path) && nul_free(es[i].path)
}

/// Relies on tar's `Builder`: emits one record per entry, in order, into an
/// in-memory stream. For relative, `..`-free, NUL-free entry names the
/// header encoding cannot fail (over-long names take the GNU long-name
/// extension), and writes into a `Vec` cannot fail, so the call is
/// infallible here. The result depends on the entries alone.
#[verifier::external_body]
fn tar_build(entries: &Vec<ArchiveEntry>) -> (r: Vec<u8>)
    requires
        all_entries_encodable(entries@.map_values(|e: ArchiveEntry| e@)),
    ensures
        r@ == tar_of(entry_views(entries@)),
{
    let mut b = tar::Builder::new(Vec::new());
    for e in entries.iter() {
        let mut h = tar::Header::new_gnu();
        h.set_entry_type(if e.is_dir { tar::EntryType::dir() } else { tar::EntryType::file() });
        h.set_mode(if e.is_dir { 0o755 } else { 0o644 });
        h.set_size(if e.is_dir { 0 } else { e.data.len() as u64 });
        b.append_data(&mut h, &e.path, &e.data[..])
            .expect("a safe, NUL-free entry name always encodes");
    }
    b.into_inner().expect("writing a tar stream into a vector cannot fail")
}

/// Relies on tar's `Archive`: lists the records of an in-memory stream with
/// their paths and bytes. The result depends on the stream alone.
#[verifier::external_body]
fn tar_list(data: &Vec<u8>) -> (r: Option<Vec<ArchiveEntry>>)
    ensures
        match r {
            Some(es) => untar_of(data@) == Some(entry_views(es@)),
            None => untar_of(data@) is None,
        },
{
    let mut ar = tar::Archive::new(&data[..]);
    let mut out = Vec::new();
    for e in ar.entries().ok()? {
        let mut e = e.ok()?;
        let path = e.path().ok()?.to_string_lossy().into_owned();
        let is_dir = e.header().entry_type().is_dir();
        let mut bytes = Vec::new();
        std::io::Read::read_to_end(&mut e, &mut bytes).ok()?;
        out.push(ArchiveEntry { path, data: bytes, is_dir });
    }
    Some(out)
}

/// Relies on flate2's `GzEncoder`: compresses in-memory bytes at the default
/// level with the bundled backend. Compressing cannot fail and writes into a
/// `Vec` cannot fail, so the call is infallible. The result depends on the
/// bytes alone.
#[verifier::external_body]
fn gzip_bytes(data: &Vec<u8>) -> (r: Vec<u8>)
    ensures
        r@ == gzip_of(data@),
{
    let mut enc = flate2::write::GzEncoder::new(Vec::new(), flate2::Compression::default());
    std::io::Write::write_all(&mut enc, data)
        .expect("writing a gzip stream into a vector cannot fail");
    enc.finish().expect("finishing a gzip stream over a vector cannot fail")
}

/// Relies on flate2's `GzDecoder`: decompresses in-memory bytes, failing on
/// a malformed stream. The result depends on the bytes alone.
#[verifier::external_body]
fn gunzip_bytes(data: &Vec<u8>) -> (r: Option<Vec<u8>>)
    ensures
        match r {
            Some(v) => gunzip_of(data@) == Some(v@),
            None => gunzip_of(data@) is None,
        },
{
    let mut dec = flate2::read::GzDecoder::new(&data[..]);
    let mut out = Vec::new();
    match std::io::Read::read_to_end(&mut dec, &mut out) {
        Ok(_) => Some(out),
        Err(_) => None,
    }
}

/// Every entry path stays under the extraction root.
pub open spec fn all_entries_safe(es: Seq<SpecArchiveEntry>) -> bool {
    forall|i: int| 0 <= i < es.len() ==> is_safe_entry_path((#[trigger] es[i]).path)
}

/// Checks every entry path.
fn check_entries(entries: &Vec<ArchiveEntry>) -> (r: bool)
    ensures
        r == all_entries_safe(entries@.map_values(|e: ArchiveEntry| e@)),
{
    let ghost g = entries@.map_values(|e: ArchiveEntry| e@);
    let mut i: usize = 0;
    while i < entries.len()
        invariant
            i <= entries@.len(),
            g == entries@.map_values(|e: ArchiveEntry| e@),
            g.len() == entries@.len(),
            forall|j: int| 0 <= j < i ==> is_safe_entry_path((#[trigger] g[j]).path),
        decreases entries.len() - i,
    {
        proof {
            assert(g[i as int] == entries@[i as int]@);
        }
        if !check_entry_path(&entries[i].path) {
            return false;
        }
        i = i + 1;
    }
    true
}

/// Checks that every entry path is also NUL-free.
fn check_entries_nul_free(entries: &Vec<ArchiveEntry>) -> (r: bool)
    requires
        all_entries_safe(entries@.map_values(|e: ArchiveEntry| e@)),
    ensures
        r == all_entries_encodable(entries@.map_values(|e: ArchiveEntry| e@)),
{
    let ghost g = entries@.map_values(|e: ArchiveEntry| e@);
    let mut i: usize = 0;
    while i < entries.len()
        invariant
            i <= entries@.len(),
            g == entries@.map_values(|e: ArchiveEntry| e@),
            g.len() == entries@.len(),
            all_entries_safe(g),
            forall|j: int| 0 <= j < i ==> nul_free((#[trigger] g[j]).path),
        decreases entries.len() - i,
    {
        proof {
            assert(g[i as int] == entries@[i as int]@);
        }
        let p = crate::strutil::str_to_chars(entries[i].path.as_str());
        proof {
            assert(p@ == g[i as int].path);
        }
        let ghost gi = i;
        let mut k: usize = 0;
        while k < p.len()
            invariant
                k <= p@.len(),
                gi < g.len(),
                g == entries@.map_values(|e: ArchiveEntry| e@),
                p@ == g[gi as int].path,
                forall|c: int| 0 <= c < k ==> p@[c] != '\0',
            decreases p.len() - k,
        {
            if p[k] == '\0' {
                proof {
                    assert(!nul_free(g[gi as int].path));
                    assert(!all_entries_encodable(g));
                }
                return false;
            }
            k = k + 1;
        }
        proof {
            assert(nul_free(g[i as int].path));
        }
        i = i + 1;
    }
    true
}

/// Packs entries into a `.uhp` archive: a gzip-compressed tar stream.
/// Refuses entries that would escape their root when unpacked, and entry
/// names no tar header can carry; succeeds on everything else.
pub fn packer(entries: &Vec<ArchiveEntry>) -> (r: Result<Vec<u8>, UhpmError>)
    ensures
        ({
            let ge = entries@.map_values(|e: ArchiveEntry| e@);
            match r {
                Ok(v) => all_entries_encodable(ge) && v@ == gzip_of(
                    tar_of(entry_views(entries@)),
                ),
                Err(e) => {
                    &&& !all_entries_encodable(ge)
                    &&& e is UnsafePath <==> !all_entries_safe(ge)
                    &&& e is Validation <==> (all_entries_safe(ge) && !all_entries_encodable(ge))
                },
            }
        }),
{
    if !check_entries(entries) {
        return Err(UhpmError::UnsafePath(String::from_str("an entry path escapes the root")));
    }
    if !check_entries_nul_free(entries) {
        return Err(
            UhpmError::Validation(String::from_str("an entry name carries a NUL character")),
        );
    }
    let tar = tar_build(entries);
    Ok(gzip_bytes(&tar))
}

/// Whether the bytes decode as a gzip-compressed tar stream whose entries
/// all stay under the extraction root.
pub open spec fn archive_decodes(bytes: Seq<u8>) -> bool {
    &&& gunzip_of(bytes) is Some
    &&& untar_of(gunzip_of(bytes).unwrap()) is Some
    &&& forall|i: int|
        0 <= i < untar_of(gunzip_of(bytes).unwrap()).unwrap().len() ==> is_safe_entry_path(
            (#[trigger] untar_of(gunzip_of(bytes).unwrap()).unwrap()[i]).0,
        )
}

/// Unpacks a `.uhp` archive into its entries: succeeds exactly when the
/// bytes decode and every entry stays under the extraction root.
pub fn unpack_archive(bytes: &Vec<u8>) -> (r: Result<Vec<ArchiveEntry>, UhpmError>)
    ensures
        r is Ok <==> archive_decodes(bytes@),
        match r {
            Ok(es) => gunzip_of(bytes@) is Some && untar_of(gunzip_of(bytes@).unwrap()) == Some(
                entry_views(es@),
            ) && all_entries_safe(es@.map_values(|e: ArchiveEntry| e@)),
            Err(e) => {
                &&& e is Io <==> !(gunzip_of(bytes@) is Some && untar_of(
                    gunzip_of(bytes@).unwrap(),
                ) is Some)
                &&& e is UnsafePath <==> (gunzip_of(bytes@) is Some && untar_of(
                    gunzip_of(bytes@).unwrap(),
                ) is Some && !archive_decodes(bytes@))
            },
        },
{
    let tar = match gunzip_bytes(bytes) {
        Some(t) => t,
        None => {
            return Err(UhpmError::Io(String::from_str("the archive is not a gzip stream")));
        },
    };
    let entries = match tar_list(&tar) {
        Some(es) => es,
        None => {
            return Err(UhpmError::Io(String::from_str("the archive is not a tar stream")));
        },
    };
    let ghost ts = untar_of(gunzip_of(bytes@).unwrap()).unwrap();
    let ghost ge = entries@.map_values(|e: ArchiveEntry| e@);
    proof {
        assert(ts == entry_views(entries@));
        assert(forall|i: int| 0 <= i < ge.len() ==> (#[trigger] ts[i]).0 == ge[i].path);
    }
    if !check_entries(&entries) {
        proof {
            let i = choose|i: int|
                0 <= i < ge.len() && !is_safe_entry_path((#[trigger] ge[i]).path);
            assert(!is_safe_entry_path(ts[i].0));
            assert(!archive_decodes(bytes@));
        }
        return Err(UhpmError::UnsafePath(String::from_str("an entry path escapes the root")));
    }
    proof {
        assert(forall|i: int|
            0 <= i < ts.len() ==> is_safe_entry_path((#[trigger] ts[i]).0)) by {
            assert(forall|i: int|
                0 <= i < ge.len() ==> is_safe_entry_path((#[trigger] ge[i]).path));
        }
        assert(archive_decodes(bytes@));
        assert(entry_views(entries@) =~= entries@.map_values(|e: ArchiveEntry| e@).map_values(
            |t: SpecArchiveEntry| (t.path, t.data, t.is_dir),
        ));
    }
    Ok(entries)
}

} // verus!
