//! The container's data: sections, header entries, the framing of a file
//! image, and a reader over an opened image.

use vstd::prelude::*;
use vstd::bytes::{spec_u32_from_le_bytes, spec_u32_to_le_bytes, u32_from_le_bytes, u32_to_le_bytes, lemma_auto_spec_u32_to_from_le_bytes};
use crate::container::codec::{unexpected_eof, zstd_decode, zstd_decoded, zstd_encoded};
use crate::error::AlgoError;
use crate::text::{concat, concat3, decimal, decimal_spec, names};

verus! {

/// The magic bytes `PIO` and the hard format version this build writes and
/// reads (the 4th byte of a file).
pub const MAGIC_P: u8 = 0x50;
pub const MAGIC_I: u8 = 0x49;
pub const MAGIC_O: u8 = 0x4f;
pub const FORMAT_VERSION: u8 = 1;

/// The zstd level payloads are compressed at.
pub const ZSTD_LEVEL: i32 = 3;

/// A section as the caller sees it: metadata and an uncompressed payload.
#[derive(Debug, Clone)]
pub struct Section {
    pub kind: String,
    pub name: String,
    pub tags: Vec<String>,
    pub version: u32,
    pub payload: Vec<u8>,
}

/// The mathematical value of a section.
pub struct SectionView {
    pub kind: Seq<char>,
    pub name: Seq<char>,
    pub tags: Seq<Seq<char>>,
    pub version: u32,
    pub payload: Seq<u8>,
}

impl View for Section {
    type V = SectionView;

    open spec fn view(&self) -> SectionView {
        SectionView {
            kind: self.kind@,
            name: self.name@,
            tags: names(self.tags@),
            version: self.version,
            payload: self.payload@,
        }
    }
}

/// One entry of the header index: metadata and where the compressed blob
/// lies within the blob region (no payload).
#[derive(Debug, Clone)]
pub struct Entry {
    pub kind: String,
    pub name: String,
    pub tags: Vec<String>,
    pub version: u32,
    /// Offset of the compressed blob within the blob region.
    pub offset: u64,
    /// Compressed blob length.
    pub size: u64,
}

/// The mathematical value of an entry.
pub struct EntryView {
    pub kind: Seq<char>,
    pub name: Seq<char>,
    pub tags: Seq<Seq<char>>,
    pub version: u32,
    pub offset: int,
    pub size: int,
}

impl View for Entry {
    type V = EntryView;

    open spec fn view(&self) -> EntryView {
        EntryView {
            kind: self.kind@,
            name: self.name@,
            tags: names(self.tags@),
            version: self.version,
            offset: self.offset as int,
            size: self.size as int,
        }
    }
}

/// A copy of a list of strings.
pub fn clone_strings(v: &Vec<String>) -> (r: Vec<String>)
    ensures
        names(r@) == names(v@),
{
    let mut out: Vec<String> = Vec::new();
    let mut i: usize = 0;
    while i < v.len()
        invariant
            i <= v@.len(),
            names(out@) == names(v@).subrange(0, i as int),
        decreases v.len() - i,
    {
        let ghost prev = names(out@);
        let s = v[i].clone();
        let ghost sv = s@;
        out.push(s);
        assert(names(out@) =~= prev.push(sv));
        assert(names(out@) =~= names(v@).subrange(0, i + 1));
        i = i + 1;
    }
    assert(names(out@) =~= names(v@));
    out
}

impl Entry {
    /// A copy of this entry.
    pub fn duplicate(&self) -> (r: Entry)
        ensures
            r@ == self@,
    {
        Entry {
            kind: self.kind.clone(),
            name: self.name.clone(),
            tags: clone_strings(&self.tags),
            version: self.version,
            offset: self.offset,
            size: self.size,
        }
    }
}

/// The entry a section is indexed by, at `offset` with a blob of `size` bytes.
pub open spec fn entry_of_spec(s: SectionView, offset: int, size: int) -> EntryView {
    EntryView { kind: s.kind, name: s.name, tags: s.tags, version: s.version, offset, size }
}

/// The header entry for section `s`.
pub fn entry_of(s: &Section, offset: u64, size: u64) -> (r: Entry)
    ensures
        r@ == entry_of_spec(s@, offset as int, size as int),
{
    Entry {
        kind: s.kind.clone(),
        name: s.name.clone(),
        tags: clone_strings(&s.tags),
        version: s.version,
        offset,
        size,
    }
}

/// The JSON header: the format version, the caller's opaque metadata and the
/// section index.
#[derive(Debug)]
pub struct Header {
    pub format_version: u32,
    /// Opaque, caller-owned project metadata; the container does not
    /// interpret it.
    pub app: serde_json::Value,
    pub sections: Vec<Entry>,
}

/// The views of a list of entries.
pub open spec fn entries_view(v: Seq<Entry>) -> Seq<EntryView> {
    v.map_values(|e: Entry| e@)
}

/// The views of a list of (entry, compressed blob) items.
pub open spec fn items_view(v: Seq<(Entry, Vec<u8>)>) -> Seq<(EntryView, Seq<u8>)> {
    v.map_values(|it: (Entry, Vec<u8>)| (it.0@, it.1@))
}

/// Items laid out back to back from `base`: each entry gets the offset where
/// its blob starts and the blob's length as size.
pub open spec fn placed(items: Seq<(EntryView, Seq<u8>)>, base: int) -> Seq<(EntryView, Seq<u8>)>
    decreases items.len(),
{
    if items.len() == 0 {
        Seq::empty()
    } else {
        let e = items[0].0;
        let b = items[0].1;
        seq![(EntryView { offset: base, size: b.len() as int, ..e }, b)] + placed(items.drop_first(), base + b.len())
    }
}

/// The blob region: the blobs of `items`, back to back.
pub open spec fn blob_region(items: Seq<(EntryView, Seq<u8>)>) -> Seq<u8>
    decreases items.len(),
{
    if items.len() == 0 {
        Seq::empty()
    } else {
        items[0].1 + blob_region(items.drop_first())
    }
}

/// What a write puts to disk besides the JSON header: the caller's metadata,
/// the data version and the (entry, compressed blob) items, laid out.
pub struct Archive {
    pub app: serde_json::Value,
    pub data_version: u32,
    pub items: Vec<(Entry, Vec<u8>)>,
}

/// The preamble: magic, format version, data version and header length, the
/// two numbers little-endian.
pub open spec fn preamble(data_version: u32, header_len: u32) -> Seq<u8> {
    seq![MAGIC_P, MAGIC_I, MAGIC_O, FORMAT_VERSION] + spec_u32_to_le_bytes(data_version) + spec_u32_to_le_bytes(header_len)
}

/// A whole file image: preamble, header, blob region.
pub open spec fn frame(data_version: u32, header: Seq<u8>, blobs: Seq<u8>) -> Seq<u8> {
    preamble(data_version, header.len() as u32) + header + blobs
}

/// The file image of `archive` with the serialized header `header`.
pub fn frame_bytes(archive: &Archive, header: &[u8]) -> (r: Vec<u8>)
    requires
        header@.len() <= u32::MAX,
    ensures
        r@ == frame(archive.data_version, header@, blob_region(items_view(archive.items@))),
{
    let mut out: Vec<u8> = Vec::new();
    out.push(MAGIC_P);
    out.push(MAGIC_I);
    out.push(MAGIC_O);
    out.push(FORMAT_VERSION);
    let dv = u32_to_le_bytes(archive.data_version);
    out.extend_from_slice(dv.as_slice());
    let hl = u32_to_le_bytes(header.len() as u32);
    out.extend_from_slice(hl.as_slice());
    out.extend_from_slice(header);
    let ghost fixed = out@;
    assert(fixed =~= preamble(archive.data_version, header@.len() as u32) + header@);
    let ghost items = items_view(archive.items@);
    assert(items.subrange(0, items.len() as int) =~= items);
    let mut i: usize = 0;
    while i < archive.items.len()
        invariant
            i <= archive.items@.len(),
            items == items_view(archive.items@),
            out@ + blob_region(items.subrange(i as int, items.len() as int)) == fixed + blob_region(items),
        decreases archive.items.len() - i,
    {
        let ghost rest = items.subrange(i as int, items.len() as int);
        assert(rest.drop_first() =~= items.subrange(i + 1, items.len() as int));
        assert(rest[0].1 == archive.items@[i as int].1@);
        out.extend_from_slice(archive.items[i].1.as_slice());
        assert(out@ + blob_region(items.subrange(i + 1, items.len() as int)) =~= fixed + blob_region(items));
        i = i + 1;
    }
    assert(blob_region(items.subrange(i as int, items.len() as int)) =~= Seq::<u8>::empty());
    assert(out@ =~= fixed + blob_region(items));
    out
}

/// Why a byte image is not an openable container.
#[derive(Debug, Clone, Copy, PartialEq, Eq, Structural)]
pub enum FrameFault {
    /// Fewer than the 4 magic bytes.
    NoMagic,
    /// The first three bytes are not `PIO`.
    BadMagic,
    /// The format-version byte is newer than this build reads.
    Newer(u8),
    /// The data version or header length is cut off.
    ShortPreamble,
    /// The header is cut off.
    ShortHeader,
}

/// Opening a byte image: data version, header bytes and blob region, or why
/// it fails.
pub open spec fn open_spec(bytes: Seq<u8>) -> Result<(u32, Seq<u8>, Seq<u8>), FrameFault> {
    if bytes.len() < 4 {
        Err(FrameFault::NoMagic)
    } else if !(bytes[0] == MAGIC_P && bytes[1] == MAGIC_I && bytes[2] == MAGIC_O) {
        Err(FrameFault::BadMagic)
    } else if bytes[3] > FORMAT_VERSION {
        Err(FrameFault::Newer(bytes[3]))
    } else if bytes.len() < 12 {
        Err(FrameFault::ShortPreamble)
    } else {
        let dv = spec_u32_from_le_bytes(bytes.subrange(4, 8));
        let hl = spec_u32_from_le_bytes(bytes.subrange(8, 12));
        if bytes.len() < 12 + hl {
            Err(FrameFault::ShortHeader)
        } else {
            Ok((dv, bytes.subrange(12, 12 + hl), bytes.subrange(12 + hl, bytes.len() as int)))
        }
    }
}

/// The message a refused image is reported with (for all but the short
/// preamble, which is an I/O error).
pub open spec fn frame_fault_message(f: FrameFault) -> Seq<char> {
    match f {
        FrameFault::NoMagic => "not a .pproj file (truncated header)"@,
        FrameFault::BadMagic => "not a .pproj file (bad magic)"@,
        FrameFault::Newer(v) => "unsupported .pproj format version "@ + decimal_spec(v as nat)
            + " (this build reads ≤ 1) — re-save with a newer writer"@,
        FrameFault::ShortPreamble => Seq::empty(),
        FrameFault::ShortHeader => ".pproj header truncated"@,
    }
}

/// The error a refused image is reported with.
pub open spec fn frame_error_matches(e: AlgoError, f: FrameFault) -> bool {
    match f {
        FrameFault::ShortPreamble => e is Io,
        _ => e matches AlgoError::Parse(m) && m@ == frame_fault_message(f),
    }
}

/// The parts of an opened image.
pub struct Frame {
    pub data_version: u32,
    /// The serialized JSON header.
    pub header: Vec<u8>,
    /// The blob region (everything after the header).
    pub blobs: Vec<u8>,
}

/// The bytes `s[from..to]` as a vector.
fn bytes_of(s: &[u8], from: usize, to: usize) -> (r: Vec<u8>)
    requires
        from <= to <= s@.len(),
    ensures
        r@ == s@.subrange(from as int, to as int),
{
    let mut out: Vec<u8> = Vec::new();
    let mut i = from;
    while i < to
        invariant
            from <= i <= to <= s@.len(),
            out@ == s@.subrange(from as int, i as int),
        decreases to - i,
    {
        out.push(s[i]);
        assert(out@ =~= s@.subrange(from as int, i + 1));
        i = i + 1;
    }
    out
}

/// Check an image's preamble and split it into data version, header bytes
/// and blob region.
pub fn open(bytes: &[u8]) -> (r: Result<Frame, AlgoError>)
    ensures
        match open_spec(bytes@) {
            Ok((dv, h, b)) => r matches Ok(f) && f.data_version == dv && f.header@ == h && f.blobs@ == b,
            Err(fault) => r matches Err(e) && frame_error_matches(e, fault),
        },
{
    let n = bytes.len();
    if n < 4 {
        return Err(AlgoError::Parse(String::from_str("not a .pproj file (truncated header)")));
    }
    if !(bytes[0] == MAGIC_P && bytes[1] == MAGIC_I && bytes[2] == MAGIC_O) {
        return Err(AlgoError::Parse(String::from_str("not a .pproj file (bad magic)")));
    }
    if bytes[3] > FORMAT_VERSION {
        let v = decimal(bytes[3] as u64);
        return Err(AlgoError::Parse(concat3(
            "unsupported .pproj format version ",
            v.as_str(),
            " (this build reads ≤ 1) — re-save with a newer writer",
        )));
    }
    if n < 12 {
        return Err(AlgoError::Io(unexpected_eof()));
    }
    let dvb = bytes_of(bytes, 4, 8);
    let data_version = u32_from_le_bytes(dvb.as_slice());
    let hlb = bytes_of(bytes, 8, 12);
    let header_len = u32_from_le_bytes(hlb.as_slice()) as usize;
    if n - 12 < header_len {
        return Err(AlgoError::Parse(String::from_str(".pproj header truncated")));
    }
    let header = bytes_of(bytes, 12, 12 + header_len);
    let blobs = bytes_of(bytes, 12 + header_len, n);
    Ok(Frame { data_version, header, blobs })
}

/// The first entry, at or after `i`, named `name`.
pub open spec fn find_named(es: Seq<EntryView>, name: Seq<char>, i: int) -> Option<int>
    decreases es.len() - i,
{
    if i < 0 || i >= es.len() {
        None
    } else if es[i].name == name {
        Some(i)
    } else {
        find_named(es, name, i + 1)
    }
}

pub proof fn lemma_find_named(es: Seq<EntryView>, name: Seq<char>, i: int)
    ensures
        find_named(es, name, i) matches Some(k) ==> (i <= k < es.len() && es[k].name == name),
    decreases es.len() - i,
{
    if 0 <= i < es.len() && es[i].name != name {
        lemma_find_named(es, name, i + 1);
    }
}

/// Why a section's blob could not be had.
#[derive(Debug, Clone, Copy, PartialEq, Eq, Structural)]
pub enum BlobFault {
    /// No entry has the name.
    Missing,
    /// The blob reaches past the end of the blob region.
    Truncated,
}

/// The compressed blob entry `e` points at: the `e.size` bytes of the blob
/// region from `e.offset`, when they lie inside it.
pub open spec fn entry_blob(e: EntryView, blobs: Seq<u8>) -> Result<Seq<u8>, BlobFault> {
    if e.offset + e.size <= blobs.len() {
        Ok(blobs.subrange(e.offset, e.offset + e.size))
    } else {
        Err(BlobFault::Truncated)
    }
}

/// The compressed blob of the first entry named `name`.
pub open spec fn raw_spec(es: Seq<EntryView>, blobs: Seq<u8>, name: Seq<char>) -> Result<Seq<u8>, BlobFault> {
    match find_named(es, name, 0) {
        None => Err(BlobFault::Missing),
        Some(i) => entry_blob(es[i], blobs),
    }
}

/// The error a missing or truncated blob is reported with.
pub open spec fn blob_error_matches(e: AlgoError, f: BlobFault, name: Seq<char>) -> bool {
    match f {
        BlobFault::Missing => e matches AlgoError::NotFound(m) && m@ == "section '"@ + name + "'"@,
        BlobFault::Truncated => e matches AlgoError::Parse(m) && m@ == "section '"@ + name + "' truncated"@,
    }
}

/// The section an entry and a decompressed payload make.
pub open spec fn section_of(e: EntryView, payload: Seq<u8>) -> SectionView {
    SectionView { kind: e.kind, name: e.name, tags: e.tags, version: e.version, payload }
}

/// An opened container: the parsed header over the blob region.
pub struct Reader {
    header: Header,
    data_version: u32,
    blobs: Vec<u8>,
}

impl Reader {
    /// The header entries, as views.
    pub closed spec fn index(&self) -> Seq<EntryView> {
        entries_view(self.header.sections@)
    }

    /// The header entries themselves.
    pub closed spec fn index_entries(&self) -> Seq<Entry> {
        self.header.sections@
    }

    /// The blob region.
    pub closed spec fn region(&self) -> Seq<u8> {
        self.blobs@
    }

    /// The data version.
    pub closed spec fn version_of(&self) -> u32 {
        self.data_version
    }

    /// The caller's metadata.
    pub closed spec fn app_of(&self) -> serde_json::Value {
        self.header.app
    }

    /// A reader over the blob region `blobs` of an image whose header is
    /// `header` and data version `data_version`.
    pub fn new(header: Header, data_version: u32, blobs: Vec<u8>) -> (r: Reader)
        ensures
            r.index() == entries_view(header.sections@),
            r.index_entries() == header.sections@,
            r.region() == blobs@,
            r.version_of() == data_version,
            r.app_of() == header.app,
    {
        Reader { header, data_version, blobs }
    }

    /// The caller's data version.
    pub fn data_version(&self) -> (r: u32)
        ensures
            r == self.version_of(),
    {
        self.data_version
    }

    /// The caller's opaque metadata.
    pub fn app(&self) -> (r: &serde_json::Value)
        ensures
            *r == self.app_of(),
    {
        &self.header.app
    }

    /// The header index: the contents without reading any blob.
    pub fn entries(&self) -> (r: &[Entry])
        ensures
            r@ == self.index_entries(),
            entries_view(r@) == self.index(),
    {
        self.header.sections.as_slice()
    }

    /// The position of the first entry named `name`.
    fn entry(&self, name: &str) -> (r: Option<usize>)
        ensures
            r matches Some(k) ==> find_named(self.index(), name@, 0) == Some(k as int)
                && k < self.index_entries().len() && self.index()[k as int] == self.index_entries()[k as int]@,
            r is None ==> find_named(self.index(), name@, 0) is None,
    {
        proof {
            lemma_find_named(self.index(), name@, 0);
        }
        let es = &self.header.sections;
        let mut i: usize = 0;
        while i < es.len()
            invariant
                i <= es@.len(),
                es@ == self.header.sections@,
                find_named(self.index(), name@, 0) == find_named(self.index(), name@, i as int),
            decreases es.len() - i,
        {
            assert(self.index()[i as int] == es@[i as int]@);
            let same = {
                let a = crate::text::chars_of(es[i].name.as_str());
                let b = crate::text::chars_of(name);
                crate::text::chars_eq(a.as_slice(), b.as_slice())
            };
            if same {
                return Some(i);
            }
            i = i + 1;
        }
        None
    }

    /// The raw compressed blob of the first section named `name`, verbatim.
    pub fn raw(&self, name: &str) -> (r: Result<Vec<u8>, AlgoError>)
        ensures
            match raw_spec(self.index(), self.region(), name@) {
                Ok(b) => r matches Ok(v) && v@ == b,
                Err(f) => r matches Err(e) && blob_error_matches(e, f, name@),
            },
    {
        let i = match self.entry(name) {
            Some(i) => i,
            None => return Err(AlgoError::NotFound(concat3("section '", name, "'"))),
        };
        let e = &self.header.sections[i];
        let n = self.blobs.len() as u64;
        proof {
            assert(self.index()[i as int] == e@);
            assert(self.region() == self.blobs@);
        }
        if e.offset > n || e.size > n - e.offset {
            return Err(AlgoError::Parse(concat3("section '", name, "' truncated")));
        }
        let start = e.offset as usize;
        let end = start + e.size as usize;
        Ok(bytes_of(self.blobs.as_slice(), start, end))
    }

    /// The raw compressed blob entry `e` points at in this reader's blob
    /// region, verbatim.
    pub(crate) fn blob_at(&self, e: &Entry) -> (r: Result<Vec<u8>, AlgoError>)
        ensures
            match entry_blob(e@, self.region()) {
                Ok(b) => r matches Ok(v) && v@ == b,
                Err(f) => r matches Err(err) && blob_error_matches(err, f, e@.name),
            },
    {
        let n = self.blobs.len() as u64;
        if e.offset > n || e.size > n - e.offset {
            return Err(AlgoError::Parse(concat3("section '", e.name.as_str(), "' truncated")));
        }
        let start = e.offset as usize;
        let end = start + e.size as usize;
        Ok(bytes_of(self.blobs.as_slice(), start, end))
    }

    /// Read and decompress the first section named `name` (a partial load).
    pub fn read(&self, name: &str) -> (r: Result<Section, AlgoError>)
        ensures
            match raw_spec(self.index(), self.region(), name@) {
                Ok(b) => match zstd_decoded(b) {
                    Some(p) => r matches Ok(s) && s@ == section_of(self.index()[find_named(self.index(), name@, 0)->0], p),
                    None => r matches Err(AlgoError::Parse(m)) && m@ == "section '"@ + name@ + "' corrupt"@,
                },
                Err(f) => r matches Err(e) && blob_error_matches(e, f, name@),
            },
    {
        let i = match self.entry(name) {
            Some(i) => i,
            None => return Err(AlgoError::NotFound(concat3("section '", name, "'"))),
        };
        let blob = match self.raw(name) {
            Ok(b) => b,
            Err(e) => return Err(e),
        };
        let payload = match zstd_decode(blob.as_slice()) {
            Ok(p) => p,
            Err(_) => return Err(AlgoError::Parse(concat3("section '", name, "' corrupt"))),
        };
        let e = &self.header.sections[i];
        Ok(Section {
            kind: e.kind.clone(),
            name: e.name.clone(),
            tags: clone_strings(&e.tags),
            version: e.version,
            payload,
        })
    }
}

/// The extension a temporary sibling of a file gets: the file's own
/// extension `current` (empty when it has none), a dot, and `ext`.
pub fn with_ext(current: &str, ext: &str) -> (r: String)
    ensures
        r@ == current@ + "."@ + ext@,
{
    concat3(current, ".", ext)
}

} // verus!
