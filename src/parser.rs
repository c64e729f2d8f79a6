//! The archive index: header checks, name table, file table, extraction.
use crate::wire::{bytes_between, decode_utf8, le16, le32, u16_at, u32_at, utf8_text};
use vstd::prelude::*;

verus! {

/// `flags` of an encrypted archive.
pub const ENCRYPTED: u32 = 0x8FFFFFFF;

/// `flags` of an archive that is not encrypted.
pub const NOCRYPT: u32 = 0xFFFFFFFF;

/// The format's magic number.
pub const MAGIC: u32 = 0x3F7D70A4;

/// Bit of a file-table entry's flags that marks the member as encrypted.
pub const FILECRYPT: u16 = 0x01;

/// Size of the fixed header: flags, magic, data offset, two counts, name-table size.
pub const HEADER_LEN: usize = 24;

/// Size of one file-table entry.
pub const ENTRY_LEN: usize = 20;

/// What went wrong while reading the source itself.
#[derive(Debug, Clone, Copy, PartialEq, Eq, Structural)]
pub enum IoFault {
    /// The source ended before a field or a member's bytes did.
    UnexpectedEof,
}

/// Why an archive could not be opened.
#[derive(Debug, Clone, Copy, PartialEq, Eq, Structural)]
pub enum MegFileError {
    IOError(IoFault),
    BadlyFormed,
    Encrypted,
}

/// Why a member could not be extracted.
#[derive(Debug)]
pub enum ExtractionError {
    IOError(IoFault),
    NoSuchFile(String),
}

/// Where a member's bytes lie in the source.
#[derive(Debug, Clone, Copy, PartialEq, Eq, Structural)]
pub struct ArchiveFile {
    pub size: u32,
    pub start: u32,
}

impl IoFault {
    /// A one-line description of the fault.
    pub fn message(&self) -> (r: String)
        ensures
            r@ == "failed to fill whole buffer"@,
    {
        proof {
            reveal_strlit("failed to fill whole buffer");
        }
        String::from_str("failed to fill whole buffer")
    }
}

impl MegFileError {
    /// A one-line description of the error.
    pub fn message(&self) -> (r: String)
        ensures
            match self {
                MegFileError::IOError(_) => r@ == "failed to fill whole buffer"@,
                MegFileError::BadlyFormed => r@ == "File is not a valid archive."@,
                MegFileError::Encrypted => r@ == "Archive is encrypted"@,
            },
    {
        match self {
            MegFileError::IOError(e) => e.message(),
            MegFileError::BadlyFormed => {
                proof {
                    reveal_strlit("File is not a valid archive.");
                }
                String::from_str("File is not a valid archive.")
            },
            MegFileError::Encrypted => {
                proof {
                    reveal_strlit("Archive is encrypted");
                }
                String::from_str("Archive is encrypted")
            },
        }
    }
}

impl ExtractionError {
    /// A one-line description of the error.
    pub fn message(&self) -> (r: String)
        ensures
            match self {
                ExtractionError::IOError(_) => r@ == "failed to fill whole buffer"@,
                ExtractionError::NoSuchFile(s) => r@ == "file "@ + s@ + " not present in archive"@,
            },
    {
        match self {
            ExtractionError::IOError(e) => e.message(),
            ExtractionError::NoSuchFile(s) => {
                proof {
                    reveal_strlit("file ");
                    reveal_strlit(" not present in archive");
                }
                let head = String::from_str("file ");
                let named = head.concat(s.as_str());
                named.concat(" not present in archive")
            },
        }
    }
}

/// The error for a source that ends before what is read from it.
pub open spec fn eof() -> MegFileError {
    MegFileError::IOError(IoFault::UnexpectedEof)
}

/// The header's checks, in the order they are made; on success the file
/// count and the name-table size bound.
pub open spec fn spec_header(d: Seq<u8>) -> Result<(nat, nat), MegFileError> {
    if d.len() < 8 {
        Err(eof())
    } else if le32(d, 0) == ENCRYPTED {
        Err(MegFileError::Encrypted)
    } else if le32(d, 0) != NOCRYPT || le32(d, 4) != MAGIC {
        Err(MegFileError::BadlyFormed)
    } else if d.len() < 20 {
        Err(eof())
    } else if le32(d, 12) != le32(d, 16) {
        Err(MegFileError::BadlyFormed)
    } else if d.len() < 24 {
        Err(eof())
    } else {
        Ok((le32(d, 12) as nat, le32(d, 20) as nat))
    }
}

/// The `n` names that start at `pos`, each a 16-bit length and that many
/// UTF-8 bytes, given that `used` name bytes came before and at most
/// `bound` may come in all; on success also where the table ends.
pub open spec fn spec_names(d: Seq<u8>, pos: int, n: nat, used: int, bound: int) -> Result<
    (Seq<Seq<char>>, int),
    MegFileError,
>
    decreases n,
{
    if n == 0 {
        Ok((seq![], pos))
    } else if pos < 0 || pos + 2 > d.len() {
        Err(eof())
    } else if pos + 2 + le16(d, pos) > d.len() {
        Err(eof())
    } else {
        let len = le16(d, pos);
        match utf8_text(d.subrange(pos + 2, pos + 2 + len)) {
            None => Err(MegFileError::BadlyFormed),
            Some(s) => if used + len > bound {
                Err(MegFileError::BadlyFormed)
            } else {
                match spec_names(d, pos + 2 + len, (n - 1) as nat, used + len, bound) {
                    Ok((rest, end)) => Ok((seq![s] + rest, end)),
                    Err(e) => Err(e),
                }
            },
        }
    }
}

/// One file-table entry at `pos`: its name and record.
pub open spec fn spec_entry(d: Seq<u8>, pos: int, names: Seq<Seq<char>>) -> Result<
    (Seq<char>, ArchiveFile),
    MegFileError,
> {
    if pos < 0 || pos + 2 > d.len() {
        Err(eof())
    } else if le16(d, pos) % 2 == 1 {
        Err(MegFileError::Encrypted)
    } else if pos + 20 > d.len() {
        Err(eof())
    } else if le16(d, pos + 18) >= names.len() {
        Err(MegFileError::BadlyFormed)
    } else {
        Ok(
            (
                names[le16(d, pos + 18)],
                ArchiveFile { size: le32(d, pos + 10) as u32, start: le32(d, pos + 14) as u32 },
            ),
        )
    }
}

/// The `n` file-table entries that start at `pos`, in order.
pub open spec fn spec_entries(d: Seq<u8>, pos: int, n: nat, names: Seq<Seq<char>>) -> Result<
    Seq<(Seq<char>, ArchiveFile)>,
    MegFileError,
>
    decreases n,
{
    if n == 0 {
        Ok(seq![])
    } else {
        match spec_entry(d, pos, names) {
            Err(e) => Err(e),
            Ok(en) => match spec_entries(d, pos + 20, (n - 1) as nat, names) {
                Ok(rest) => Ok(seq![en] + rest),
                Err(e) => Err(e),
            },
        }
    }
}

/// Entries as a map from name to record, a later entry replacing an earlier one.
pub open spec fn entries_map(es: Seq<(Seq<char>, ArchiveFile)>) -> Map<Seq<char>, ArchiveFile>
    decreases es.len(),
{
    if es.len() == 0 {
        Map::empty()
    } else {
        entries_map(es.drop_last()).insert(es.last().0, es.last().1)
    }
}

/// What opening the source `d` gives: the index, or the first error met.
pub open spec fn spec_open(d: Seq<u8>) -> Result<Map<Seq<char>, ArchiveFile>, MegFileError> {
    match spec_header(d) {
        Err(e) => Err(e),
        Ok((n, bound)) => match spec_names(d, 24, n, 0, bound as int) {
            Err(e) => Err(e),
            Ok((names, end)) => match spec_entries(d, end, n, names) {
                Err(e) => Err(e),
                Ok(es) => Ok(entries_map(es)),
            },
        },
    }
}

/// The text of each name.
pub open spec fn name_views(v: Seq<String>) -> Seq<Seq<char>> {
    v.map_values(|s: String| s@)
}

/// `r` with the names `pre` read before it put in front.
pub open spec fn after_names(
    pre: Seq<Seq<char>>,
    r: Result<(Seq<Seq<char>>, int), MegFileError>,
) -> Result<(Seq<Seq<char>>, int), MegFileError> {
    match r {
        Ok((rest, end)) => Ok((pre + rest, end)),
        Err(e) => Err(e),
    }
}

/// Reads the name table: `numfiles` names from `start` on, whose lengths
/// together may not pass `name_tab_size`. Gives also where the table ends.
fn build_name_tab(src: &Vec<u8>, start: usize, numfiles: u32, name_tab_size: u32) -> (r: Result<
    (Vec<String>, usize),
    MegFileError,
>)
    ensures
        match spec_names(src@, start as int, numfiles as nat, 0, name_tab_size as int) {
            Ok((names, end)) => r is Ok && name_views(r->Ok_0.0@) == names
                && r->Ok_0.1 as int == end,
            Err(e) => r == Err::<(Vec<String>, usize), MegFileError>(e),
        },
{
    let ghost d = src@;
    let ghost bound = name_tab_size as int;
    let total = src.len();
    let mut pos: usize = start;
    let mut cbytes: u64 = 0;
    let mut nametab: Vec<String> = Vec::new();
    let mut i: u32 = 0;
    while i < numfiles
        invariant
            src@ == d,
            bound == name_tab_size as int,
            d.len() <= usize::MAX,
            i <= numfiles,
            cbytes <= name_tab_size,
            spec_names(d, start as int, numfiles as nat, 0, bound) == after_names(
                name_views(nametab@),
                spec_names(d, pos as int, (numfiles - i) as nat, cbytes as int, bound),
            ),
        decreases numfiles - i,
    {
        let name_size = match u16_at(src, pos) {
            Some(v) => v,
            None => {
                return Err(MegFileError::IOError(IoFault::UnexpectedEof));
            },
        };
        let body = pos + 2;
        if src.len() - body < name_size as usize {
            return Err(MegFileError::IOError(IoFault::UnexpectedEof));
        }
        let end = body + name_size as usize;
        let raw = bytes_between(src, body, end);
        let name = match decode_utf8(raw) {
            Some(s) => s,
            None => {
                return Err(MegFileError::BadlyFormed);
            },
        };
        cbytes = cbytes + name_size as u64;
        if cbytes > name_tab_size as u64 {
            return Err(MegFileError::BadlyFormed);
        }
        let ghost before = name_views(nametab@);
        nametab.push(name);
        assert(name_views(nametab@) =~= before + seq![name@]);
        pos = end;
        i = i + 1;
        proof {
            match spec_names(d, pos as int, (numfiles - i) as nat, cbytes as int, bound) {
                Ok((rest, e)) => {
                    assert(before + (seq![name@] + rest) =~= (before + seq![name@]) + rest);
                },
                Err(_) => {},
            }
        }
    }
    assert(name_views(nametab@) + seq![] =~= name_views(nametab@));
    Ok((nametab, pos))
}

/// The map that parallel name and record sequences stand for: each name
/// to the record at its position.
pub open spec fn idx_map(nv: Seq<Seq<char>>, rs: Seq<ArchiveFile>) -> Map<Seq<char>, ArchiveFile> {
    Map::new(
        |k: Seq<char>| exists|i: int| 0 <= i < nv.len() && nv[i] == k,
        |k: Seq<char>| rs[choose|i: int| 0 <= i < nv.len() && nv[i] == k],
    )
}

/// With unique names, the map gives each name the record at its position.
pub proof fn lemma_idx_at(nv: Seq<Seq<char>>, rs: Seq<ArchiveFile>, i: int)
    requires
        nv.no_duplicates(),
        0 <= i < nv.len(),
    ensures
        idx_map(nv, rs).contains_key(nv[i]),
        idx_map(nv, rs)[nv[i]] == rs[i],
{
    assert(0 <= i < nv.len() && nv[i] == nv[i]);
    let j = choose|j: int| 0 <= j < nv.len() && nv[j] == nv[i];
    assert(j == i);
}

/// Replacing the record of a name present changes the map at that name only.
pub proof fn lemma_idx_update(nv: Seq<Seq<char>>, rs: Seq<ArchiveFile>, j: int, f: ArchiveFile)
    requires
        nv.no_duplicates(),
        nv.len() == rs.len(),
        0 <= j < nv.len(),
    ensures
        idx_map(nv, rs.update(j, f)) == idx_map(nv, rs).insert(nv[j], f),
{
    let a = idx_map(nv, rs.update(j, f));
    let b = idx_map(nv, rs).insert(nv[j], f);
    lemma_idx_at(nv, rs.update(j, f), j);
    assert forall|k: Seq<char>| a.contains_key(k) implies a[k] == b[k] by {
        let i = choose|i: int| 0 <= i < nv.len() && nv[i] == k;
        lemma_idx_at(nv, rs.update(j, f), i);
        lemma_idx_at(nv, rs, i);
    }
    assert(a =~= b);
}

/// Adding a name not present adds it to the map with its record.
pub proof fn lemma_idx_push(nv: Seq<Seq<char>>, rs: Seq<ArchiveFile>, k0: Seq<char>, f: ArchiveFile)
    requires
        nv.no_duplicates(),
        nv.len() == rs.len(),
        !nv.contains(k0),
    ensures
        nv.push(k0).no_duplicates(),
        idx_map(nv.push(k0), rs.push(f)) == idx_map(nv, rs).insert(k0, f),
{
    let nv2 = nv.push(k0);
    let rs2 = rs.push(f);
    assert forall|i: int, j: int|
        0 <= i < nv2.len() && 0 <= j < nv2.len() && i != j implies nv2[i] != nv2[j] by {
        if i == nv.len() {
            assert(nv[j] == nv2[j]);
        } else if j == nv.len() {
            assert(nv[i] == nv2[i]);
        }
    }
    let a = idx_map(nv2, rs2);
    let b = idx_map(nv, rs).insert(k0, f);
    lemma_idx_at(nv2, rs2, nv.len() as int);
    assert forall|k: Seq<char>| a.contains_key(k) implies b.contains_key(k) && a[k] == b[k] by {
        let i = choose|i: int| 0 <= i < nv2.len() && nv2[i] == k;
        lemma_idx_at(nv2, rs2, i);
        if i < nv.len() {
            lemma_idx_at(nv, rs, i);
        }
    }
    assert forall|k: Seq<char>| b.contains_key(k) implies a.contains_key(k) by {
        if k != k0 {
            let i = choose|i: int| 0 <= i < nv.len() && nv[i] == k;
            assert(0 <= i < nv2.len() && nv2[i] == k);
        }
    }
    assert(a =~= b);
}

/// Where `key` stands among `names`, if anywhere.
fn find_name(names: &Vec<String>, key: &String) -> (r: Option<usize>)
    ensures
        match r {
            Some(j) => j < names@.len() && names@[j as int]@ == key@,
            None => forall|t: int| 0 <= t < names@.len() ==> names@[t]@ != key@,
        },
{
    let mut j: usize = 0;
    while j < names.len()
        invariant
            j <= names@.len(),
            forall|t: int| 0 <= t < j ==> names@[t]@ != key@,
        decreases names@.len() - j,
    {
        if names[j] == *key {
            return Some(j);
        }
        j = j + 1;
    }
    None
}

/// `r` with the entries `pre` read before it put in front.
pub open spec fn after_entries(
    pre: Seq<(Seq<char>, ArchiveFile)>,
    r: Result<Seq<(Seq<char>, ArchiveFile)>, MegFileError>,
) -> Result<Seq<(Seq<char>, ArchiveFile)>, MegFileError> {
    match r {
        Ok(rest) => Ok(pre + rest),
        Err(e) => Err(e),
    }
}

/// Reads the file table: `numfiles` entries from `start` on, each naming a
/// member by its position in `name_tab`. Gives the names, without repeats,
/// and the record of each.
fn build_file_tab(src: &Vec<u8>, start: usize, numfiles: u32, name_tab: Vec<String>) -> (r: Result<
    (Vec<String>, Vec<ArchiveFile>),
    MegFileError,
>)
    ensures
        match spec_entries(src@, start as int, numfiles as nat, name_views(name_tab@)) {
            Ok(es) => r is Ok && r->Ok_0.0@.len() == r->Ok_0.1@.len() && name_views(
                r->Ok_0.0@,
            ).no_duplicates() && idx_map(name_views(r->Ok_0.0@), r->Ok_0.1@) == entries_map(es),
            Err(e) => r == Err::<(Vec<String>, Vec<ArchiveFile>), MegFileError>(e),
        },
{
    let ghost d = src@;
    let ghost nt = name_views(name_tab@);
    let ghost mut acc: Seq<(Seq<char>, ArchiveFile)> = seq![];
    let total = src.len();
    let mut names: Vec<String> = Vec::new();
    let mut records: Vec<ArchiveFile> = Vec::new();
    let mut pos: usize = start;
    let mut i: u32 = 0;
    while i < numfiles
        invariant
            src@ == d,
            nt == name_views(name_tab@),
            d.len() <= usize::MAX,
            i <= numfiles,
            names@.len() == records@.len(),
            name_views(names@).no_duplicates(),
            idx_map(name_views(names@), records@) == entries_map(acc),
            spec_entries(d, start as int, numfiles as nat, nt) == after_entries(
                acc,
                spec_entries(d, pos as int, (numfiles - i) as nat, nt),
            ),
        decreases numfiles - i,
    {
        let flags = match u16_at(src, pos) {
            Some(v) => v,
            None => {
                return Err(MegFileError::IOError(IoFault::UnexpectedEof));
            },
        };
        assert(flags & FILECRYPT != 0 <==> flags % 2 == 1) by (bit_vector);
        if flags & FILECRYPT != 0 {
            return Err(MegFileError::Encrypted);
        }
        if src.len() - pos < ENTRY_LEN {
            return Err(MegFileError::IOError(IoFault::UnexpectedEof));
        }
        let size = match u32_at(src, pos + 10) {
            Some(v) => v,
            None => {
                return Err(MegFileError::IOError(IoFault::UnexpectedEof));
            },
        };
        let first = match u32_at(src, pos + 14) {
            Some(v) => v,
            None => {
                return Err(MegFileError::IOError(IoFault::UnexpectedEof));
            },
        };
        let nameidx = match u16_at(src, pos + 18) {
            Some(v) => v,
            None => {
                return Err(MegFileError::IOError(IoFault::UnexpectedEof));
            },
        };
        if nameidx as usize >= name_tab.len() {
            return Err(MegFileError::BadlyFormed);
        }
        let name = name_tab[nameidx as usize].clone();
        let rec = ArchiveFile { size, start: first };
        let ghost en = (name@, rec);
        assert(spec_entry(d, pos as int, nt) == Ok::<(Seq<char>, ArchiveFile), MegFileError>(en));
        proof {
            assert((acc.push(en)).drop_last() =~= acc);
        }
        match find_name(&names, &name) {
            Some(j) => {
                proof {
                    lemma_idx_update(name_views(names@), records@, j as int, rec);
                }
                records.set(j, rec);
            },
            None => {
                proof {
                    assert(!name_views(names@).contains(name@));
                    lemma_idx_push(name_views(names@), records@, name@, rec);
                    assert(name_views(names@.push(name)) =~= name_views(names@).push(name@));
                }
                names.push(name);
                records.push(rec);
            },
        }
        proof {
            match spec_entries(d, pos + 20, (numfiles - i - 1) as nat, nt) {
                Ok(rest) => {
                    assert(acc + (seq![en] + rest) =~= acc.push(en) + rest);
                },
                Err(_) => {},
            }
            acc = acc.push(en);
        }
        pos = pos + ENTRY_LEN;
        i = i + 1;
    }
    assert(acc + seq![] =~= acc);
    Ok((names, records))
}

/// Whether a member's bytes lie within a source of `len` bytes; an empty
/// member always does.
pub open spec fn member_fits(len: int, f: ArchiveFile) -> bool {
    f.size == 0 || f.start + f.size <= len
}

/// The bytes of a member that fits.
pub open spec fn member_bytes(src: Seq<u8>, f: ArchiveFile) -> Seq<u8> {
    if f.size == 0 {
        seq![]
    } else {
        src.subrange(f.start as int, f.start + f.size)
    }
}

/// An opened archive: each member's name with its record, and the source
/// that the records point into.
pub struct MegFile {
    names: Vec<String>,
    records: Vec<ArchiveFile>,
    source: Vec<u8>,
}

impl MegFile {
    /// Member name to record.
    pub closed spec fn index(&self) -> Map<Seq<char>, ArchiveFile> {
        idx_map(name_views(self.names@), self.records@)
    }

    /// The bytes of the source.
    pub closed spec fn source_bytes(&self) -> Seq<u8> {
        self.source@
    }

    /// Names and records pair up, and no name comes twice.
    pub closed spec fn wf(&self) -> bool {
        &&& self.names@.len() == self.records@.len()
        &&& name_views(self.names@).no_duplicates()
    }

    /// Opens the archive held in `src`: checks the header, reads the name
    /// table and the file table, and keeps `src` for extraction.
    pub fn new(src: Vec<u8>) -> (r: Result<Self, MegFileError>)
        ensures
            match spec_open(src@) {
                Ok(m) => r is Ok && r->Ok_0.wf() && r->Ok_0.index() == m
                    && r->Ok_0.source_bytes() == src@,
                Err(e) => r == Err::<MegFile, MegFileError>(e),
            },
    {
        let flags = match u32_at(&src, 0) {
            Some(v) => v,
            None => {
                return Err(MegFileError::IOError(IoFault::UnexpectedEof));
            },
        };
        let magic = match u32_at(&src, 4) {
            Some(v) => v,
            None => {
                return Err(MegFileError::IOError(IoFault::UnexpectedEof));
            },
        };
        if flags == ENCRYPTED {
            return Err(MegFileError::Encrypted);
        } else if flags != NOCRYPT || magic != MAGIC {
            return Err(MegFileError::BadlyFormed);
        }
        let numfiles = match u32_at(&src, 12) {
            Some(v) => v,
            None => {
                return Err(MegFileError::IOError(IoFault::UnexpectedEof));
            },
        };
        let numfiles2 = match u32_at(&src, 16) {
            Some(v) => v,
            None => {
                return Err(MegFileError::IOError(IoFault::UnexpectedEof));
            },
        };
        if numfiles != numfiles2 {
            return Err(MegFileError::BadlyFormed);
        }
        let name_tab_size = match u32_at(&src, 20) {
            Some(v) => v,
            None => {
                return Err(MegFileError::IOError(IoFault::UnexpectedEof));
            },
        };
        let (name_tab, end) = match build_name_tab(&src, HEADER_LEN, numfiles, name_tab_size) {
            Ok(t) => t,
            Err(e) => {
                return Err(e);
            },
        };
        let (names, records) = match build_file_tab(&src, end, numfiles, name_tab) {
            Ok(t) => t,
            Err(e) => {
                return Err(e);
            },
        };
        Ok(MegFile { names, records, source: src })
    }

    /// The names of the members, each once, in no promised order.
    pub fn filenames(&self) -> (r: Vec<String>)
        requires
            self.wf(),
        ensures
            name_views(r@).no_duplicates(),
            name_views(r@).to_set() == self.index().dom(),
    {
        let mut r: Vec<String> = Vec::new();
        let mut i: usize = 0;
        while i < self.names.len()
            invariant
                i <= self.names@.len(),
                r@ == self.names@.subrange(0, i as int),
            decreases self.names@.len() - i,
        {
            r.push(self.names[i].clone());
            i = i + 1;
            assert(r@ =~= self.names@.subrange(0, i as int));
        }
        assert(r@ =~= self.names@);
        proof {
            let nv = name_views(self.names@);
            assert forall|k: Seq<char>| nv.to_set().contains(k) implies self.index().contains_key(
                k,
            ) by {
                let j = choose|j: int| 0 <= j < nv.len() && nv[j] == k;
                lemma_idx_at(nv, self.records@, j);
            }
            assert(nv.to_set() =~= self.index().dom());
        }
        r
    }

    /// Appends the bytes of the member `filename` to `dest`. Fails, leaving
    /// `dest` as it was, where no member has that name or where the
    /// member's bytes run past the end of the source.
    pub fn extract(&mut self, filename: &str, dest: &mut Vec<u8>) -> (r: Result<(), ExtractionError>)
        requires
            old(self).wf(),
        ensures
            *final(self) == *old(self),
            !old(self).index().contains_key(filename@) ==> (r matches Err(
                ExtractionError::NoSuchFile(name),
            ) && name@ == filename@ && final(dest)@ == old(dest)@),
            old(self).index().contains_key(filename@) && old(self).index()[filename@].size == 0
                ==> r is Ok && final(dest)@ == old(dest)@,
            match r {
                Ok(()) => old(self).index().contains_key(filename@) && member_fits(
                    old(self).source_bytes().len() as int,
                    old(self).index()[filename@],
                ) && final(dest)@ == old(dest)@ + member_bytes(
                    old(self).source_bytes(),
                    old(self).index()[filename@],
                ),
                Err(ExtractionError::NoSuchFile(name)) => !old(self).index().contains_key(
                    filename@,
                ) && name@ == filename@ && final(dest)@ == old(dest)@,
                Err(ExtractionError::IOError(fault)) => old(self).index().contains_key(filename@)
                    && !member_fits(
                    old(self).source_bytes().len() as int,
                    old(self).index()[filename@],
                ) && fault == IoFault::UnexpectedEof && final(dest)@ == old(dest)@,
            },
    {
        let key = filename.to_owned();
        let j = match find_name(&self.names, &key) {
            Some(j) => j,
            None => {
                proof {
                    let nv = name_views(self.names@);
                    if self.index().contains_key(filename@) {
                        let t = choose|t: int| 0 <= t < nv.len() && nv[t] == filename@;
                        assert(self.names@[t]@ != key@);
                    }
                }
                return Err(ExtractionError::NoSuchFile(key));
            },
        };
        proof {
            lemma_idx_at(name_views(self.names@), self.records@, j as int);
        }
        let file = self.records[j];
        if file.size == 0 {
            assert(old(dest)@ + seq![] =~= old(dest)@);
            return Ok(());
        }
        let first = file.start as usize;
        if first > self.source.len() || self.source.len() - first < file.size as usize {
            return Err(ExtractionError::IOError(IoFault::UnexpectedEof));
        }
        let last = first + file.size as usize;
        let mut i: usize = first;
        while i < last
            invariant
                *self == *old(self),
                first <= i <= last <= self.source@.len(),
                dest@ == old(dest)@ + self.source@.subrange(first as int, i as int),
            decreases last - i,
        {
            dest.push(self.source[i]);
            i = i + 1;
            assert(dest@ =~= old(dest)@ + self.source@.subrange(first as int, i as int));
        }
        Ok(())
    }
}

} // verus!
