//! Facts about which archives `MegFile::new` refuses, and why.
use crate::parser::{
    spec_entries, spec_entry, spec_header, spec_names, spec_open, MegFileError, ENCRYPTED, MAGIC,
    NOCRYPT,
};
use crate::wire::{le16, le32};
use vstd::prelude::*;

verus! {

/// A source whose flags say it is encrypted is refused as encrypted.
pub proof fn lemma_encrypted_flags_refused(d: Seq<u8>)
    requires
        d.len() >= 8,
        le32(d, 0) == ENCRYPTED,
    ensures
        spec_open(d) == Err::<Map<Seq<char>, crate::parser::ArchiveFile>, MegFileError>(
            MegFileError::Encrypted,
        ),
{
}

/// A source whose flags are not the encrypted sentinel and whose magic
/// number is wrong is refused as badly formed.
pub proof fn lemma_bad_magic_refused(d: Seq<u8>)
    requires
        d.len() >= 8,
        le32(d, 0) != ENCRYPTED,
        le32(d, 4) != MAGIC,
    ensures
        spec_open(d) == Err::<Map<Seq<char>, crate::parser::ArchiveFile>, MegFileError>(
            MegFileError::BadlyFormed,
        ),
{
}

/// An archive whose two file counts differ is refused as badly formed.
pub proof fn lemma_count_mismatch_refused(d: Seq<u8>)
    requires
        d.len() >= 20,
        le32(d, 0) == NOCRYPT,
        le32(d, 4) == MAGIC,
        le32(d, 12) != le32(d, 16),
    ensures
        spec_open(d) == Err::<Map<Seq<char>, crate::parser::ArchiveFile>, MegFileError>(
            MegFileError::BadlyFormed,
        ),
{
}

/// The sum of the declared lengths of the `n` names from `pos` on.
pub open spec fn names_total(d: Seq<u8>, pos: int, n: nat) -> int
    decreases n,
{
    if n == 0 {
        0
    } else {
        le16(d, pos) + names_total(d, pos + 2 + le16(d, pos), (n - 1) as nat)
    }
}

proof fn lemma_names_over_bound(d: Seq<u8>, pos: int, n: nat, used: int, bound: int)
    requires
        spec_names(d, pos, n, used, used + names_total(d, pos, n)) is Ok,
        used + names_total(d, pos, n) > bound,
        used <= bound,
    ensures
        spec_names(d, pos, n, used, bound) == Err::<(Seq<Seq<char>>, int), MegFileError>(
            MegFileError::BadlyFormed,
        ),
    decreases n,
{
    let len = le16(d, pos);
    if used + len <= bound {
        let next = pos + 2 + len;
        assert(used + len + names_total(d, next, (n - 1) as nat) == used + names_total(d, pos, n));
        lemma_names_over_bound(d, next, (n - 1) as nat, used + len, bound);
    }
}

/// An archive whose names all decode, but whose name lengths add up to
/// more than the header's name-table size, is refused as badly formed.
pub proof fn lemma_name_table_overflow_refused(d: Seq<u8>)
    requires
        spec_header(d) is Ok,
        spec_names(
            d,
            24,
            spec_header(d)->Ok_0.0,
            0,
            names_total(d, 24, spec_header(d)->Ok_0.0),
        ) is Ok,
        names_total(d, 24, spec_header(d)->Ok_0.0) > spec_header(d)->Ok_0.1,
    ensures
        spec_open(d) == Err::<Map<Seq<char>, crate::parser::ArchiveFile>, MegFileError>(
            MegFileError::BadlyFormed,
        ),
{
    let (n, bound) = spec_header(d)->Ok_0;
    lemma_names_over_bound(d, 24, n, 0, bound as int);
}

proof fn lemma_entries_hit_encrypted(
    d: Seq<u8>,
    pos: int,
    k: nat,
    m: nat,
    names: Seq<Seq<char>>,
)
    requires
        k < m,
        pos >= 0,
        spec_entries(d, pos, k, names) is Ok,
        d.len() >= pos + 20 * k + 2,
        le16(d, pos + 20 * k) % 2 == 1,
    ensures
        spec_entries(d, pos, m, names) == Err::<Seq<(Seq<char>, crate::parser::ArchiveFile)>, MegFileError>(
            MegFileError::Encrypted,
        ),
    decreases k,
{
    if k > 0 {
        assert(spec_entry(d, pos, names) is Ok);
        assert(pos + 20 + 20 * (k - 1) == pos + 20 * k);
        lemma_entries_hit_encrypted(d, pos + 20, (k - 1) as nat, (m - 1) as nat, names);
    }
}

/// An archive whose header and name table are sound, whose first `k`
/// file-table entries are sound, and whose entry `k` carries the
/// encryption bit, is refused as encrypted, whatever follows.
pub proof fn lemma_encrypted_member_refused(d: Seq<u8>, k: nat)
    requires
        spec_header(d) is Ok,
        k < spec_header(d)->Ok_0.0,
        spec_names(d, 24, spec_header(d)->Ok_0.0, 0, spec_header(d)->Ok_0.1 as int) is Ok,
        spec_entries(
            d,
            spec_names(d, 24, spec_header(d)->Ok_0.0, 0, spec_header(d)->Ok_0.1 as int)->Ok_0.1,
            k,
            spec_names(d, 24, spec_header(d)->Ok_0.0, 0, spec_header(d)->Ok_0.1 as int)->Ok_0.0,
        ) is Ok,
        d.len() >= spec_names(d, 24, spec_header(d)->Ok_0.0, 0, spec_header(d)->Ok_0.1 as int)->Ok_0.1
            + 20 * k + 2,
        le16(
            d,
            spec_names(d, 24, spec_header(d)->Ok_0.0, 0, spec_header(d)->Ok_0.1 as int)->Ok_0.1
                + 20 * k,
        ) % 2 == 1,
    ensures
        spec_open(d) == Err::<Map<Seq<char>, crate::parser::ArchiveFile>, MegFileError>(
            MegFileError::Encrypted,
        ),
{
    let (n, bound) = spec_header(d)->Ok_0;
    let (names, end) = spec_names(d, 24, n, 0, bound as int)->Ok_0;
    lemma_names_end_after(d, 24, n, 0, bound as int);
    lemma_entries_hit_encrypted(d, end, k, n, names);
}

proof fn lemma_names_end_after(d: Seq<u8>, pos: int, n: nat, used: int, bound: int)
    requires
        pos >= 0,
        spec_names(d, pos, n, used, bound) is Ok,
    ensures
        spec_names(d, pos, n, used, bound)->Ok_0.1 >= pos,
    decreases n,
{
    if n > 0 {
        let len = le16(d, pos);
        lemma_names_end_after(d, pos + 2 + len, (n - 1) as nat, used + len, bound);
    }
}

} // verus!
