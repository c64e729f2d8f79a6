//! The byte image of a well-formed archive built from member names and
//! contents, and the proof that opening it gives back exactly those members.
use crate::parser::{
    entries_map, member_bytes, member_fits, spec_entries, spec_names, spec_open, ArchiveFile,
    MAGIC, NOCRYPT,
};
use crate::wire::{le16, le32, utf8_text};
use vstd::prelude::*;

verus! {

/// `v` as two little-endian bytes.
pub open spec fn enc16(v: int) -> Seq<u8> {
    seq![(v % 256) as u8, ((v / 256) % 256) as u8]
}

/// `v` as four little-endian bytes.
pub open spec fn enc32(v: int) -> Seq<u8> {
    seq![(v % 256) as u8, ((v / 256) % 256) as u8, ((v / 65536) % 256) as u8, ((v / 16777216) % 256) as u8]
}

/// Total length of a list of byte strings.
pub open spec fn byte_total(s: Seq<Seq<u8>>) -> int
    decreases s.len(),
{
    if s.len() == 0 {
        0
    } else {
        s[0].len() + byte_total(s.drop_first())
    }
}

/// Total length of the first `j` byte strings.
pub open spec fn prefix_total(s: Seq<Seq<u8>>, j: int) -> int
    decreases j,
{
    if j <= 0 || s.len() == 0 {
        0
    } else {
        s[0].len() + prefix_total(s.drop_first(), j - 1)
    }
}

/// The name table for the names `nb`.
pub open spec fn name_table_image(nb: Seq<Seq<u8>>) -> Seq<u8>
    decreases nb.len(),
{
    if nb.len() == 0 {
        seq![]
    } else {
        enc16(nb[0].len() as int) + nb[0] + name_table_image(nb.drop_first())
    }
}

/// One file-table entry: no flags, the member's position as its index and
/// its name index, its size and where its bytes start.
pub open spec fn entry_image(i: int, size: int, start: int) -> Seq<u8> {
    enc16(0) + enc32(0) + enc32(i) + enc32(size) + enc32(start) + enc16(i)
}

/// The file table for members `i0..` with contents `cs`, laid out one
/// after another from `start`.
pub open spec fn file_table_image(cs: Seq<Seq<u8>>, i0: int, start: int) -> Seq<u8>
    decreases cs.len(),
{
    if cs.len() == 0 {
        seq![]
    } else {
        entry_image(i0, cs[0].len() as int, start) + file_table_image(
            cs.drop_first(),
            i0 + 1,
            start + cs[0].len(),
        )
    }
}

/// The members' contents, one after another.
pub open spec fn data_image(cs: Seq<Seq<u8>>) -> Seq<u8>
    decreases cs.len(),
{
    if cs.len() == 0 {
        seq![]
    } else {
        cs[0] + data_image(cs.drop_first())
    }
}

/// Where the contents start: after the header, the name table and the file table.
pub open spec fn data_start(nb: Seq<Seq<u8>>) -> int {
    24 + name_table_image(nb).len() as int + 20 * nb.len() as int
}

/// The header of an unencrypted archive of `n` members whose names take
/// `name_bytes` bytes and whose contents start at `data_offset`.
pub open spec fn header_image(data_offset: int, n: int, name_bytes: int) -> Seq<u8> {
    enc32(NOCRYPT as int) + enc32(MAGIC as int) + enc32(data_offset) + enc32(n) + enc32(n) + enc32(
        name_bytes,
    )
}

/// The whole archive with names `nb` and contents `cs`.
pub open spec fn archive_image(nb: Seq<Seq<u8>>, cs: Seq<Seq<u8>>) -> Seq<u8> {
    header_image(data_start(nb), nb.len() as int, byte_total(nb)) + name_table_image(nb)
        + file_table_image(cs, 0, data_start(nb)) + data_image(cs)
}

proof fn lemma_header_fields(d: Seq<u8>, ds: int, n: int, t: int)
    requires
        0 <= ds < 0x1_0000_0000,
        0 <= n < 0x1_0000_0000,
        0 <= t < 0x1_0000_0000,
        d.len() >= 24,
        d.subrange(0, 24) == header_image(ds, n, t),
    ensures
        le32(d, 0) == NOCRYPT,
        le32(d, 4) == MAGIC,
        le32(d, 12) == n,
        le32(d, 16) == n,
        le32(d, 20) == t,
{
    let h = header_image(ds, n, t);
    assert(d.subrange(0, 4) =~= h.subrange(0, 4));
    assert(h.subrange(0, 4) =~= enc32(NOCRYPT as int));
    lemma_le32_enc(d, 0, NOCRYPT as int);
    assert(d.subrange(4, 8) =~= h.subrange(4, 8));
    assert(h.subrange(4, 8) =~= enc32(MAGIC as int));
    lemma_le32_enc(d, 4, MAGIC as int);
    assert(d.subrange(12, 16) =~= h.subrange(12, 16));
    assert(h.subrange(12, 16) =~= enc32(n));
    lemma_le32_enc(d, 12, n);
    assert(d.subrange(16, 20) =~= h.subrange(16, 20));
    assert(h.subrange(16, 20) =~= enc32(n));
    lemma_le32_enc(d, 16, n);
    assert(d.subrange(20, 24) =~= h.subrange(20, 24));
    assert(h.subrange(20, 24) =~= enc32(t));
    lemma_le32_enc(d, 20, t);
}

proof fn lemma_entry_fields(d: Seq<u8>, p: int, i: int, size: int, st: int)
    requires
        0 <= i < 65536,
        0 <= size < 0x1_0000_0000,
        0 <= st < 0x1_0000_0000,
        0 <= p,
        p + 20 <= d.len(),
        d.subrange(p, p + 20) == entry_image(i, size, st),
    ensures
        le16(d, p) == 0,
        le32(d, p + 10) == size,
        le32(d, p + 14) == st,
        le16(d, p + 18) == i,
{
    let e = entry_image(i, size, st);
    assert(d.subrange(p, p + 2) =~= e.subrange(0, 2));
    assert(e.subrange(0, 2) =~= enc16(0));
    lemma_le16_enc(d, p, 0);
    assert(d.subrange(p + 10, p + 14) =~= e.subrange(10, 14));
    assert(e.subrange(10, 14) =~= enc32(size));
    lemma_le32_enc(d, p + 10, size);
    assert(d.subrange(p + 14, p + 18) =~= e.subrange(14, 18));
    assert(e.subrange(14, 18) =~= enc32(st));
    lemma_le32_enc(d, p + 14, st);
    assert(d.subrange(p + 18, p + 20) =~= e.subrange(18, 20));
    assert(e.subrange(18, 20) =~= enc16(i));
    lemma_le16_enc(d, p + 18, i);
}

proof fn lemma_le16_enc(d: Seq<u8>, p: int, v: int)
    requires
        0 <= v < 65536,
        0 <= p,
        p + 2 <= d.len(),
        d.subrange(p, p + 2) == enc16(v),
    ensures
        le16(d, p) == v,
{
    assert(d[p] == d.subrange(p, p + 2)[0]);
    assert(d[p + 1] == d.subrange(p, p + 2)[1]);
    assert((v % 256) + 256 * ((v / 256) % 256) == v) by (nonlinear_arith)
        requires
            0 <= v < 65536,
    ;
}

proof fn lemma_le32_enc(d: Seq<u8>, p: int, v: int)
    requires
        0 <= v < 0x1_0000_0000,
        0 <= p,
        p + 4 <= d.len(),
        d.subrange(p, p + 4) == enc32(v),
    ensures
        le32(d, p) == v,
{
    let s = d.subrange(p, p + 4);
    assert(d[p] == s[0]);
    assert(d[p + 1] == s[1]);
    assert(d[p + 2] == s[2]);
    assert(d[p + 3] == s[3]);
    assert((v % 256) + 256 * ((v / 256) % 256) + 65536 * ((v / 65536) % 256) + 16777216 * ((v
        / 16777216) % 256) == v) by (nonlinear_arith)
        requires
            0 <= v < 0x1_0000_0000,
    ;
}

proof fn lemma_totals(s: Seq<Seq<u8>>, j: int)
    requires
        0 <= j < s.len(),
    ensures
        byte_total(s) >= 0,
        prefix_total(s, j) >= 0,
        prefix_total(s, j) + s[j].len() <= byte_total(s),
        data_image(s).len() == byte_total(s),
    decreases j,
{
    lemma_total_nonneg(s);
    if j > 0 {
        lemma_totals(s.drop_first(), j - 1);
    } else {
        lemma_total_nonneg(s.drop_first());
    }
}

proof fn lemma_total_nonneg(s: Seq<Seq<u8>>)
    ensures
        byte_total(s) >= 0,
        data_image(s).len() == byte_total(s),
    decreases s.len(),
{
    if s.len() > 0 {
        lemma_total_nonneg(s.drop_first());
    }
}

proof fn lemma_table_lens(nb: Seq<Seq<u8>>, cs: Seq<Seq<u8>>, i0: int, st: int)
    ensures
        name_table_image(nb).len() == 2 * nb.len() + byte_total(nb),
        file_table_image(cs, i0, st).len() == 20 * cs.len(),
    decreases nb.len() + cs.len(),
{
    if nb.len() > 0 {
        lemma_table_lens(nb.drop_first(), cs, i0, st);
    }
    if cs.len() > 0 {
        lemma_table_lens(nb, cs.drop_first(), i0 + 1, st + cs[0].len());
    }
}

/// Reading the name table image gives back the decoded names.
proof fn lemma_names_image(
    pre: Seq<u8>,
    nb: Seq<Seq<u8>>,
    ns: Seq<Seq<char>>,
    suf: Seq<u8>,
    used: int,
    bound: int,
)
    requires
        nb.len() == ns.len(),
        forall|i: int| 0 <= i < nb.len() ==> utf8_text(#[trigger] nb[i]) == Some(ns[i]),
        forall|i: int| 0 <= i < nb.len() ==> (#[trigger] nb[i]).len() < 65536,
        used + byte_total(nb) <= bound,
    ensures
        spec_names(pre + name_table_image(nb) + suf, pre.len() as int, nb.len(), used, bound)
            == Ok::<(Seq<Seq<char>>, int), crate::parser::MegFileError>(
            (ns, pre.len() + name_table_image(nb).len() as int),
        ),
    decreases nb.len(),
{
    let d = pre + name_table_image(nb) + suf;
    let p = pre.len() as int;
    if nb.len() == 0 {
        assert(ns =~= seq![]);
    } else {
        let len = nb[0].len() as int;
        let rest = nb.drop_first();
        let pre2 = pre + enc16(len) + nb[0];
        assert(name_table_image(nb) == enc16(len) + nb[0] + name_table_image(rest));
        assert(d =~= pre2 + name_table_image(rest) + suf);
        assert(d.subrange(p, p + 2) =~= enc16(len));
        lemma_le16_enc(d, p, len);
        assert(d.subrange(p + 2, p + 2 + len) =~= nb[0]);
        lemma_total_nonneg(rest);
        assert forall|i: int| 0 <= i < rest.len() implies utf8_text(#[trigger] rest[i]) == Some(
            ns.drop_first()[i],
        ) by {
            assert(rest[i] == nb[i + 1]);
        }
        assert forall|i: int| 0 <= i < rest.len() implies (#[trigger] rest[i]).len() < 65536 by {
            assert(rest[i] == nb[i + 1]);
        }
        lemma_names_image(pre2, rest, ns.drop_first(), suf, used + len, bound);
        assert(seq![ns[0]] + ns.drop_first() =~= ns);
    }
}

/// The entries that the file table image stands for.
pub open spec fn image_entries(cs: Seq<Seq<u8>>, i0: int, st: int, names: Seq<Seq<char>>) -> Seq<
    (Seq<char>, ArchiveFile),
>
    decreases cs.len(),
{
    if cs.len() == 0 {
        seq![]
    } else {
        seq![(names[i0], ArchiveFile { size: cs[0].len() as u32, start: st as u32 })]
            + image_entries(cs.drop_first(), i0 + 1, st + cs[0].len(), names)
    }
}

/// Reading the file table image gives back its entries.
proof fn lemma_entries_image(
    pre: Seq<u8>,
    cs: Seq<Seq<u8>>,
    i0: int,
    st: int,
    names: Seq<Seq<char>>,
    suf: Seq<u8>,
)
    requires
        0 <= i0,
        i0 + cs.len() <= names.len(),
        i0 + cs.len() <= 65536,
        0 <= st,
        st + byte_total(cs) < 0x1_0000_0000,
    ensures
        spec_entries(pre + file_table_image(cs, i0, st) + suf, pre.len() as int, cs.len(), names)
            == Ok::<Seq<(Seq<char>, ArchiveFile)>, crate::parser::MegFileError>(
            image_entries(cs, i0, st, names),
        ),
    decreases cs.len(),
{
    if cs.len() > 0 {
        let d = pre + file_table_image(cs, i0, st) + suf;
        let p = pre.len() as int;
        let size = cs[0].len() as int;
        let rest = cs.drop_first();
        let e = entry_image(i0, size, st);
        let pre2 = pre + e;
        lemma_total_nonneg(rest);
        assert(file_table_image(cs, i0, st) == e + file_table_image(rest, i0 + 1, st + size));
        assert(d =~= pre2 + file_table_image(rest, i0 + 1, st + size) + suf);
        assert(e.len() == 20);
        assert(d.subrange(p, p + 20) =~= e);
        lemma_entry_fields(d, p, i0, size, st);
        lemma_entries_image(pre2, rest, i0 + 1, st + size, names, suf);
    }
}

proof fn lemma_image_entries_len(cs: Seq<Seq<u8>>, i0: int, st: int, names: Seq<Seq<char>>)
    ensures
        image_entries(cs, i0, st, names).len() == cs.len(),
    decreases cs.len(),
{
    if cs.len() > 0 {
        lemma_image_entries_len(cs.drop_first(), i0 + 1, st + cs[0].len(), names);
    }
}

proof fn lemma_image_entries_at(
    cs: Seq<Seq<u8>>,
    i0: int,
    st: int,
    names: Seq<Seq<char>>,
    j: int,
)
    requires
        0 <= j < cs.len(),
    ensures
        image_entries(cs, i0, st, names)[j] == (
            names[i0 + j],
            ArchiveFile { size: cs[j].len() as u32, start: (st + prefix_total(cs, j)) as u32 },
        ),
    decreases j,
{
    lemma_image_entries_len(cs, i0, st, names);
    if j > 0 {
        let rest = cs.drop_first();
        lemma_image_entries_len(rest, i0 + 1, st + cs[0].len(), names);
        lemma_image_entries_at(rest, i0 + 1, st + cs[0].len(), names, j - 1);
        assert(rest[j - 1] == cs[j]);
    }
}

proof fn lemma_entries_map_at(es: Seq<(Seq<char>, ArchiveFile)>)
    requires
        forall|i: int, j: int| 0 <= i < es.len() && 0 <= j < es.len() && i != j ==> es[i].0 != es[j].0,
    ensures
        forall|i: int|
            0 <= i < es.len() ==> entries_map(es).contains_key(#[trigger] es[i].0) && entries_map(
                es,
            )[es[i].0] == es[i].1,
        forall|k: Seq<char>|
            entries_map(es).contains_key(k) ==> exists|i: int| 0 <= i < es.len() && es[i].0 == k,
    decreases es.len(),
{
    if es.len() > 0 {
        let init = es.drop_last();
        lemma_entries_map_at(init);
        assert forall|i: int| 0 <= i < es.len() implies entries_map(es).contains_key(
            #[trigger] es[i].0,
        ) && entries_map(es)[es[i].0] == es[i].1 by {
            if i < es.len() - 1 {
                assert(init[i] == es[i]);
            }
        }
        assert forall|k: Seq<char>| entries_map(es).contains_key(k) implies exists|i: int|
            0 <= i < es.len() && es[i].0 == k by {
            if k != es.last().0 {
                assert(entries_map(init).contains_key(k));
                let i = choose|i: int| 0 <= i < init.len() && init[i].0 == k;
                assert(es[i] == init[i]);
            }
        }
    }
}

proof fn lemma_data_at(pre: Seq<u8>, cs: Seq<Seq<u8>>, suf: Seq<u8>, j: int)
    requires
        0 <= j < cs.len(),
    ensures
        (pre + data_image(cs) + suf).subrange(
            pre.len() + prefix_total(cs, j),
            pre.len() + prefix_total(cs, j) + cs[j].len(),
        ) == cs[j],
    decreases j,
{
    let d = pre + data_image(cs) + suf;
    let rest = cs.drop_first();
    let pre2 = pre + cs[0];
    assert(d =~= pre2 + data_image(rest) + suf);
    if j == 0 {
        assert(d.subrange(pre.len() as int, (pre.len() + cs[0].len()) as int) =~= cs[0]);
    } else {
        lemma_data_at(pre2, rest, suf, j - 1);
        assert(rest[j - 1] == cs[j]);
    }
}

proof fn lemma_open_image(nb: Seq<Seq<u8>>, ns: Seq<Seq<char>>, cs: Seq<Seq<u8>>)
    requires
        nb.len() == ns.len(),
        cs.len() == ns.len(),
        ns.len() <= 65536,
        forall|i: int| 0 <= i < nb.len() ==> utf8_text(#[trigger] nb[i]) == Some(ns[i]),
        forall|i: int| 0 <= i < nb.len() ==> (#[trigger] nb[i]).len() < 65536,
        archive_image(nb, cs).len() < 0x1_0000_0000,
    ensures
        archive_image(nb, cs).len() == data_start(nb) + byte_total(cs),
        spec_open(archive_image(nb, cs)) == Ok::<Map<Seq<char>, ArchiveFile>, crate::parser::MegFileError>(
            entries_map(image_entries(cs, 0, data_start(nb), ns)),
        ),
{
    let n = nb.len() as int;
    let ds = data_start(nb);
    let nti = name_table_image(nb);
    let fti = file_table_image(cs, 0, ds);
    let header = header_image(ds, n, byte_total(nb));
    let d = archive_image(nb, cs);
    lemma_table_lens(nb, cs, 0, ds);
    lemma_total_nonneg(nb);
    lemma_total_nonneg(cs);
    assert(d =~= header + nti + (fti + data_image(cs)));
    assert(header.len() == 24);
    assert(d.subrange(0, 24) =~= header);
    lemma_header_fields(d, ds, n, byte_total(nb));
    lemma_names_image(header, nb, ns, fti + data_image(cs), 0, byte_total(nb));
    assert(d =~= (header + nti) + fti + data_image(cs));
    lemma_entries_image(header + nti, cs, 0, ds, ns, data_image(cs));
}

proof fn lemma_member_image(nb: Seq<Seq<u8>>, cs: Seq<Seq<u8>>, i: int, f: ArchiveFile)
    requires
        0 <= i < cs.len(),
        archive_image(nb, cs).len() == data_start(nb) + byte_total(cs),
        archive_image(nb, cs).len() < 0x1_0000_0000,
        f == (ArchiveFile {
            size: cs[i].len() as u32,
            start: (data_start(nb) + prefix_total(cs, i)) as u32,
        }),
    ensures
        member_fits(archive_image(nb, cs).len() as int, f),
        member_bytes(archive_image(nb, cs), f) == cs[i],
{
    let ds = data_start(nb);
    let front = header_image(ds, nb.len() as int, byte_total(nb)) + name_table_image(nb)
        + file_table_image(cs, 0, ds);
    let d = archive_image(nb, cs);
    lemma_totals(cs, i);
    lemma_table_lens(nb, cs, 0, ds);
    assert(front.len() == ds);
    lemma_data_at(front, cs, seq![], i);
    assert(d =~= front + data_image(cs) + seq![]);
    if cs[i].len() == 0 {
        assert(cs[i] =~= seq![]);
    }
}

/// Opening the image of an archive built from distinct names `ns` (stored
/// as the UTF-8 bytes `nb`) and contents `cs` gives an index that holds
/// exactly those names, in which each name's record points at exactly its
/// contents.
pub proof fn lemma_round_trip(nb: Seq<Seq<u8>>, ns: Seq<Seq<char>>, cs: Seq<Seq<u8>>)
    requires
        nb.len() == ns.len(),
        cs.len() == ns.len(),
        ns.len() <= 65536,
        forall|i: int| 0 <= i < nb.len() ==> utf8_text(#[trigger] nb[i]) == Some(ns[i]),
        forall|i: int| 0 <= i < nb.len() ==> (#[trigger] nb[i]).len() < 65536,
        ns.no_duplicates(),
        archive_image(nb, cs).len() < 0x1_0000_0000,
    ensures
        spec_open(archive_image(nb, cs)) is Ok,
        forall|k: Seq<char>|
            spec_open(archive_image(nb, cs))->Ok_0.contains_key(k) <==> ns.contains(k),
        forall|i: int|
            0 <= i < ns.len() ==> member_fits(
                archive_image(nb, cs).len() as int,
                spec_open(archive_image(nb, cs))->Ok_0[#[trigger] ns[i]],
            ) && member_bytes(archive_image(nb, cs), spec_open(archive_image(nb, cs))->Ok_0[ns[i]])
                == cs[i],
{
    let ds = data_start(nb);
    lemma_open_image(nb, ns, cs);
    let es = image_entries(cs, 0, ds, ns);
    lemma_image_entries_len(cs, 0, ds, ns);
    assert forall|i: int| 0 <= i < es.len() implies #[trigger] es[i] == (
        ns[i],
        ArchiveFile { size: cs[i].len() as u32, start: (ds + prefix_total(cs, i)) as u32 },
    ) by {
        lemma_image_entries_at(cs, 0, ds, ns, i);
    }
    lemma_entries_map_at(es);
    let m = entries_map(es);
    assert forall|k: Seq<char>| m.contains_key(k) <==> ns.contains(k) by {
        if ns.contains(k) {
            let i = choose|i: int| 0 <= i < ns.len() && ns[i] == k;
            assert(es[i].0 == k);
        }
    }
    assert forall|i: int| 0 <= i < ns.len() implies member_fits(
        archive_image(nb, cs).len() as int,
        m[#[trigger] ns[i]],
    ) && member_bytes(archive_image(nb, cs), m[ns[i]]) == cs[i] by {
        assert(es[i].0 == ns[i]);
        lemma_member_image(nb, cs, i, m[ns[i]]);
    }
}

} // verus!
