//! What the container promises across its operations: an image opens back
//! into what was framed, a laid-out blob is read back byte for byte, a written
//! section reads back as itself, and a merge keeps one item per section with
//! the last writer winning.

use vstd::prelude::*;
use vstd::bytes::{spec_u32_from_le_bytes, spec_u32_to_le_bytes, lemma_auto_spec_u32_to_from_le_bytes};
use crate::container::codec::{zstd_decoded, zstd_encoded};
use crate::container::format::{
    blob_region, find_named, frame, open_spec, placed, raw_spec, section_of, EntryView, SectionView, ZSTD_LEVEL,
};
use crate::container::ops::{compressed, merged, same_key, with_blobs, without_key};

verus! {

/// Opening the image framed from a data version, a header and a blob region
/// gives back exactly those three.
pub proof fn law_open_after_frame(data_version: u32, header: Seq<u8>, blobs: Seq<u8>)
    requires
        header.len() <= u32::MAX,
    ensures
        open_spec(frame(data_version, header, blobs)) == Ok::<(u32, Seq<u8>, Seq<u8>), crate::container::format::FrameFault>((data_version, header, blobs)),
{
    lemma_auto_spec_u32_to_from_le_bytes();
    let img = frame(data_version, header, blobs);
    let hl = header.len() as u32;
    assert(spec_u32_to_le_bytes(data_version).len() == 4);
    assert(spec_u32_to_le_bytes(hl).len() == 4);
    assert(img.subrange(4, 8) =~= spec_u32_to_le_bytes(data_version));
    assert(img.subrange(8, 12) =~= spec_u32_to_le_bytes(hl));
    assert(spec_u32_from_le_bytes(img.subrange(8, 12)) == hl);
    assert(img.subrange(12, 12 + header.len() as int) =~= header);
    assert(img.subrange(12 + header.len() as int, img.len() as int) =~= blobs);
}

/// The names of items.
pub open spec fn item_entries(items: Seq<(EntryView, Seq<u8>)>) -> Seq<EntryView> {
    items.map_values(|it: (EntryView, Seq<u8>)| it.0)
}

proof fn lemma_placed_layout(items: Seq<(EntryView, Seq<u8>)>, base: int)
    ensures
        placed(items, base).len() == items.len(),
        blob_region(placed(items, base)) == blob_region(items),
        forall|i: int| 0 <= i < items.len() ==> {
            &&& (#[trigger] placed(items, base)[i]).1 == items[i].1
            &&& placed(items, base)[i].0.offset == base + blob_region(items.subrange(0, i)).len()
            &&& placed(items, base)[i].0.size == items[i].1.len()
            &&& placed(items, base)[i].0.name == items[i].0.name
            &&& placed(items, base)[i].0.kind == items[i].0.kind
            &&& placed(items, base)[i].0.tags == items[i].0.tags
            &&& placed(items, base)[i].0.version == items[i].0.version
        },
    decreases items.len(),
{
    if items.len() > 0 {
        let rest = items.drop_first();
        let b0 = items[0].1;
        lemma_placed_layout(rest, base + b0.len());
        let p = placed(items, base);
        assert(p.drop_first() =~= placed(rest, base + b0.len()));
        assert(blob_region(p) == p[0].1 + blob_region(p.drop_first()));
        assert forall|i: int| 0 <= i < items.len() implies {
            &&& (#[trigger] placed(items, base)[i]).1 == items[i].1
            &&& placed(items, base)[i].0.offset == base + blob_region(items.subrange(0, i)).len()
            &&& placed(items, base)[i].0.size == items[i].1.len()
            &&& placed(items, base)[i].0.name == items[i].0.name
            &&& placed(items, base)[i].0.kind == items[i].0.kind
            &&& placed(items, base)[i].0.tags == items[i].0.tags
            &&& placed(items, base)[i].0.version == items[i].0.version
        } by {
            if i > 0 {
                assert(placed(items, base)[i] == placed(rest, base + b0.len())[i - 1]);
                assert(rest[i - 1] == items[i]);
                assert(items.subrange(0, i).drop_first() =~= rest.subrange(0, i - 1));
                assert(blob_region(items.subrange(0, i)) == b0 + blob_region(rest.subrange(0, i - 1)));
            } else {
                assert(items.subrange(0, 0) =~= Seq::<(EntryView, Seq<u8>)>::empty());
            }
        }
    }
}

proof fn lemma_region_split(items: Seq<(EntryView, Seq<u8>)>, i: int)
    requires
        0 <= i < items.len(),
    ensures
        blob_region(items) == blob_region(items.subrange(0, i)) + items[i].1
            + blob_region(items.subrange(i + 1, items.len() as int)),
    decreases i,
{
    if i == 0 {
        assert(items.subrange(0, 0) =~= Seq::<(EntryView, Seq<u8>)>::empty());
        assert(items.subrange(1, items.len() as int) =~= items.drop_first());
        assert(blob_region(items.subrange(0, 0)) =~= Seq::<u8>::empty());
        assert(blob_region(items) =~= Seq::<u8>::empty() + items[0].1 + blob_region(items.drop_first()));
    } else {
        let rest = items.drop_first();
        lemma_region_split(rest, i - 1);
        assert(rest.subrange(0, i - 1) =~= items.subrange(0, i).drop_first());
        assert(rest.subrange(i, rest.len() as int) =~= items.subrange(i + 1, items.len() as int));
        assert(rest[i - 1] == items[i]);
        assert(blob_region(items.subrange(0, i)) == items[0].1 + blob_region(items.subrange(0, i).drop_first()));
        assert(blob_region(items) =~= blob_region(items.subrange(0, i)) + items[i].1
            + blob_region(items.subrange(i + 1, items.len() as int)));
    }
}

proof fn lemma_find_named_at(es: Seq<EntryView>, name: Seq<char>, i: int, k: int)
    requires
        0 <= k <= i < es.len(),
        es[i].name == name,
        forall|j: int| 0 <= j < i ==> es[j].name != name,
    ensures
        find_named(es, name, k) == Some(i),
    decreases i - k,
{
    if k < i {
        lemma_find_named_at(es, name, i, k + 1);
    }
}

/// Laid out from 0, the blob region gives back each item's blob byte for
/// byte: reading the first item named `n` by its name yields its blob.
pub proof fn law_read_placed_blob(items: Seq<(EntryView, Seq<u8>)>, i: int)
    requires
        0 <= i < items.len(),
        forall|j: int| 0 <= j < i ==> items[j].0.name != items[i].0.name,
    ensures
        raw_spec(item_entries(placed(items, 0)), blob_region(placed(items, 0)), items[i].0.name)
            == Ok::<Seq<u8>, crate::container::format::BlobFault>(items[i].1),
        find_named(item_entries(placed(items, 0)), items[i].0.name, 0) == Some(i),
{
    lemma_placed_layout(items, 0);
    let es = item_entries(placed(items, 0));
    lemma_find_named_at(es, items[i].0.name, i, 0);
    lemma_region_split(items, i);
    let off = blob_region(items.subrange(0, i)).len() as int;
    assert(es[i].offset == off);
    assert(es[i].size == items[i].1.len());
    assert(blob_region(items).subrange(off, off + items[i].1.len()) =~= items[i].1);
}

/// A section written with [`crate::container::write`] reads back as itself.
/// `items` are the laid-out items of a successful write of `secs` (as its
/// contract states them); a reader over their entries and blob region finds
/// the first section named `n` under its own metadata, and its blob
/// decompresses to its payload: the `Ok` case of `Reader::read`.
pub proof fn law_read_after_write(secs: Seq<SectionView>, items: Seq<(EntryView, Seq<u8>)>, i: int)
    requires
        items == placed(compressed(secs), 0),
        forall|k: int| 0 <= k < secs.len() ==> zstd_decoded(#[trigger] items[k].1) == Some(secs[k].payload),
        0 <= i < secs.len(),
        forall|j: int| 0 <= j < i ==> secs[j].name != secs[i].name,
    ensures
        raw_spec(item_entries(items), blob_region(items), secs[i].name)
            == Ok::<Seq<u8>, crate::container::format::BlobFault>(zstd_encoded(secs[i].payload, ZSTD_LEVEL)),
        find_named(item_entries(items), secs[i].name, 0) == Some(i),
        zstd_decoded(zstd_encoded(secs[i].payload, ZSTD_LEVEL)) == Some(secs[i].payload),
        section_of(item_entries(items)[i], secs[i].payload) == secs[i],
{
    let c = compressed(secs);
    assert forall|j: int| 0 <= j < i implies c[j].0.name != c[i].0.name by {}
    law_read_placed_blob(c, i);
    lemma_placed_layout(c, 0);
    assert(items[i].1 == c[i].1);
}

/// No two items share a section key.
pub open spec fn keys_unique(items: Seq<(EntryView, Seq<u8>)>) -> bool {
    forall|i: int, j: int| 0 <= i < j < items.len() ==> !same_key(#[trigger] items[i].0, #[trigger] items[j].0)
}

proof fn lemma_without_key(s: Seq<(EntryView, Seq<u8>)>, e: EntryView)
    ensures
        forall|x: (EntryView, Seq<u8>)| #[trigger] without_key(s, e).contains(x) <==> (s.contains(x) && !same_key(x.0, e)),
        keys_unique(s) ==> keys_unique(without_key(s, e)),
    decreases s.len(),
{
    if s.len() > 0 {
        let rest = s.drop_first();
        lemma_without_key(rest, e);
        let w = without_key(s, e);
        let head = if same_key(s[0].0, e) { Seq::<(EntryView, Seq<u8>)>::empty() } else { seq![s[0]] };
        assert(w == head + without_key(rest, e));
        assert forall|x: (EntryView, Seq<u8>)| #[trigger] w.contains(x) <==> (s.contains(x) && !same_key(x.0, e)) by {
            if w.contains(x) {
                let k = choose|k: int| 0 <= k < w.len() && w[k] == x;
                if k < head.len() {
                    assert(s[0] == x);
                } else {
                    assert(without_key(rest, e)[k - head.len()] == x);
                    assert(without_key(rest, e).contains(x));
                    let q = choose|q: int| 0 <= q < rest.len() && rest[q] == x;
                    assert(s[q + 1] == x);
                }
            }
            if s.contains(x) && !same_key(x.0, e) {
                let k = choose|k: int| 0 <= k < s.len() && s[k] == x;
                if k == 0 {
                    assert(w[0] == x);
                } else {
                    assert(rest[k - 1] == x);
                    assert(rest.contains(x));
                    assert(without_key(rest, e).contains(x));
                    let q = choose|q: int| 0 <= q < without_key(rest, e).len() && without_key(rest, e)[q] == x;
                    assert(w[q + head.len()] == x);
                }
            }
        }
        if keys_unique(s) {
            assert(keys_unique(rest)) by {
                assert forall|i: int, j: int| 0 <= i < j < rest.len() implies !same_key(#[trigger] rest[i].0, #[trigger] rest[j].0) by {
                    assert(rest[i] == s[i + 1] && rest[j] == s[j + 1]);
                }
            }
            let wr = without_key(rest, e);
            assert forall|i: int, j: int| 0 <= i < j < w.len() implies !same_key(#[trigger] w[i].0, #[trigger] w[j].0) by {
                if head.len() == 1 && i == 0 {
                    assert(w[0] == s[0]);
                    assert(wr.contains(w[j])) by { assert(wr[j - 1] == w[j]); }
                    assert(rest.contains(w[j]));
                    let q = choose|q: int| 0 <= q < rest.len() && rest[q] == w[j];
                    assert(s[q + 1] == w[j]);
                } else {
                    assert(w[i] == wr[i - head.len()] && w[j] == wr[j - head.len()]);
                }
            }
        }
    }
}

/// A merge from an item list without repeated keys keeps one item per key.
pub proof fn law_merge_keys_unique(items: Seq<(EntryView, Seq<u8>)>, adds: Seq<(EntryView, Seq<u8>)>)
    requires
        keys_unique(items),
    ensures
        keys_unique(merged(items, adds)),
    decreases adds.len(),
{
    if adds.len() > 0 {
        lemma_without_key(items, adds[0].0);
        let w = without_key(items, adds[0].0);
        let n = w.push(adds[0]);
        assert forall|i: int, j: int| 0 <= i < j < n.len() implies !same_key(#[trigger] n[i].0, #[trigger] n[j].0) by {
            if j == n.len() - 1 {
                assert(w.contains(n[i]));
            } else {
                assert(n[i] == w[i] && n[j] == w[j]);
            }
        }
        law_merge_keys_unique(n, adds.drop_first());
    }
}

/// The item of `adds` that a merge keeps for `adds[j]`'s key: the last one.
pub open spec fn last_with_key(adds: Seq<(EntryView, Seq<u8>)>, j: int) -> bool {
    forall|k: int| j < k < adds.len() ==> !same_key(#[trigger] adds[k].0, adds[j].0)
}

/// Last writer wins: after a merge, the last of the added items with a given
/// key is present, and no other item has that key.
pub proof fn law_merge_last_writer_wins(items: Seq<(EntryView, Seq<u8>)>, adds: Seq<(EntryView, Seq<u8>)>, j: int)
    requires
        0 <= j < adds.len(),
        last_with_key(adds, j),
    ensures
        merged(items, adds).contains(adds[j]),
        forall|x: (EntryView, Seq<u8>)| #[trigger] merged(items, adds).contains(x) && same_key(x.0, adds[j].0) ==> x == adds[j],
    decreases adds.len(),
{
    lemma_without_key(items, adds[0].0);
    let w = without_key(items, adds[0].0);
    let n = w.push(adds[0]);
    if j == 0 {
        assert(n[n.len() - 1] == adds[0]);
        assert forall|x: (EntryView, Seq<u8>)| #[trigger] n.contains(x) && same_key(x.0, adds[0].0) implies x == adds[0] by {
            let q = choose|q: int| 0 <= q < n.len() && n[q] == x;
            if q < n.len() - 1 {
                assert(w.contains(x)) by { assert(w[q] == x); }
            }
        }
        lemma_merge_preserves_absent_key(n, adds.drop_first(), adds[0]);
    } else {
        let rest = adds.drop_first();
        assert forall|k: int| j - 1 < k < rest.len() implies !same_key(#[trigger] rest[k].0, rest[j - 1].0) by {
            assert(rest[k] == adds[k + 1]);
        }
        law_merge_last_writer_wins(n, rest, j - 1);
    }
}

proof fn lemma_merge_preserves_absent_key(items: Seq<(EntryView, Seq<u8>)>, adds: Seq<(EntryView, Seq<u8>)>, x: (EntryView, Seq<u8>))
    requires
        items.contains(x),
        forall|y: (EntryView, Seq<u8>)| #[trigger] items.contains(y) && same_key(y.0, x.0) ==> y == x,
        forall|k: int| 0 <= k < adds.len() ==> !same_key(#[trigger] adds[k].0, x.0),
    ensures
        merged(items, adds).contains(x),
        forall|y: (EntryView, Seq<u8>)| #[trigger] merged(items, adds).contains(y) && same_key(y.0, x.0) ==> y == x,
    decreases adds.len(),
{
    if adds.len() > 0 {
        lemma_without_key(items, adds[0].0);
        let w = without_key(items, adds[0].0);
        let n = w.push(adds[0]);
        assert(!same_key(x.0, adds[0].0)) by {
            assert(!same_key(adds[0].0, x.0));
        }
        assert(w.contains(x));
        assert(n.contains(x)) by {
            let q = choose|q: int| 0 <= q < w.len() && w[q] == x;
            assert(n[q] == x);
        }
        assert forall|y: (EntryView, Seq<u8>)| #[trigger] n.contains(y) && same_key(y.0, x.0) implies y == x by {
            let q = choose|q: int| 0 <= q < n.len() && n[q] == y;
            if q < n.len() - 1 {
                assert(w.contains(y)) by { assert(w[q] == y); }
            } else {
                assert(y == adds[0]);
            }
        }
        assert forall|k: int| 0 <= k < adds.drop_first().len() implies !same_key(#[trigger] adds.drop_first()[k].0, x.0) by {
            assert(adds.drop_first()[k] == adds[k + 1]);
        }
        lemma_merge_preserves_absent_key(n, adds.drop_first(), x);
    }
}

/// An item whose key no added item has survives the merge unchanged, as the
/// only item with that key.
pub proof fn law_merge_keeps_untouched(items: Seq<(EntryView, Seq<u8>)>, adds: Seq<(EntryView, Seq<u8>)>, x: (EntryView, Seq<u8>))
    requires
        keys_unique(items),
        items.contains(x),
        forall|k: int| 0 <= k < adds.len() ==> !same_key(#[trigger] adds[k].0, x.0),
    ensures
        merged(items, adds).contains(x),
        forall|y: (EntryView, Seq<u8>)| #[trigger] merged(items, adds).contains(y) && same_key(y.0, x.0) ==> y == x,
{
    assert forall|y: (EntryView, Seq<u8>)| #[trigger] items.contains(y) && same_key(y.0, x.0) implies y == x by {
        let p = choose|p: int| 0 <= p < items.len() && items[p] == x;
        let q = choose|q: int| 0 <= q < items.len() && items[q] == y;
        if p < q {
            assert(!same_key(items[p].0, items[q].0));
        } else if q < p {
            assert(!same_key(items[q].0, items[p].0));
        }
    }
    lemma_merge_preserves_absent_key(items, adds, x);
}

/// Every item of a merge comes from the starting items or from the adds.
pub proof fn law_merge_only_given_items(items: Seq<(EntryView, Seq<u8>)>, adds: Seq<(EntryView, Seq<u8>)>, x: (EntryView, Seq<u8>))
    requires
        merged(items, adds).contains(x),
    ensures
        items.contains(x) || adds.contains(x),
    decreases adds.len(),
{
    if adds.len() > 0 {
        lemma_without_key(items, adds[0].0);
        let w = without_key(items, adds[0].0);
        let n = w.push(adds[0]);
        law_merge_only_given_items(n, adds.drop_first(), x);
        if n.contains(x) {
            let q = choose|q: int| 0 <= q < n.len() && n[q] == x;
            if q < n.len() - 1 {
                assert(w.contains(x)) by { assert(w[q] == x); }
            } else {
                assert(adds[0] == x);
            }
        } else {
            let q = choose|q: int| 0 <= q < adds.drop_first().len() && adds.drop_first()[q] == x;
            assert(adds[q + 1] == x);
        }
    }
}

/// Copying is byte-lossless: the pairing succeeds exactly when every given
/// entry's blob lies inside the blob region, and then each copied item is
/// that entry with the bytes at its own offset and size, verbatim, in the
/// order the entries were given.
pub proof fn law_copied_blobs_verbatim(blobs: Seq<u8>, es: Seq<EntryView>)
    ensures
        with_blobs(blobs, es) is Ok <==> forall|i: int| 0 <= i < es.len() ==> #[trigger] es[i].offset + es[i].size <= blobs.len(),
        with_blobs(blobs, es) matches Ok(items) ==> {
            &&& items.len() == es.len()
            &&& forall|i: int| 0 <= i < es.len() ==> (#[trigger] items[i]).0 == es[i]
                && items[i].1 == blobs.subrange(es[i].offset, es[i].offset + es[i].size)
        },
    decreases es.len(),
{
    if es.len() > 0 {
        law_copied_blobs_verbatim(blobs, es.drop_first());
        assert forall|i: int| 0 < i < es.len() implies #[trigger] es[i] == es.drop_first()[i - 1] by {}
        if (forall|i: int| 0 <= i < es.len() ==> #[trigger] es[i].offset + es[i].size <= blobs.len()) {
            assert(es[0].offset + es[0].size <= blobs.len());
            assert forall|i: int| 0 <= i < es.drop_first().len() implies
                #[trigger] es.drop_first()[i].offset + es.drop_first()[i].size <= blobs.len() by {
                assert(es.drop_first()[i] == es[i + 1]);
            }
        }
        match with_blobs(blobs, es) {
            Ok(items) => {
                let rest = with_blobs(blobs, es.drop_first())->Ok_0;
                assert forall|i: int| 0 <= i < es.len() implies (#[trigger] items[i]).0 == es[i]
                    && items[i].1 == blobs.subrange(es[i].offset, es[i].offset + es[i].size)
                    && es[i].offset + es[i].size <= blobs.len() by {
                    if i > 0 {
                        assert(items[i] == rest[i - 1]);
                        assert(es[i] == es.drop_first()[i - 1]);
                    }
                }
            }
            Err(_) => {
                if !(with_blobs(blobs, es.drop_first()) is Err) {
                    assert(!(es[0].offset + es[0].size <= blobs.len()));
                } else {
                    let j = choose|j: int| 0 <= j < es.drop_first().len()
                        && !(#[trigger] es.drop_first()[j].offset + es.drop_first()[j].size <= blobs.len());
                    assert(es.drop_first()[j] == es[j + 1]);
                }
            }
        }
    }
}

} // verus!
