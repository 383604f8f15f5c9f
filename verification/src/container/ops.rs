//! Building what a write puts to disk: compressing sections, laying blobs
//! out back to back, and the byte-lossless filter and merge of containers.

use vstd::prelude::*;
use crate::container::codec::{clone_value, zstd_decoded, zstd_encode, zstd_encoded};
use crate::container::format::{
    blob_error_matches, blob_region, entries_view, entry_of, entry_of_spec, items_view, placed,
    entry_blob, Archive, BlobFault, Entry, EntryView, Reader, Section, SectionView, ZSTD_LEVEL,
};
use crate::error::AlgoError;
use crate::text::{chars_eq, chars_of};

verus! {

/// The items a write of `secs` produces, before layout: each section's
/// entry with its payload compressed.
pub open spec fn compressed(secs: Seq<SectionView>) -> Seq<(EntryView, Seq<u8>)> {
    secs.map_values(|s: SectionView| (entry_of_spec(s, 0, 0), zstd_encoded(s.payload, ZSTD_LEVEL)))
}

/// The error a layout whose blobs do not fit 64-bit offsets is refused with.
pub open spec fn too_large(e: AlgoError) -> bool {
    e matches AlgoError::InvalidArgument(m) && m@ == "container blobs exceed 64-bit offsets"@
}

/// Lay the items out back to back: offsets from 0, sizes the blob lengths.
pub fn place(items: &mut Vec<(Entry, Vec<u8>)>) -> (r: Result<(), AlgoError>)
    ensures
        r is Ok <==> blob_region(items_view(old(items)@)).len() <= u64::MAX,
        r is Ok ==> items_view(final(items)@) == placed(items_view(old(items)@), 0),
        r matches Err(e) ==> too_large(e),
{
    let ghost orig = items_view(items@);
    let mut offset: u64 = 0;
    let mut i: usize = 0;
    assert(orig.subrange(0, orig.len() as int) =~= orig);
    assert(items_view(items@).subrange(0, 0) =~= Seq::<(EntryView, Seq<u8>)>::empty());
    while i < items.len()
        invariant
            orig == items_view(old(items)@),
            i <= items@.len(),
            items@.len() == orig.len(),
            items_view(items@).subrange(i as int, orig.len() as int) == orig.subrange(i as int, orig.len() as int),
            items_view(items@).subrange(0, i as int) + placed(orig.subrange(i as int, orig.len() as int), offset as int)
                == placed(orig, 0),
            offset as int + blob_region(orig.subrange(i as int, orig.len() as int)).len() == blob_region(orig).len(),
        decreases items.len() - i,
    {
        let ghost rest = orig.subrange(i as int, orig.len() as int);
        assert(rest.drop_first() =~= orig.subrange(i + 1, orig.len() as int));
        assert(rest[0] == items_view(items@)[i as int]);
        let size = items[i].1.len() as u64;
        assert(size as int == rest[0].1.len());
        let ghost before = items_view(items@);
        items[i].0.offset = offset;
        items[i].0.size = size;
        proof {
            let after = items_view(items@);
            assert(after.subrange(0, i as int) =~= before.subrange(0, i as int));
            assert(after.subrange(i + 1, orig.len() as int) =~= before.subrange(i + 1, orig.len() as int));
            assert(after.subrange(0, i + 1) =~= before.subrange(0, i as int).push(after[i as int]));
            assert(placed(rest, offset as int) =~= seq![after[i as int]] + placed(rest.drop_first(), offset + size));
            assert(after.subrange(0, i + 1) + placed(orig.subrange(i + 1, orig.len() as int), offset + size)
                =~= before.subrange(0, i as int) + placed(rest, offset as int));
        }
        if size > u64::MAX - offset {
            proof {
                assert(blob_region(rest) == rest[0].1 + blob_region(rest.drop_first()));
                assert(blob_region(rest).len() >= size);
            }
            return Err(AlgoError::InvalidArgument(String::from_str("container blobs exceed 64-bit offsets")));
        }
        offset = offset + size;
        i = i + 1;
    }
    assert(items_view(items@).subrange(0, i as int) =~= items_view(items@));
    assert(orig.subrange(i as int, orig.len() as int) =~= Seq::<(EntryView, Seq<u8>)>::empty());
    Ok(())
}

/// Compress each section and lay the blobs out: the archive a container file
/// holding `sections` is written from.
pub fn write(app: &serde_json::Value, data_version: u32, sections: &[Section]) -> (r: Result<Archive, AlgoError>)
    ensures
        r matches Ok(a) ==> a.app == *app && a.data_version == data_version
            && items_view(a.items@) == placed(compressed(sections@.map_values(|s: Section| s@)), 0)
            && forall|i: int| 0 <= i < sections@.len()
                ==> zstd_decoded(#[trigger] items_view(a.items@)[i].1) == Some(sections@[i].payload@),
        sections@.len() == 0 ==> r is Ok,
        r is Ok <==> blob_region(compressed(sections@.map_values(|s: Section| s@))).len() <= u64::MAX,
        r matches Err(e) ==> too_large(e),
{
    let ghost secs = sections@.map_values(|s: Section| s@);
    let mut items: Vec<(Entry, Vec<u8>)> = Vec::new();
    let mut i: usize = 0;
    while i < sections.len()
        invariant
            i <= sections@.len(),
            secs == sections@.map_values(|s: Section| s@),
            items_view(items@) == compressed(secs).subrange(0, i as int),
            forall|k: int| 0 <= k < i ==> zstd_decoded(#[trigger] items_view(items@)[k].1) == Some(sections@[k].payload@),
        decreases sections.len() - i,
    {
        let blob = match zstd_encode(sections[i].payload.as_slice(), ZSTD_LEVEL) {
            Ok(b) => b,
            Err(e) => return Err(AlgoError::Io(e)),
        };
        let entry = entry_of(&sections[i], 0, 0);
        let ghost before = items_view(items@);
        items.push((entry, blob));
        proof {
            assert(secs[i as int] == sections@[i as int]@);
            assert(items_view(items@) =~= before.push(compressed(secs)[i as int]));
            assert(items_view(items@) =~= compressed(secs).subrange(0, i + 1));
        }
        i = i + 1;
    }
    assert(items_view(items@) =~= compressed(secs));
    let ghost laid = items_view(items@);
    match place(&mut items) {
        Ok(()) => {}
        Err(e) => return Err(e),
    }
    proof {
        lemma_placed_keeps_blobs(laid, 0);
    }
    Ok(Archive { app: clone_value(app), data_version, items })
}

/// Layout only sets offsets and sizes: the blobs and their order stay.
pub proof fn lemma_placed_keeps_blobs(items: Seq<(EntryView, Seq<u8>)>, base: int)
    ensures
        placed(items, base).len() == items.len(),
        forall|i: int| 0 <= i < items.len() ==> (#[trigger] placed(items, base)[i]).1 == items[i].1,
        forall|i: int| 0 <= i < items.len() ==> (#[trigger] placed(items, base)[i]).0.name == items[i].0.name
            && placed(items, base)[i].0.kind == items[i].0.kind
            && placed(items, base)[i].0.tags == items[i].0.tags
            && placed(items, base)[i].0.version == items[i].0.version,
    decreases items.len(),
{
    if items.len() > 0 {
        lemma_placed_keeps_blobs(items.drop_first(), base + items[0].1.len());
        assert forall|i: int| 0 < i < items.len() implies (#[trigger] placed(items, base)[i]) == placed(items.drop_first(), base + items[0].1.len())[i - 1] by {}
    }
}

/// The entries `es` each paired with the blob it points at in the blob
/// region `blobs` (its own offset and size), or the first entry whose blob
/// runs past the region, with why.
pub open spec fn with_blobs(blobs: Seq<u8>, es: Seq<EntryView>)
    -> Result<Seq<(EntryView, Seq<u8>)>, (Seq<char>, BlobFault)>
    decreases es.len(),
{
    if es.len() == 0 {
        Ok(Seq::empty())
    } else {
        match entry_blob(es[0], blobs) {
            Err(f) => Err((es[0].name, f)),
            Ok(b) => match with_blobs(blobs, es.drop_first()) {
                Ok(rest) => Ok(seq![(es[0], b)] + rest),
                Err(x) => Err(x),
            },
        }
    }
}

/// `acc` put in front of a pairing outcome.
pub open spec fn prepend_items(acc: Seq<(EntryView, Seq<u8>)>, r: Result<Seq<(EntryView, Seq<u8>)>, (Seq<char>, BlobFault)>)
    -> Result<Seq<(EntryView, Seq<u8>)>, (Seq<char>, BlobFault)> {
    match r {
        Ok(rest) => Ok(acc + rest),
        Err(x) => Err(x),
    }
}

/// Pair each of `es` with the raw blob it points at in `r`.
fn pair_blobs(r: &Reader, es: &Vec<Entry>, items: &mut Vec<(Entry, Vec<u8>)>) -> (res: Result<(), AlgoError>)
    ensures
        match prepend_items(items_view(old(items)@), with_blobs(r.region(), entries_view(es@))) {
            Ok(all) => res is Ok && items_view(final(items)@) == all,
            Err((name, f)) => res matches Err(e) && blob_error_matches(e, f, name),
        },
{
    let ghost start = items_view(items@);
    let ghost ev = entries_view(es@);
    let mut i: usize = 0;
    assert(ev.subrange(0, ev.len() as int) =~= ev);
    assert(start + Seq::<(EntryView, Seq<u8>)>::empty() =~= start);
    assert(prepend_items(start, with_blobs(r.region(), ev)) == prepend_items(items_view(items@), with_blobs(r.region(), ev.subrange(0, ev.len() as int)))) by {
        match with_blobs(r.region(), ev) {
            Ok(rest) => {}
            Err(_) => {}
        }
    }
    while i < es.len()
        invariant
            i <= es@.len(),
            ev == entries_view(es@),
            prepend_items(start, with_blobs(r.region(), ev))
                == prepend_items(items_view(items@), with_blobs(r.region(), ev.subrange(i as int, ev.len() as int))),
        decreases es.len() - i,
    {
        let ghost rest = ev.subrange(i as int, ev.len() as int);
        assert(rest.drop_first() =~= ev.subrange(i + 1, ev.len() as int));
        assert(rest[0] == es@[i as int]@);
        let blob = match r.blob_at(&es[i]) {
            Ok(b) => b,
            Err(e) => return Err(e),
        };
        let ghost before = items_view(items@);
        let ghost bv = blob@;
        items.push((es[i].duplicate(), blob));
        proof {
            assert(items_view(items@) =~= before.push((rest[0], bv)));
            match with_blobs(r.region(), rest.drop_first()) {
                Ok(tail) => {
                    assert(before + (seq![(rest[0], bv)] + tail) =~= items_view(items@) + tail);
                }
                Err(_) => {}
            }
        }
        i = i + 1;
    }
    proof {
        assert(ev.subrange(i as int, ev.len() as int) =~= Seq::<EntryView>::empty());
        assert(items_view(items@) + Seq::<(EntryView, Seq<u8>)>::empty() =~= items_view(items@));
    }
    Ok(())
}


/// The entries of `es` whose flag in `sel` is set, in order.
pub open spec fn pick(es: Seq<EntryView>, sel: Seq<bool>) -> Seq<EntryView>
    decreases es.len(),
{
    if es.len() == 0 {
        Seq::empty()
    } else {
        pick(es.drop_last(), sel.drop_last()) + if sel.last() { seq![es.last()] } else { Seq::empty() }
    }
}

/// What a filter or merge returns once the items it keeps are paired with
/// their blobs: the laid-out archive under the first reader's metadata, or
/// the blob error, or the too-large error.
pub open spec fn archive_outcome(
    res: Result<Archive, AlgoError>,
    app: serde_json::Value,
    data_version: u32,
    paired: Result<Seq<(EntryView, Seq<u8>)>, (Seq<char>, BlobFault)>,
) -> bool {
    match paired {
        Err((name, f)) => res matches Err(e) && blob_error_matches(e, f, name),
        Ok(items) => if blob_region(items).len() <= u64::MAX {
            res matches Ok(a) && a.app == app && a.data_version == data_version
                && items_view(a.items@) == placed(items, 0)
        } else {
            res matches Err(e) && too_large(e)
        },
    }
}

/// Copy the sections of `r` whose entry passes `keep` (in index order, blobs
/// verbatim, no re-encoding), keeping `r`'s metadata and data version: the
/// archive a split or export-by-tag writes.
pub fn filter_to<F: Fn(&Entry) -> bool>(r: &Reader, keep: F) -> (res: Result<Archive, AlgoError>)
    requires
        forall|i: int| 0 <= i < r.index_entries().len() ==> keep.requires((&r.index_entries()[i],)),
    ensures
        exists|sel: Seq<bool>| {
            &&& sel.len() == r.index().len()
            &&& forall|i: int| 0 <= i < sel.len() ==> keep.ensures((&r.index_entries()[i],), #[trigger] sel[i])
            &&& archive_outcome(res, r.app_of(), r.version_of(),
                    with_blobs(r.region(), pick(r.index(), sel)))
        },
{
    let es = r.entries();
    let mut kept: Vec<Entry> = Vec::new();
    let ghost mut sel: Seq<bool> = Seq::empty();
    let mut i: usize = 0;
    while i < es.len()
        invariant
            es@ == r.index_entries(),
            entries_view(es@) == r.index(),
            forall|k: int| 0 <= k < r.index_entries().len() ==> keep.requires((&r.index_entries()[k],)),
            i <= es@.len(),
            sel.len() == i,
            forall|k: int| 0 <= k < i ==> keep.ensures((&r.index_entries()[k],), #[trigger] sel[k]),
            entries_view(kept@) == pick(r.index().subrange(0, i as int), sel),
        decreases es.len() - i,
    {
        let k = keep(&es[i]);
        let ghost prev = entries_view(kept@);
        let ghost sub = r.index().subrange(0, i + 1);
        if k {
            kept.push(es[i].duplicate());
        }
        proof {
            let old_sel = sel;
            sel = sel.push(k);
            assert(sub.drop_last() =~= r.index().subrange(0, i as int));
            assert(sel.drop_last() =~= old_sel);
            assert(sub.last() == es@[i as int]@);
            if k {
                assert(entries_view(kept@) =~= prev + seq![sub.last()]);
            } else {
                assert(entries_view(kept@) =~= prev + Seq::<EntryView>::empty());
            }
            assert(pick(sub, sel) == pick(sub.drop_last(), sel.drop_last()) + if sel.last() { seq![sub.last()] } else { Seq::<EntryView>::empty() });
        }
        i = i + 1;
    }
    assert(r.index().subrange(0, i as int) =~= r.index());
    let mut items: Vec<(Entry, Vec<u8>)> = Vec::new();
    assert(items_view(items@) =~= Seq::<(EntryView, Seq<u8>)>::empty());
    let paired = pair_blobs(r, &kept, &mut items);
    proof {
        match with_blobs(r.region(), pick(r.index(), sel)) {
            Ok(all) => {
                assert(Seq::<(EntryView, Seq<u8>)>::empty() + all =~= all);
            }
            Err(_) => {}
        }
    }
    match paired {
        Ok(()) => {}
        Err(e) => return Err(e),
    }
    match place(&mut items) {
        Ok(()) => {}
        Err(e) => return Err(e),
    }
    Ok(Archive { app: clone_value(r.app()), data_version: r.data_version(), items })
}

/// Two entries name the same section (same kind and name).
pub open spec fn same_key(x: EntryView, y: EntryView) -> bool {
    x.kind == y.kind && x.name == y.name
}

/// `s` without the items whose entry has `e`'s key.
pub open spec fn without_key(s: Seq<(EntryView, Seq<u8>)>, e: EntryView) -> Seq<(EntryView, Seq<u8>)>
    decreases s.len(),
{
    if s.len() == 0 {
        Seq::empty()
    } else {
        (if same_key(s[0].0, e) { Seq::empty() } else { seq![s[0]] }) + without_key(s.drop_first(), e)
    }
}

/// `items` with each of `adds` applied in turn: an item replaces any item of
/// the same key and goes to the end (the last writer wins).
pub open spec fn merged(items: Seq<(EntryView, Seq<u8>)>, adds: Seq<(EntryView, Seq<u8>)>) -> Seq<(EntryView, Seq<u8>)>
    decreases adds.len(),
{
    if adds.len() == 0 {
        items
    } else {
        merged(without_key(items, adds[0].0).push(adds[0]), adds.drop_first())
    }
}

/// Whether two entries name the same section.
fn same_section(a: &Entry, b: &Entry) -> (r: bool)
    ensures
        r == same_key(a@, b@),
{
    let k = a.kind.eq(&b.kind);
    let n = a.name.eq(&b.name);
    k && n
}

/// Remove the items whose entry has `e`'s key.
fn drop_key(items: Vec<(Entry, Vec<u8>)>, e: &Entry) -> (r: Vec<(Entry, Vec<u8>)>)
    ensures
        items_view(r@) == without_key(items_view(items@), e@),
{
    let ghost orig = items_view(items@);
    let mut src = items;
    let mut out: Vec<(Entry, Vec<u8>)> = Vec::new();
    assert(items_view(out@) + without_key(items_view(src@), e@) =~= without_key(orig, e@));
    while src.len() > 0
        invariant
            items_view(out@) + without_key(items_view(src@), e@) == without_key(orig, e@),
        decreases src.len(),
    {
        let ghost before = items_view(src@);
        let x = src.remove(0);
        let ghost xv = (x.0@, x.1@);
        assert(items_view(src@) =~= before.drop_first());
        assert(before[0] == xv);
        let ghost prev_out = items_view(out@);
        if !same_section(&x.0, e) {
            out.push(x);
            assert(items_view(out@) =~= prev_out.push(xv));
            assert(prev_out + without_key(before, e@) =~= items_view(out@) + without_key(items_view(src@), e@));
        } else {
            assert(prev_out + without_key(before, e@) =~= items_view(out@) + without_key(items_view(src@), e@));
        }
    }
    assert(items_view(out@) + without_key(items_view(src@), e@) =~= items_view(out@));
    out
}

/// Apply `adds` to `items` in turn (see [`merged`]).
fn merge_items(items: Vec<(Entry, Vec<u8>)>, adds: Vec<(Entry, Vec<u8>)>) -> (r: Vec<(Entry, Vec<u8>)>)
    ensures
        items_view(r@) == merged(items_view(items@), items_view(adds@)),
{
    let ghost goal = merged(items_view(items@), items_view(adds@));
    let mut acc = items;
    let mut rest = adds;
    while rest.len() > 0
        invariant
            merged(items_view(acc@), items_view(rest@)) == goal,
        decreases rest.len(),
    {
        let ghost before = items_view(rest@);
        let x = rest.remove(0);
        assert(items_view(rest@) =~= before.drop_first());
        assert(before[0] == (x.0@, x.1@));
        let dropped = drop_key(acc, &x.0);
        acc = dropped;
        let ghost a0 = items_view(acc@);
        acc.push(x);
        assert(items_view(acc@) =~= a0.push(before[0]));
    }
    acc
}

/// Merge `b`'s sections into `a`'s, copying blobs verbatim: on a kind and
/// name clash `b` wins (last writer); `a`'s metadata and data version are
/// kept.
pub fn merge_to(a: &Reader, b: &Reader) -> (res: Result<Archive, AlgoError>)
    ensures
        archive_outcome(res, a.app_of(), a.version_of(),
            match with_blobs(a.region(), a.index()) {
                Err(x) => Err(x),
                Ok(ia) => match with_blobs(b.region(), b.index()) {
                    Err(x) => Err(x),
                    Ok(ib) => Ok(merged(merged(Seq::empty(), ia), ib)),
                },
            }),
{
    let ea = entry_list(a);
    let mut ia: Vec<(Entry, Vec<u8>)> = Vec::new();
    assert(items_view(ia@) =~= Seq::<(EntryView, Seq<u8>)>::empty());
    match pair_blobs(a, &ea, &mut ia) {
        Ok(()) => {}
        Err(e) => {
            proof {
                match with_blobs(a.region(), a.index()) {
                    Ok(all) => { assert(Seq::<(EntryView, Seq<u8>)>::empty() + all =~= all); }
                    Err(_) => {}
                }
            }
            return Err(e);
        }
    }
    assert(Seq::<(EntryView, Seq<u8>)>::empty() + items_view(ia@) =~= items_view(ia@));
    let eb = entry_list(b);
    let mut ib: Vec<(Entry, Vec<u8>)> = Vec::new();
    assert(items_view(ib@) =~= Seq::<(EntryView, Seq<u8>)>::empty());
    match pair_blobs(b, &eb, &mut ib) {
        Ok(()) => {}
        Err(e) => {
            proof {
                match with_blobs(a.region(), a.index()) {
                    Ok(all) => { assert(Seq::<(EntryView, Seq<u8>)>::empty() + all =~= all); }
                    Err(_) => {}
                }
                match with_blobs(b.region(), b.index()) {
                    Ok(all) => { assert(Seq::<(EntryView, Seq<u8>)>::empty() + all =~= all); }
                    Err(_) => {}
                }
            }
            return Err(e);
        }
    }
    proof {
        match with_blobs(a.region(), a.index()) {
            Ok(all) => { assert(Seq::<(EntryView, Seq<u8>)>::empty() + all =~= all); }
            Err(_) => {}
        }
        match with_blobs(b.region(), b.index()) {
            Ok(all) => { assert(Seq::<(EntryView, Seq<u8>)>::empty() + all =~= all); }
            Err(_) => {}
        }
    }
    let empty: Vec<(Entry, Vec<u8>)> = Vec::new();
    assert(items_view(empty@) =~= Seq::<(EntryView, Seq<u8>)>::empty());
    let first = merge_items(empty, ia);
    let mut items = merge_items(first, ib);
    match place(&mut items) {
        Ok(()) => {}
        Err(e) => return Err(e),
    }
    Ok(Archive { app: clone_value(a.app()), data_version: a.data_version(), items })
}

/// A copy of a reader's header entries.
fn entry_list(r: &Reader) -> (v: Vec<Entry>)
    ensures
        entries_view(v@) == r.index(),
{
    let es = r.entries();
    let mut out: Vec<Entry> = Vec::new();
    let mut i: usize = 0;
    while i < es.len()
        invariant
            i <= es@.len(),
            entries_view(es@) == r.index(),
            entries_view(out@) == r.index().subrange(0, i as int),
        decreases es.len() - i,
    {
        let ghost prev = entries_view(out@);
        let d = es[i].duplicate();
        let ghost dv = d@;
        out.push(d);
        assert(entries_view(out@) =~= prev.push(dv));
        assert(entries_view(out@) =~= r.index().subrange(0, i + 1));
        i = i + 1;
    }
    assert(entries_view(out@) =~= r.index());
    out
}

} // verus!
