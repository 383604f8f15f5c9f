use petektools::container::format::{frame_bytes, with_ext};
use petektools::container::ops;
use petektools::container::{filter_to, merge_to, open, Archive, Entry, Header, Reader, Section};
use petektools::AlgoError;
use serde_json::Value;

fn sec(kind: &str, name: &str, tags: &[&str], version: u32, payload: &[u8]) -> Section {
    Section {
        kind: kind.into(),
        name: name.into(),
        tags: tags.iter().map(|s| s.to_string()).collect(),
        version,
        payload: payload.to_vec(),
    }
}

fn object(pairs: &[(&str, Value)]) -> Value {
    let mut m = serde_json::Map::new();
    for (k, v) in pairs {
        m.insert((*k).to_string(), v.clone());
    }
    Value::Object(m)
}

fn entry_json(e: &Entry) -> Value {
    object(&[
        ("kind", Value::from(e.kind.clone())),
        ("name", Value::from(e.name.clone())),
        ("tags", Value::from(e.tags.clone())),
        ("version", Value::from(e.version)),
        ("offset", Value::from(e.offset)),
        ("size", Value::from(e.size)),
    ])
}

/// The file image of an archive, with its JSON header.
fn image(a: &Archive) -> Vec<u8> {
    let sections: Vec<Value> = a.items.iter().map(|(e, _)| entry_json(e)).collect();
    let header = object(&[
        ("format_version", Value::from(1u32)),
        ("app", a.app.clone()),
        ("sections", Value::from(sections)),
    ]);
    let bytes = serde_json::to_vec(&header).unwrap();
    frame_bytes(a, &bytes)
}

fn entry_from(v: &Value) -> Entry {
    Entry {
        kind: v["kind"].as_str().unwrap().to_string(),
        name: v["name"].as_str().unwrap().to_string(),
        tags: v["tags"]
            .as_array()
            .map(|t| t.iter().map(|s| s.as_str().unwrap().to_string()).collect())
            .unwrap_or_default(),
        version: v["version"].as_u64().unwrap_or(0) as u32,
        offset: v["offset"].as_u64().unwrap(),
        size: v["size"].as_u64().unwrap(),
    }
}

/// Open a file image into a reader.
fn reader(bytes: &[u8]) -> Reader {
    let frame = open(bytes).unwrap();
    let h: Value = serde_json::from_slice(&frame.header).unwrap();
    let header = Header {
        format_version: h["format_version"].as_u64().unwrap() as u32,
        app: h["app"].clone(),
        sections: h["sections"].as_array().unwrap().iter().map(entry_from).collect(),
    };
    Reader::new(header, frame.data_version, frame.blobs)
}

fn names(r: &Reader) -> Vec<String> {
    r.entries().iter().map(|e| e.name.clone()).collect()
}

#[test]
fn round_trips_sections_and_app_metadata() {
    let app = object(&[
        ("unit", Value::from("m")),
        ("owner", Value::from("kk")),
        ("tags", Value::from(vec!["field-a"])),
    ]);
    // include NaN bytes in a payload — the container is byte-opaque.
    let nan = f64::NAN.to_le_bytes();
    let secs = [
        sec("surface", "top", &["field-a"], 0, &nan),
        sec("model", "model/seg/props", &["field-a"], 7, b"\x00\xffopaque"),
    ];
    let archive = ops::write(&app, 2, &secs).unwrap();
    let r = reader(&image(&archive));
    assert_eq!(r.data_version(), 2);
    assert_eq!(r.app()["owner"], "kk");
    assert_eq!(r.entries().len(), 2);
    let m = r.read("model/seg/props").unwrap();
    assert_eq!(m.payload, b"\x00\xffopaque"); // opaque bytes preserved
    assert_eq!(m.version, 7);
    assert_eq!(r.read("top").unwrap().payload, nan); // NaN bytes intact
}

#[test]
fn rejects_bad_magic_and_newer_version() {
    assert!(open(b"XXXX........").is_err());
    assert!(open(b"PIO\xfe....").is_err()); // version 254 > ours
}

#[test]
fn export_by_tag_is_byte_lossless_subset() {
    let src = ops::write(
        &object(&[]),
        1,
        &[
            sec("surface", "a", &["keep"], 0, b"AAA"),
            sec("surface", "b", &["drop"], 0, b"BBB"),
            sec("model", "model/s/props", &["keep"], 3, b"\x01\x02\x03"),
        ],
    )
    .unwrap();
    let rs = reader(&image(&src));
    let dst = filter_to(&rs, |e: &Entry| e.tags.iter().any(|t| t == "keep")).unwrap();

    let r = reader(&image(&dst));
    assert_eq!(names(&r), ["a", "model/s/props"]); // only tagged, order preserved
    // model section survives byte-for-byte with its own version.
    let m = r.read("model/s/props").unwrap();
    assert_eq!((m.version, m.payload), (3, vec![1, 2, 3]));
}

#[test]
fn merge_unions_and_last_wins_on_clash() {
    let a = ops::write(
        &object(&[("owner", Value::from("a"))]),
        1,
        &[sec("surface", "x", &[], 0, b"OLD"), sec("surface", "only_a", &[], 0, b"A")],
    )
    .unwrap();
    let b = ops::write(
        &object(&[("owner", Value::from("b"))]),
        1,
        &[sec("surface", "x", &[], 0, b"NEW"), sec("surface", "only_b", &[], 0, b"B")],
    )
    .unwrap();
    let ra = reader(&image(&a));
    let rb = reader(&image(&b));
    let dst = merge_to(&ra, &rb).unwrap();

    let r = reader(&image(&dst));
    assert_eq!(names(&r), ["only_a", "x", "only_b"]); // b's x replaced a's
    assert_eq!(r.read("x").unwrap().payload, b"NEW"); // last-writer wins
    assert_eq!(r.app()["owner"], "a"); // a's app kept
}

#[test]
fn merge_pairs_each_section_with_its_own_blob() {
    let a = ops::write(
        &object(&[]),
        1,
        &[sec("surface", "x", &[], 0, b"payload P"), sec("model", "x", &[], 0, b"payload Q, longer")],
    )
    .unwrap();
    let empty = ops::write(&object(&[]), 1, &[]).unwrap();
    let dst = merge_to(&reader(&image(&a)), &reader(&image(&empty))).unwrap();
    assert_eq!(dst.items.len(), 2);
    let (model, blob) = dst.items.iter().find(|(e, _)| e.kind == "model").unwrap();
    assert_eq!(model.name, "x");
    assert_eq!(blob, &a.items[1].1); // Q's compressed blob, verbatim
    assert_ne!(blob, &a.items[0].1);
    let (_, surface_blob) = dst.items.iter().find(|(e, _)| e.kind == "surface").unwrap();
    assert_eq!(surface_blob, &a.items[0].1);
}

#[test]
fn filter_pairs_each_section_with_its_own_blob() {
    let a = ops::write(&object(&[]), 1, &[sec("surface", "x", &[], 0, b"P"), sec("model", "x", &[], 0, b"QQQQ")]).unwrap();
    let dst = filter_to(&reader(&image(&a)), |e: &Entry| e.kind == "model").unwrap();
    assert_eq!(dst.items.len(), 1);
    assert_eq!(dst.items[0].1, a.items[1].1);
}

#[test]
fn filtered_blobs_are_copied_verbatim() {
    let src = ops::write(&object(&[]), 4, &[sec("k", "one", &["t"], 1, b"payload-one"), sec("k", "two", &[], 2, b"2")])
        .unwrap();
    let rs = reader(&image(&src));
    let dst = filter_to(&rs, |_e: &Entry| true).unwrap();
    let r = reader(&image(&dst));
    assert_eq!(r.data_version(), 4);
    assert_eq!(r.raw("one").unwrap(), rs.raw("one").unwrap());
    assert_eq!(r.raw("two").unwrap(), rs.raw("two").unwrap());
    // the stored blob is a zstd frame, not the payload itself
    assert_ne!(r.raw("one").unwrap(), b"payload-one".to_vec());
}

#[test]
fn layout_is_back_to_back() {
    let a = ops::write(&object(&[]), 0, &[sec("k", "a", &[], 0, b"aaaa"), sec("k", "b", &[], 0, b"bb")]).unwrap();
    let (e0, b0) = &a.items[0];
    let (e1, b1) = &a.items[1];
    assert_eq!((e0.offset, e0.size), (0, b0.len() as u64));
    assert_eq!((e1.offset, e1.size), (b0.len() as u64, b1.len() as u64));
}

#[test]
fn image_preamble_is_magic_version_and_lengths() {
    let a = ops::write(&object(&[]), 0x01020304, &[]).unwrap();
    let bytes = frame_bytes(&a, b"{}");
    assert_eq!(bytes, b"PIO\x01\x04\x03\x02\x01\x02\x00\x00\x00{}".to_vec());
    let f = open(&bytes).unwrap();
    assert_eq!(f.data_version, 0x01020304);
    assert_eq!(f.header, b"{}".to_vec());
    assert!(f.blobs.is_empty());
}

fn parse_message(e: AlgoError) -> String {
    match e {
        AlgoError::Parse(m) => m,
        other => panic!("expected a parse error, got {other:?}"),
    }
}

#[test]
fn open_reports_why_an_image_is_refused() {
    assert_eq!(parse_message(open(b"PI").err().unwrap()), "not a .pproj file (truncated header)");
    assert_eq!(parse_message(open(b"PIX\x01\x00\x00\x00\x00\x00\x00\x00\x00").err().unwrap()), "not a .pproj file (bad magic)");
    assert_eq!(
        parse_message(open(b"PIO\x02").err().unwrap()),
        "unsupported .pproj format version 2 (this build reads ≤ 1) — re-save with a newer writer"
    );
    assert!(matches!(open(b"PIO\x01\x00\x00").err().unwrap(), AlgoError::Io(_)));
    assert_eq!(parse_message(open(b"PIO\x01\x00\x00\x00\x00\x05\x00\x00\x00{}").err().unwrap()), ".pproj header truncated");
    // an older format version byte is read
    assert!(open(b"PIO\x00\x00\x00\x00\x00\x00\x00\x00\x00").is_ok());
}

#[test]
fn missing_truncated_and_corrupt_sections() {
    let a = ops::write(&object(&[]), 0, &[sec("k", "a", &[], 0, b"abc")]).unwrap();
    let r = reader(&image(&a));
    match r.read("zzz").err().unwrap() {
        AlgoError::NotFound(m) => assert_eq!(m, "section 'zzz'"),
        other => panic!("{other:?}"),
    }
    // an index entry that points past the blob region
    let bad = Header {
        format_version: 1,
        app: Value::Null,
        sections: vec![Entry { kind: "k".into(), name: "a".into(), tags: vec![], version: 0, offset: 2, size: 10 }],
    };
    let r = Reader::new(bad, 0, vec![0u8; 5]);
    assert_eq!(parse_message(r.read("a").err().unwrap()), "section 'a' truncated");
    // a blob that is not a zstd frame
    let bad = Header {
        format_version: 1,
        app: Value::Null,
        sections: vec![Entry { kind: "k".into(), name: "a".into(), tags: vec![], version: 0, offset: 0, size: 4 }],
    };
    let r = Reader::new(bad, 0, b"junk".to_vec());
    assert_eq!(parse_message(r.read("a").err().unwrap()), "section 'a' corrupt");
}

#[test]
fn reading_picks_the_first_section_of_a_name() {
    let a = ops::write(&object(&[]), 0, &[sec("s", "dup", &[], 1, b"first"), sec("m", "dup", &[], 2, b"second")]).unwrap();
    let r = reader(&image(&a));
    let s = r.read("dup").unwrap();
    assert_eq!((s.kind.as_str(), s.version, s.payload), ("s", 1, b"first".to_vec()));
}

#[test]
fn merge_keeps_sections_of_other_kinds_with_the_same_name() {
    let a = ops::write(&object(&[]), 0, &[sec("surface", "x", &[], 0, b"S")]).unwrap();
    let b = ops::write(&object(&[]), 0, &[sec("model", "x", &[], 0, b"M")]).unwrap();
    let dst = merge_to(&reader(&image(&a)), &reader(&image(&b))).unwrap();
    let kinds: Vec<String> = dst.items.iter().map(|(e, _)| e.kind.clone()).collect();
    assert_eq!(kinds, ["surface", "model"]);
}

#[test]
fn temporary_extension_appends() {
    assert_eq!(with_ext("pproj", "tmp"), "pproj.tmp");
    assert_eq!(with_ext("", "tmp"), ".tmp");
}
