use mstickerlib::import::{
    prepare_upload, reduce_outcomes, store_records, ImportError, OutcomeSlots, Sticker as Record,
    StickerOutcome, UploadStep,
};
use mstickerlib::normalize::{
    animation_payload, decompress_animation, fingerprint, is_animation, mimetype_of, normalize,
    raster_payload, NormalizeError, NormalizeStep, NormalizedPayload,
};
use mstickerlib::store::{FingerprintStore, StoreRecord};
use mstickerlib::tg::{assemble, pack_url_to_name, Sticker, StickerPack};
use std::io::Write;

const WEBP_1X1: [u8; 34] = [
    0x52, 0x49, 0x46, 0x46, 0x1a, 0x00, 0x00, 0x00, 0x57, 0x45, 0x42, 0x50, 0x56, 0x50, 0x38, 0x4c,
    0x0d, 0x00, 0x00, 0x00, 0x2f, 0x00, 0x00, 0x00, 0x10, 0x07, 0x10, 0x11, 0x11, 0x88, 0x88, 0xfe,
    0x07, 0x00,
];

fn gzip(data: &[u8]) -> Vec<u8> {
    let mut e = flate2::write::GzEncoder::new(Vec::new(), flate2::Compression::default());
    e.write_all(data).unwrap();
    e.finish().unwrap()
}

fn source_sticker(i: usize) -> Sticker {
    Sticker {
        emoji: format!("e{}", i),
        file_id: format!("file{}", i),
        width: 512,
        height: 512,
        is_video: false,
        pack_name: "pack".to_string(),
        position: i,
    }
}

fn payload(bytes: &[u8], path: &str) -> NormalizedPayload {
    NormalizedPayload { data: bytes.to_vec(), path: path.to_string(), width: 512, height: 512 }
}

fn record(i: usize, dedup: bool) -> Record {
    Record {
        file_hash: vec![i as u8; 64],
        mxc_url: format!("mxc://host/{}", i),
        file_id: format!("file{}", i),
        emoji: format!("e{}", i),
        width: 512,
        height: 512,
        file_size: 10,
        mimetype: "image/webp".to_string(),
        position: i,
        deduplicated: dedup,
    }
}

fn pack(n: usize) -> StickerPack {
    StickerPack::new(
        "cats".to_string(),
        "Cats".to_string(),
        false,
        false,
        (0..n).map(source_sticker).collect(),
    )
}

#[test]
fn url_prefixes_are_accepted() {
    assert_eq!(pack_url_to_name("https://t.me/addstickers/cats").unwrap(), "cats");
    assert_eq!(pack_url_to_name("t.me/addstickers/dogs").unwrap(), "dogs");
    assert_eq!(pack_url_to_name("tg://addstickers?set=birds").unwrap(), "birds");
}

#[test]
fn url_without_prefix_is_rejected() {
    let e = pack_url_to_name("https://example.org/cats").unwrap_err();
    assert_eq!(e.url, "https://example.org/cats");
    assert!(pack_url_to_name("").is_err());
}

#[test]
fn mimetype_from_extension() {
    assert_eq!(mimetype_of("stickers/file_1.webp").unwrap(), "image/webp");
    assert_eq!(mimetype_of("stickers/file_2.tgs.gif").unwrap(), "image/gif");
    assert_eq!(mimetype_of("a.b/file").unwrap_err(), NormalizeError::Mimetype);
    assert_eq!(mimetype_of("dir/.hidden").unwrap_err(), NormalizeError::Mimetype);
}

#[test]
fn animation_detected_by_name() {
    assert!(is_animation("stickers/file_3.tgs"));
    assert!(!is_animation("stickers/file_3.webp"));
    assert!(!is_animation("tgs"));
}

#[test]
fn fingerprint_is_sha512() {
    let h = fingerprint(&b"abc".to_vec());
    assert_eq!(h.len(), 64);
    assert_eq!(&h[..4], &[0xdd, 0xaf, 0x35, 0xa1]);
    assert_eq!(h, fingerprint(&b"abc".to_vec()));
    assert_ne!(h, fingerprint(&b"abd".to_vec()));
}

#[test]
fn animation_is_decompressed() {
    let doc = br#"{"w":512,"h":512}"#;
    assert_eq!(decompress_animation(&gzip(doc)).unwrap(), doc.to_vec());
    assert_eq!(decompress_animation(&b"not gzip".to_vec()).unwrap_err(), NormalizeError::Decompress);
    match normalize(gzip(doc), "s/a.tgs".to_string()).unwrap() {
        NormalizeStep::Animation(d, p) => {
            assert_eq!(d, doc.to_vec());
            assert_eq!(p, "s/a.tgs");
        }
        NormalizeStep::Ready(_) => panic!("animation expected"),
    }
    assert_eq!(
        normalize(b"junk".to_vec(), "s/a.tgs".to_string()).unwrap_err(),
        NormalizeError::Decompress
    );
}

#[test]
fn animation_payload_names() {
    let p = animation_payload(vec![1, 2], Some(vec![9]), "s/a.tgs".to_string(), 100, 80);
    assert_eq!((p.data, p.path.as_str(), p.width, p.height), (vec![9], "s/a.tgs.gif", 100, 80));
    let p = animation_payload(vec![1, 2], None, "s/a.tgs".to_string(), 100, 80);
    assert_eq!((p.data, p.path.as_str()), (vec![1, 2], "s/a.tgs.json"));
}

#[test]
fn raster_header_is_read() {
    let p = raster_payload(WEBP_1X1.to_vec(), "s/a.webp".to_string()).unwrap();
    assert_eq!((p.width, p.height), (1, 1));
    assert_eq!(p.data, WEBP_1X1.to_vec());
    assert_eq!(
        raster_payload(b"garbage".to_vec(), "s/a.webp".to_string()).unwrap_err(),
        NormalizeError::RasterHeader
    );
    match normalize(WEBP_1X1.to_vec(), "s/a.webp".to_string()).unwrap() {
        NormalizeStep::Ready(p) => assert_eq!((p.width, p.height), (1, 1)),
        NormalizeStep::Animation(..) => panic!("raster expected"),
    }
}

#[test]
fn store_load_skips_bad_lines() {
    let lines = vec![
        Some(StoreRecord { hash: vec![1; 64], url: "mxc://a".to_string() }),
        None,
        Some(StoreRecord { hash: vec![2; 63], url: "mxc://short".to_string() }),
        Some(StoreRecord { hash: vec![3; 64], url: "mxc://c".to_string() }),
    ];
    let (store, skipped) = FingerprintStore::load(lines);
    assert_eq!(skipped, vec![2, 3]);
    assert_eq!(store.lookup(&vec![1; 64]).unwrap(), "mxc://a");
    assert_eq!(store.lookup(&vec![3; 64]).unwrap(), "mxc://c");
    assert!(store.lookup(&vec![2; 63]).is_none());
}

#[test]
fn store_round_trip_of_records() {
    let recs: Vec<StoreRecord> = (0..5u8)
        .map(|i| StoreRecord { hash: vec![i; 64], url: format!("mxc://{}", i) })
        .collect();
    let (store, skipped) = FingerprintStore::load(recs.into_iter().map(Some).collect());
    assert!(skipped.is_empty());
    for i in 0..5u8 {
        assert_eq!(store.lookup(&vec![i; 64]).unwrap(), format!("mxc://{}", i));
    }
}

#[test]
fn store_insert_then_lookup() {
    let mut store = FingerprintStore::new();
    assert!(store.lookup(&vec![7; 64]).is_none());
    store.insert(StoreRecord { hash: vec![7; 64], url: "mxc://x".to_string() });
    store.insert(StoreRecord { hash: vec![7; 64], url: "mxc://y".to_string() });
    assert_eq!(store.lookup(&vec![7; 64]).unwrap(), "mxc://y");
}

#[test]
fn upload_disabled_skips() {
    let store = FingerprintStore::new();
    let step = prepare_upload(&store, &source_sticker(0), &payload(b"x", "a.webp"), false).unwrap();
    assert!(matches!(step, UploadStep::Skip));
}

#[test]
fn upload_needed_on_miss() {
    let store = FingerprintStore::new();
    let step = prepare_upload(&store, &source_sticker(3), &payload(b"xyz", "s/a.webp"), true).unwrap();
    match step {
        UploadStep::Upload(p) => {
            assert_eq!(p.file_hash, fingerprint(&b"xyz".to_vec()));
            assert_eq!(p.mimetype, "image/webp");
            assert_eq!(p.position, 3);
            assert_eq!(p.file_size, 3);
            assert_eq!(p.emoji, "e3");
            let r = p.into_sticker("mxc://new".to_string());
            assert_eq!(r.mxc_url, "mxc://new");
            assert!(!r.deduplicated);
        }
        _ => panic!("upload expected"),
    }
}

#[test]
fn mimetype_failure_is_reported() {
    let store = FingerprintStore::new();
    let r = prepare_upload(&store, &source_sticker(0), &payload(b"x", "s/noext"), true);
    assert!(matches!(r, Err(ImportError::Normalize(NormalizeError::Mimetype))));
}

#[test]
fn same_content_reuses_reference() {
    let mut store = FingerprintStore::new();
    let first = payload(b"same bytes", "s/a.webp");
    let again = payload(b"same bytes", "s/b.webp");
    assert_eq!(fingerprint(&first.data), fingerprint(&again.data));
    let rec = match prepare_upload(&store, &source_sticker(0), &first, true).unwrap() {
        UploadStep::Upload(p) => p.into_sticker("mxc://first".to_string()),
        _ => panic!("upload expected"),
    };
    for r in store_records(&vec![rec]) {
        store.insert(r);
    }
    match prepare_upload(&store, &source_sticker(1), &again, true).unwrap() {
        UploadStep::Reuse(r) => {
            assert_eq!(r.mxc_url, "mxc://first");
            assert!(r.deduplicated);
            assert_eq!(r.position, 1);
        }
        _ => panic!("reuse expected"),
    }
}

#[test]
fn partial_failure_is_positional() {
    let outcomes: Vec<StickerOutcome> = (0..5)
        .map(|i| {
            if i == 2 {
                StickerOutcome::Failed(ImportError::Normalize(NormalizeError::RasterHeader))
            } else {
                StickerOutcome::Imported(record(i, false))
            }
        })
        .collect();
    let r = reduce_outcomes(outcomes);
    let positions: Vec<usize> = r.stickers.iter().map(|s| s.position).collect();
    assert_eq!(positions, vec![0, 1, 3, 4]);
    assert_eq!(r.errors.len(), 1);
    assert_eq!(r.errors[0].0, 2);
    assert!(matches!(r.errors[0].1, ImportError::Normalize(NormalizeError::RasterHeader)));
}

#[test]
fn completion_order_does_not_matter() {
    let mut slots = OutcomeSlots::new(4);
    for i in (0..4).rev() {
        if i == 1 {
            slots.place(i, StickerOutcome::Failed(ImportError::Upload("down".to_string())));
        } else {
            slots.place(i, StickerOutcome::Imported(record(i, false)));
        }
    }
    slots.place(9, StickerOutcome::Imported(record(9, false)));
    let r = slots.finish();
    let positions: Vec<usize> = r.stickers.iter().map(|s| s.position).collect();
    assert_eq!(positions, vec![0, 2, 3]);
    assert_eq!(r.errors.len(), 1);
    assert_eq!(r.errors[0].0, 1);
}

#[test]
fn unfinished_slots_are_excluded() {
    let mut slots = OutcomeSlots::new(3);
    slots.place(1, StickerOutcome::Imported(record(1, false)));
    let r = slots.finish();
    assert_eq!(r.stickers.len(), 1);
    assert!(r.errors.is_empty());
}

#[test]
fn no_upload_mode_yields_nothing() {
    let store = FingerprintStore::new();
    let outcomes: Vec<StickerOutcome> = (0..4)
        .map(|i| {
            match prepare_upload(&store, &source_sticker(i), &payload(b"x", "a.webp"), false).unwrap() {
                UploadStep::Skip => StickerOutcome::Excluded,
                _ => panic!("skip expected"),
            }
        })
        .collect();
    let r = reduce_outcomes(outcomes);
    assert_eq!(r.stickers.len(), 0);
    assert_eq!(r.errors.len(), 0);
}

#[test]
fn store_records_only_uploaded() {
    let recs = store_records(&vec![record(0, false), record(1, true), record(2, false)]);
    let urls: Vec<&str> = recs.iter().map(|r| r.url.as_str()).collect();
    assert_eq!(urls, vec!["mxc://host/0", "mxc://host/2"]);
    assert_eq!(recs[1].hash, vec![2u8; 64]);
}

#[test]
fn empty_pack_is_flagged() {
    let p = assemble(&pack(0), Vec::new());
    assert!(p.empty);
    assert_eq!(p.stickers.len(), 0);
    assert_eq!(p.id, "tg_name_cats");
    assert_eq!(p.title, "Cats");
}

#[test]
fn pack_import_assembles() {
    let outcomes = vec![
        StickerOutcome::Imported(record(0, false)),
        StickerOutcome::Failed(ImportError::Fetch("timeout".to_string())),
        StickerOutcome::Imported(record(2, true)),
    ];
    let (dest, errors) = pack(3).import(outcomes);
    assert!(!dest.empty);
    assert_eq!(dest.stickers.len(), 2);
    assert_eq!(dest.id, "tg_name_cats");
    assert_eq!(dest.tg_pack.name, "cats");
    assert_eq!(errors.len(), 1);
    assert_eq!(errors[0].0, 1);
}

#[test]
fn positions_are_stamped() {
    let mut p = pack(3);
    for s in p.stickers.iter_mut() {
        s.position = 99;
        s.pack_name = String::new();
    }
    let p = p.stamp_positions();
    for (i, s) in p.stickers().iter().enumerate() {
        assert_eq!(s.position, i);
        assert_eq!(s.pack_name, "cats");
        assert_eq!(s.emoji, format!("e{}", i));
    }
    assert_eq!(p.name(), "cats");
    assert_eq!(*p.is_animated(), false);
}
