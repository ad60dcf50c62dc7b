use chlorophyll::cluster::{cluster_pixels, Cluster};
use chlorophyll::palette::{compute_palette, palette_of, PaletteError};
use chlorophyll::rank::rank_clusters;
use chlorophyll::record::{record_decode, record_encode};

fn png_bytes(w: u32, h: u32, color: [u8; 3]) -> Vec<u8> {
    let img = image::RgbImage::from_pixel(w, h, image::Rgb(color));
    let mut buf: Vec<u8> = Vec::new();
    image::DynamicImage::ImageRgb8(img)
        .write_to(&mut std::io::Cursor::new(&mut buf), image::ImageFormat::Png)
        .unwrap();
    buf
}

#[test]
fn deterministic_palette_for_same_bytes() {
    let bytes = png_bytes(16, 16, [200, 30, 30]);
    let first = compute_palette(&bytes).unwrap();
    let second = compute_palette(&bytes).unwrap();
    assert_eq!(first, second);
    assert_eq!(first.len(), 8);
}

#[test]
fn solid_red_image_is_dominated_by_red() {
    let bytes = png_bytes(8, 8, [255, 0, 0]);
    let palette = compute_palette(&bytes).unwrap();
    assert_eq!(palette.len(), 8);
    for c in &palette {
        assert_eq!(*c, (255, 0, 0));
    }
}

#[test]
fn gray_image_still_yields_full_palette() {
    let bytes = png_bytes(4, 4, [128, 128, 128]);
    let palette = compute_palette(&bytes).unwrap();
    assert_eq!(palette.len(), 8);
    for c in &palette {
        assert_eq!(*c, (128, 128, 128));
    }
}

#[test]
fn undecodable_bytes_fail_with_decode_error() {
    let bytes: Vec<u8> = b"definitely not an image".to_vec();
    let r = compute_palette(&bytes);
    assert!(matches!(r, Err(PaletteError::Decode(_))));
}

#[test]
fn saturated_color_ranks_first() {
    let pixels: Vec<(u8, u8, u8)> = vec![(200, 30, 30), (5, 5, 5), (250, 250, 250)];
    let clusters = cluster_pixels(&pixels);
    let ranked = rank_clusters(&clusters);
    assert_eq!(ranked.len(), 8);
    assert_eq!(ranked[0], (200, 30, 30));
    let last = ranked[7];
    assert!(last == (5, 5, 5) || last == (250, 250, 250));
}

#[test]
fn zero_count_clusters_rank_after_counted_ones() {
    let clusters = vec![
        Cluster { r: 10, g: 10, b: 10, count: 0 },
        Cluster { r: 30, g: 30, b: 30, count: 5 },
    ];
    let ranked = rank_clusters(&clusters);
    assert_eq!(ranked, vec![(30, 30, 30), (10, 10, 10)]);
}

#[test]
fn higher_vibrancy_score_ranks_earlier() {
    // 170^3 / (255 * 230^2) beats 90^3 / (255 * 210^2).
    let clusters = vec![
        Cluster { r: 150, g: 60, b: 60, count: 1 },
        Cluster { r: 200, g: 30, b: 30, count: 1 },
    ];
    let ranked = rank_clusters(&clusters);
    assert_eq!(ranked, vec![(200, 30, 30), (150, 60, 60)]);
}

#[test]
fn fallback_ranks_by_count_when_nothing_is_admissible() {
    // Both gray, so inadmissible; the fallback score count * (1 + s)
    // reduces to the member count.
    let clusters = vec![
        Cluster { r: 128, g: 128, b: 128, count: 2 },
        Cluster { r: 100, g: 100, b: 100, count: 10 },
        Cluster { r: 10, g: 10, b: 10, count: 50 },
    ];
    let ranked = rank_clusters(&clusters);
    // The near-black cluster sits outside the fallback lightness band and
    // comes last despite its count.
    assert_eq!(ranked, vec![(100, 100, 100), (128, 128, 128), (10, 10, 10)]);
}

#[test]
fn record_bytes_are_the_canonical_json_text() {
    let palette: Vec<(u8, u8, u8)> = vec![
        (0, 0, 0),
        (255, 255, 255),
        (1, 2, 3),
        (10, 20, 30),
        (100, 200, 255),
        (9, 99, 199),
        (128, 128, 128),
        (200, 30, 30),
    ];
    let rec = record_encode(&palette);
    assert_eq!(
        String::from_utf8(rec).unwrap(),
        "[[0,0,0],[255,255,255],[1,2,3],[10,20,30],[100,200,255],[9,99,199],[128,128,128],[200,30,30]]"
    );
}

#[test]
fn record_round_trips() {
    let palette: Vec<(u8, u8, u8)> = vec![
        (0, 0, 0),
        (255, 255, 255),
        (1, 2, 3),
        (10, 20, 30),
        (100, 200, 255),
        (9, 99, 199),
        (128, 128, 128),
        (200, 30, 30),
    ];
    let rec = record_encode(&palette);
    assert_eq!(record_decode(&rec), Some(palette));
}

#[test]
fn record_is_plain_json_triples() {
    let palette: Vec<(u8, u8, u8)> = vec![
        (0, 0, 0),
        (255, 255, 255),
        (1, 2, 3),
        (10, 20, 30),
        (100, 200, 255),
        (9, 99, 199),
        (128, 128, 128),
        (200, 30, 30),
    ];
    let rec = record_encode(&palette);
    let text = String::from_utf8(rec).unwrap();
    let parsed: Vec<[u8; 3]> = serde_json::from_str(&text).unwrap();
    let back: Vec<(u8, u8, u8)> = parsed.iter().map(|t| (t[0], t[1], t[2])).collect();
    assert_eq!(back, palette);
}

#[test]
fn malformed_records_decode_to_none() {
    for bad in [
        &b"garbage"[..],
        &b"[]"[..],
        &b"[[1,2,3]]"[..],
        &b"[[01,2,3],[1,2,3],[1,2,3],[1,2,3],[1,2,3],[1,2,3],[1,2,3],[1,2,3]]"[..],
        &b"[[256,2,3],[1,2,3],[1,2,3],[1,2,3],[1,2,3],[1,2,3],[1,2,3],[1,2,3]]"[..],
        &b"[[1, 2,3],[1,2,3],[1,2,3],[1,2,3],[1,2,3],[1,2,3],[1,2,3],[1,2,3]]"[..],
        &b"[[1,2,3],[1,2,3],[1,2,3],[1,2,3],[1,2,3],[1,2,3],[1,2,3],[1,2,3]] "[..],
        &b"[[1,2,3],[1,2,3],[1,2,3],[1,2,3],[1,2,3],[1,2,3],[1,2,3],[1,2,3],[1,2,3]]"[..],
    ] {
        assert_eq!(record_decode(&bad.to_vec()), None, "accepted: {:?}", bad);
    }
}

#[test]
fn miss_computes_and_writes_then_hit_reads_without_recomputing() {
    let bytes = png_bytes(16, 16, [200, 30, 30]);
    let miss = palette_of(&bytes, None).unwrap();
    let rec = miss.record.clone().expect("a fresh computation must hand back a record");
    assert_eq!(record_decode(&rec), Some(miss.colors.clone()));

    // The second request carries bytes that cannot be decoded, so returning
    // the same palette proves the extraction pipeline did not run again.
    let junk: Vec<u8> = b"not an image".to_vec();
    let hit = palette_of(&junk, Some(&rec)).unwrap();
    assert_eq!(hit.colors, miss.colors);
    assert!(hit.record.is_none());
}

#[test]
fn corrupt_record_recovers_by_recomputing() {
    let bytes = png_bytes(16, 16, [200, 30, 30]);
    let corrupt: Vec<u8> = b"{\"oops\": 1}".to_vec();
    let r = palette_of(&bytes, Some(&corrupt)).unwrap();
    let fresh = palette_of(&bytes, None).unwrap();
    assert_eq!(r.colors, fresh.colors);
    assert!(r.record.is_some());
}

#[test]
fn corrupt_record_with_undecodable_bytes_still_fails_cleanly() {
    let junk: Vec<u8> = b"not an image".to_vec();
    let corrupt: Vec<u8> = b"][".to_vec();
    let r = palette_of(&junk, Some(&corrupt));
    assert!(matches!(r, Err(PaletteError::Decode(_))));
}
