use cmrs::config::Corner;
use cmrs::icons::{
    badge_edge, compose_size, encode_ico, fix_alpha, generate_icon, icon_file, icon_sizes,
    over_at, plan_icon, BadgeSource, Image,
};

fn solid(size: usize, bgra: [u8; 4]) -> Vec<u8> {
    let mut v = Vec::new();
    for _ in 0..size * size {
        v.extend_from_slice(&bgra);
    }
    v
}

fn pixel(px: &[u8], size: usize, x: usize, y: usize) -> [u8; 4] {
    let i = (y * size + x) * 4;
    [px[i], px[i + 1], px[i + 2], px[i + 3]]
}

#[test]
fn opaque_badge_replaces_its_corner() {
    let mut dst = solid(4, [10, 20, 30, 255]);
    let src = solid(2, [1, 2, 3, 255]);
    over_at(&mut dst, 4, &src, 2, Corner::BottomRight);
    assert_eq!(pixel(&dst, 4, 3, 3), [1, 2, 3, 255]);
    assert_eq!(pixel(&dst, 4, 2, 2), [1, 2, 3, 255]);
    assert_eq!(pixel(&dst, 4, 1, 1), [10, 20, 30, 255]);
    assert_eq!(pixel(&dst, 4, 3, 0), [10, 20, 30, 255]);
}

#[test]
fn badge_corners() {
    let src = solid(1, [9, 9, 9, 255]);
    for (corner, x, y) in [
        (Corner::TopLeft, 0, 0),
        (Corner::TopRight, 2, 0),
        (Corner::BottomLeft, 0, 2),
        (Corner::BottomRight, 2, 2),
    ] {
        let mut dst = solid(3, [0, 0, 0, 255]);
        over_at(&mut dst, 3, &src, 1, corner);
        assert_eq!(pixel(&dst, 3, x, y), [9, 9, 9, 255]);
        let changed = (0..9).filter(|p| dst[p * 4] == 9).count();
        assert_eq!(changed, 1);
    }
}

#[test]
fn transparent_badge_changes_nothing_here() {
    let mut dst = solid(4, [10, 20, 30, 200]);
    let before = dst.clone();
    let src = solid(4, [1, 2, 3, 0]);
    over_at(&mut dst, 4, &src, 4, Corner::TopLeft);
    assert_eq!(dst, before);
}

#[test]
fn half_transparent_badge_blends() {
    let mut dst = solid(1, [0, 0, 0, 255]);
    let src = solid(1, [255, 255, 255, 51]);
    over_at(&mut dst, 1, &src, 1, Corner::TopLeft);
    // (255 * 51 + 0 * 204) / 255 = 51; alpha 51 + 255 * 204 / 255 = 255
    assert_eq!(pixel(&dst, 1, 0, 0), [51, 51, 51, 255]);

    let mut dst = solid(1, [100, 100, 100, 0]);
    over_at(&mut dst, 1, &src, 1, Corner::TopLeft);
    assert_eq!(pixel(&dst, 1, 0, 0), [255, 255, 255, 51]);
}

#[test]
fn alpha_from_mask_or_opaque() {
    let mut px = solid(2, [5, 5, 5, 0]);
    let mut mask = solid(2, [0, 0, 0, 0]);
    mask[4] = 255; // pixel 1 is transparent in the AND mask
    fix_alpha(&mut px, Some(&mask));
    assert_eq!(px[3], 255);
    assert_eq!(px[7], 0);
    assert_eq!(px[11], 255);

    let mut px = solid(2, [5, 5, 5, 0]);
    fix_alpha(&mut px, None);
    assert!(px.chunks(4).all(|c| c[3] == 255));

    let mut px = solid(2, [5, 5, 5, 0]);
    px[3] = 7;
    let before = px.clone();
    fix_alpha(&mut px, None);
    assert_eq!(px, before);
}

#[test]
fn ico_of_one_small_image() {
    // 1x1 image, alpha 0 -> masked.
    let img = Image { size: 1, px: vec![1, 2, 3, 0] };
    let ico = encode_ico(&[img]);
    let expected: Vec<u8> = [
        vec![0, 0, 1, 0, 1, 0],
        vec![1, 1, 0, 0, 1, 0, 32, 0, 48, 0, 0, 0, 22, 0, 0, 0],
        vec![40, 0, 0, 0, 1, 0, 0, 0, 2, 0, 0, 0, 1, 0, 32, 0, 0, 0, 0, 0, 8, 0, 0, 0],
        vec![0; 16],
        vec![1, 2, 3, 0],
        vec![0x80, 0, 0, 0],
    ]
    .concat();
    assert_eq!(ico, expected);
}

#[test]
fn ico_rows_are_bottom_up() {
    let mut px = solid(2, [0, 0, 0, 255]);
    px[0] = 7; // top-left pixel
    px[4 * 2 + 3] = 0; // bottom-left pixel transparent
    let ico = encode_ico(&[Image { size: 2, px }]);
    let data = &ico[6 + 16 + 40..];
    // first color row written is the bottom row
    assert_eq!(&data[0..4], &[0, 0, 0, 0]);
    assert_eq!(&data[8..12], &[7, 0, 0, 255]);
    // mask rows: bottom row first, its first pixel masked
    let mask = &data[16..];
    assert_eq!(mask, &[0x80, 0, 0, 0, 0, 0, 0, 0]);
    assert_eq!(ico.len(), 6 + 16 + 40 + 16 + 8);
}

#[test]
fn ico_directory_offsets() {
    let a = Image { size: 1, px: vec![0, 0, 0, 255] };
    let b = Image { size: 2, px: solid(2, [0, 0, 0, 255]) };
    let ico = encode_ico(&[a, b]);
    assert_eq!(&ico[4..6], &[2, 0]);
    let off0 = u32::from_le_bytes([ico[18], ico[19], ico[20], ico[21]]);
    let len0 = u32::from_le_bytes([ico[14], ico[15], ico[16], ico[17]]);
    let off1 = u32::from_le_bytes([ico[34], ico[35], ico[36], ico[37]]);
    assert_eq!(off0, 6 + 32);
    assert_eq!(len0, 40 + 4 + 4);
    assert_eq!(off1, off0 + len0);
    assert_eq!(ico.len() as u32, off1 + 40 + 16 + 8);
}

#[test]
fn empty_icon_is_not_written() {
    assert!(icon_file(&[]).is_none());
    assert!(icon_file(&[Image { size: 1, px: vec![0, 0, 0, 0] }]).is_some());
}

#[test]
fn sizes_and_badge_edges() {
    assert_eq!(icon_sizes(), vec![16, 20, 24, 32, 48, 64]);
    assert_eq!(badge_edge(16, true), 8);
    assert_eq!(badge_edge(20, true), 10);
    assert_eq!(badge_edge(64, true), 32);
    assert_eq!(badge_edge(12, true), 8);
    assert_eq!(badge_edge(16, false), 16);
}

#[test]
fn planning_icons() {
    assert!(plan_icon("  ", None).is_none());
    let p = plan_icon(" C:\\x.exe,3 ", Some(("UAC", Corner::TopLeft))).unwrap();
    assert_eq!(p.base, Some(("C:\\x.exe".to_string(), 3)));
    assert!(matches!(p.badge, Some((BadgeSource::Shield, Corner::TopLeft))));
    let p = plan_icon("", Some(("C:\\b.ico,1", Corner::BottomRight))).unwrap();
    assert!(p.base.is_none());
    match p.badge {
        Some((BadgeSource::File { path, index }, Corner::BottomRight)) => {
            assert_eq!(path, "C:\\b.ico");
            assert_eq!(index, 1);
        }
        _ => panic!("expected a file badge"),
    }
}

#[test]
fn composing_one_size() {
    // base and opaque badge: the badge lands at half size in its corner
    let canvas = solid(16, [1, 1, 1, 255]);
    let badge = solid(8, [2, 2, 2, 255]);
    let img = compose_size(16, Some(canvas), true, Some((Some(badge), Corner::BottomRight))).unwrap();
    assert_eq!(img.size, 16);
    assert_eq!(pixel(&img.px, 16, 15, 15), [2, 2, 2, 255]);
    assert_eq!(pixel(&img.px, 16, 0, 0), [1, 1, 1, 255]);

    // no base: the badge alone, full size
    let badge = solid(16, [3, 3, 3, 255]);
    let img = compose_size(16, None, false, Some((Some(badge), Corner::TopLeft))).unwrap();
    assert_eq!(img.px, solid(16, [3, 3, 3, 255]));

    // no base and the badge failed: skipped
    assert!(compose_size(16, None, false, Some((None, Corner::TopLeft))).is_none());
    // a base that failed without a badge: skipped
    assert!(compose_size(16, None, true, None).is_none());
    // base kept when only the badge failed
    let canvas = solid(16, [4, 4, 4, 255]);
    let img = compose_size(16, Some(canvas.clone()), true, Some((None, Corner::TopLeft))).unwrap();
    assert_eq!(img.px, canvas);
}

#[test]
fn generating_icons_with_stub_extraction() {
    let extract = |path: &str, _index: i32, size: i32| -> Option<Vec<u8>> {
        if path == "missing" {
            None
        } else {
            let v = if path == "badge" { 9 } else { 1 };
            Some(solid(size as usize, [v, v, v, 255]))
        }
    };
    let shield = || Some(("badge".to_string(), 0));
    let ico = generate_icon("base,0", Some(("uac", Corner::BottomRight)), shield, extract).unwrap();
    assert_eq!(&ico[0..6], &[0, 0, 1, 0, 6, 0]);
    assert_eq!(ico[6], 16);

    let none_shield = || None;
    assert!(generate_icon("base,0", Some(("uac", Corner::TopLeft)), none_shield, extract).is_none());
    assert!(generate_icon("missing,0", None, shield, extract).is_none());
    assert!(generate_icon("", None, shield, extract).is_none());
    let alone = generate_icon("", Some(("badge,0", Corner::TopLeft)), shield, extract).unwrap();
    assert_eq!(&alone[4..6], &[6, 0]);
    let copy = generate_icon("base,0", None, shield, extract).unwrap();
    assert_eq!(&copy[4..6], &[6, 0]);
}

#[test]
fn wrong_length_extraction_counts_as_failed() {
    let extract = |_: &str, _: i32, _: i32| -> Option<Vec<u8>> { Some(vec![0, 0, 0]) };
    let shield = || None;
    assert!(generate_icon("base,0", None, shield, extract).is_none());
}

#[test]
fn empty_badge_is_a_no_op() {
    let mut dst = solid(2, [1, 2, 3, 4]);
    let before = dst.clone();
    over_at(&mut dst, 2, &[], 0, Corner::BottomRight);
    over_at(&mut dst, 2, &[], -3, Corner::TopLeft);
    assert_eq!(dst, before);
}

#[test]
fn alpha_repair_ignores_a_partial_pixel() {
    let mut px = vec![9, 9, 9, 0, 7, 7];
    fix_alpha(&mut px, None);
    assert_eq!(px, vec![9, 9, 9, 255, 7, 7]);
}

#[test]
fn generated_icon_is_the_composed_images() {
    let extract = |path: &str, index: i32, size: i32| -> Option<Vec<u8>> {
        let v = if path == "badge" { 200 } else { 10 + index as u8 };
        Some(solid(size as usize, [v, v, v, 255]))
    };
    let shield = || None;
    let got = generate_icon("base,3", Some(("badge,0", Corner::TopRight)), shield, extract).unwrap();
    let mut images = Vec::new();
    for size in icon_sizes() {
        let bs = badge_edge(size, true);
        let base = solid(size as usize, [13, 13, 13, 255]);
        let badge = solid(bs as usize, [200, 200, 200, 255]);
        images.push(compose_size(size, Some(base), true, Some((Some(badge), Corner::TopRight))).unwrap());
    }
    assert_eq!(got, icon_file(&images).unwrap());
    // the badge covers the top-right quarter of the 32 x 32 image
    let img = &images[3];
    assert_eq!(img.size, 32);
    assert_eq!(pixel(&img.px, 32, 31, 0), [200, 200, 200, 255]);
    assert_eq!(pixel(&img.px, 32, 16, 15), [200, 200, 200, 255]);
    assert_eq!(pixel(&img.px, 32, 15, 0), [13, 13, 13, 255]);
    assert_eq!(pixel(&img.px, 32, 31, 16), [13, 13, 13, 255]);

    // without a base the badge stands alone at full size
    let alone = generate_icon(" ", Some(("badge,0", Corner::TopRight)), shield, extract).unwrap();
    let mut lone = Vec::new();
    for size in icon_sizes() {
        lone.push(compose_size(size, None, false, Some((Some(solid(size as usize, [200, 200, 200, 255])), Corner::TopRight))).unwrap());
    }
    assert_eq!(alone, icon_file(&lone).unwrap());
}
