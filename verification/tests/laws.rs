use pxl::diff::{diff_sprites, generate_summary, PaletteChange, PaletteRef, RegionChange, Sprite};
use pxl::pixels::{detect_shift, PixelSet};
use pxl::diff::format_diff;
use pxl::token_map::TokenMap;

fn colors(pairs: &[(&str, &str)]) -> TokenMap<String> {
    let mut p = TokenMap::new();
    for (k, v) in pairs {
        p.insert(k.to_string(), v.to_string());
    }
    p
}

fn shape(points: &[(i32, i32)]) -> PixelSet {
    let mut s = PixelSet::new();
    for (x, y) in points {
        s.insert(*x, *y);
    }
    s
}

fn sprite(regions: Vec<(&str, PixelSet)>) -> Sprite {
    let mut m = TokenMap::new();
    for (t, p) in regions {
        m.insert(t.to_string(), p);
    }
    Sprite {
        name: "s".to_string(),
        size: Some([8, 8]),
        palette: PaletteRef::Inline(TokenMap::new()),
        regions: Some(m),
    }
}

#[test]
fn identical_sprite_has_no_differences() {
    let s = sprite(vec![("a", shape(&[(1, 1), (2, 2)]))]);
    let p = colors(&[("a", "#FFF")]);
    let d = diff_sprites(&s, &s, &p, &p);
    assert!(d.is_empty());
    assert_eq!(d.summary, "No differences");
}

#[test]
fn summary_says_no_differences_only_when_empty() {
    let a = sprite(vec![("a", shape(&[(1, 1)]))]);
    let b = sprite(vec![("a", shape(&[(1, 1)]))]);
    let p = colors(&[]);
    let q = colors(&[("k", "#000")]);
    assert_eq!(diff_sprites(&a, &b, &p, &p).summary, "No differences");
    let d = diff_sprites(&a, &b, &p, &q);
    assert!(!d.is_empty());
    assert_ne!(d.summary, "No differences");
}

#[test]
fn any_difference_is_reported() {
    // Same size, same palette, different pixels: still a difference.
    let a = sprite(vec![("a", shape(&[(0, 0), (1, 0)]))]);
    let b = sprite(vec![("a", shape(&[(0, 0), (0, 1)]))]);
    let p = colors(&[]);
    let d = diff_sprites(&a, &b, &p, &p);
    assert!(!d.is_empty());
    assert_eq!(d.region_changes, vec![RegionChange::Changed { token: "a".to_string(), differing: 2 }]);
}

#[test]
fn comparison_the_other_way_is_the_mirror_image() {
    let a = sprite(vec![("a", shape(&[(1, 1), (2, 1)])), ("gone", shape(&[(0, 0)])), ("c", shape(&[(0, 0), (5, 5)]))]);
    let b = sprite(vec![("a", shape(&[(1, 3), (2, 3)])), ("new", shape(&[(0, 0)])), ("c", shape(&[(0, 0)]))]);
    let pa = colors(&[("x", "#1"), ("y", "#2")]);
    let pb = colors(&[("y", "#3"), ("z", "#4")]);
    let ab = diff_sprites(&a, &b, &pa, &pb);
    let ba = diff_sprites(&b, &a, &pb, &pa);
    assert_eq!(
        ab.region_changes,
        vec![
            RegionChange::Shifted { token: "a".to_string(), dx: 0, dy: 2 },
            RegionChange::Changed { token: "c".to_string(), differing: 1 },
            RegionChange::Removed { token: "gone".to_string() },
            RegionChange::Added { token: "new".to_string() },
        ]
    );
    assert_eq!(
        ba.region_changes,
        vec![
            RegionChange::Shifted { token: "a".to_string(), dx: 0, dy: -2 },
            RegionChange::Changed { token: "c".to_string(), differing: 1 },
            RegionChange::Added { token: "gone".to_string() },
            RegionChange::Removed { token: "new".to_string() },
        ]
    );
    assert_eq!(
        ab.palette_changes,
        vec![
            PaletteChange::Removed { token: "x".to_string() },
            PaletteChange::Changed { token: "y".to_string(), old_color: "#2".to_string(), new_color: "#3".to_string() },
            PaletteChange::Added { token: "z".to_string(), color: "#4".to_string() },
        ]
    );
    assert_eq!(
        ba.palette_changes,
        vec![
            PaletteChange::Added { token: "x".to_string(), color: "#1".to_string() },
            PaletteChange::Changed { token: "y".to_string(), old_color: "#3".to_string(), new_color: "#2".to_string() },
            PaletteChange::Removed { token: "z".to_string() },
        ]
    );
}

#[test]
fn a_detected_shift_is_a_translation() {
    let a = shape(&[(1, 1), (3, 2), (2, 5)]);
    let b = shape(&[(4, 0), (6, 1), (5, 4)]);
    assert_eq!(detect_shift(&a, &b), Some((3, -1)));
    assert_eq!(detect_shift(&b, &a), Some((-3, 1)));
}

#[test]
fn report_says_no_differences_found_only_when_empty() {
    let s = sprite(vec![("a", shape(&[(1, 1)]))]);
    let t = sprite(vec![("a", shape(&[(1, 2)]))]);
    let p = colors(&[]);
    let same = format_diff("s", &diff_sprites(&s, &s, &p, &p), "a", "b");
    assert!(same.lines().any(|l| l == "No differences found."));
    let other = format_diff("s", &diff_sprites(&s, &t, &p, &p), "a", "b");
    assert!(!other.lines().any(|l| l == "No differences found."));
}

#[test]
fn summary_ignores_the_order_of_palette_changes() {
    let added = PaletteChange::Added { token: "a".to_string(), color: "#1".to_string() };
    let removed = PaletteChange::Removed { token: "b".to_string() };
    let changed = PaletteChange::Changed { token: "c".to_string(), old_color: "#2".to_string(), new_color: "#3".to_string() };
    let one = vec![added.clone(), removed.clone(), changed.clone()];
    let other = vec![changed, added, removed];
    let r1 = vec![RegionChange::Added { token: "x".to_string() }];
    let r2 = vec![RegionChange::Removed { token: "y".to_string() }];
    assert_eq!(generate_summary(&None, &one, &r1), generate_summary(&None, &other, &r2));
}
