use pxl::diff::{
    diff_sprites, get_sprite_dimensions, Palette, PaletteChange, PaletteRef, RegionChange, Sprite,
    SpriteDiff,
};
use pxl::pixels::PixelSet;
use pxl::diff::format_diff;
use pxl::token_map::TokenMap;

fn palette_of(pairs: &[(&str, &str)]) -> Palette {
    let mut p = TokenMap::new();
    for (k, v) in pairs {
        p.insert(k.to_string(), v.to_string());
    }
    p
}

/// The pixels of a `rect: [x, y, w, h]` region.
fn rect(x: i32, y: i32, w: i32, h: i32) -> PixelSet {
    let mut s = PixelSet::new();
    for py in y..y + h {
        for px in x..x + w {
            s.insert(px, py);
        }
    }
    s
}

fn sprite_with_regions(name: &str, regions: Vec<(&str, PixelSet)>) -> Sprite {
    let mut map = TokenMap::new();
    for (token, pixels) in regions {
        map.insert(token.to_string(), pixels);
    }
    Sprite {
        name: name.to_string(),
        size: Some([16, 16]),
        palette: PaletteRef::Inline(palette_of(&[
            ("_", "transparent"),
            ("a", "#FF0000"),
            ("b", "#00FF00"),
        ])),
        regions: Some(map),
    }
}

fn make_sprite(name: &str, palette: Palette, grid: Vec<&str>) -> Sprite {
    // Compute dimensions from grid (for backwards compatibility in tests)
    let height = grid.len() as u32;
    let width = grid.first().map(|r| r.matches('{').count() as u32).unwrap_or(0);

    Sprite {
        name: name.to_string(),
        size: if height > 0 && width > 0 { Some([width, height]) } else { None },
        palette: PaletteRef::Inline(palette),
        regions: None,
    }
}

#[test]
fn test_region_shift_detected() {
    // The walk-cycle bob: same shape, one region moved up a pixel.
    let a = sprite_with_regions("s", vec![("a", rect(4, 4, 3, 3)), ("b", rect(0, 0, 2, 2))]);
    let b = sprite_with_regions("s", vec![("a", rect(4, 3, 3, 3)), ("b", rect(0, 0, 2, 2))]);
    let palette = TokenMap::new();
    let diff = diff_sprites(&a, &b, &palette, &palette);
    assert_eq!(
        diff.region_changes,
        vec![RegionChange::Shifted { token: "a".to_string(), dx: 0, dy: -1 }]
    );
    assert!(!diff.is_empty(), "a shifted region is a difference");
}

#[test]
fn test_region_shape_change_detected() {
    let a = sprite_with_regions("s", vec![("a", rect(4, 4, 3, 3))]);
    let b = sprite_with_regions("s", vec![("a", rect(4, 4, 3, 2))]);
    let palette = TokenMap::new();
    let diff = diff_sprites(&a, &b, &palette, &palette);
    assert_eq!(
        diff.region_changes,
        vec![RegionChange::Changed { token: "a".to_string(), differing: 3 }]
    );
}

#[test]
fn test_region_added_and_removed_detected() {
    let a = sprite_with_regions("s", vec![("a", rect(4, 4, 3, 3))]);
    let b = sprite_with_regions("s", vec![("b", rect(4, 4, 3, 3))]);
    let palette = TokenMap::new();
    let diff = diff_sprites(&a, &b, &palette, &palette);
    assert!(diff.region_changes.contains(&RegionChange::Added { token: "b".to_string() }));
    assert!(diff.region_changes.contains(&RegionChange::Removed { token: "a".to_string() }));
}

#[test]
fn test_presence_diff_never_says_no_differences() {
    let diff = SpriteDiff {
        dimension_change: None,
        palette_changes: Vec::new(),
        region_changes: Vec::new(),
        presence_change: Some("Sprite 'x' removed in second file".to_string()),
        summary: "Sprite 'x' removed in second file".to_string(),
    };
    assert!(!diff.is_empty());
    let text = format_diff("x", &diff, "a.pxl", "b.pxl");
    assert!(text.contains("removed in second file"), "got: {}", text);
    assert!(!text.contains("No differences"), "got: {}", text);
}

#[test]
fn test_identical_sprites() {
    let palette = palette_of(&[("{_}", "#00000000"), ("{a}", "#FF0000")]);

    let sprite = make_sprite("test", palette.copied(), vec!["{_}{a}{_}", "{a}{a}{a}"]);

    let diff = diff_sprites(&sprite, &sprite, &palette, &palette);

    assert!(diff.is_empty());
    assert!(diff.dimension_change.is_none());
    assert!(diff.palette_changes.is_empty());
    assert!(diff.palette_changes.is_empty());
}

#[test]
fn test_color_change() {
    let palette_a = palette_of(&[("{_}", "#00000000"), ("{skin}", "#FFCC99")]);
    let palette_b = palette_of(&[("{_}", "#00000000"), ("{skin}", "#FFD4AA")]);

    let sprite_a = make_sprite("test", palette_a.copied(), vec!["{skin}{skin}"]);
    let sprite_b = make_sprite("test", palette_b.copied(), vec!["{skin}{skin}"]);

    let diff = diff_sprites(&sprite_a, &sprite_b, &palette_a, &palette_b);

    assert!(!diff.is_empty());
    assert_eq!(diff.palette_changes.len(), 1);
    assert!(matches!(
        &diff.palette_changes[0],
        PaletteChange::Changed {
            token,
            old_color,
            new_color
        } if token == "{skin}" && old_color == "#FFCC99" && new_color == "#FFD4AA"
    ));
}

#[test]
fn test_added_token() {
    let palette_a = palette_of(&[("{_}", "#00000000")]);
    let palette_b = palette_of(&[("{_}", "#00000000"), ("{highlight}", "#FFFFFF")]);

    let sprite_a = make_sprite("test", palette_a.copied(), vec!["{_}{_}"]);
    let sprite_b = make_sprite("test", palette_b.copied(), vec!["{_}{_}"]);

    let diff = diff_sprites(&sprite_a, &sprite_b, &palette_a, &palette_b);

    assert!(!diff.is_empty());
    assert_eq!(diff.palette_changes.len(), 1);
    assert!(matches!(
        &diff.palette_changes[0],
        PaletteChange::Added { token, color }
        if token == "{highlight}" && color == "#FFFFFF"
    ));
}

#[test]
fn test_removed_token() {
    let palette_a = palette_of(&[("{_}", "#00000000"), ("{old}", "#FF0000")]);
    let palette_b = palette_of(&[("{_}", "#00000000")]);

    let sprite_a = make_sprite("test", palette_a.copied(), vec!["{_}{_}"]);
    let sprite_b = make_sprite("test", palette_b.copied(), vec!["{_}{_}"]);

    let diff = diff_sprites(&sprite_a, &sprite_b, &palette_a, &palette_b);

    assert!(!diff.is_empty());
    assert_eq!(diff.palette_changes.len(), 1);
    assert!(matches!(
        &diff.palette_changes[0],
        PaletteChange::Removed { token } if token == "{old}"
    ));
}

#[test]
fn test_dimension_change() {
    let palette = palette_of(&[("{a}", "#FF0000")]);

    let sprite_a = Sprite {
        name: "test".to_string(),
        size: Some([8, 8]),
        palette: PaletteRef::Inline(palette.copied()),
        regions: None,
    };
    let sprite_b = Sprite {
        name: "test".to_string(),
        size: Some([16, 16]),
        palette: PaletteRef::Inline(palette.copied()),
        regions: None,
    };

    let diff = diff_sprites(&sprite_a, &sprite_b, &palette, &palette);

    assert!(diff.dimension_change.is_some());
    let dim = diff.dimension_change.unwrap();
    assert_eq!(dim.old, (8, 8));
    assert_eq!(dim.new, (16, 16));
}

#[test]
fn test_get_sprite_dimensions_from_size() {
    let sprite = Sprite {
        name: "test".to_string(),
        size: Some([16, 8]),
        palette: PaletteRef::Inline(TokenMap::new()),
        regions: None,
    };
    assert_eq!(get_sprite_dimensions(&sprite), (16, 8));
}

#[test]
fn test_get_sprite_dimensions_no_size() {
    // With grid format deprecated, sprites without size return (0, 0)
    let sprite = Sprite {
        name: "test".to_string(),
        size: None,
        palette: PaletteRef::Inline(TokenMap::new()),
        regions: None,
    };
    assert_eq!(get_sprite_dimensions(&sprite), (0, 0));
}
