use pxl::diff::{
    diff_sprites, generate_summary, DimensionChange, Palette, PaletteChange, PaletteRef,
    RegionChange, Sprite, SpriteDiff,
};
use pxl::pixels::PixelSet;
use pxl::diff::format_diff;
use pxl::token_map::TokenMap;

fn colors(pairs: &[(&str, &str)]) -> Palette {
    let mut p = TokenMap::new();
    for (k, v) in pairs {
        p.insert(k.to_string(), v.to_string());
    }
    p
}

fn block(x: i32, y: i32, w: i32, h: i32) -> PixelSet {
    let mut s = PixelSet::new();
    for py in y..y + h {
        for px in x..x + w {
            s.insert(px, py);
        }
    }
    s
}

fn regions(list: Vec<(&str, PixelSet)>) -> TokenMap<PixelSet> {
    let mut m = TokenMap::new();
    for (t, p) in list {
        m.insert(t.to_string(), p);
    }
    m
}

fn hero_pair() -> (Sprite, Sprite, Palette, Palette) {
    let pa = colors(&[("{y}", "#F00"), ("{z}", "#000"), ("{w}", "#222")]);
    let pb = colors(&[("{x}", "#FFF"), ("{z}", "#111"), ("{w}", "#222")]);
    let a = Sprite {
        name: "hero".to_string(),
        size: Some([8, 8]),
        palette: PaletteRef::Inline(pa.copied()),
        regions: Some(regions(vec![("a", block(1, 1, 2, 2)), ("b", block(0, 0, 3, 3))])),
    };
    let b = Sprite {
        name: "hero".to_string(),
        size: Some([16, 16]),
        palette: PaletteRef::Inline(pb.copied()),
        regions: Some(regions(vec![("a", block(1, 0, 2, 2)), ("b", block(0, 0, 3, 2))])),
    };
    (a, b, pa, pb)
}

#[test]
fn full_comparison_finds_every_kind_of_change() {
    let (a, b, pa, pb) = hero_pair();
    let diff = diff_sprites(&a, &b, &pa, &pb);
    assert_eq!(diff.dimension_change, Some(DimensionChange { old: (8, 8), new: (16, 16) }));
    assert_eq!(
        diff.region_changes,
        vec![
            RegionChange::Shifted { token: "a".to_string(), dx: 0, dy: -1 },
            RegionChange::Changed { token: "b".to_string(), differing: 3 },
        ]
    );
    assert_eq!(
        diff.palette_changes,
        vec![
            PaletteChange::Added { token: "{x}".to_string(), color: "#FFF".to_string() },
            PaletteChange::Removed { token: "{y}".to_string() },
            PaletteChange::Changed {
                token: "{z}".to_string(),
                old_color: "#000".to_string(),
                new_color: "#111".to_string(),
            },
        ]
    );
    assert_eq!(
        diff.summary,
        "Dimensions: 8x8 → 16x16. Regions: 2 changed. Palette: +1 token(s), -1 token(s), ~1 color(s)"
    );
    assert!(diff.presence_change.is_none());
}

#[test]
fn full_report_text() {
    let (a, b, pa, pb) = hero_pair();
    let diff = diff_sprites(&a, &b, &pa, &pb);
    let text = format_diff("hero", &diff, "a.pxl", "b.pxl");
    let expected = "Comparing sprite \"hero\" (a.pxl) vs (b.pxl):\n\
\n\
Dimensions: 8x8 → 16x16\n\
\n\
Region changes:\n  \
→ a shifted (0, -1)\n  \
~ b shape changed (3 pixel(s) differ)\n\
\n\
Token changes:\n  \
+ {x} = #FFF\n  \
- {y}\n  \
~ {z} color: #000 → #111\n\
\n\
Summary: Dimensions: 8x8 → 16x16. Regions: 2 changed. Palette: +1 token(s), -1 token(s), ~1 color(s)";
    assert_eq!(text, expected);
}

#[test]
fn report_of_an_empty_diff() {
    let diff = SpriteDiff {
        dimension_change: None,
        palette_changes: Vec::new(),
        region_changes: Vec::new(),
        presence_change: None,
        summary: "No differences".to_string(),
    };
    assert_eq!(
        format_diff("s", &diff, "a", "b"),
        "Comparing sprite \"s\" (a) vs (b):\n\nNo differences found."
    );
}

#[test]
fn report_with_same_dimensions() {
    let diff = SpriteDiff {
        dimension_change: None,
        palette_changes: vec![PaletteChange::Removed { token: "t".to_string() }],
        region_changes: vec![
            RegionChange::Added { token: "n".to_string() },
            RegionChange::Removed { token: "g".to_string() },
            RegionChange::Shifted { token: "s".to_string(), dx: -2147483648, dy: 12 },
        ],
        presence_change: None,
        summary: "S".to_string(),
    };
    assert_eq!(
        format_diff("s", &diff, "a", "b"),
        "Comparing sprite \"s\" (a) vs (b):\n\nDimensions: Same\n\nRegion changes:\n  + n (new region)\n  - g (region gone)\n  → s shifted (-2147483648, 12)\n\nToken changes:\n  - t\n\nSummary: S"
    );
}

#[test]
fn summary_texts() {
    assert_eq!(generate_summary(&None, &[], &[]), "No differences");
    let dim = Some(DimensionChange { old: (0, 10), new: (4294967295, 7) });
    assert_eq!(generate_summary(&dim, &[], &[]), "Dimensions: 0x10 → 4294967295x7");
    let pcs = vec![
        PaletteChange::Changed {
            token: "a".to_string(),
            old_color: "1".to_string(),
            new_color: "2".to_string(),
        },
        PaletteChange::Changed {
            token: "b".to_string(),
            old_color: "1".to_string(),
            new_color: "2".to_string(),
        },
    ];
    assert_eq!(generate_summary(&None, &pcs, &[]), "Palette: ~2 color(s)");
    let rcs = vec![RegionChange::Added { token: "r".to_string() }];
    assert_eq!(generate_summary(&None, &[], &rcs), "Regions: 1 changed");
}

#[test]
fn sprites_without_size_or_regions_are_not_compared_geometrically() {
    let (mut a, b, pa, pb) = hero_pair();
    a.size = None;
    let diff = diff_sprites(&a, &b, &pa, &pb);
    assert!(diff.region_changes.is_empty());
    assert_eq!(diff.dimension_change, Some(DimensionChange { old: (0, 0), new: (16, 16) }));
    let (a, mut b, pa, pb) = hero_pair();
    b.regions = None;
    let diff = diff_sprites(&a, &b, &pa, &pb);
    assert!(diff.region_changes.is_empty());
}
