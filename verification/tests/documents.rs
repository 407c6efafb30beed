use pxl::diff::{PaletteChange, PaletteRef, Sprite};
use pxl::documents::{diff_documents, PaletteDef, TtpObject};
use pxl::token_map::TokenMap;

fn colors(pairs: &[(&str, &str)]) -> TokenMap<String> {
    let mut p = TokenMap::new();
    for (k, v) in pairs {
        p.insert(k.to_string(), v.to_string());
    }
    p
}

fn sprite(name: &str, palette: PaletteRef) -> TtpObject {
    TtpObject::Sprite(Sprite { name: name.to_string(), size: Some([4, 4]), palette, regions: None })
}

fn named(n: &str) -> PaletteRef {
    PaletteRef::Named(n.to_string())
}

#[test]
fn documents_are_compared_sprite_by_sprite() {
    let a = vec![
        TtpObject::Palette(PaletteDef { name: "p".to_string(), colors: colors(&[("a", "#F00")]) }),
        sprite("s2", named("p")),
        sprite("s1", named("p")),
        TtpObject::Other,
    ];
    let b = vec![
        sprite("s3", named("p")),
        sprite("s1", named("p")),
        TtpObject::Palette(PaletteDef { name: "p".to_string(), colors: colors(&[("a", "#0F0")]) }),
    ];
    let diffs = diff_documents(&a, &b);
    let names: Vec<&str> = diffs.iter().map(|(n, _)| n.as_str()).collect();
    assert_eq!(names, vec!["s1", "s2", "s3"]);

    let s1 = &diffs[0].1;
    assert_eq!(
        s1.palette_changes,
        vec![PaletteChange::Changed {
            token: "a".to_string(),
            old_color: "#F00".to_string(),
            new_color: "#0F0".to_string(),
        }]
    );
    assert!(s1.presence_change.is_none());

    let s2 = &diffs[1].1;
    assert_eq!(s2.presence_change.as_deref(), Some("Sprite 's2' removed in second file"));
    assert_eq!(s2.summary, "Sprite 's2' removed in second file");
    assert!(!s2.is_empty());

    let s3 = &diffs[2].1;
    assert_eq!(s3.presence_change.as_deref(), Some("Sprite 's3' added in second file"));
    assert_eq!(s3.summary, "Sprite 's3' added in second file");
}

#[test]
fn later_definitions_replace_earlier_ones() {
    let a = vec![
        TtpObject::Palette(PaletteDef { name: "p".to_string(), colors: colors(&[("a", "#111")]) }),
        TtpObject::Palette(PaletteDef { name: "p".to_string(), colors: colors(&[("a", "#222")]) }),
        TtpObject::Sprite(Sprite { name: "s".to_string(), size: Some([1, 1]), palette: named("p"), regions: None }),
        TtpObject::Sprite(Sprite { name: "s".to_string(), size: Some([2, 2]), palette: named("p"), regions: None }),
    ];
    let b = vec![
        TtpObject::Palette(PaletteDef { name: "p".to_string(), colors: colors(&[("a", "#222")]) }),
        TtpObject::Sprite(Sprite { name: "s".to_string(), size: Some([2, 2]), palette: named("p"), regions: None }),
    ];
    let diffs = diff_documents(&a, &b);
    assert_eq!(diffs.len(), 1);
    assert!(diffs[0].1.is_empty());
    assert_eq!(diffs[0].1.summary, "No differences");
}

#[test]
fn an_undefined_named_palette_has_no_colors() {
    let a = vec![sprite("s", named("missing"))];
    let b = vec![sprite("s", PaletteRef::Inline(colors(&[("k", "#ABC")])))];
    let diffs = diff_documents(&a, &b);
    assert_eq!(
        diffs[0].1.palette_changes,
        vec![PaletteChange::Added { token: "k".to_string(), color: "#ABC".to_string() }]
    );
}

#[test]
fn empty_documents_give_no_entries() {
    assert!(diff_documents(&Vec::new(), &vec![TtpObject::Other]).is_empty());
}
