//! Comparison of two parsed documents, sprite by sprite.
use vstd::prelude::*;
use vstd::string::StringExecFns;
use crate::diff::{Palette, PaletteRef, Sprite, SpriteDiff, diff_sprites, is_sprite_diff};
use crate::text::{views};
use crate::token_map::{TokenMap, strictly_sorted, sorted_union_names};
use crate::text::string_of;

verus! {

/// A named palette defined in a document.
pub struct PaletteDef {
    pub name: String,
    pub colors: Palette,
}

/// An object of a parsed document, as far as comparison reads it.
pub enum TtpObject {
    Palette(PaletteDef),
    Sprite(Sprite),
    /// Any other kind of object; comparison skips it.
    Other,
}

/// The palettes of a document by name; a later definition replaces an earlier one.
pub open spec fn document_palettes(objs: Seq<TtpObject>) -> Map<Seq<char>, Map<Seq<char>, Seq<char>>>
    decreases objs.len(),
{
    if objs.len() == 0 {
        Map::empty()
    } else {
        let m = document_palettes(objs.drop_last());
        match objs.last() {
            TtpObject::Palette(p) => m.insert(p.name@, p.colors@),
            _ => m,
        }
    }
}

/// The sprites of a document by name; a later definition replaces an earlier one.
pub open spec fn document_sprites(objs: Seq<TtpObject>) -> Map<Seq<char>, Sprite>
    decreases objs.len(),
{
    if objs.len() == 0 {
        Map::empty()
    } else {
        let m = document_sprites(objs.drop_last());
        match objs.last() {
            TtpObject::Sprite(s) => m.insert(s.name@, s),
            _ => m,
        }
    }
}

/// The colors a palette reference stands for: a named palette that is not defined gives
/// no colors.
pub open spec fn resolved_palette(r: PaletteRef, palettes: Map<Seq<char>, Map<Seq<char>, Seq<char>>>) -> Map<Seq<char>, Seq<char>> {
    match r {
        PaletteRef::Named(name) => if palettes.contains_key(name@) {
            palettes[name@]
        } else {
            Map::empty()
        },
        PaletteRef::Inline(colors) => colors@,
    }
}

/// "Sprite 'NAME' removed in second file"
pub open spec fn removed_note(name: Seq<char>) -> Seq<char> {
    "Sprite '"@ + name + "' removed in second file"@
}

/// "Sprite 'NAME' added in second file"
pub open spec fn added_note(name: Seq<char>) -> Seq<char> {
    "Sprite '"@ + name + "' added in second file"@
}

/// A diff that only says that the sprite exists in one file: the note is its presence
/// change and its summary.
pub open spec fn is_presence_diff(d: SpriteDiff, note: Seq<char>) -> bool {
    &&& d.dimension_change is None
    &&& d.palette_changes@.len() == 0
    &&& d.region_changes@.len() == 0
    &&& d.presence_change matches Some(p) && p@ == note
    &&& d.summary@ == note
}

/// The entry for one sprite name: the comparison when both documents define it, with
/// each sprite's palette resolved in its own document; the presence note otherwise.
pub open spec fn document_entry_fits(
    e: (String, SpriteDiff),
    objs_a: Seq<TtpObject>,
    objs_b: Seq<TtpObject>,
) -> bool {
    let n = e.0@;
    let sa = document_sprites(objs_a);
    let sb = document_sprites(objs_b);
    if sa.contains_key(n) && sb.contains_key(n) {
        is_sprite_diff(
            e.1,
            sa[n],
            sb[n],
            resolved_palette(sa[n].palette, document_palettes(objs_a)),
            resolved_palette(sb[n].palette, document_palettes(objs_b)),
        )
    } else if sa.contains_key(n) {
        is_presence_diff(e.1, removed_note(n))
    } else if sb.contains_key(n) {
        is_presence_diff(e.1, added_note(n))
    } else {
        false
    }
}

/// The names of a list of entries, in order.
pub open spec fn entry_names(es: Seq<(String, SpriteDiff)>) -> Seq<Seq<char>> {
    es.map_values(|e: (String, SpriteDiff)| e.0@)
}

/// Context for sprite comparison, containing resolved palettes
struct DiffContext {
    /// Palettes from file A (name -> colors)
    palettes_a: TokenMap<Palette>,
    /// Palettes from file B (name -> colors)
    palettes_b: TokenMap<Palette>,
}

impl DiffContext {
    fn new() -> (r: Self)
        ensures
            r.palettes_a@ == Map::<Seq<char>, Map<Seq<char>, Seq<char>>>::empty(),
            r.palettes_b@ == Map::<Seq<char>, Map<Seq<char>, Seq<char>>>::empty(),
    {
        DiffContext { palettes_a: TokenMap::new(), palettes_b: TokenMap::new() }
    }

    /// Resolve a palette reference to its color map
    fn resolve_palette(&self, palette_ref: &PaletteRef, palettes: &TokenMap<Palette>) -> (r: Palette)
        ensures
            r@ == resolved_palette(*palette_ref, palettes@),
    {
        match palette_ref {
            PaletteRef::Named(name) => match palettes.get(name.as_str()) {
                Some(colors) => colors.copied(),
                None => TokenMap::new(),
            },
            PaletteRef::Inline(colors) => colors.copied(),
        }
    }
}

/// The palettes of a document by name, and the position of each sprite by name.
fn collect(objs: &Vec<TtpObject>) -> (r: (TokenMap<Palette>, TokenMap<usize>))
    ensures
        r.0@ == document_palettes(objs@),
        r.1@.dom() == document_sprites(objs@).dom(),
        forall|n: Seq<char>| #[trigger] r.1@.contains_key(n) ==> r.1@[n] < objs@.len()
            && objs@[r.1@[n] as int] == TtpObject::Sprite(document_sprites(objs@)[n]),
{
    let mut palettes: TokenMap<Palette> = TokenMap::new();
    let mut sprites: TokenMap<usize> = TokenMap::new();
    let n = objs.len();
    let mut i: usize = 0;
    assert(objs@.take(0) =~= Seq::<TtpObject>::empty());
    assert(sprites@.dom() =~= document_sprites(objs@.take(0)).dom());
    while i < n
        invariant
            n == objs@.len(),
            i <= n,
            palettes@ == document_palettes(objs@.take(i as int)),
            sprites@.dom() == document_sprites(objs@.take(i as int)).dom(),
            forall|k: Seq<char>| #[trigger] sprites@.contains_key(k) ==> sprites@[k] < i
                && objs@[sprites@[k] as int] == TtpObject::Sprite(document_sprites(objs@.take(i as int))[k]),
        decreases n - i,
    {
        assert(objs@.take(i + 1).drop_last() =~= objs@.take(i as int));
        assert(objs@.take(i + 1).last() == objs@[i as int]);
        let ghost before = sprites@;
        match &objs[i] {
            TtpObject::Palette(p) => {
                palettes.insert(p.name.clone(), p.colors.copied());
            },
            TtpObject::Sprite(s) => {
                sprites.insert(s.name.clone(), i);
                assert(sprites@.dom() =~= document_sprites(objs@.take(i + 1)).dom());
            },
            TtpObject::Other => {},
        }
        i = i + 1;
    }
    assert(objs@.take(n as int) =~= objs@);
    (palettes, sprites)
}

fn sprite_at(objs: &Vec<TtpObject>, i: usize) -> (r: Option<&Sprite>)
    requires
        i < objs@.len(),
    ensures
        match r {
            Some(s) => objs@[i as int] == TtpObject::Sprite(*s),
            None => !(objs@[i as int] is Sprite),
        },
{
    match &objs[i] {
        TtpObject::Sprite(s) => Some(s),
        _ => None,
    }
}

fn presence_diff(name: &String, removed: bool) -> (r: SpriteDiff)
    ensures
        is_presence_diff(r, if removed { removed_note(name@) } else { added_note(name@) }),
{
    let mut note = string_of("Sprite '");
    note.append(name.as_str());
    if removed {
        note.append("' removed in second file");
    } else {
        note.append("' added in second file");
    }
    let summary = note.clone();
    SpriteDiff {
        dimension_change: None,
        palette_changes: Vec::new(),
        region_changes: Vec::new(),
        presence_change: Some(note),
        summary,
    }
}

/// Compare two parsed documents: one entry per sprite name defined in either, in
/// increasing order of name. A sprite in both is compared, each with its palette resolved
/// in its own document; a sprite in only one is reported as removed or added.
pub fn diff_documents(objects_a: &Vec<TtpObject>, objects_b: &Vec<TtpObject>) -> (r: Vec<(String, SpriteDiff)>)
    ensures
        forall|i: int| 0 <= i < r@.len() ==> document_entry_fits(#[trigger] r@[i], objects_a@, objects_b@),
        strictly_sorted(entry_names(r@)),
        forall|n: Seq<char>| #[trigger] entry_names(r@).contains(n) <==> (document_sprites(objects_a@).contains_key(n)
            || document_sprites(objects_b@).contains_key(n)),
{
    let mut ctx = DiffContext::new();
    let (palettes_a, sprites_a) = collect(objects_a);
    let (palettes_b, sprites_b) = collect(objects_b);
    ctx.palettes_a = palettes_a;
    ctx.palettes_b = palettes_b;
    let ghost sa = document_sprites(objects_a@);
    let ghost sb = document_sprites(objects_b@);

    let names = sorted_union_names(&sprites_a, &sprites_b);
    let ghost nv = views(names@);
    let mut diffs: Vec<(String, SpriteDiff)> = Vec::new();
    let n = names.len();
    let mut i: usize = 0;
    while i < n
        invariant
            n == names@.len(),
            nv == views(names@),
            i <= n,
            sa == document_sprites(objects_a@),
            sb == document_sprites(objects_b@),
            ctx.palettes_a@ == document_palettes(objects_a@),
            ctx.palettes_b@ == document_palettes(objects_b@),
            sprites_a@.dom() == sa.dom(),
            sprites_b@.dom() == sb.dom(),
            forall|k: Seq<char>| #[trigger] sprites_a@.contains_key(k) ==> sprites_a@[k] < objects_a@.len()
                && objects_a@[sprites_a@[k] as int] == TtpObject::Sprite(sa[k]),
            forall|k: Seq<char>| #[trigger] sprites_b@.contains_key(k) ==> sprites_b@[k] < objects_b@.len()
                && objects_b@[sprites_b@[k] as int] == TtpObject::Sprite(sb[k]),
            forall|k: Seq<char>| #[trigger] nv.contains(k) <==> (sprites_a@.contains_key(k) || sprites_b@.contains_key(k)),
            diffs@.len() == i,
            forall|j: int| 0 <= j < i ==> (#[trigger] diffs@[j]).0@ == nv[j],
            forall|j: int| 0 <= j < i ==> document_entry_fits(#[trigger] diffs@[j], objects_a@, objects_b@),
        decreases n - i,
    {
        let name = &names[i];
        let ghost k = nv[i as int];
        assert(nv.contains(k));
        let ia = sprites_a.get(name.as_str());
        let ib = sprites_b.get(name.as_str());
        match (ia, ib) {
            (Some(ia), Some(ib)) => {
                match (sprite_at(objects_a, *ia), sprite_at(objects_b, *ib)) {
                    (Some(sprite_a), Some(sprite_b)) => {
                        // Both files have this sprite - compare them
                        let palette_a = ctx.resolve_palette(&sprite_a.palette, &ctx.palettes_a);
                        let palette_b = ctx.resolve_palette(&sprite_b.palette, &ctx.palettes_b);
                        let diff = diff_sprites(sprite_a, sprite_b, &palette_a, &palette_b);
                        diffs.push((name.clone(), diff));
                    },
                    _ => {},
                }
            },
            (Some(_), None) => {
                // Sprite only in file A (removed)
                diffs.push((name.clone(), presence_diff(name, true)));
            },
            (None, Some(_)) => {
                // Sprite only in file B (added)
                diffs.push((name.clone(), presence_diff(name, false)));
            },
            (None, None) => {},
        }
        i = i + 1;
    }
    proof {
        assert(entry_names(diffs@) =~= nv);
    }
    diffs
}

} // verus!
