//! Semantic sprite comparison: dimensions, palette tokens and region geometry.
use vstd::prelude::*;
use vstd::string::StringExecFns;
pub use crate::report::format_diff;
use crate::pixels::{PixelSet, shift_of, symmetric_difference_len, detect_shift, same_pixels, count_symmetric_difference};
use crate::text::{seq_lt, str_eq, views, decimal, join, append_decimal, join_strings, string_of};
use crate::token_map::{TokenMap, strictly_sorted, sorted_union_names};

verus! {

/// Colors by token name.
pub type Palette = TokenMap<String>;

/// Where a sprite takes its colors from.
pub enum PaletteRef {
    /// A palette defined elsewhere in the document, by name.
    Named(String),
    /// Colors given with the sprite itself.
    Inline(Palette),
}

/// A sprite as far as comparison reads it: its size, its palette and its regions,
/// each region being the set of canvas pixels that its token covers.
pub struct Sprite {
    pub name: String,
    /// `[width, height]` when the sprite declares a size.
    pub size: Option<[u32; 2]>,
    pub palette: PaletteRef,
    /// The pixels of each region, by token, when the sprite has concrete regions.
    pub regions: Option<TokenMap<PixelSet>>,
}

/// Result of comparing two sprites
#[derive(Debug, Clone)]
pub struct SpriteDiff {
    /// Change in dimensions, if any
    pub dimension_change: Option<DimensionChange>,
    /// Changes to palette colors
    pub palette_changes: Vec<PaletteChange>,
    /// Changes to region geometry
    pub region_changes: Vec<RegionChange>,
    /// Set when the sprite exists in only one of the files
    pub presence_change: Option<String>,
    /// Human-readable summary of the diff
    pub summary: String,
}

/// A geometric change to one region (token) between two sprites
#[derive(Debug, Clone, PartialEq)]
pub enum RegionChange {
    /// Region exists only in the second sprite
    Added { token: String },
    /// Region exists only in the first sprite
    Removed { token: String },
    /// Same shape, translated as a unit (a walk-cycle bob shows up here)
    Shifted { token: String, dx: i32, dy: i32 },
    /// Shape changed: `differing` pixels in the symmetric difference
    Changed { token: String, differing: usize },
}

/// Change in sprite dimensions
#[derive(Debug, Clone, Copy, PartialEq)]
pub struct DimensionChange {
    /// Old dimensions (width, height)
    pub old: (u32, u32),
    /// New dimensions (width, height)
    pub new: (u32, u32),
}

/// A change to a palette token
#[derive(Debug, Clone, PartialEq)]
pub enum PaletteChange {
    /// Token was added
    Added { token: String, color: String },
    /// Token was removed
    Removed { token: String },
    /// Token color was changed
    Changed { token: String, old_color: String, new_color: String },
}

/// Whether a diff records no difference at all.
pub open spec fn diff_is_empty(d: SpriteDiff) -> bool {
    &&& d.dimension_change is None
    &&& d.palette_changes@.len() == 0
    &&& d.region_changes@.len() == 0
    &&& d.presence_change is None
}

impl SpriteDiff {
    /// Returns true if there are no differences
    pub fn is_empty(&self) -> (r: bool)
        ensures
            r == diff_is_empty(*self),
    {
        self.dimension_change.is_none() && self.palette_changes.len() == 0
            && self.region_changes.len() == 0 && self.presence_change.is_none()
    }
}

// ----- Dimensions -----

/// The dimensions of a sprite: its declared size, or `(0, 0)` without one.
pub open spec fn sprite_dimensions(s: Sprite) -> (u32, u32) {
    match s.size {
        Some(wh) => (wh@[0], wh@[1]),
        None => (0, 0),
    }
}

/// Get sprite dimensions from size field
pub fn get_sprite_dimensions(sprite: &Sprite) -> (r: (u32, u32))
    ensures
        r == sprite_dimensions(*sprite),
{
    match sprite.size {
        Some(wh) => (wh[0], wh[1]),
        None => (0, 0),
    }
}

/// The dimension change between two sprites, if their dimensions differ.
pub open spec fn dimension_change_between(a: Sprite, b: Sprite) -> Option<DimensionChange> {
    if sprite_dimensions(a) != sprite_dimensions(b) {
        Some(DimensionChange { old: sprite_dimensions(a), new: sprite_dimensions(b) })
    } else {
        None
    }
}

// ----- Palette -----

/// The token a palette change is about.
pub open spec fn palette_token(c: PaletteChange) -> Seq<char> {
    match c {
        PaletteChange::Added { token, .. } => token@,
        PaletteChange::Removed { token } => token@,
        PaletteChange::Changed { token, .. } => token@,
    }
}

/// The tokens of a list of palette changes, in order.
pub open spec fn palette_tokens(cs: Seq<PaletteChange>) -> Seq<Seq<char>> {
    cs.map_values(|c: PaletteChange| palette_token(c))
}

/// A token differs between two palettes: it is in only one, or its colors differ.
pub open spec fn palette_differs_at(
    t: Seq<char>,
    pa: Map<Seq<char>, Seq<char>>,
    pb: Map<Seq<char>, Seq<char>>,
) -> bool {
    ||| pa.contains_key(t) != pb.contains_key(t)
    ||| (pa.contains_key(t) && pb.contains_key(t) && pa[t] != pb[t])
}

/// A palette change describes what happened to its token from `pa` to `pb`.
pub open spec fn palette_change_fits(
    c: PaletteChange,
    pa: Map<Seq<char>, Seq<char>>,
    pb: Map<Seq<char>, Seq<char>>,
) -> bool {
    match c {
        PaletteChange::Removed { token } => pa.contains_key(token@) && !pb.contains_key(token@),
        PaletteChange::Added { token, color } => !pa.contains_key(token@) && pb.contains_key(token@)
            && color@ == pb[token@],
        PaletteChange::Changed { token, old_color, new_color } => pa.contains_key(token@)
            && pb.contains_key(token@) && pa[token@] != pb[token@] && old_color@ == pa[token@]
            && new_color@ == pb[token@],
    }
}

/// The palette changes from `pa` to `pb`: one change for each token that differs, each
/// describing what happened to it, in increasing order of token.
pub open spec fn palette_changes_between(
    cs: Seq<PaletteChange>,
    pa: Map<Seq<char>, Seq<char>>,
    pb: Map<Seq<char>, Seq<char>>,
) -> bool {
    &&& forall|i: int| 0 <= i < cs.len() ==> palette_change_fits(#[trigger] cs[i], pa, pb)
    &&& strictly_sorted(palette_tokens(cs))
    &&& forall|t: Seq<char>| #[trigger] palette_tokens(cs).contains(t) <==> palette_differs_at(t, pa, pb)
}

/// Compare two palettes token by token, in increasing order of token.
pub fn diff_palettes(palette_a: &Palette, palette_b: &Palette) -> (r: Vec<PaletteChange>)
    ensures
        palette_changes_between(r@, palette_a@, palette_b@),
{
    let tokens = sorted_union_names(palette_a, palette_b);
    let ghost pa = palette_a@;
    let ghost pb = palette_b@;
    let ghost tv = views(tokens@);
    let mut out: Vec<PaletteChange> = Vec::new();
    let n = tokens.len();
    let mut i: usize = 0;
    while i < n
        invariant
            n == tokens@.len(),
            tv == views(tokens@),
            pa == palette_a@,
            pb == palette_b@,
            i <= n,
            strictly_sorted(tv),
            forall|k: Seq<char>| #[trigger] tv.contains(k) <==> (pa.contains_key(k) || pb.contains_key(k)),
            forall|j: int| 0 <= j < out@.len() ==> palette_change_fits(#[trigger] out@[j], pa, pb),
            strictly_sorted(palette_tokens(out@)),
            forall|j: int| 0 <= j < out@.len() ==> exists|k: int| 0 <= k < i && tv[k] == #[trigger] palette_tokens(out@)[j],
            forall|k: int| 0 <= k < i ==> (palette_differs_at(#[trigger] tv[k], pa, pb) ==> palette_tokens(out@).contains(tv[k])),
        decreases n - i,
    {
        let t = &tokens[i];
        let ghost before = out@;
        let ca = palette_a.get(t.as_str());
        let cb = palette_b.get(t.as_str());
        let mut pushed = false;
        match (ca, cb) {
            (Some(_), None) => {
                out.push(PaletteChange::Removed { token: t.clone() });
                pushed = true;
            },
            (None, Some(color)) => {
                out.push(PaletteChange::Added { token: t.clone(), color: color.clone() });
                pushed = true;
            },
            (Some(old_color), Some(new_color)) => {
                if !str_eq(old_color.as_str(), new_color.as_str()) {
                    out.push(
                        PaletteChange::Changed {
                            token: t.clone(),
                            old_color: old_color.clone(),
                            new_color: new_color.clone(),
                        },
                    );
                    pushed = true;
                }
            },
            (None, None) => {},
        }
        proof {
            let ti = tv[i as int];
            assert(tv.contains(ti));
            if pushed {
                assert(out@ == before.push(out@.last()));
                assert(palette_tokens(out@) =~= palette_tokens(before).push(ti));
                assert forall|a: int, b: int| 0 <= a < b < palette_tokens(out@).len() implies seq_lt(
                    #[trigger] palette_tokens(out@)[a], #[trigger] palette_tokens(out@)[b]) by {
                    if b == before.len() {
                        let k = choose|k: int| 0 <= k < i && tv[k] == #[trigger] palette_tokens(before)[a];
                        assert(seq_lt(tv[k], tv[i as int]));
                    } else {
                        assert(palette_tokens(before)[a] == palette_tokens(out@)[a]);
                        assert(palette_tokens(before)[b] == palette_tokens(out@)[b]);
                    }
                }
                assert forall|j: int| 0 <= j < out@.len() implies exists|k: int| 0 <= k < i + 1 && tv[k] == #[trigger] palette_tokens(out@)[j] by {
                    if j == before.len() {
                        assert(tv[i as int] == palette_tokens(out@)[j]);
                    } else {
                        assert(palette_tokens(before)[j] == palette_tokens(out@)[j]);
                        let k = choose|k: int| 0 <= k < i && tv[k] == #[trigger] palette_tokens(before)[j];
                    }
                }
                assert forall|k: int| 0 <= k < i + 1 implies (palette_differs_at(#[trigger] tv[k], pa, pb) ==> palette_tokens(out@).contains(tv[k])) by {
                    if k == i {
                        assert(palette_tokens(out@)[before.len() as int] == tv[k]);
                    } else if palette_differs_at(tv[k], pa, pb) {
                        let j = choose|j: int| 0 <= j < palette_tokens(before).len() && palette_tokens(before)[j] == tv[k];
                        assert(palette_tokens(out@)[j] == tv[k]);
                    }
                }
            } else {
                assert(!palette_differs_at(ti, pa, pb));
                assert forall|j: int| 0 <= j < out@.len() implies exists|k: int| 0 <= k < i + 1 && tv[k] == #[trigger] palette_tokens(out@)[j] by {
                    let k = choose|k: int| 0 <= k < i && tv[k] == #[trigger] palette_tokens(before)[j];
                }
            }
        }
        i = i + 1;
    }
    proof {
        assert forall|t: Seq<char>| #[trigger] palette_tokens(out@).contains(t) <==> palette_differs_at(t, pa, pb) by {
            if palette_tokens(out@).contains(t) {
                let j = choose|j: int| 0 <= j < palette_tokens(out@).len() && palette_tokens(out@)[j] == t;
                assert(palette_change_fits(out@[j], pa, pb));
            }
            if palette_differs_at(t, pa, pb) {
                assert(tv.contains(t));
                let k = choose|k: int| 0 <= k < tv.len() && tv[k] == t;
                assert(palette_differs_at(tv[k], pa, pb));
            }
        }
    }
    out
}

// ----- Regions -----

/// The token a region change is about.
pub open spec fn region_token(c: RegionChange) -> Seq<char> {
    match c {
        RegionChange::Added { token } => token@,
        RegionChange::Removed { token } => token@,
        RegionChange::Shifted { token, .. } => token@,
        RegionChange::Changed { token, .. } => token@,
    }
}

/// The tokens of a list of region changes, in order.
pub open spec fn region_tokens(cs: Seq<RegionChange>) -> Seq<Seq<char>> {
    cs.map_values(|c: RegionChange| region_token(c))
}

/// A region differs between two sprites: it is in only one, or covers other pixels.
pub open spec fn region_differs_at(
    t: Seq<char>,
    ra: Map<Seq<char>, Set<(i32, i32)>>,
    rb: Map<Seq<char>, Set<(i32, i32)>>,
) -> bool {
    ||| ra.contains_key(t) != rb.contains_key(t)
    ||| (ra.contains_key(t) && rb.contains_key(t) && ra[t] != rb[t])
}

/// A region change describes what happened to its region from `ra` to `rb`: gone, new,
/// translated as a unit by its offset, or reshaped with the size of the symmetric difference.
pub open spec fn region_change_fits(
    c: RegionChange,
    ra: Map<Seq<char>, Set<(i32, i32)>>,
    rb: Map<Seq<char>, Set<(i32, i32)>>,
) -> bool {
    match c {
        RegionChange::Removed { token } => ra.contains_key(token@) && !rb.contains_key(token@),
        RegionChange::Added { token } => !ra.contains_key(token@) && rb.contains_key(token@),
        RegionChange::Shifted { token, dx, dy } => ra.contains_key(token@) && rb.contains_key(token@)
            && ra[token@] != rb[token@] && shift_of(ra[token@], rb[token@]) == Some((dx as int, dy as int)),
        RegionChange::Changed { token, differing } => ra.contains_key(token@) && rb.contains_key(token@)
            && ra[token@] != rb[token@] && shift_of(ra[token@], rb[token@]) is None
            && differing == symmetric_difference_len(ra[token@], rb[token@]),
    }
}

/// The region changes from `ra` to `rb`: one change for each region that differs, each
/// describing what happened to it, in increasing order of token.
pub open spec fn region_changes_between(
    cs: Seq<RegionChange>,
    ra: Map<Seq<char>, Set<(i32, i32)>>,
    rb: Map<Seq<char>, Set<(i32, i32)>>,
) -> bool {
    &&& forall|i: int| 0 <= i < cs.len() ==> region_change_fits(#[trigger] cs[i], ra, rb)
    &&& strictly_sorted(region_tokens(cs))
    &&& forall|t: Seq<char>| #[trigger] region_tokens(cs).contains(t) <==> region_differs_at(t, ra, rb)
}

/// Compare two sets of regions token by token, in increasing order of token.
pub fn diff_region_maps(regions_a: &TokenMap<PixelSet>, regions_b: &TokenMap<PixelSet>) -> (r: Vec<RegionChange>)
    ensures
        region_changes_between(r@, regions_a@, regions_b@),
{
    let tokens = sorted_union_names(regions_a, regions_b);
    let ghost ra = regions_a@;
    let ghost rb = regions_b@;
    let ghost tv = views(tokens@);
    let mut out: Vec<RegionChange> = Vec::new();
    let n = tokens.len();
    let mut i: usize = 0;
    while i < n
        invariant
            n == tokens@.len(),
            tv == views(tokens@),
            ra == regions_a@,
            rb == regions_b@,
            i <= n,
            strictly_sorted(tv),
            forall|k: Seq<char>| #[trigger] tv.contains(k) <==> (ra.contains_key(k) || rb.contains_key(k)),
            forall|j: int| 0 <= j < out@.len() ==> region_change_fits(#[trigger] out@[j], ra, rb),
            strictly_sorted(region_tokens(out@)),
            forall|j: int| 0 <= j < out@.len() ==> exists|k: int| 0 <= k < i && tv[k] == #[trigger] region_tokens(out@)[j],
            forall|k: int| 0 <= k < i ==> (region_differs_at(#[trigger] tv[k], ra, rb) ==> region_tokens(out@).contains(tv[k])),
        decreases n - i,
    {
        let t = &tokens[i];
        let ghost before = out@;
        let pa = regions_a.get(t.as_str());
        let pb = regions_b.get(t.as_str());
        let mut pushed = false;
        match (pa, pb) {
            (Some(_), None) => {
                out.push(RegionChange::Removed { token: t.clone() });
                pushed = true;
            },
            (None, Some(_)) => {
                out.push(RegionChange::Added { token: t.clone() });
                pushed = true;
            },
            (Some(pixels_a), Some(pixels_b)) => {
                if !same_pixels(pixels_a, pixels_b) {
                    match detect_shift(pixels_a, pixels_b) {
                        Some((dx, dy)) => {
                            out.push(RegionChange::Shifted { token: t.clone(), dx, dy });
                        },
                        None => {
                            let differing = count_symmetric_difference(pixels_a, pixels_b);
                            out.push(RegionChange::Changed { token: t.clone(), differing });
                        },
                    }
                    pushed = true;
                }
            },
            (None, None) => {},
        }
        proof {
            let ti = tv[i as int];
            assert(tv.contains(ti));
            if pushed {
                assert(out@ == before.push(out@.last()));
                assert(region_tokens(out@) =~= region_tokens(before).push(ti));
                assert forall|a: int, b: int| 0 <= a < b < region_tokens(out@).len() implies seq_lt(
                    #[trigger] region_tokens(out@)[a], #[trigger] region_tokens(out@)[b]) by {
                    if b == before.len() {
                        let k = choose|k: int| 0 <= k < i && tv[k] == #[trigger] region_tokens(before)[a];
                        assert(seq_lt(tv[k], tv[i as int]));
                    } else {
                        assert(region_tokens(before)[a] == region_tokens(out@)[a]);
                        assert(region_tokens(before)[b] == region_tokens(out@)[b]);
                    }
                }
                assert forall|j: int| 0 <= j < out@.len() implies exists|k: int| 0 <= k < i + 1 && tv[k] == #[trigger] region_tokens(out@)[j] by {
                    if j == before.len() {
                        assert(tv[i as int] == region_tokens(out@)[j]);
                    } else {
                        assert(region_tokens(before)[j] == region_tokens(out@)[j]);
                        let k = choose|k: int| 0 <= k < i && tv[k] == #[trigger] region_tokens(before)[j];
                    }
                }
                assert forall|k: int| 0 <= k < i + 1 implies (region_differs_at(#[trigger] tv[k], ra, rb) ==> region_tokens(out@).contains(tv[k])) by {
                    if k == i {
                        assert(region_tokens(out@)[before.len() as int] == tv[k]);
                    } else if region_differs_at(tv[k], ra, rb) {
                        let j = choose|j: int| 0 <= j < region_tokens(before).len() && region_tokens(before)[j] == tv[k];
                        assert(region_tokens(out@)[j] == tv[k]);
                    }
                }
            } else {
                assert(!region_differs_at(ti, ra, rb));
                assert forall|j: int| 0 <= j < out@.len() implies exists|k: int| 0 <= k < i + 1 && tv[k] == #[trigger] region_tokens(out@)[j] by {
                    let k = choose|k: int| 0 <= k < i && tv[k] == #[trigger] region_tokens(before)[j];
                }
            }
        }
        i = i + 1;
    }
    proof {
        assert forall|t: Seq<char>| #[trigger] region_tokens(out@).contains(t) <==> region_differs_at(t, ra, rb) by {
            if region_tokens(out@).contains(t) {
                let j = choose|j: int| 0 <= j < region_tokens(out@).len() && region_tokens(out@)[j] == t;
                assert(region_change_fits(out@[j], ra, rb));
            }
            if region_differs_at(t, ra, rb) {
                assert(tv.contains(t));
                let k = choose|k: int| 0 <= k < tv.len() && tv[k] == t;
                assert(region_differs_at(tv[k], ra, rb));
            }
        }
    }
    out
}

/// Geometry is compared only between sprites that both have concrete regions and a size.
pub open spec fn regions_comparable(a: Sprite, b: Sprite) -> bool {
    a.regions is Some && b.regions is Some && a.size is Some && b.size is Some
}

/// The region changes between two sprites: none when the geometry is not comparable.
pub open spec fn sprite_region_changes(cs: Seq<RegionChange>, a: Sprite, b: Sprite) -> bool {
    if regions_comparable(a, b) {
        region_changes_between(cs, a.regions->0@, b.regions->0@)
    } else {
        cs.len() == 0
    }
}

/// Compare both sprites' regions token by token. Sprites without regions and size
/// (e.g. derived sprites) are not compared: geometry comparison needs concrete regions.
pub fn diff_regions(a: &Sprite, b: &Sprite) -> (r: Vec<RegionChange>)
    ensures
        sprite_region_changes(r@, *a, *b),
{
    match (&a.regions, &b.regions) {
        (Some(regions_a), Some(regions_b)) => {
            if a.size.is_some() && b.size.is_some() {
                diff_region_maps(regions_a, regions_b)
            } else {
                Vec::new()
            }
        },
        _ => Vec::new(),
    }
}

// ----- Summary -----

/// The variant of a palette change as a number: added, removed, changed in that order.
pub open spec fn palette_variant(c: PaletteChange) -> nat {
    match c {
        PaletteChange::Added { .. } => 0,
        PaletteChange::Removed { .. } => 1,
        PaletteChange::Changed { .. } => 2,
    }
}

/// How many changes of a variant a list holds.
pub open spec fn count_variant(cs: Seq<PaletteChange>, k: nat) -> nat
    decreases cs.len(),
{
    if cs.len() == 0 {
        0
    } else {
        count_variant(cs.drop_last(), k) + if palette_variant(cs.last()) == k { 1nat } else { 0nat }
    }
}

/// "Dimensions: WxH → WxH"
pub open spec fn dimension_line(d: DimensionChange) -> Seq<char> {
    "Dimensions: "@ + decimal(d.old.0 as nat) + "x"@ + decimal(d.old.1 as nat) + " → "@ + decimal(
        d.new.0 as nat,
    ) + "x"@ + decimal(d.new.1 as nat)
}

/// A count with its text around it, or nothing when the count is zero.
pub open spec fn count_part(n: nat, prefix: Seq<char>, suffix: Seq<char>) -> Seq<Seq<char>> {
    if n > 0 {
        seq![prefix + decimal(n) + suffix]
    } else {
        Seq::empty()
    }
}

/// The palette parts of a summary: added, removed and recolored tokens.
pub open spec fn palette_summary_parts(cs: Seq<PaletteChange>) -> Seq<Seq<char>> {
    count_part(count_variant(cs, 0), "+"@, " token(s)"@) + count_part(count_variant(cs, 1), "-"@, " token(s)"@)
        + count_part(count_variant(cs, 2), "~"@, " color(s)"@)
}

/// The parts of a summary: dimensions, regions, palette, each when there is something to say.
pub open spec fn summary_parts(
    dim: Option<DimensionChange>,
    pcs: Seq<PaletteChange>,
    rcs: Seq<RegionChange>,
) -> Seq<Seq<char>> {
    (match dim {
        Some(d) => seq![dimension_line(d)],
        None => Seq::empty(),
    }) + (if rcs.len() > 0 {
        seq!["Regions: "@ + decimal(rcs.len()) + " changed"@]
    } else {
        Seq::empty()
    }) + (if palette_summary_parts(pcs).len() > 0 {
        seq!["Palette: "@ + join(palette_summary_parts(pcs), ", "@)]
    } else {
        Seq::empty()
    })
}

/// The summary: its parts joined with ". ", or "No differences" when there are none.
pub open spec fn summary_text(
    dim: Option<DimensionChange>,
    pcs: Seq<PaletteChange>,
    rcs: Seq<RegionChange>,
) -> Seq<char> {
    if summary_parts(dim, pcs, rcs).len() == 0 {
        "No differences"@
    } else {
        join(summary_parts(dim, pcs, rcs), ". "@)
    }
}

pub(crate) fn dimension_line_string(d: &DimensionChange) -> (r: String)
    ensures
        r@ == dimension_line(*d),
{
    let mut s = string_of("Dimensions: ");
    append_decimal(&mut s, d.old.0 as u64);
    s.append("x");
    append_decimal(&mut s, d.old.1 as u64);
    s.append(" → ");
    append_decimal(&mut s, d.new.0 as u64);
    s.append("x");
    append_decimal(&mut s, d.new.1 as u64);
    s
}

fn count_part_string(n: usize, prefix: &str, suffix: &str) -> (r: String)
    requires
        n > 0,
    ensures
        seq![r@] == count_part(n as nat, prefix@, suffix@),
{
    let mut s = string_of(prefix);
    append_decimal(&mut s, n as u64);
    s.append(suffix);
    s
}

fn count_palette_variants(cs: &[PaletteChange]) -> (r: (usize, usize, usize))
    ensures
        r.0 == count_variant(cs@, 0),
        r.1 == count_variant(cs@, 1),
        r.2 == count_variant(cs@, 2),
{
    let n = cs.len();
    let mut added: usize = 0;
    let mut removed: usize = 0;
    let mut changed: usize = 0;
    let mut i: usize = 0;
    assert(cs@.take(0) =~= Seq::<PaletteChange>::empty());
    while i < n
        invariant
            n == cs@.len(),
            i <= n,
            added + removed + changed == i,
            added == count_variant(cs@.take(i as int), 0),
            removed == count_variant(cs@.take(i as int), 1),
            changed == count_variant(cs@.take(i as int), 2),
        decreases n - i,
    {
        assert(cs@.take(i + 1).drop_last() =~= cs@.take(i as int));
        match &cs[i] {
            PaletteChange::Added { .. } => added = added + 1,
            PaletteChange::Removed { .. } => removed = removed + 1,
            PaletteChange::Changed { .. } => changed = changed + 1,
        }
        i = i + 1;
    }
    assert(cs@.take(n as int) =~= cs@);
    (added, removed, changed)
}

/// Generate a human-readable summary of the diff
pub fn generate_summary(
    dimension_change: &Option<DimensionChange>,
    palette_changes: &[PaletteChange],
    region_changes: &[RegionChange],
) -> (r: String)
    ensures
        r@ == summary_text(*dimension_change, palette_changes@, region_changes@),
{
    let ghost dim_part: Seq<Seq<char>> = match *dimension_change {
        Some(d) => seq![dimension_line(d)],
        None => Seq::empty(),
    };
    let ghost region_part: Seq<Seq<char>> = if region_changes@.len() > 0 {
        seq!["Regions: "@ + decimal(region_changes@.len()) + " changed"@]
    } else {
        Seq::empty()
    };
    let mut parts: Vec<String> = Vec::new();
    if let Some(dim) = dimension_change {
        parts.push(dimension_line_string(dim));
    }
    assert(views(parts@) =~= dim_part);
    let nr = region_changes.len();
    if nr > 0 {
        let mut s = string_of("Regions: ");
        append_decimal(&mut s, nr as u64);
        s.append(" changed");
        parts.push(s);
    }
    assert(views(parts@) =~= dim_part + region_part);
    let (added, removed, changed) = count_palette_variants(palette_changes);
    let ghost pcs = palette_changes@;
    let mut palette_parts: Vec<String> = Vec::new();
    if added > 0 {
        palette_parts.push(count_part_string(added, "+", " token(s)"));
    }
    assert(views(palette_parts@) =~= count_part(count_variant(pcs, 0), "+"@, " token(s)"@));
    if removed > 0 {
        palette_parts.push(count_part_string(removed, "-", " token(s)"));
    }
    assert(views(palette_parts@) =~= count_part(count_variant(pcs, 0), "+"@, " token(s)"@) + count_part(
        count_variant(pcs, 1),
        "-"@,
        " token(s)"@,
    ));
    if changed > 0 {
        palette_parts.push(count_part_string(changed, "~", " color(s)"));
    }
    assert(views(palette_parts@) =~= palette_summary_parts(pcs));
    if palette_parts.len() > 0 {
        let joined = join_strings(&palette_parts, ", ");
        let mut s = string_of("Palette: ");
        s.append(joined.as_str());
        parts.push(s);
    }
    assert(views(parts@) =~= summary_parts(*dimension_change, palette_changes@, region_changes@));
    if parts.len() == 0 {
        string_of("No differences")
    } else {
        join_strings(&parts, ". ")
    }
}

// ----- Sprites -----

/// `d` is the comparison of sprite `a` (colors `pa`) with sprite `b` (colors `pb`):
/// the dimension change, the palette and region changes, no presence note, and the
/// summary of those changes.
pub open spec fn is_sprite_diff(
    d: SpriteDiff,
    a: Sprite,
    b: Sprite,
    pa: Map<Seq<char>, Seq<char>>,
    pb: Map<Seq<char>, Seq<char>>,
) -> bool {
    &&& d.dimension_change == dimension_change_between(a, b)
    &&& palette_changes_between(d.palette_changes@, pa, pb)
    &&& sprite_region_changes(d.region_changes@, a, b)
    &&& d.presence_change is None
    &&& d.summary@ == summary_text(d.dimension_change, d.palette_changes@, d.region_changes@)
}

/// Compare two sprites and return their differences
pub fn diff_sprites(a: &Sprite, b: &Sprite, palette_a: &Palette, palette_b: &Palette) -> (r: SpriteDiff)
    ensures
        is_sprite_diff(r, *a, *b, palette_a@, palette_b@),
{
    let dim_a = get_sprite_dimensions(a);
    let dim_b = get_sprite_dimensions(b);
    let dimension_change = if dim_a.0 != dim_b.0 || dim_a.1 != dim_b.1 {
        Some(DimensionChange { old: dim_a, new: dim_b })
    } else {
        None
    };
    let palette_changes = diff_palettes(palette_a, palette_b);
    let region_changes = diff_regions(a, b);
    let summary = generate_summary(&dimension_change, palette_changes.as_slice(), region_changes.as_slice());
    SpriteDiff { dimension_change, palette_changes, region_changes, presence_change: None, summary }
}

} // verus!
