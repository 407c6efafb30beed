//! Properties that hold of every comparison and every report.
use vstd::prelude::*;
use crate::diff::{palette_variant, summary_text, sprite_dimensions, palette_change_fits, palette_changes_between, region_changes_between, SpriteDiff, Sprite, DimensionChange, PaletteChange, RegionChange, is_sprite_diff, diff_is_empty, palette_tokens, region_tokens, palette_differs_at, region_differs_at, regions_comparable, count_variant, palette_summary_parts, summary_parts, dimension_line, region_token, region_change_fits};
use crate::documents::{TtpObject, document_entry_fits, document_sprites};
use crate::token_map::TokenMap;
use crate::pixels::{PixelSet, lemma_regions_finite, shift_of, symmetric_difference_len, lemma_shift_is_translation, moved, min_x, min_y, fits_i32, moves_into};
use crate::report::{report_lines, header_line, region_section, palette_section, region_line, palette_line};
use crate::text::{join, decimal, seq_lt, lemma_seq_lt_asymmetric, lemma_seq_lt_irreflexive};
use crate::token_map::strictly_sorted;

verus! {

proof fn lemma_no_tokens_means_empty(s: Seq<Seq<char>>)
    requires
        forall|t: Seq<char>| !#[trigger] s.contains(t),
    ensures
        s.len() == 0,
{
    if s.len() > 0 {
        assert(s.contains(s[0]));
    }
}

/// Comparing a sprite with itself, under the same palette, finds no difference, and the
/// summary says "No differences".
pub proof fn lemma_identical_sprites_have_no_differences(
    d: SpriteDiff,
    s: Sprite,
    p: Map<Seq<char>, Seq<char>>,
)
    requires
        is_sprite_diff(d, s, s, p, p),
    ensures
        diff_is_empty(d),
        d.summary@ == "No differences"@,
{
    assert forall|t: Seq<char>| !#[trigger] palette_tokens(d.palette_changes@).contains(t) by {
        assert(!palette_differs_at(t, p, p));
    }
    lemma_no_tokens_means_empty(palette_tokens(d.palette_changes@));
    if regions_comparable(s, s) {
        let r = s.regions->0@;
        assert forall|t: Seq<char>| !#[trigger] region_tokens(d.region_changes@).contains(t) by {
            assert(!region_differs_at(t, r, r));
        }
        lemma_no_tokens_means_empty(region_tokens(d.region_changes@));
    }
    assert(count_variant(d.palette_changes@, 0) == 0);
    assert(count_variant(d.palette_changes@, 1) == 0);
    assert(count_variant(d.palette_changes@, 2) == 0);
    assert(palette_summary_parts(d.palette_changes@) =~= Seq::<Seq<char>>::empty());
    assert(summary_parts(d.dimension_change, d.palette_changes@, d.region_changes@) =~= Seq::<
        Seq<char>,
    >::empty());
}

proof fn lemma_join_starts_with_first(parts: Seq<Seq<char>>, sep: Seq<char>)
    requires
        parts.len() > 0,
        parts[0].len() > 0,
    ensures
        join(parts, sep).len() > 0,
        join(parts, sep)[0] == parts[0][0],
    decreases parts.len(),
{
    if parts.len() > 1 {
        lemma_join_starts_with_first(parts.drop_last(), sep);
    }
}

proof fn lemma_summary_parts_initials(dim: Option<DimensionChange>, pcs: Seq<PaletteChange>, rcs: Seq<RegionChange>)
    ensures
        summary_parts(dim, pcs, rcs).len() > 0 ==> {
            let first = summary_parts(dim, pcs, rcs)[0];
            first.len() > 0 && (first[0] == 'D' || first[0] == 'R' || first[0] == 'P')
        },
{
    reveal_strlit("Dimensions: ");
    reveal_strlit("Regions: ");
    reveal_strlit("Palette: ");
    let parts = summary_parts(dim, pcs, rcs);
    if parts.len() > 0 {
        match dim {
            Some(d) => {
                assert(parts[0] == dimension_line(d));
                assert(dimension_line(d)[0] == 'D');
            },
            None => {
                if rcs.len() > 0 {
                    assert(parts[0] == "Regions: "@ + decimal(rcs.len()) + " changed"@);
                } else {
                    assert(parts[0] == "Palette: "@ + join(palette_summary_parts(pcs), ", "@));
                }
            },
        }
    }
}

/// The summary of a comparison says "No differences" exactly when the comparison found
/// no difference.
pub proof fn lemma_summary_says_no_differences_iff_empty(
    d: SpriteDiff,
    a: Sprite,
    b: Sprite,
    pa: Map<Seq<char>, Seq<char>>,
    pb: Map<Seq<char>, Seq<char>>,
)
    requires
        is_sprite_diff(d, a, b, pa, pb),
    ensures
        (d.summary@ == "No differences"@) <==> diff_is_empty(d),
{
    reveal_strlit("No differences");
    let parts = summary_parts(d.dimension_change, d.palette_changes@, d.region_changes@);
    if diff_is_empty(d) {
        assert(count_variant(d.palette_changes@, 0) == 0);
        assert(count_variant(d.palette_changes@, 1) == 0);
        assert(count_variant(d.palette_changes@, 2) == 0);
        assert(palette_summary_parts(d.palette_changes@) =~= Seq::<Seq<char>>::empty());
        assert(parts =~= Seq::<Seq<char>>::empty());
    } else {
        if d.palette_changes@.len() > 0 {
            lemma_count_variants_nonzero(d.palette_changes@);
        }
        assert(parts.len() > 0);
        lemma_summary_parts_initials(d.dimension_change, d.palette_changes@, d.region_changes@);
        lemma_join_starts_with_first(parts, ". "@);
        assert(d.summary@[0] != 'N');
    }
}

proof fn lemma_count_variants_nonzero(cs: Seq<PaletteChange>)
    requires
        cs.len() > 0,
    ensures
        count_variant(cs, 0) + count_variant(cs, 1) + count_variant(cs, 2) > 0,
        palette_summary_parts(cs).len() > 0,
    decreases cs.len(),
{
    if cs.len() > 1 {
        lemma_count_variants_nonzero(cs.drop_last());
    }
}

/// A sprite defined in only one of two documents is always reported as a difference.
pub proof fn lemma_one_sided_sprite_is_a_difference(
    e: (String, SpriteDiff),
    objects_a: Seq<TtpObject>,
    objects_b: Seq<TtpObject>,
)
    requires
        document_entry_fits(e, objects_a, objects_b),
        document_sprites(objects_a).contains_key(e.0@) != document_sprites(objects_b).contains_key(
            e.0@,
        ),
    ensures
        !diff_is_empty(e.1),
        e.1.presence_change is Some,
{
}

/// A region reported as changed in shape differs in at least one pixel.
pub proof fn lemma_changed_region_differs(c: RegionChange, ra: TokenMap<PixelSet>, rb: TokenMap<PixelSet>)
    requires
        region_change_fits(c, ra@, rb@),
        c is Changed,
    ensures
        c->differing > 0,
{
    lemma_regions_finite(ra);
    lemma_regions_finite(rb);
    let t = region_token(c);
    let a = ra@[t];
    let b = rb@[t];
    assert(a.finite() && b.finite());
    if a.difference(b).len() == 0 && b.difference(a).len() == 0 {
        assert(a.difference(b) =~= Set::empty());
        assert(b.difference(a) =~= Set::empty());
        assert forall|p: (i32, i32)| a.contains(p) <==> b.contains(p) by {
            if a.contains(p) && !b.contains(p) {
                assert(a.difference(b).contains(p));
            }
            if b.contains(p) && !a.contains(p) {
                assert(b.difference(a).contains(p));
            }
        }
        assert(a =~= b);
    }
}

proof fn lemma_report_line_initial(name: Seq<char>, d: SpriteDiff, file_a: Seq<char>, file_b: Seq<char>, i: int)
    requires
        0 <= i < report_lines(name, d, file_a, file_b).len(),
        d.presence_change is None,
        !diff_is_empty(d),
    ensures
        report_lines(name, d, file_a, file_b)[i].len() == 0 || report_lines(name, d, file_a, file_b)[i][0] != 'N',
{
    reveal_strlit("Comparing sprite \"");
    reveal_strlit("Dimensions: ");
    reveal_strlit("Dimensions: Same");
    reveal_strlit("Region changes:");
    reveal_strlit("Token changes:");
    reveal_strlit("Summary: ");
    reveal_strlit("  + ");
    reveal_strlit("  - ");
    reveal_strlit("  → ");
    reveal_strlit("  ~ ");
    let head = seq![header_line(name, file_a, file_b), Seq::<char>::empty()];
    let dim_text = match d.dimension_change {
        Some(dc) => dimension_line(dc),
        None => "Dimensions: Same"@,
    };
    let rs = region_section(d.region_changes@);
    let ps = palette_section(d.palette_changes@);
    let tail = seq![Seq::<char>::empty(), "Summary: "@ + d.summary@];
    let lines = report_lines(name, d, file_a, file_b);
    assert(lines == head.push(dim_text) + rs + ps + tail);
    let l = lines[i];
    if i < 3 {
        if i == 0 {
            assert(l == header_line(name, file_a, file_b));
            assert(l[0] == 'C');
        } else if i == 2 {
            match d.dimension_change {
                Some(dc) => assert(dimension_line(dc)[0] == 'D'),
                None => {},
            }
        }
    } else if i < 3 + rs.len() {
        let j = i - 3;
        assert(l == rs[j]);
        if j >= 2 {
            let c = d.region_changes@[j - 2];
            assert(l == region_line(c));
            assert(l[0] == ' ');
        } else if j == 1 {
            assert(l[0] == 'R');
        }
    } else if i < 3 + rs.len() + ps.len() {
        let j = i - 3 - rs.len();
        assert(l == ps[j]);
        if j >= 2 {
            let c = d.palette_changes@[j - 2];
            assert(l == palette_line(c));
            assert(l[0] == ' ');
        } else if j == 1 {
            assert(l[0] == 'T');
        }
    } else {
        let j = i - 3 - rs.len() - ps.len();
        assert(l == tail[j]);
        if j == 1 {
            assert(l[0] == 'S');
        }
    }
}

/// A report says "No differences found." exactly when the diff is empty: a diff with a
/// presence note (one that is not that very line) never says it.
pub proof fn lemma_report_says_no_differences_iff_empty(
    name: Seq<char>,
    d: SpriteDiff,
    file_a: Seq<char>,
    file_b: Seq<char>,
)
    requires
        d.presence_change matches Some(note) ==> note@ != "No differences found."@,
    ensures
        report_lines(name, d, file_a, file_b).contains("No differences found."@) <==> diff_is_empty(d),
{
    reveal_strlit("No differences found.");
    reveal_strlit("Comparing sprite \"");
    let lines = report_lines(name, d, file_a, file_b);
    let target = "No differences found."@;
    if diff_is_empty(d) {
        assert(lines[2] == target);
    } else if lines.contains(target) {
        let i = choose|i: int| 0 <= i < lines.len() && lines[i] == target;
        assert(target[0] == 'N');
        assert(target.len() > 0);
        match d.presence_change {
            Some(note) => {
                assert(lines == seq![header_line(name, file_a, file_b), Seq::<char>::empty(), note@]);
                if i == 0 {
                    assert(lines[0][0] == 'C');
                } else if i == 1 {
                    assert(lines[1].len() == 0);
                } else {
                    assert(lines[2] == note@);
                }
            },
            None => {
                lemma_report_line_initial(name, d, file_a, file_b, i);
            },
        }
        assert(false);
    }
}

proof fn lemma_sorted_same_elements(s: Seq<Seq<char>>, t: Seq<Seq<char>>)
    requires
        strictly_sorted(s),
        strictly_sorted(t),
        forall|x: Seq<char>| #[trigger] s.contains(x) <==> t.contains(x),
    ensures
        s == t,
    decreases s.len(),
{
    if s.len() == 0 {
        if t.len() > 0 {
            assert(t.contains(t[0]));
            assert(s.contains(t[0]));
        }
        assert(s =~= t);
    } else {
        assert(s.contains(s[0]));
        assert(t.contains(s[0]));
        let j = choose|j: int| 0 <= j < t.len() && t[j] == s[0];
        assert(t.contains(t[0]));
        assert(s.contains(t[0]));
        let k = choose|k: int| 0 <= k < s.len() && s[k] == t[0];
        if j > 0 {
            assert(seq_lt(t[0], t[j]));
            if k > 0 {
                assert(seq_lt(s[0], s[k]));
                lemma_seq_lt_asymmetric(s[0], t[0]);
            } else {
                lemma_seq_lt_irreflexive(s[0]);
            }
        }
        assert(j == 0);
        let s1 = s.drop_first();
        let t1 = t.drop_first();
        assert forall|x: Seq<char>| #[trigger] s1.contains(x) <==> t1.contains(x) by {
            if s1.contains(x) {
                let a = choose|a: int| 0 <= a < s1.len() && s1[a] == x;
                assert(seq_lt(s[0], s[a + 1]));
                lemma_seq_lt_irreflexive(x);
                assert(s.contains(x));
                let b = choose|b: int| 0 <= b < t.len() && t[b] == x;
                assert(b != 0);
                assert(t1[b - 1] == x);
            }
            if t1.contains(x) {
                let a = choose|a: int| 0 <= a < t1.len() && t1[a] == x;
                assert(t[0] == s[0]);
                assert(t1[a] == t[a + 1]);
                assert(seq_lt(t[0], t[a + 1]));
                lemma_seq_lt_irreflexive(x);
                assert(t.contains(x));
                assert(s.contains(x));
                let b = choose|b: int| 0 <= b < s.len() && s[b] == x;
                assert(b != 0);
                assert(s1[b - 1] == x);
            }
        }
        lemma_sorted_same_elements(s1, t1);
        assert(s =~= t) by {
            assert forall|i: int| 0 <= i < s.len() implies s[i] == t[i] by {
                if i > 0 {
                    assert(s[i] == s1[i - 1]);
                    assert(t[i] == t1[i - 1]);
                }
            }
        }
    }
}

/// Two palette changes are mirror images: same token, added and removed swapped, old and
/// new colors swapped.
pub open spec fn palette_changes_mirror(c: PaletteChange, d: PaletteChange) -> bool {
    match (c, d) {
        (PaletteChange::Added { token: t, .. }, PaletteChange::Removed { token: u }) => t@ == u@,
        (PaletteChange::Removed { token: t }, PaletteChange::Added { token: u, .. }) => t@ == u@,
        (
            PaletteChange::Changed { token: t, old_color: o, new_color: n },
            PaletteChange::Changed { token: u, old_color: o2, new_color: n2 },
        ) => t@ == u@ && o@ == n2@ && n@ == o2@,
        _ => false,
    }
}

/// Comparing palettes the other way round gives the mirror image, change by change.
pub proof fn lemma_palette_comparison_mirrors(
    cs: Seq<PaletteChange>,
    ds: Seq<PaletteChange>,
    pa: Map<Seq<char>, Seq<char>>,
    pb: Map<Seq<char>, Seq<char>>,
)
    requires
        palette_changes_between(cs, pa, pb),
        palette_changes_between(ds, pb, pa),
    ensures
        cs.len() == ds.len(),
        forall|i: int| 0 <= i < cs.len() ==> palette_changes_mirror(#[trigger] cs[i], ds[i]),
{
    assert forall|t: Seq<char>| #[trigger] palette_tokens(cs).contains(t) <==> palette_tokens(ds).contains(t) by {
        assert(palette_differs_at(t, pa, pb) == palette_differs_at(t, pb, pa));
    }
    lemma_sorted_same_elements(palette_tokens(cs), palette_tokens(ds));
    assert forall|i: int| 0 <= i < cs.len() implies palette_changes_mirror(#[trigger] cs[i], ds[i]) by {
        assert(palette_tokens(cs)[i] == palette_tokens(ds)[i]);
        assert(palette_change_fits(cs[i], pa, pb));
        assert(palette_change_fits(ds[i], pb, pa));
    }
}

/// A translation in one direction is the opposite translation in the other.
pub proof fn lemma_shift_reverses(a: Set<(i32, i32)>, b: Set<(i32, i32)>)
    requires
        a.finite(),
        b.finite(),
        shift_of(a, b) is Some,
    ensures
        ({
            let (dx, dy) = shift_of(a, b)->0;
            shift_of(b, a) == Some((-dx, -dy))
        }),
{
    let (dx, dy) = shift_of(a, b)->0;
    lemma_shift_is_translation(a, b);
    let f = |p: (i32, i32)| moved(p, dx, dy);
    assert(b == a.map(f));
    assert(min_x(a) - min_x(b) == -dx);
    assert(min_y(a) - min_y(b) == -dy);
    assert forall|q: (i32, i32)| #[trigger] b.contains(q) implies fits_i32(q.0 + -dx) && fits_i32(q.1 + -dy)
        && a.contains(moved(q, -dx, -dy)) by {
        let p = choose|p: (i32, i32)| a.contains(p) && f(p) == q;
        assert(fits_i32(p.0 + dx) && fits_i32(p.1 + dy));
        assert(moved(q, -dx, -dy) == p);
    }
    assert(moves_into(b, a, -dx, -dy));
}

/// Two region changes are mirror images: same token, added and removed swapped, opposite
/// offsets, the same count of differing pixels.
pub open spec fn region_changes_mirror(c: RegionChange, d: RegionChange) -> bool {
    match (c, d) {
        (RegionChange::Added { token: t }, RegionChange::Removed { token: u }) => t@ == u@,
        (RegionChange::Removed { token: t }, RegionChange::Added { token: u }) => t@ == u@,
        (
            RegionChange::Shifted { token: t, dx, dy },
            RegionChange::Shifted { token: u, dx: ex, dy: ey },
        ) => t@ == u@ && ex == -dx && ey == -dy,
        (
            RegionChange::Changed { token: t, differing: n },
            RegionChange::Changed { token: u, differing: m },
        ) => t@ == u@ && n == m,
        _ => false,
    }
}

/// Comparing regions the other way round gives the mirror image, change by change.
pub proof fn lemma_region_comparison_mirrors(
    cs: Seq<RegionChange>,
    ds: Seq<RegionChange>,
    regions_a: TokenMap<PixelSet>,
    regions_b: TokenMap<PixelSet>,
)
    requires
        region_changes_between(cs, regions_a@, regions_b@),
        region_changes_between(ds, regions_b@, regions_a@),
    ensures
        cs.len() == ds.len(),
        forall|i: int| 0 <= i < cs.len() ==> region_changes_mirror(#[trigger] cs[i], ds[i]),
{
    lemma_regions_finite(regions_a);
    lemma_regions_finite(regions_b);
    let ra = regions_a@;
    let rb = regions_b@;
    assert forall|t: Seq<char>| #[trigger] region_tokens(cs).contains(t) <==> region_tokens(ds).contains(t) by {
        assert(region_differs_at(t, ra, rb) == region_differs_at(t, rb, ra));
    }
    lemma_sorted_same_elements(region_tokens(cs), region_tokens(ds));
    assert forall|i: int| 0 <= i < cs.len() implies region_changes_mirror(#[trigger] cs[i], ds[i]) by {
        assert(region_tokens(cs)[i] == region_tokens(ds)[i]);
        assert(region_change_fits(cs[i], ra, rb));
        assert(region_change_fits(ds[i], rb, ra));
        let t = region_token(cs[i]);
        if ra.contains_key(t) && rb.contains_key(t) {
            let a = ra[t];
            let b = rb[t];
            if shift_of(a, b) is Some {
                lemma_shift_reverses(a, b);
            }
            if shift_of(b, a) is Some {
                lemma_shift_reverses(b, a);
            }
            assert(symmetric_difference_len(a, b) == symmetric_difference_len(b, a));
        }
    }
}

/// Something differs between two sprites: their dimensions, the color of some token, or,
/// when their geometry is comparable, the pixels of some region.
pub open spec fn sprites_differ(
    a: Sprite,
    b: Sprite,
    pa: Map<Seq<char>, Seq<char>>,
    pb: Map<Seq<char>, Seq<char>>,
) -> bool {
    ||| sprite_dimensions(a) != sprite_dimensions(b)
    ||| exists|t: Seq<char>| #[trigger] palette_differs_at(t, pa, pb)
    ||| (regions_comparable(a, b) && exists|t: Seq<char>| #[trigger] region_differs_at(
        t,
        a.regions->0@,
        b.regions->0@,
    ))
}

/// A comparison is empty exactly when nothing differs: no difference goes unreported.
pub proof fn lemma_empty_iff_nothing_differs(
    d: SpriteDiff,
    a: Sprite,
    b: Sprite,
    pa: Map<Seq<char>, Seq<char>>,
    pb: Map<Seq<char>, Seq<char>>,
)
    requires
        is_sprite_diff(d, a, b, pa, pb),
    ensures
        diff_is_empty(d) <==> !sprites_differ(a, b, pa, pb),
{
    let pt = palette_tokens(d.palette_changes@);
    let rt = region_tokens(d.region_changes@);
    if exists|t: Seq<char>| #[trigger] palette_differs_at(t, pa, pb) {
        let t = choose|t: Seq<char>| #[trigger] palette_differs_at(t, pa, pb);
        assert(pt.contains(t));
    }
    if d.palette_changes@.len() > 0 {
        assert(pt.contains(pt[0]));
        assert(palette_differs_at(pt[0], pa, pb));
    }
    if regions_comparable(a, b) {
        let ra = a.regions->0@;
        let rb = b.regions->0@;
        if exists|t: Seq<char>| #[trigger] region_differs_at(t, ra, rb) {
            let t = choose|t: Seq<char>| #[trigger] region_differs_at(t, ra, rb);
            assert(rt.contains(t));
        }
        if d.region_changes@.len() > 0 {
            assert(rt.contains(rt[0]));
            assert(region_differs_at(rt[0], ra, rb));
        }
    }
}

/// Comparing two sprites the other way round gives the mirror image: the dimensions
/// swapped, every palette and region change mirrored, and the same emptiness.
pub proof fn lemma_sprite_comparison_mirrors(
    d: SpriteDiff,
    e: SpriteDiff,
    a: Sprite,
    b: Sprite,
    pa: Map<Seq<char>, Seq<char>>,
    pb: Map<Seq<char>, Seq<char>>,
)
    requires
        is_sprite_diff(d, a, b, pa, pb),
        is_sprite_diff(e, b, a, pb, pa),
    ensures
        (d.dimension_change matches Some(x) ==> e.dimension_change == Some(
            DimensionChange { old: x.new, new: x.old },
        )),
        d.dimension_change is None <==> e.dimension_change is None,
        d.palette_changes@.len() == e.palette_changes@.len(),
        forall|i: int| 0 <= i < d.palette_changes@.len() ==> palette_changes_mirror(
            #[trigger] d.palette_changes@[i],
            e.palette_changes@[i],
        ),
        d.region_changes@.len() == e.region_changes@.len(),
        forall|i: int| 0 <= i < d.region_changes@.len() ==> region_changes_mirror(
            #[trigger] d.region_changes@[i],
            e.region_changes@[i],
        ),
        diff_is_empty(d) <==> diff_is_empty(e),
{
    lemma_palette_comparison_mirrors(d.palette_changes@, e.palette_changes@, pa, pb);
    if regions_comparable(a, b) {
        lemma_region_comparison_mirrors(d.region_changes@, e.region_changes@, a.regions->0, b.regions->0);
    }
}

/// The summary depends on the palette changes only through how many there are of each
/// variant, and on the region changes only through how many there are.
pub proof fn lemma_summary_depends_only_on_counts(
    dim: Option<DimensionChange>,
    pcs: Seq<PaletteChange>,
    rcs: Seq<RegionChange>,
    pcs2: Seq<PaletteChange>,
    rcs2: Seq<RegionChange>,
)
    requires
        count_variant(pcs, 0) == count_variant(pcs2, 0),
        count_variant(pcs, 1) == count_variant(pcs2, 1),
        count_variant(pcs, 2) == count_variant(pcs2, 2),
        rcs.len() == rcs2.len(),
    ensures
        summary_text(dim, pcs, rcs) == summary_text(dim, pcs2, rcs2),
{
    assert(palette_summary_parts(pcs) == palette_summary_parts(pcs2));
    assert(summary_parts(dim, pcs, rcs) == summary_parts(dim, pcs2, rcs2));
}

proof fn lemma_count_variant_remove(t: Seq<PaletteChange>, j: int, k: nat)
    requires
        0 <= j < t.len(),
    ensures
        count_variant(t, k) == count_variant(t.remove(j), k) + if palette_variant(t[j]) == k {
            1nat
        } else {
            0nat
        },
    decreases t.len(),
{
    if j == t.len() - 1 {
        assert(t.remove(j) =~= t.drop_last());
    } else {
        let r = t.remove(j);
        assert(r.drop_last() =~= t.drop_last().remove(j));
        assert(r.last() == t.last());
        lemma_count_variant_remove(t.drop_last(), j, k);
    }
}

proof fn lemma_count_variant_permutation(s: Seq<PaletteChange>, t: Seq<PaletteChange>, k: nat)
    requires
        s.to_multiset() == t.to_multiset(),
    ensures
        count_variant(s, k) == count_variant(t, k),
    decreases s.len(),
{
    broadcast use {vstd::seq_lib::to_multiset_build, vstd::seq_lib::to_multiset_remove, vstd::seq_lib::to_multiset_len, vstd::seq_lib::to_multiset_contains};
    broadcast use vstd::multiset::group_multiset_axioms;

    if s.len() == 0 {
        vstd::seq_lib::to_multiset_len(s);
        vstd::seq_lib::to_multiset_len(t);
        assert(t.len() == 0);
    } else {
        let x = s.last();
        let sd = s.drop_last();
        assert(s =~= sd.push(x));
        assert(s.to_multiset() == sd.to_multiset().insert(x));
        assert(t.to_multiset().count(x) > 0);
        assert(t.contains(x));
        let j = choose|j: int| 0 <= j < t.len() && t[j] == x;
        assert(t.remove(j).to_multiset() == t.to_multiset().remove(x));
        assert(sd.to_multiset() =~= t.remove(j).to_multiset());
        lemma_count_variant_permutation(sd, t.remove(j), k);
        lemma_count_variant_remove(t, j, k);
    }
}

/// The summary does not depend on the order of the palette changes, nor on which region
/// changes there are: a reordering of the one and any list of the same length of the other
/// give the same summary.
pub proof fn lemma_summary_ignores_order(
    dim: Option<DimensionChange>,
    pcs: Seq<PaletteChange>,
    rcs: Seq<RegionChange>,
    pcs2: Seq<PaletteChange>,
    rcs2: Seq<RegionChange>,
)
    requires
        pcs.to_multiset() == pcs2.to_multiset(),
        rcs.len() == rcs2.len(),
    ensures
        summary_text(dim, pcs, rcs) == summary_text(dim, pcs2, rcs2),
{
    lemma_count_variant_permutation(pcs, pcs2, 0);
    lemma_count_variant_permutation(pcs, pcs2, 1);
    lemma_count_variant_permutation(pcs, pcs2, 2);
    lemma_summary_depends_only_on_counts(dim, pcs, rcs, pcs2, rcs2);
}

} // verus!
