//! What a comparison, its summary and its report say, in terms of the sprites and
//! documents compared.
use vstd::prelude::*;
use crate::diff::{
    PaletteChange, RegionChange, DimensionChange, Sprite, SpriteDiff, PaletteRef, is_sprite_diff,
    count_variant, palette_variant, palette_tokens, region_tokens, palette_change_fits, region_change_fits,
    summary_text, summary_parts, palette_summary_parts,
};
use crate::documents::{TtpObject, document_entry_fits, document_sprites, document_palettes, resolved_palette};
use crate::report::report_lines;
use crate::text::{decimal, join};

verus! {

/// The first sprite's declared `[width, height]` becomes `old` and the second's `new`,
/// width first, whenever the declared sizes differ; equal sizes give no change; a sprite
/// without a size counts as `0x0`.
pub proof fn lemma_dimension_change_is_declared_sizes(
    d: SpriteDiff,
    a: Sprite,
    b: Sprite,
    pa: Map<Seq<char>, Seq<char>>,
    pb: Map<Seq<char>, Seq<char>>,
)
    requires
        is_sprite_diff(d, a, b, pa, pb),
    ensures
        a.size is Some && b.size is Some ==> {
            let x = a.size->0;
            let y = b.size->0;
            if x@[0] != y@[0] || x@[1] != y@[1] {
                d.dimension_change == Some(DimensionChange { old: (x@[0], x@[1]), new: (y@[0], y@[1]) })
            } else {
                d.dimension_change is None
            }
        },
        a.size is None && b.size is Some ==> {
            let y = b.size->0;
            if y@[0] != 0 || y@[1] != 0 {
                d.dimension_change == Some(DimensionChange { old: (0, 0), new: (y@[0], y@[1]) })
            } else {
                d.dimension_change is None
            }
        },
        a.size is Some && b.size is None ==> {
            let x = a.size->0;
            if x@[0] != 0 || x@[1] != 0 {
                d.dimension_change == Some(DimensionChange { old: (x@[0], x@[1]), new: (0, 0) })
            } else {
                d.dimension_change is None
            }
        },
        a.size is None && b.size is None ==> d.dimension_change is None,
{
}

/// How many changes of a list are additions, removals and recolorings.
pub open spec fn added_count(cs: Seq<PaletteChange>) -> nat {
    cs.filter(|c: PaletteChange| c is Added).len()
}

pub open spec fn removed_count(cs: Seq<PaletteChange>) -> nat {
    cs.filter(|c: PaletteChange| c is Removed).len()
}

pub open spec fn recolored_count(cs: Seq<PaletteChange>) -> nat {
    cs.filter(|c: PaletteChange| c is Changed).len()
}

proof fn lemma_counts_are_filters(cs: Seq<PaletteChange>)
    ensures
        count_variant(cs, 0) == added_count(cs),
        count_variant(cs, 1) == removed_count(cs),
        count_variant(cs, 2) == recolored_count(cs),
    decreases cs.len(),
{
    reveal(Seq::filter);
    if cs.len() > 0 {
        lemma_counts_are_filters(cs.drop_last());
    }
}

/// The summary, in terms of the changes: the dimensions as `WxH → WxH`, the number of
/// region changes, and the numbers of added (`+`), removed (`-`) and recolored (`~`)
/// tokens, each part only when it is not zero, joined with ". " (the palette counts with
/// ", "); "No differences" when there is no part.
pub proof fn lemma_summary_says_the_counts(
    dim: Option<DimensionChange>,
    pcs: Seq<PaletteChange>,
    rcs: Seq<RegionChange>,
)
    ensures
        ({
            let na = added_count(pcs);
            let nr = removed_count(pcs);
            let nc = recolored_count(pcs);
            let palette_pieces = (if na > 0 { seq!["+"@ + decimal(na) + " token(s)"@] } else { Seq::empty() })
                + (if nr > 0 { seq!["-"@ + decimal(nr) + " token(s)"@] } else { Seq::empty() })
                + (if nc > 0 { seq!["~"@ + decimal(nc) + " color(s)"@] } else { Seq::empty() });
            let pieces = (match dim {
                Some(dc) => seq![
                    "Dimensions: "@ + decimal(dc.old.0 as nat) + "x"@ + decimal(dc.old.1 as nat) + " → "@
                        + decimal(dc.new.0 as nat) + "x"@ + decimal(dc.new.1 as nat),
                ],
                None => Seq::empty(),
            }) + (if rcs.len() > 0 {
                seq!["Regions: "@ + decimal(rcs.len()) + " changed"@]
            } else {
                Seq::empty()
            }) + (if palette_pieces.len() > 0 {
                seq!["Palette: "@ + join(palette_pieces, ", "@)]
            } else {
                Seq::empty()
            });
            summary_text(dim, pcs, rcs) == if pieces.len() == 0 {
                "No differences"@
            } else {
                join(pieces, ". "@)
            }
        }),
{
    lemma_counts_are_filters(pcs);
}

/// A list of additions only is summarised as `Palette: +N token(s)`, N its length; of
/// removals only as `Palette: -N token(s)`; of recolorings only as `Palette: ~N color(s)`.
pub proof fn lemma_summary_of_one_kind(pcs: Seq<PaletteChange>)
    requires
        pcs.len() > 0,
    ensures
        (forall|i: int| 0 <= i < pcs.len() ==> #[trigger] pcs[i] is Added) ==> summary_text(
            None,
            pcs,
            Seq::empty(),
        ) == "Palette: +"@ + decimal(pcs.len()) + " token(s)"@,
        (forall|i: int| 0 <= i < pcs.len() ==> #[trigger] pcs[i] is Removed) ==> summary_text(
            None,
            pcs,
            Seq::empty(),
        ) == "Palette: -"@ + decimal(pcs.len()) + " token(s)"@,
        (forall|i: int| 0 <= i < pcs.len() ==> #[trigger] pcs[i] is Changed) ==> summary_text(
            None,
            pcs,
            Seq::empty(),
        ) == "Palette: ~"@ + decimal(pcs.len()) + " color(s)"@,
{
    reveal_strlit("Palette: ");
    reveal_strlit("Palette: +");
    reveal_strlit("Palette: -");
    reveal_strlit("Palette: ~");
    reveal_strlit("+");
    reveal_strlit("-");
    reveal_strlit("~");
    let n = pcs.len();
    let none = Seq::<RegionChange>::empty();
    if forall|i: int| 0 <= i < pcs.len() ==> #[trigger] pcs[i] is Added {
        lemma_all_counted(pcs, 0);
        let piece = "+"@ + decimal(n) + " token(s)"@;
        assert(palette_summary_parts(pcs) =~= seq![piece]);
        assert(summary_parts(None, pcs, none) =~= seq!["Palette: "@ + join(seq![piece], ", "@)]);
        assert("Palette: "@ + piece =~= "Palette: +"@ + decimal(n) + " token(s)"@);
    }
    if forall|i: int| 0 <= i < pcs.len() ==> #[trigger] pcs[i] is Removed {
        lemma_all_counted(pcs, 1);
        let piece = "-"@ + decimal(n) + " token(s)"@;
        assert(palette_summary_parts(pcs) =~= seq![piece]);
        assert(summary_parts(None, pcs, none) =~= seq!["Palette: "@ + join(seq![piece], ", "@)]);
        assert("Palette: "@ + piece =~= "Palette: -"@ + decimal(n) + " token(s)"@);
    }
    if forall|i: int| 0 <= i < pcs.len() ==> #[trigger] pcs[i] is Changed {
        lemma_all_counted(pcs, 2);
        let piece = "~"@ + decimal(n) + " color(s)"@;
        assert(palette_summary_parts(pcs) =~= seq![piece]);
        assert(summary_parts(None, pcs, none) =~= seq!["Palette: "@ + join(seq![piece], ", "@)]);
        assert("Palette: "@ + piece =~= "Palette: ~"@ + decimal(n) + " color(s)"@);
    }
}

proof fn lemma_all_counted(pcs: Seq<PaletteChange>, k: nat)
    requires
        forall|i: int| 0 <= i < pcs.len() ==> palette_variant(#[trigger] pcs[i]) == k,
    ensures
        count_variant(pcs, k) == pcs.len(),
        forall|j: nat| j != k ==> #[trigger] count_variant(pcs, j) == 0,
    decreases pcs.len(),
{
    if pcs.len() > 0 {
        assert(palette_variant(pcs[pcs.len() - 1]) == k);
        lemma_all_counted(pcs.drop_last(), k);
        assert forall|j: nat| j != k implies #[trigger] count_variant(pcs, j) == 0 by {
            assert(count_variant(pcs.drop_last(), j) == 0);
        }
    }
}

/// The third line of a report without presence note: the dimension change as
/// `Dimensions: W×H → W×H` with the old and new widths and heights; `Dimensions: Same`
/// when there is none but other changes; `No differences found.` (the last line) when
/// there is no change at all. The report opens with its header and a blank line and,
/// when there are changes, ends with the summary.
pub proof fn lemma_report_dimension_line(name: Seq<char>, d: SpriteDiff, file_a: Seq<char>, file_b: Seq<char>)
    requires
        d.presence_change is None,
    ensures
        ({
            let lines = report_lines(name, d, file_a, file_b);
            &&& lines.len() >= 3
            &&& lines[0] == "Comparing sprite \""@ + name + "\" ("@ + file_a + ") vs ("@ + file_b + "):"@
            &&& lines[1] == Seq::<char>::empty()
            &&& (d.dimension_change matches Some(dc) ==> lines[2] == "Dimensions: "@ + decimal(dc.old.0 as nat)
                + "x"@ + decimal(dc.old.1 as nat) + " → "@ + decimal(dc.new.0 as nat) + "x"@ + decimal(
                dc.new.1 as nat,
            ))
            &&& (d.dimension_change is None && (d.palette_changes@.len() > 0 || d.region_changes@.len() > 0)
                ==> lines[2] == "Dimensions: Same"@)
            &&& (d.dimension_change is None && d.palette_changes@.len() == 0 && d.region_changes@.len() == 0
                ==> lines.len() == 3 && lines[2] == "No differences found."@)
            &&& (d.dimension_change is Some || d.palette_changes@.len() > 0 || d.region_changes@.len() > 0
                ==> lines.last() == "Summary: "@ + d.summary@)
        }),
{
}

/// No palette object of the document has this name.
pub open spec fn palette_undefined(objs: Seq<TtpObject>, name: Seq<char>) -> bool {
    forall|i: int| 0 <= i < objs.len() ==> !(#[trigger] objs[i] matches TtpObject::Palette(p) && p.name@ == name)
}

proof fn lemma_undefined_not_in_palettes(objs: Seq<TtpObject>, name: Seq<char>)
    requires
        palette_undefined(objs, name),
    ensures
        !document_palettes(objs).contains_key(name),
    decreases objs.len(),
{
    if objs.len() > 0 {
        let r = objs.drop_last();
        assert forall|i: int| 0 <= i < r.len() implies !(#[trigger] r[i] matches TtpObject::Palette(p) && p.name@ == name) by {
            assert(r[i] == objs[i]);
        }
        lemma_undefined_not_in_palettes(r, name);
        assert(objs.last() == objs[objs.len() - 1]);
    }
}

/// A sprite whose palette is a name its own document does not define has no colors:
/// compared with a sprite whose palette is also an undefined name it shows no palette
/// change, and against any other sprite its palette changes are all additions, whatever
/// other palettes the documents define.
pub proof fn lemma_undefined_palette_has_no_colors(
    e: (String, SpriteDiff),
    objects_a: Seq<TtpObject>,
    objects_b: Seq<TtpObject>,
)
    requires
        document_entry_fits(e, objects_a, objects_b),
        document_sprites(objects_a).contains_key(e.0@),
        document_sprites(objects_b).contains_key(e.0@),
        document_sprites(objects_a)[e.0@].palette matches PaletteRef::Named(n) && palette_undefined(
            objects_a,
            n@,
        ),
    ensures
        forall|i: int| 0 <= i < e.1.palette_changes@.len() ==> #[trigger] e.1.palette_changes@[i] is Added,
        document_sprites(objects_b)[e.0@].palette matches PaletteRef::Named(m) && palette_undefined(objects_b, m@)
            ==> e.1.palette_changes@.len() == 0,
{
    let n = document_sprites(objects_a)[e.0@].palette->Named_0;
    lemma_undefined_not_in_palettes(objects_a, n@);
    let cs = e.1.palette_changes@;
    let ra = resolved_palette(document_sprites(objects_a)[e.0@].palette, document_palettes(objects_a));
    let rb = resolved_palette(document_sprites(objects_b)[e.0@].palette, document_palettes(objects_b));
    assert(ra == Map::<Seq<char>, Seq<char>>::empty());
    assert forall|i: int| 0 <= i < cs.len() implies #[trigger] cs[i] is Added by {
        assert(palette_change_fits(cs[i], ra, rb));
    }
    if document_sprites(objects_b)[e.0@].palette is Named && palette_undefined(
        objects_b,
        document_sprites(objects_b)[e.0@].palette->Named_0@,
    ) {
        lemma_undefined_not_in_palettes(objects_b, document_sprites(objects_b)[e.0@].palette->Named_0@);
        if cs.len() > 0 {
            assert(palette_tokens(cs).contains(palette_tokens(cs)[0]));
        }
    }
}

/// When both sprites have regions and a size, every region in only the second sprite is
/// reported added, every region in only the first removed, every region in both whose
/// pixels differ shifted or reshaped; and every region change is about a region of one
/// of the two sprites.
pub proof fn lemma_regions_are_all_compared(
    d: SpriteDiff,
    a: Sprite,
    b: Sprite,
    pa: Map<Seq<char>, Seq<char>>,
    pb: Map<Seq<char>, Seq<char>>,
)
    requires
        is_sprite_diff(d, a, b, pa, pb),
        a.regions is Some,
        b.regions is Some,
        a.size is Some,
        b.size is Some,
    ensures
        ({
            let ra = a.regions->0@;
            let rb = b.regions->0@;
            let cs = d.region_changes@;
            &&& forall|t: Seq<char>| #[trigger] rb.contains_key(t) && !ra.contains_key(t) ==> exists|i: int|
                0 <= i < cs.len() && (#[trigger] cs[i] matches RegionChange::Added { token } && token@ == t)
            &&& forall|t: Seq<char>| #[trigger] ra.contains_key(t) && !rb.contains_key(t) ==> exists|i: int|
                0 <= i < cs.len() && (#[trigger] cs[i] matches RegionChange::Removed { token } && token@ == t)
            &&& forall|t: Seq<char>| #[trigger] ra.contains_key(t) && rb.contains_key(t) && ra[t] != rb[t]
                ==> exists|i: int| 0 <= i < cs.len() && ((#[trigger] cs[i] matches RegionChange::Shifted {
                token,
                ..
            } && token@ == t) || (cs[i] matches RegionChange::Changed { token, .. } && token@ == t))
            &&& forall|i: int| 0 <= i < cs.len() ==> ra.contains_key(#[trigger] region_tokens(cs)[i])
                || rb.contains_key(region_tokens(cs)[i])
        }),
{
    let ra = a.regions->0@;
    let rb = b.regions->0@;
    let cs = d.region_changes@;
    let ts = region_tokens(cs);
    assert forall|t: Seq<char>| #[trigger] rb.contains_key(t) && !ra.contains_key(t) implies exists|i: int|
        0 <= i < cs.len() && (#[trigger] cs[i] matches RegionChange::Added { token } && token@ == t) by {
        assert(ts.contains(t));
        let i = choose|i: int| 0 <= i < ts.len() && ts[i] == t;
        assert(region_change_fits(cs[i], ra, rb));
    }
    assert forall|t: Seq<char>| #[trigger] ra.contains_key(t) && !rb.contains_key(t) implies exists|i: int|
        0 <= i < cs.len() && (#[trigger] cs[i] matches RegionChange::Removed { token } && token@ == t) by {
        assert(ts.contains(t));
        let i = choose|i: int| 0 <= i < ts.len() && ts[i] == t;
        assert(region_change_fits(cs[i], ra, rb));
    }
    assert forall|t: Seq<char>| #[trigger] ra.contains_key(t) && rb.contains_key(t) && ra[t] != rb[t]
        implies exists|i: int| 0 <= i < cs.len() && ((#[trigger] cs[i] matches RegionChange::Shifted {
        token,
        ..
    } && token@ == t) || (cs[i] matches RegionChange::Changed { token, .. } && token@ == t)) by {
        assert(ts.contains(t));
        let i = choose|i: int| 0 <= i < ts.len() && ts[i] == t;
        assert(region_change_fits(cs[i], ra, rb));
    }
    assert forall|i: int| 0 <= i < cs.len() implies ra.contains_key(#[trigger] region_tokens(cs)[i])
        || rb.contains_key(region_tokens(cs)[i]) by {
        assert(region_change_fits(cs[i], ra, rb));
    }
}

} // verus!
