//! The text report of a sprite comparison.
use vstd::prelude::*;
use vstd::string::StringExecFns;
use crate::diff::{SpriteDiff, RegionChange, PaletteChange, diff_is_empty, dimension_line, dimension_line_string};
use crate::text::{views, decimal, signed_decimal, join, append_decimal, append_signed_decimal, join_strings, string_of};

verus! {

/// `Comparing sprite "NAME" (A) vs (B):`
pub open spec fn header_line(name: Seq<char>, file_a: Seq<char>, file_b: Seq<char>) -> Seq<char> {
    "Comparing sprite \""@ + name + "\" ("@ + file_a + ") vs ("@ + file_b + "):"@
}

/// The report line of a region change.
pub open spec fn region_line(c: RegionChange) -> Seq<char> {
    match c {
        RegionChange::Added { token } => "  + "@ + token@ + " (new region)"@,
        RegionChange::Removed { token } => "  - "@ + token@ + " (region gone)"@,
        RegionChange::Shifted { token, dx, dy } => "  → "@ + token@ + " shifted ("@ + signed_decimal(
            dx as int,
        ) + ", "@ + signed_decimal(dy as int) + ")"@,
        RegionChange::Changed { token, differing } => "  ~ "@ + token@ + " shape changed ("@ + decimal(
            differing as nat,
        ) + " pixel(s) differ)"@,
    }
}

/// The report line of a palette change.
pub open spec fn palette_line(c: PaletteChange) -> Seq<char> {
    match c {
        PaletteChange::Added { token, color } => "  + "@ + token@ + " = "@ + color@,
        PaletteChange::Removed { token } => "  - "@ + token@,
        PaletteChange::Changed { token, old_color, new_color } => "  ~ "@ + token@ + " color: "@
            + old_color@ + " → "@ + new_color@,
    }
}

/// The region section: a blank line, a title and one line per change; nothing without changes.
pub open spec fn region_section(cs: Seq<RegionChange>) -> Seq<Seq<char>> {
    if cs.len() > 0 {
        seq![Seq::<char>::empty(), "Region changes:"@] + cs.map_values(|c: RegionChange| region_line(c))
    } else {
        Seq::empty()
    }
}

/// The palette section: a blank line, a title and one line per change; nothing without changes.
pub open spec fn palette_section(cs: Seq<PaletteChange>) -> Seq<Seq<char>> {
    if cs.len() > 0 {
        seq![Seq::<char>::empty(), "Token changes:"@] + cs.map_values(|c: PaletteChange| palette_line(c))
    } else {
        Seq::empty()
    }
}

/// The lines of a report. After the header and a blank line: the presence note alone when
/// there is one; "No differences found." when the diff is empty; else the dimensions,
/// the region and palette sections, a blank line and the summary.
pub open spec fn report_lines(name: Seq<char>, d: SpriteDiff, file_a: Seq<char>, file_b: Seq<char>) -> Seq<Seq<char>> {
    let head = seq![header_line(name, file_a, file_b), Seq::<char>::empty()];
    match d.presence_change {
        Some(note) => head.push(note@),
        None => if diff_is_empty(d) {
            head.push("No differences found."@)
        } else {
            head.push(
                match d.dimension_change {
                    Some(dc) => dimension_line(dc),
                    None => "Dimensions: Same"@,
                },
            ) + region_section(d.region_changes@) + palette_section(d.palette_changes@) + seq![
                Seq::<char>::empty(),
                "Summary: "@ + d.summary@,
            ]
        },
    }
}

fn region_line_string(c: &RegionChange) -> (r: String)
    ensures
        r@ == region_line(*c),
{
    match c {
        RegionChange::Added { token } => {
            let mut s = string_of("  + ");
            s.append(token.as_str());
            s.append(" (new region)");
            s
        },
        RegionChange::Removed { token } => {
            let mut s = string_of("  - ");
            s.append(token.as_str());
            s.append(" (region gone)");
            s
        },
        RegionChange::Shifted { token, dx, dy } => {
            let mut s = string_of("  → ");
            s.append(token.as_str());
            s.append(" shifted (");
            append_signed_decimal(&mut s, *dx);
            s.append(", ");
            append_signed_decimal(&mut s, *dy);
            s.append(")");
            s
        },
        RegionChange::Changed { token, differing } => {
            let mut s = string_of("  ~ ");
            s.append(token.as_str());
            s.append(" shape changed (");
            append_decimal(&mut s, *differing as u64);
            s.append(" pixel(s) differ)");
            s
        },
    }
}

fn palette_line_string(c: &PaletteChange) -> (r: String)
    ensures
        r@ == palette_line(*c),
{
    match c {
        PaletteChange::Added { token, color } => {
            let mut s = string_of("  + ");
            s.append(token.as_str());
            s.append(" = ");
            s.append(color.as_str());
            s
        },
        PaletteChange::Removed { token } => {
            let mut s = string_of("  - ");
            s.append(token.as_str());
            s
        },
        PaletteChange::Changed { token, old_color, new_color } => {
            let mut s = string_of("  ~ ");
            s.append(token.as_str());
            s.append(" color: ");
            s.append(old_color.as_str());
            s.append(" → ");
            s.append(new_color.as_str());
            s
        },
    }
}

/// Format a diff for display
pub fn format_diff(name: &str, diff: &SpriteDiff, file_a: &str, file_b: &str) -> (r: String)
    ensures
        r@ == join(report_lines(name@, *diff, file_a@, file_b@), "\n"@),
{
    let mut output: Vec<String> = Vec::new();
    let mut header = string_of("Comparing sprite \"");
    header.append(name);
    header.append("\" (");
    header.append(file_a);
    header.append(") vs (");
    header.append(file_b);
    header.append("):");
    output.push(header);
    output.push(String::new());
    let ghost head = seq![header_line(name@, file_a@, file_b@), Seq::<char>::empty()];
    assert(views(output@) =~= head);

    // Presence: the sprite exists in only one file; say that, never "No differences found".
    if let Some(note) = &diff.presence_change {
        output.push(note.clone());
        assert(views(output@) =~= report_lines(name@, *diff, file_a@, file_b@));
        return join_strings(&output, "\n");
    }
    // Dimensions
    if let Some(dim) = &diff.dimension_change {
        output.push(dimension_line_string(dim));
    } else if diff.is_empty() {
        output.push(string_of("No differences found."));
        assert(views(output@) =~= report_lines(name@, *diff, file_a@, file_b@));
        return join_strings(&output, "\n");
    } else {
        output.push(string_of("Dimensions: Same"));
    }
    let ghost dim_text = match diff.dimension_change {
        Some(dc) => dimension_line(dc),
        None => "Dimensions: Same"@,
    };
    assert(views(output@) =~= head.push(dim_text));
    assert(!diff_is_empty(*diff));
    let ghost after_dims = views(output@);
    // Region geometry changes
    let nr = diff.region_changes.len();
    if nr > 0 {
        output.push(String::new());
        output.push(string_of("Region changes:"));
        let ghost titled = views(output@);
        let mut i: usize = 0;
        assert(diff.region_changes@.take(0).map_values(|c: RegionChange| region_line(c)) =~= Seq::<Seq<char>>::empty());
        while i < nr
            invariant
                nr == diff.region_changes@.len(),
                i <= nr,
                views(output@) == titled + diff.region_changes@.take(i as int).map_values(
                    |c: RegionChange| region_line(c),
                ),
            decreases nr - i,
        {
            let ghost before = views(output@);
            let line = region_line_string(&diff.region_changes[i]);
            let ghost lv = line@;
            output.push(line);
            assert(views(output@) =~= before.push(lv));
            assert(diff.region_changes@.take(i + 1).map_values(|c: RegionChange| region_line(c))
                =~= diff.region_changes@.take(i as int).map_values(|c: RegionChange| region_line(c)).push(
                region_line(diff.region_changes@[i as int]),
            ));
            i = i + 1;
        }
        assert(diff.region_changes@.take(nr as int) =~= diff.region_changes@);
    }
    assert(views(output@) =~= after_dims + region_section(diff.region_changes@));
    let ghost after_regions = views(output@);
    // Palette changes
    let np = diff.palette_changes.len();
    if np > 0 {
        output.push(String::new());
        output.push(string_of("Token changes:"));
        let ghost titled = views(output@);
        let mut i: usize = 0;
        assert(diff.palette_changes@.take(0).map_values(|c: PaletteChange| palette_line(c)) =~= Seq::<Seq<char>>::empty());
        while i < np
            invariant
                np == diff.palette_changes@.len(),
                i <= np,
                views(output@) == titled + diff.palette_changes@.take(i as int).map_values(
                    |c: PaletteChange| palette_line(c),
                ),
            decreases np - i,
        {
            let ghost before = views(output@);
            let line = palette_line_string(&diff.palette_changes[i]);
            let ghost lv = line@;
            output.push(line);
            assert(views(output@) =~= before.push(lv));
            assert(diff.palette_changes@.take(i + 1).map_values(|c: PaletteChange| palette_line(c))
                =~= diff.palette_changes@.take(i as int).map_values(|c: PaletteChange| palette_line(c)).push(
                palette_line(diff.palette_changes@[i as int]),
            ));
            i = i + 1;
        }
        assert(diff.palette_changes@.take(np as int) =~= diff.palette_changes@);
    }
    assert(views(output@) =~= after_regions + palette_section(diff.palette_changes@));
    // Summary
    let ghost after_palette = views(output@);
    output.push(String::new());
    let mut summary = string_of("Summary: ");
    summary.append(diff.summary.as_str());
    output.push(summary);
    assert(views(output@) =~= after_palette + seq![Seq::<char>::empty(), "Summary: "@ + diff.summary@]);
    assert(after_palette == head.push(dim_text) + region_section(diff.region_changes@) + palette_section(diff.palette_changes@));
    assert(views(output@) =~= report_lines(name@, *diff, file_a@, file_b@));
    join_strings(&output, "\n")
}

} // verus!
