use vstd::prelude::*;
use vstd::string::*;
use crate::emit::{escape_char, escaped, quote, quoted};
use crate::text::{decimal_text, push_decimal};
use crate::types::Space;

verus! {

/// One structural transformation of a step report.  The real `K_through`
/// is given as the text that it is written with.
#[derive(Debug)]
pub enum TransformationText {
    ClearSigma { count: usize },
    TrimLayers { count: usize },
    DestroyCells { count: usize, waves: usize, k_through: String },
    Promote { space: Space, layer: usize, count: usize },
    GrowthCommit {
        geometric_seeds: usize,
        temporal_seeds: usize,
        seeds: usize,
        layer_created: bool,
        units: u64,
    },
    GrowthReject {
        geometric_seeds: usize,
        temporal_seeds: usize,
        seeds: usize,
        layer_requested: bool,
        units: u64,
    },
}

pub open spec fn space_name(s: Space) -> Seq<char> {
    match s {
        Space::Geometry => "geometry"@,
        Space::Temporal => "temporal"@,
    }
}

pub open spec fn bool_text(b: bool) -> Seq<char> {
    if b {
        "true"@
    } else {
        "false"@
    }
}

/// The growth members shared by commits and rejections.
pub open spec fn seeds_text(geometric: usize, temporal: usize, seeds: usize) -> Seq<char> {
    "\"geometric_seeds\":"@ + decimal_text(geometric as nat) + ",\"temporal_seeds\":"@
        + decimal_text(temporal as nat) + ",\"seeds\":"@ + decimal_text(seeds as nat)
}

/// The JSON object of one transformation, members in report order.
pub open spec fn transformation_text(t: TransformationText) -> Seq<char> {
    match t {
        TransformationText::ClearSigma { count } => "{\"phase\":\"solvency\",\"type\":\"clear_sigma\",\"count\":"@
            + decimal_text(count as nat) + "}"@,
        TransformationText::TrimLayers { count } => "{\"phase\":\"solvency\",\"type\":\"trim_layers\",\"count\":"@
            + decimal_text(count as nat) + "}"@,
        TransformationText::DestroyCells {
            count,
            waves,
            k_through,
        } => "{\"phase\":\"solvency\",\"type\":\"destroy_cells\",\"count\":"@ + decimal_text(
            count as nat,
        ) + ",\"waves\":"@ + decimal_text(waves as nat) + ",\"K_through\":"@ + k_through@
            + "}"@,
        TransformationText::Promote { space, layer, count } => "{\"phase\":"@ + quoted(
            space_name(space),
        ) + ",\"type\":\"promote\",\"layer\":"@ + decimal_text(layer as nat) + ",\"count\":"@
            + decimal_text(count as nat) + "}"@,
        TransformationText::GrowthCommit {
            geometric_seeds,
            temporal_seeds,
            seeds,
            layer_created,
            units,
        } => "{\"phase\":\"growth\",\"type\":\"commit\","@ + seeds_text(
            geometric_seeds,
            temporal_seeds,
            seeds,
        ) + ",\"layer_created\":"@ + bool_text(layer_created) + ",\"units\":"@ + decimal_text(
            units as nat,
        ) + "}"@,
        TransformationText::GrowthReject {
            geometric_seeds,
            temporal_seeds,
            seeds,
            layer_requested,
            units,
        } => "{\"phase\":\"growth\",\"type\":\"reject\","@ + seeds_text(
            geometric_seeds,
            temporal_seeds,
            seeds,
        ) + ",\"layer_requested\":"@ + bool_text(layer_requested) + ",\"units\":"@ + decimal_text(
            units as nat,
        ) + "}"@,
    }
}

fn append_seeds(out: &mut String, geometric: usize, temporal: usize, seeds: usize)
    ensures
        final(out)@ == old(out)@ + seeds_text(geometric, temporal, seeds),
{
    let ghost start = out@;
    out.append("\"geometric_seeds\":");
    push_decimal(out, geometric as u128);
    out.append(",\"temporal_seeds\":");
    push_decimal(out, temporal as u128);
    out.append(",\"seeds\":");
    push_decimal(out, seeds as u128);
    assert(out@ =~= start + seeds_text(geometric, temporal, seeds));
}

fn append_bool(out: &mut String, b: bool)
    ensures
        final(out)@ == old(out)@ + bool_text(b),
{
    if b {
        out.append("true");
    } else {
        out.append("false");
    }
}

/// Appends the JSON object of one transformation.
pub fn write_transformation(out: &mut String, t: &TransformationText)
    ensures
        final(out)@ == old(out)@ + transformation_text(*t),
{
    let ghost start = out@;
    match t {
        TransformationText::ClearSigma { count } => {
            out.append("{\"phase\":\"solvency\",\"type\":\"clear_sigma\",\"count\":");
            push_decimal(out, *count as u128);
            out.append("}");
        },
        TransformationText::TrimLayers { count } => {
            out.append("{\"phase\":\"solvency\",\"type\":\"trim_layers\",\"count\":");
            push_decimal(out, *count as u128);
            out.append("}");
        },
        TransformationText::DestroyCells { count, waves, k_through } => {
            out.append("{\"phase\":\"solvency\",\"type\":\"destroy_cells\",\"count\":");
            push_decimal(out, *count as u128);
            out.append(",\"waves\":");
            push_decimal(out, *waves as u128);
            out.append(",\"K_through\":");
            out.append(k_through.as_str());
            out.append("}");
        },
        TransformationText::Promote { space, layer, count } => {
            out.append("{\"phase\":");
            quote(out, space.as_str());
            out.append(",\"type\":\"promote\",\"layer\":");
            push_decimal(out, *layer as u128);
            out.append(",\"count\":");
            push_decimal(out, *count as u128);
            out.append("}");
        },
        TransformationText::GrowthCommit {
            geometric_seeds,
            temporal_seeds,
            seeds,
            layer_created,
            units,
        } => {
            out.append("{\"phase\":\"growth\",\"type\":\"commit\",");
            append_seeds(out, *geometric_seeds, *temporal_seeds, *seeds);
            out.append(",\"layer_created\":");
            append_bool(out, *layer_created);
            out.append(",\"units\":");
            push_decimal(out, *units as u128);
            out.append("}");
        },
        TransformationText::GrowthReject {
            geometric_seeds,
            temporal_seeds,
            seeds,
            layer_requested,
            units,
        } => {
            out.append("{\"phase\":\"growth\",\"type\":\"reject\",");
            append_seeds(out, *geometric_seeds, *temporal_seeds, *seeds);
            out.append(",\"layer_requested\":");
            append_bool(out, *layer_requested);
            out.append(",\"units\":");
            push_decimal(out, *units as u128);
            out.append("}");
        },
    }
    assert(out@ =~= start + transformation_text(*t));
}

/// The counts of a growth record under their keys: `"geometric_seeds":`,
/// then the geometric seed count, `,"temporal_seeds":`, the temporal seed
/// count, `,"seeds":` and the total.
pub open spec fn growth_counts(geometric: nat, temporal: nat, seeds: nat) -> Seq<char> {
    "\"geometric_seeds\":"@ + decimal_text(geometric) + ",\"temporal_seeds\":"@ + decimal_text(
        temporal,
    ) + ",\"seeds\":"@ + decimal_text(seeds)
}

/// A growth record, commit or rejection, opens with its phase and type,
/// then writes the geometric seed count under `geometric_seeds`, the
/// temporal seed count under `temporal_seeds`, the total under `seeds`, the
/// layer flag as `true` or `false`, and the units; a commit and a rejection
/// of the same values differ only in their type and the name of the flag.
pub proof fn law_growth_records_name_their_fields(
    geometric_seeds: usize,
    temporal_seeds: usize,
    seeds: usize,
    flag: bool,
    units: u64,
)
    ensures
        transformation_text(
            TransformationText::GrowthCommit {
                geometric_seeds,
                temporal_seeds,
                seeds,
                layer_created: flag,
                units,
            },
        ) == "{\"phase\":\"growth\",\"type\":\"commit\","@ + growth_counts(
            geometric_seeds as nat,
            temporal_seeds as nat,
            seeds as nat,
        ) + ",\"layer_created\":"@ + (if flag {
            "true"@
        } else {
            "false"@
        }) + ",\"units\":"@ + decimal_text(units as nat) + "}"@,
        transformation_text(
            TransformationText::GrowthReject {
                geometric_seeds,
                temporal_seeds,
                seeds,
                layer_requested: flag,
                units,
            },
        ) == "{\"phase\":\"growth\",\"type\":\"reject\","@ + growth_counts(
            geometric_seeds as nat,
            temporal_seeds as nat,
            seeds as nat,
        ) + ",\"layer_requested\":"@ + (if flag {
            "true"@
        } else {
            "false"@
        }) + ",\"units\":"@ + decimal_text(units as nat) + "}"@,
{
    assert(seeds_text(geometric_seeds, temporal_seeds, seeds) =~= growth_counts(
        geometric_seeds as nat,
        temporal_seeds as nat,
        seeds as nat,
    ));
    assert(transformation_text(
        TransformationText::GrowthCommit {
            geometric_seeds,
            temporal_seeds,
            seeds,
            layer_created: flag,
            units,
        },
    ) =~= "{\"phase\":\"growth\",\"type\":\"commit\","@ + growth_counts(
        geometric_seeds as nat,
        temporal_seeds as nat,
        seeds as nat,
    ) + ",\"layer_created\":"@ + (if flag {
        "true"@
    } else {
        "false"@
    }) + ",\"units\":"@ + decimal_text(units as nat) + "}"@);
    assert(transformation_text(
        TransformationText::GrowthReject {
            geometric_seeds,
            temporal_seeds,
            seeds,
            layer_requested: flag,
            units,
        },
    ) =~= "{\"phase\":\"growth\",\"type\":\"reject\","@ + growth_counts(
        geometric_seeds as nat,
        temporal_seeds as nat,
        seeds as nat,
    ) + ",\"layer_requested\":"@ + (if flag {
        "true"@
    } else {
        "false"@
    }) + ",\"units\":"@ + decimal_text(units as nat) + "}"@);
}

proof fn lemma_escaped_letters(s: Seq<char>)
    requires
        forall|i: int| 0 <= i < s.len() ==> 'a' <= #[trigger] s[i] <= 'z',
    ensures
        escaped(s) == s,
    decreases s.len(),
{
    if s.len() > 0 {
        lemma_escaped_letters(s.drop_last());
        assert(s.drop_last().push(s.last()) =~= s);
        assert(escape_char(s.last()) =~= seq![s.last()]);
    }
}

/// A solvency record writes each of its counts under its own key: the
/// destroyed CELLs under `count`, the waves under `waves`, then `K_through`;
/// a promotion writes its space as the phase, its layer under `layer` and
/// the promoted kernels under `count`.
pub proof fn law_records_name_their_counts(count: usize, waves: usize, k_through: String, space: Space, layer: usize)
    ensures
        transformation_text(TransformationText::DestroyCells { count, waves, k_through })
            == "{\"phase\":\"solvency\",\"type\":\"destroy_cells\",\"count\":"@ + decimal_text(
            count as nat,
        ) + ",\"waves\":"@ + decimal_text(waves as nat) + ",\"K_through\":"@ + k_through@
            + "}"@,
        transformation_text(TransformationText::Promote { space, layer, count })
            == "{\"phase\":"@ + seq!['"'] + (match space {
            Space::Geometry => "geometry"@,
            Space::Temporal => "temporal"@,
        }) + seq!['"'] + ",\"type\":\"promote\",\"layer\":"@ + decimal_text(layer as nat)
            + ",\"count\":"@
            + decimal_text(count as nat) + "}"@,
        transformation_text(TransformationText::ClearSigma { count })
            == "{\"phase\":\"solvency\",\"type\":\"clear_sigma\",\"count\":"@ + decimal_text(
            count as nat,
        ) + "}"@,
        transformation_text(TransformationText::TrimLayers { count })
            == "{\"phase\":\"solvency\",\"type\":\"trim_layers\",\"count\":"@ + decimal_text(
            count as nat,
        ) + "}"@,
{
    reveal_strlit("geometry");
    reveal_strlit("temporal");
    lemma_escaped_letters(space_name(space));
    assert(transformation_text(TransformationText::Promote { space, layer, count })
        =~= "{\"phase\":"@ + seq!['"'] + space_name(space) + seq!['"']
        + ",\"type\":\"promote\",\"layer\":"@ + decimal_text(layer as nat) + ",\"count\":"@
        + decimal_text(count as nat) + "}"@);
}

} // verus!
