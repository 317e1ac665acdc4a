use vstd::prelude::*;
use crate::budget_text::lemma_decimal_text_digits;
use crate::fields::{u64_text, unsigned_digits};
use crate::json::{json_number_text, lemma_first_index, JsonView};
use crate::material::ScalarKind;
use crate::number::number_finite;
use crate::rounding::{rounds_at_most_one, rounds_nonnegative, rounds_positive};
use crate::state::{
    format_version, indexed, kernel_list_spec, kernel_members, kernel_names, kernel_spec, layer_names,
    layer_members, layer_spec, layers_spec, member_keys, temporal_spec, scalar_of_name, state_body, state_names, state_settings,
    reals_spec, state_members, state_spec, take_member, KernelView, LayerView, Members, StateView,
};
use crate::text::decimal_text;
use crate::types::{law_mode_name_round_trip, mode_name, Mode};

verus! {

// ---------------------------------------------------------------------------
// The document shape of a saved state, members in canonical order.

/// The name under which a scalar kind is written.
pub open spec fn scalar_name(s: ScalarKind) -> Seq<char> {
    match s {
        ScalarKind::F32 => "f32"@,
        ScalarKind::F64 => "f64"@,
    }
}

pub open spec fn reals_json(ts: Seq<Seq<char>>) -> Seq<JsonView> {
    ts.map_values(|t: Seq<char>| JsonView::Number(t))
}

pub open spec fn kernel_json(k: KernelView) -> JsonView {
    JsonView::Object(
        seq![
            ("W"@, JsonView::Number(k.weight)),
            ("C"@, JsonView::Array(reals_json(k.center))),
            ("V"@, JsonView::Number(k.variance)),
        ],
    )
}

pub open spec fn kernels_json(ks: Seq<KernelView>) -> Seq<JsonView> {
    ks.map_values(|k: KernelView| kernel_json(k))
}

pub open spec fn previous_json(p: Option<KernelView>) -> JsonView {
    match p {
        Some(k) => kernel_json(k),
        None => JsonView::Null,
    }
}

pub open spec fn layer_json(l: LayerView, mode: Mode) -> JsonView {
    match mode {
        Mode::Geometry => JsonView::Object(
            seq![
                ("sigma"@, JsonView::Array(kernels_json(l.sigma))),
                ("cells"@, JsonView::Array(kernels_json(l.cells))),
            ],
        ),
        Mode::Predictive => JsonView::Object(
            seq![
                ("sigma"@, JsonView::Array(kernels_json(l.sigma))),
                ("cells"@, JsonView::Array(kernels_json(l.cells))),
                ("temporal_sigma"@, JsonView::Array(kernels_json(l.temporal_sigma))),
                ("temporal_cells"@, JsonView::Array(kernels_json(l.temporal_cells))),
                ("previous"@, previous_json(l.previous)),
            ],
        ),
    }
}

pub open spec fn layers_json(ls: Seq<LayerView>, mode: Mode) -> Seq<JsonView> {
    ls.map_values(|l: LayerView| layer_json(l, mode))
}

/// The document that the canonical writer gives a state: the members in the
/// order in which it writes them, counts as shortest decimal texts.
pub open spec fn state_json(s: StateView) -> JsonView {
    JsonView::Object(
        seq![
            ("format_version"@, JsonView::Number(decimal_text(format_version()))),
            ("dimension"@, JsonView::Number(decimal_text(s.dimension))),
            ("scalar"@, JsonView::Str(scalar_name(s.scalar))),
            ("memory"@, JsonView::Number(s.memory)),
            ("eta"@, JsonView::Number(s.eta)),
            ("mode"@, JsonView::Str(mode_name(s.mode))),
            ("steps_seen"@, JsonView::Number(decimal_text(s.steps_seen))),
            ("layers"@, JsonView::Array(layers_json(s.layers, s.mode))),
        ],
    )
}

// ---------------------------------------------------------------------------
// Which states the reader accepts.

/// A finite real written in the JSON number grammar.
pub open spec fn real_ok(t: Seq<char>) -> bool {
    json_number_text(t) && number_finite(t)
}

pub open spec fn kernel_ok(k: KernelView, d: nat) -> bool {
    &&& real_ok(k.weight) && rounds_positive(k.weight)
    &&& k.center.len() == d
    &&& forall|i: int| 0 <= i < k.center.len() ==> real_ok(#[trigger] k.center[i])
    &&& real_ok(k.variance) && rounds_nonnegative(k.variance)
}

pub open spec fn kernels_ok(ks: Seq<KernelView>, d: nat) -> bool {
    forall|i: int| 0 <= i < ks.len() ==> kernel_ok(#[trigger] ks[i], d)
}

pub open spec fn layer_ok(l: LayerView, mode: Mode, d: nat) -> bool {
    &&& kernels_ok(l.sigma, d)
    &&& kernels_ok(l.cells, d)
    &&& match mode {
        Mode::Geometry => l.temporal_sigma.len() == 0 && l.temporal_cells.len() == 0
            && l.previous is None,
        Mode::Predictive => kernels_ok(l.temporal_sigma, 2 * d) && kernels_ok(
            l.temporal_cells,
            2 * d,
        ) && (l.previous matches Some(k) ==> kernel_ok(k, d)),
    }
}

/// A state that the reader accepts: a dimension of at least one that fits a
/// `usize`, a step count that fits a `u64`, a memory that rounds to a
/// positive binary64, an eta that rounds into `[0, 1]`, and a nonempty list
/// of layers whose kernels have the right widths and admissible reals.
pub open spec fn state_ok(s: StateView) -> bool {
    &&& 1 <= s.dimension <= usize::MAX
    &&& s.steps_seen <= u64::MAX
    &&& real_ok(s.memory) && rounds_positive(s.memory)
    &&& real_ok(s.eta) && rounds_nonnegative(s.eta) && rounds_at_most_one(s.eta)
    &&& s.layers.len() > 0
    &&& forall|i: int| 0 <= i < s.layers.len() ==> layer_ok(#[trigger] s.layers[i], s.mode, s.dimension)
}

// ---------------------------------------------------------------------------
// Reading back.

/// The first member, when it carries the name sought, is the one taken.
proof fn lemma_take_first(es: Members, key: Seq<char>)
    requires
        es.len() > 0,
        es[0].0 == key,
    ensures
        take_member(es, key) == Some((es[0].1, es.drop_first())),
{
    assert(member_keys(es)[0] == key);
    lemma_first_index(member_keys(es), key, 0);
    assert(es.remove(0) =~= es.drop_first());
}

/// A count written as its shortest decimal text reads back.
proof fn lemma_count_text(n: nat)
    requires
        n <= u64::MAX,
    ensures
        !decimal_text(n).contains('.'),
        !decimal_text(n).contains('e'),
        !decimal_text(n).contains('E'),
        !(decimal_text(n).len() > 0 && decimal_text(n)[0] == '-'),
        u64_text(decimal_text(n)) == Some(n),
{
    let t = decimal_text(n);
    lemma_decimal_text_digits(n);
    assert(t[0] != '+');
    assert(unsigned_digits(t) == t);
}

proof fn lemma_reals_read_back(c: Seq<Seq<char>>, label: Seq<char>)
    requires
        forall|i: int| 0 <= i < c.len() ==> real_ok(#[trigger] c[i]),
    ensures
        reals_spec(reals_json(c), label) == Ok::<Seq<Seq<char>>, Seq<char>>(c),
    decreases c.len(),
{
    reveal_with_fuel(reals_spec, 1);
    if c.len() > 0 {
        let h = c.drop_last();
        assert(reals_json(c).drop_last() =~= reals_json(h));
        lemma_reals_read_back(h, label);
        assert(real_ok(c[c.len() - 1]));
        assert(h.push(c.last()) =~= c);
    } else {
        assert(reals_json(c) =~= Seq::<JsonView>::empty());
        assert(c =~= Seq::<Seq<char>>::empty());
    }
}

proof fn lemma_kernel_reads_back(kv: KernelView, d: nat, k: Seq<char>)
    requires
        kernel_ok(kv, d),
    ensures
        kernel_spec(kernel_json(kv), d, k) == Ok::<KernelView, Seq<char>>(kv),
{
    reveal(kernel_spec);
    reveal(kernel_members);
    let es: Members = seq![
        ("W"@, JsonView::Number(kv.weight)),
        ("C"@, JsonView::Array(reals_json(kv.center))),
        ("V"@, JsonView::Number(kv.variance)),
    ];
    assert(member_keys(es) =~= kernel_names());
    lemma_take_first(es, "W"@);
    let es1 = es.drop_first();
    lemma_take_first(es1, "C"@);
    let es2 = es1.drop_first();
    lemma_take_first(es2, "V"@);
    assert(reals_json(kv.center).len() == d);
    lemma_reals_read_back(kv.center, "center component"@);
}

proof fn lemma_kernels_read_back(ks: Seq<KernelView>, d: nat, label: Seq<char>)
    requires
        kernels_ok(ks, d),
    ensures
        kernel_list_spec(kernels_json(ks), d, label) == Ok::<Seq<KernelView>, Seq<char>>(ks),
    decreases ks.len(),
{
    reveal_with_fuel(kernel_list_spec, 1);
    if ks.len() > 0 {
        let h = ks.drop_last();
        assert(kernels_json(ks).drop_last() =~= kernels_json(h));
        lemma_kernels_read_back(h, d, label);
        lemma_kernel_reads_back(ks.last(), d, indexed(label, (ks.len() - 1) as nat));
        assert(h.push(ks.last()) =~= ks);
    } else {
        assert(kernels_json(ks) =~= Seq::<JsonView>::empty());
        assert(ks =~= Seq::<KernelView>::empty());
    }
}

proof fn lemma_geometry_layer_reads_back(lv: LayerView, d: nat, layer: Seq<char>)
    requires
        layer_ok(lv, Mode::Geometry, d),
    ensures
        layer_spec(layer_json(lv, Mode::Geometry), Mode::Geometry, d, layer) == Ok::<
            LayerView,
            Seq<char>,
        >(lv),
{
    reveal(layer_spec);
    reveal(layer_members);
    let mode = Mode::Geometry;
    lemma_kernels_read_back(lv.sigma, d, layer + ".sigma"@);
    lemma_kernels_read_back(lv.cells, d, layer + ".cells"@);
    let es: Members = seq![
        ("sigma"@, JsonView::Array(kernels_json(lv.sigma))),
        ("cells"@, JsonView::Array(kernels_json(lv.cells))),
    ];
    assert(member_keys(es) =~= layer_names(mode));
    lemma_take_first(es, "sigma"@);
    lemma_take_first(es.drop_first(), "cells"@);
    assert(lv.temporal_sigma =~= Seq::<KernelView>::empty());
    assert(lv.temporal_cells =~= Seq::<KernelView>::empty());
    assert(lv == LayerView {
        sigma: lv.sigma,
        cells: lv.cells,
        temporal_sigma: Seq::empty(),
        temporal_cells: Seq::empty(),
        previous: None,
    });
}

proof fn lemma_temporal_reads_back(lv: LayerView, d: nat, layer: Seq<char>)
    requires
        layer_ok(lv, Mode::Predictive, d),
    ensures
        temporal_spec(
            seq![
                ("temporal_sigma"@, JsonView::Array(kernels_json(lv.temporal_sigma))),
                ("temporal_cells"@, JsonView::Array(kernels_json(lv.temporal_cells))),
                ("previous"@, previous_json(lv.previous)),
            ],
            d,
            layer,
        ) == Ok::<(Seq<KernelView>, Seq<KernelView>, Option<KernelView>), Seq<char>>(
            (lv.temporal_sigma, lv.temporal_cells, lv.previous),
        ),
{
    let es: Members = seq![
        ("temporal_sigma"@, JsonView::Array(kernels_json(lv.temporal_sigma))),
        ("temporal_cells"@, JsonView::Array(kernels_json(lv.temporal_cells))),
        ("previous"@, previous_json(lv.previous)),
    ];
    lemma_take_first(es, "temporal_sigma"@);
    let es1 = es.drop_first();
    lemma_take_first(es1, "temporal_cells"@);
    let es2 = es1.drop_first();
    lemma_take_first(es2, "previous"@);
    lemma_kernels_read_back(lv.temporal_sigma, 2 * d, layer + ".temporal_sigma"@);
    lemma_kernels_read_back(lv.temporal_cells, 2 * d, layer + ".temporal_cells"@);
    match lv.previous {
        Some(k) => {
            lemma_kernel_reads_back(k, d, indexed(layer + ".previous"@, 0));
        },
        None => {},
    }
}

proof fn lemma_predictive_layer_reads_back(lv: LayerView, d: nat, layer: Seq<char>)
    requires
        layer_ok(lv, Mode::Predictive, d),
    ensures
        layer_spec(layer_json(lv, Mode::Predictive), Mode::Predictive, d, layer) == Ok::<
            LayerView,
            Seq<char>,
        >(lv),
{
    reveal(layer_spec);
    reveal(layer_members);
    let mode = Mode::Predictive;
    lemma_kernels_read_back(lv.sigma, d, layer + ".sigma"@);
    lemma_kernels_read_back(lv.cells, d, layer + ".cells"@);
    let es: Members = seq![
        ("sigma"@, JsonView::Array(kernels_json(lv.sigma))),
        ("cells"@, JsonView::Array(kernels_json(lv.cells))),
        ("temporal_sigma"@, JsonView::Array(kernels_json(lv.temporal_sigma))),
        ("temporal_cells"@, JsonView::Array(kernels_json(lv.temporal_cells))),
        ("previous"@, previous_json(lv.previous)),
    ];
    assert(member_keys(es) =~= layer_names(mode));
    lemma_take_first(es, "sigma"@);
    let es1 = es.drop_first();
    lemma_take_first(es1, "cells"@);
    let es2 = es1.drop_first();
    assert(es2 =~= seq![
        ("temporal_sigma"@, JsonView::Array(kernels_json(lv.temporal_sigma))),
        ("temporal_cells"@, JsonView::Array(kernels_json(lv.temporal_cells))),
        ("previous"@, previous_json(lv.previous)),
    ]);
    lemma_temporal_reads_back(lv, d, layer);
}

proof fn lemma_layer_reads_back(lv: LayerView, mode: Mode, d: nat, layer: Seq<char>)
    requires
        layer_ok(lv, mode, d),
    ensures
        layer_spec(layer_json(lv, mode), mode, d, layer) == Ok::<LayerView, Seq<char>>(lv),
{
    match mode {
        Mode::Geometry => lemma_geometry_layer_reads_back(lv, d, layer),
        Mode::Predictive => lemma_predictive_layer_reads_back(lv, d, layer),
    }
}

proof fn lemma_layers_read_back(ls: Seq<LayerView>, mode: Mode, d: nat)
    requires
        forall|i: int| 0 <= i < ls.len() ==> layer_ok(#[trigger] ls[i], mode, d),
    ensures
        layers_spec(layers_json(ls, mode), mode, d) == Ok::<Seq<LayerView>, Seq<char>>(ls),
    decreases ls.len(),
{
    reveal_with_fuel(layers_spec, 1);
    if ls.len() > 0 {
        let h = ls.drop_last();
        assert(layers_json(ls, mode).drop_last() =~= layers_json(h, mode));
        lemma_layers_read_back(h, mode, d);
        lemma_layer_reads_back(
            ls.last(),
            mode,
            d,
            indexed("state.layers"@, (ls.len() - 1) as nat),
        );
        assert(h.push(ls.last()) =~= ls);
    } else {
        assert(layers_json(ls, mode) =~= Seq::<JsonView>::empty());
        assert(ls =~= Seq::<LayerView>::empty());
    }
}

/// The members after the eta, read back.
proof fn lemma_body_reads_back(s: StateView)
    requires
        state_ok(s),
    ensures
        state_body(
            seq![
                ("mode"@, JsonView::Str(mode_name(s.mode))),
                ("steps_seen"@, JsonView::Number(decimal_text(s.steps_seen))),
                ("layers"@, JsonView::Array(layers_json(s.layers, s.mode))),
            ],
            s.dimension,
            s.scalar,
            s.memory,
            s.eta,
        ) == Ok::<StateView, Seq<char>>(s),
{
    reveal(state_body);
    law_mode_name_round_trip(s.mode);
    let es: Members = seq![
        ("mode"@, JsonView::Str(mode_name(s.mode))),
        ("steps_seen"@, JsonView::Number(decimal_text(s.steps_seen))),
        ("layers"@, JsonView::Array(layers_json(s.layers, s.mode))),
    ];
    lemma_count_text(s.steps_seen);
    lemma_take_first(es, "mode"@);
    let es1 = es.drop_first();
    lemma_take_first(es1, "steps_seen"@);
    let es2 = es1.drop_first();
    lemma_take_first(es2, "layers"@);
    assert(layers_json(s.layers, s.mode).len() > 0);
    lemma_layers_read_back(s.layers, s.mode, s.dimension);
}

proof fn lemma_scalar_name_round_trip(sc: ScalarKind)
    ensures
        scalar_of_name(scalar_name(sc)) == Some(sc),
{
    reveal_strlit("f32");
    reveal_strlit("f64");
    assert("f32"@[2] != "f64"@[2]);
}

/// The members after the dimension, read back.
#[verifier::rlimit(30)]
proof fn lemma_settings_read_back(s: StateView)
    requires
        state_ok(s),
    ensures
        state_settings(
            seq![
                ("scalar"@, JsonView::Str(scalar_name(s.scalar))),
                ("memory"@, JsonView::Number(s.memory)),
                ("eta"@, JsonView::Number(s.eta)),
                ("mode"@, JsonView::Str(mode_name(s.mode))),
                ("steps_seen"@, JsonView::Number(decimal_text(s.steps_seen))),
                ("layers"@, JsonView::Array(layers_json(s.layers, s.mode))),
            ],
            s.dimension,
        ) == Ok::<StateView, Seq<char>>(s),
{
    reveal(state_settings);
    lemma_scalar_name_round_trip(s.scalar);
    let es: Members = seq![
        ("scalar"@, JsonView::Str(scalar_name(s.scalar))),
        ("memory"@, JsonView::Number(s.memory)),
        ("eta"@, JsonView::Number(s.eta)),
        ("mode"@, JsonView::Str(mode_name(s.mode))),
        ("steps_seen"@, JsonView::Number(decimal_text(s.steps_seen))),
        ("layers"@, JsonView::Array(layers_json(s.layers, s.mode))),
    ];
    lemma_take_first(es, "scalar"@);
    let es1 = es.drop_first();
    lemma_take_first(es1, "memory"@);
    let es2 = es1.drop_first();
    lemma_take_first(es2, "eta"@);
    let es3 = es2.drop_first();
    assert(es3 =~= seq![
        ("mode"@, JsonView::Str(mode_name(s.mode))),
        ("steps_seen"@, JsonView::Number(decimal_text(s.steps_seen))),
        ("layers"@, JsonView::Array(layers_json(s.layers, s.mode))),
    ]);
    lemma_body_reads_back(s);
}

/// Reading back the document that the canonical writer gives a state which
/// the reader accepts yields that same state: saving and loading is the
/// identity on the persisted fields.
pub proof fn law_state_round_trip(s: StateView)
    requires
        state_ok(s),
    ensures
        state_spec(state_json(s)) == Ok::<StateView, Seq<char>>(s),
{
    reveal(state_spec);
    reveal(state_members);
    let es: Members = seq![
        ("format_version"@, JsonView::Number(decimal_text(format_version()))),
        ("dimension"@, JsonView::Number(decimal_text(s.dimension))),
        ("scalar"@, JsonView::Str(scalar_name(s.scalar))),
        ("memory"@, JsonView::Number(s.memory)),
        ("eta"@, JsonView::Number(s.eta)),
        ("mode"@, JsonView::Str(mode_name(s.mode))),
        ("steps_seen"@, JsonView::Number(decimal_text(s.steps_seen))),
        ("layers"@, JsonView::Array(layers_json(s.layers, s.mode))),
    ];
    assert(member_keys(es) =~= state_names());
    lemma_count_text(format_version());
    lemma_count_text(s.dimension);
    lemma_take_first(es, "format_version"@);
    let es1 = es.drop_first();
    lemma_take_first(es1, "dimension"@);
    let es2 = es1.drop_first();
    assert(es2 =~= seq![
        ("scalar"@, JsonView::Str(scalar_name(s.scalar))),
        ("memory"@, JsonView::Number(s.memory)),
        ("eta"@, JsonView::Number(s.eta)),
        ("mode"@, JsonView::Str(mode_name(s.mode))),
        ("steps_seen"@, JsonView::Number(decimal_text(s.steps_seen))),
        ("layers"@, JsonView::Array(layers_json(s.layers, s.mode))),
    ]);
    lemma_settings_read_back(s);
}

} // verus!
