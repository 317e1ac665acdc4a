use vstd::prelude::*;
use vstd::string::*;
use crate::material::{
    kernel_units_of, layer_footprint, layers_footprint, lemma_footprint_nonneg,
    lemma_footprint_prefix_le, network_units_of, temporal_kernel_units_of, LayerCounts, Ledger,
};
use crate::types::{Error, Mode};
use crate::growth::law_layer_cost;
use crate::material::{empty_layer_spec, min_units_for};

verus! {

/// The contraction values of one layer's CELLs, each given as a rank: a
/// CELL of lower value has a lower rank, and CELLs of equal value share one.
#[derive(Clone, Debug)]
pub struct LayerValues {
    pub geometric: Vec<u64>,
    pub temporal: Vec<u64>,
}

/// Whether a CELL of rank `r` survives the cutoff (`None` keeps all).
pub open spec fn above(r: u64, cut: Option<u64>) -> bool {
    match cut {
        None => true,
        Some(k) => r > k,
    }
}

/// The ranks that survive the cutoff, in order.
pub open spec fn keep_above(s: Seq<u64>, cut: Option<u64>) -> Seq<u64>
    decreases s.len(),
{
    if s.len() == 0 {
        Seq::empty()
    } else {
        let rest = keep_above(s.drop_last(), cut);
        if above(s.last(), cut) {
            rest.push(s.last())
        } else {
            rest
        }
    }
}

/// A layer holds knowledge when it holds a CELL of either space.
pub open spec fn has_knowledge(l: LayerCounts) -> bool {
    l.cells > 0 || l.temporal_cells > 0
}

/// How many layers remain once terminal layers without knowledge are
/// dropped; the first layer always remains.
pub open spec fn trimmed_len(ls: Seq<LayerCounts>) -> nat
    decreases ls.len(),
{
    if ls.len() <= 1 {
        ls.len()
    } else if has_knowledge(ls.last()) {
        ls.len()
    } else {
        trimmed_len(ls.drop_last())
    }
}

/// Every layer with Σ emptied and only the CELLs above the cutoff.
pub open spec fn cut_layers(vals: Seq<LayerValues>, cut: Option<u64>) -> Seq<LayerCounts> {
    Seq::new(
        vals.len(),
        |i: int|
            LayerCounts {
                sigma: 0,
                cells: keep_above(vals[i].geometric@, cut).len() as usize,
                temporal_sigma: 0,
                temporal_cells: keep_above(vals[i].temporal@, cut).len() as usize,
            },
    )
}

/// The layers after emptying Σ, cutting, and trimming.
pub open spec fn contracted(vals: Seq<LayerValues>, cut: Option<u64>) -> Seq<LayerCounts> {
    let full = cut_layers(vals, cut);
    full.take(trimmed_len(full) as int)
}

/// The values describe the ledger's CELLs, and geometry networks hold no
/// temporal population.
pub open spec fn values_match(l: Ledger, vals: Seq<LayerValues>) -> bool {
    &&& vals.len() == l.layers@.len()
    &&& l.layers@.len() >= 1
    &&& forall|i: int|
        0 <= i < vals.len() ==> {
            &&& #[trigger] vals[i].geometric@.len() == l.layers@[i].cells
            &&& vals[i].temporal@.len() == l.layers@[i].temporal_cells
            &&& l.mode == Mode::Geometry ==> l.layers@[i].temporal_cells == 0
                && l.layers@[i].temporal_sigma == 0
        }
}

/// The footprint of the ledger once contracted at `cut`.
pub open spec fn units_after(l: Ledger, vals: Seq<LayerValues>, cut: Option<u64>) -> int {
    network_units_of(l.p()) + layers_footprint(l.mode, l.d(), l.p(), contracted(vals, cut))
}

/// Some CELL has rank `k`.
pub open spec fn rank_present(vals: Seq<LayerValues>, k: u64) -> bool {
    exists|i: int, j: int|
        0 <= i < vals.len() && ((0 <= j < vals[i].geometric@.len() && vals[i].geometric@[j] == k)
            || (0 <= j < vals[i].temporal@.len() && vals[i].temporal@[j] == k))
}

pub proof fn lemma_keep_above_len(s: Seq<u64>, cut: Option<u64>)
    ensures
        keep_above(s, cut).len() <= s.len(),
        cut is None ==> keep_above(s, cut) == s,
    decreases s.len(),
{
    if s.len() > 0 {
        lemma_keep_above_len(s.drop_last(), cut);
        if cut is None {
            assert(keep_above(s.drop_last(), cut).push(s.last()) =~= s);
        }
    } else {
        assert(keep_above(s, cut) =~= s);
    }
}

/// Removing CELLs and Σ kernels never grows a layer's footprint.
proof fn lemma_layer_shrinks(mode: Mode, d: int, p: int, a: LayerCounts, b: LayerCounts)
    requires
        d >= 0,
        p >= 0,
        a.sigma + a.cells <= b.sigma + b.cells,
        a.temporal_sigma + a.temporal_cells <= b.temporal_sigma + b.temporal_cells,
    ensures
        layer_footprint(mode, d, p, a) <= layer_footprint(mode, d, p, b),
{
    let h = kernel_units_of(d, p);
    let t = temporal_kernel_units_of(d, p);
    assert(h >= 0 && t >= 0) by (nonlinear_arith)
        requires
            h == (d + 2) * p,
            t == (2 * d + 2) * p,
            d >= 0,
            p >= 0,
    ;
    assert((a.sigma + a.cells) * h <= (b.sigma + b.cells) * h) by (nonlinear_arith)
        requires
            a.sigma + a.cells <= b.sigma + b.cells,
            h >= 0,
    ;
    assert((a.temporal_sigma + a.temporal_cells) * t <= (b.temporal_sigma + b.temporal_cells) * t)
        by (nonlinear_arith)
        requires
            a.temporal_sigma + a.temporal_cells <= b.temporal_sigma + b.temporal_cells,
            t >= 0,
    ;
}

/// `a` holds no more kernels than `b` in either space.
pub open spec fn layer_within(a: LayerCounts, b: LayerCounts) -> bool {
    a.sigma + a.cells <= b.sigma + b.cells && a.temporal_sigma + a.temporal_cells
        <= b.temporal_sigma + b.temporal_cells
}

/// Pointwise smaller layers occupy no more than the larger ones.
proof fn lemma_layers_shrink(mode: Mode, d: int, p: int, a: Seq<LayerCounts>, b: Seq<LayerCounts>)
    requires
        d >= 0,
        p >= 0,
        a.len() == b.len(),
        forall|i: int| 0 <= i < a.len() ==> #[trigger] layer_within(a[i], b[i]),
    ensures
        layers_footprint(mode, d, p, a) <= layers_footprint(mode, d, p, b),
    decreases a.len(),
{
    if a.len() > 0 {
        let n = a.len() - 1;
        let a0 = a.drop_last();
        let b0 = b.drop_last();
        assert forall|i: int| 0 <= i < a0.len() implies #[trigger] layer_within(a0[i], b0[i]) by {
            assert(a0[i] == a[i] && b0[i] == b[i]);
            assert(layer_within(a[i], b[i]));
        }
        lemma_layers_shrink(mode, d, p, a0, b0);
        assert(layer_within(a[n], b[n]));
        lemma_layer_shrinks(mode, d, p, a.last(), b.last());
    }
}

pub proof fn lemma_trimmed_len_bounds(ls: Seq<LayerCounts>)
    ensures
        trimmed_len(ls) <= ls.len(),
        ls.len() >= 1 ==> trimmed_len(ls) >= 1,
    decreases ls.len(),
{
    if ls.len() > 1 && !has_knowledge(ls.last()) {
        lemma_trimmed_len_bounds(ls.drop_last());
    }
}

/// A contracted ledger never occupies more than before the contraction.
pub proof fn lemma_contracted_shrinks(l: Ledger, vals: Seq<LayerValues>, cut: Option<u64>)
    requires
        values_match(l, vals),
    ensures
        units_after(l, vals, cut) <= l.spec_maintenance(),
        units_after(l, vals, cut) >= 0,
{
    let full = cut_layers(vals, cut);
    let ls = l.layers@;
    lemma_trimmed_len_bounds(full);
    assert forall|i: int| 0 <= i < full.len() implies #[trigger] layer_within(full[i], ls[i]) by {
        lemma_keep_above_len(vals[i].geometric@, cut);
        lemma_keep_above_len(vals[i].temporal@, cut);
        assert(vals[i].geometric@.len() == ls[i].cells);
    }
    lemma_layers_shrink(l.mode, l.d(), l.p(), full, ls);
    lemma_footprint_prefix_le(l.mode, l.d(), l.p(), full, trimmed_len(full) as int);
    lemma_footprint_nonneg(l.mode, l.d(), l.p(), contracted(vals, cut));
}

/// Number of ranks that survive the cutoff.
fn kept(s: &Vec<u64>, cut: Option<u64>) -> (n: usize)
    ensures
        n == keep_above(s@, cut).len(),
{
    let mut n: usize = 0;
    let mut i: usize = 0;
    assert(s@.take(0) =~= Seq::<u64>::empty());
    while i < s.len()
        invariant
            i <= s@.len(),
            n == keep_above(s@.take(i as int), cut).len(),
            n <= i,
        decreases s@.len() - i,
    {
        assert(s@.take(i as int + 1).drop_last() =~= s@.take(i as int));
        let r = s[i];
        let keep = match cut {
            None => true,
            Some(k) => r > k,
        };
        if keep {
            n = n + 1;
        }
        i = i + 1;
    }
    assert(s@.take(s@.len() as int) =~= s@);
    n
}

/// The ranks that survive the cutoff.
fn filter_above(s: &Vec<u64>, cut: Option<u64>) -> (out: Vec<u64>)
    ensures
        out@ == keep_above(s@, cut),
{
    let mut out: Vec<u64> = Vec::new();
    let mut i: usize = 0;
    assert(s@.take(0) =~= Seq::<u64>::empty());
    while i < s.len()
        invariant
            i <= s@.len(),
            out@ == keep_above(s@.take(i as int), cut),
        decreases s@.len() - i,
    {
        assert(s@.take(i as int + 1).drop_last() =~= s@.take(i as int));
        let r = s[i];
        let keep = match cut {
            None => true,
            Some(k) => r > k,
        };
        if keep {
            out.push(r);
        }
        i = i + 1;
    }
    assert(s@.take(s@.len() as int) =~= s@);
    out
}

/// The layers with Σ emptied and the CELLs above the cutoff, untrimmed.
fn cut_counts(vals: &Vec<LayerValues>, cut: Option<u64>) -> (v: Vec<LayerCounts>)
    ensures
        v@ == cut_layers(vals@, cut),
{
    let mut v: Vec<LayerCounts> = Vec::new();
    let mut i: usize = 0;
    while i < vals.len()
        invariant
            i <= vals@.len(),
            v@ == cut_layers(vals@, cut).take(i as int),
        decreases vals@.len() - i,
    {
        let g = kept(&vals[i].geometric, cut);
        let t = kept(&vals[i].temporal, cut);
        v.push(LayerCounts { sigma: 0, cells: g, temporal_sigma: 0, temporal_cells: t });
        assert(cut_layers(vals@, cut).take(i as int + 1) =~= cut_layers(vals@, cut).take(
            i as int,
        ).push(cut_layers(vals@, cut)[i as int]));
        i = i + 1;
    }
    assert(cut_layers(vals@, cut).take(vals@.len() as int) =~= cut_layers(vals@, cut));
    v
}

fn layer_has_knowledge(l: &LayerCounts) -> (b: bool)
    ensures
        b == has_knowledge(*l),
{
    l.cells > 0 || l.temporal_cells > 0
}

/// Trimming a prefix that still reaches the trimmed length changes nothing.
proof fn lemma_trimmed_len_take(ls: Seq<LayerCounts>, n: int)
    requires
        trimmed_len(ls) <= n <= ls.len(),
    ensures
        trimmed_len(ls.take(n)) == trimmed_len(ls),
    decreases ls.len(),
{
    if n == ls.len() {
        assert(ls.take(n) =~= ls);
    } else {
        // the last layer is trimmed, so recurse on the shorter sequence
        lemma_trimmed_len_bounds(ls.drop_last());
        assert(ls.len() > 1 && !has_knowledge(ls.last())) by {
            if ls.len() <= 1 || has_knowledge(ls.last()) {
                assert(trimmed_len(ls) == ls.len());
            }
        }
        assert(ls.drop_last().take(n) =~= ls.take(n));
        lemma_trimmed_len_take(ls.drop_last(), n);
    }
}

/// How many layers remain once terminal layers without knowledge go.
fn trim_len(ls: &Vec<LayerCounts>) -> (n: usize)
    ensures
        n == trimmed_len(ls@),
{
    let mut n = ls.len();
    assert(ls@.take(n as int) =~= ls@);
    while n > 1 && !layer_has_knowledge(&ls[n - 1])
        invariant
            n <= ls@.len(),
            trimmed_len(ls@.take(n as int)) == trimmed_len(ls@),
        decreases n,
    {
        assert(ls@.take(n as int).drop_last() =~= ls@.take(n as int - 1));
        n = n - 1;
    }
    proof {
        let t = ls@.take(n as int);
        assert(t.len() == n);
        if n > 1 {
            assert(t.last() == ls@[n - 1]);
        }
    }
    n
}

impl Ledger {
    /// The footprint once contracted at `cut`.
    fn units_after_cut(&self, vals: &Vec<LayerValues>, cut: Option<u64>) -> (u: u64)
        requires
            self.counts_fit(),
            values_match(*self, vals@),
            self.maintenance_error() is None,
        ensures
            u == units_after(*self, vals@, cut),
    {
        let full = cut_counts(vals, cut);
        let n = trim_len(&full);
        let mut layers: Vec<LayerCounts> = Vec::new();
        let mut i: usize = 0;
        proof {
            lemma_trimmed_len_bounds(full@);
        }
        while i < n
            invariant
                n <= full@.len(),
                i <= n,
                layers@ == full@.take(i as int),
            decreases n - i,
        {
            layers.push(full[i]);
            assert(full@.take(i as int + 1) =~= full@.take(i as int).push(full@[i as int]));
            i = i + 1;
        }
        let probe = Ledger {
            dimension: self.dimension,
            scalar: self.scalar,
            mode: self.mode,
            budget_units: self.budget_units,
            layers,
        };
        proof {
            assert(probe.layers@ == contracted(vals@, cut));
            lemma_contracted_shrinks(*self, vals@, cut);
            assert forall|k: int| 0 <= k < probe.layers@.len() implies {
                &&& #[trigger] probe.layers@[k].sigma + probe.layers@[k].cells <= usize::MAX
                &&& probe.layers@[k].temporal_sigma + probe.layers@[k].temporal_cells
                    <= usize::MAX
            } by {
                lemma_keep_above_len(vals@[k].geometric@, cut);
                lemma_keep_above_len(vals@[k].temporal@, cut);
                assert(vals@[k].geometric@.len() == self.layers@[k].cells);
                assert(self.layers@[k].sigma + self.layers@[k].cells <= usize::MAX);
            }
            assert(probe.spec_maintenance() == units_after(*self, vals@, cut));
            assert(probe.layer_units_error() == self.layer_units_error());
        }
        match probe.maintenance_units() {
            Ok(u) => u,
            Err(_) => {
                proof {
                    assert(false);
                }
                0
            },
        }
    }
}

/// `r` holds a rank no greater than `x`.
pub open spec fn at_most(r: Option<u64>, x: u64) -> bool {
    match r {
        Some(m) => m <= x,
        None => false,
    }
}

/// The distinct ranks at or below `k`.
pub open spec fn ranks_through(vals: Seq<LayerValues>, k: u64) -> Set<u64> {
    Set::new(|r: u64| rank_present(vals, r) && r <= k)
}

/// CELLs that survive the cutoff, over all layers.
pub open spec fn cell_total(vals: Seq<LayerValues>, cut: Option<u64>) -> nat
    decreases vals.len(),
{
    if vals.len() == 0 {
        0
    } else {
        cell_total(vals.drop_last(), cut) + keep_above(vals.last().geometric@, cut).len()
            + keep_above(vals.last().temporal@, cut).len()
    }
}

/// Σ kernels that a contraction empties.
pub open spec fn sigma_total(ls: Seq<LayerCounts>, mode: Mode) -> nat
    decreases ls.len(),
{
    if ls.len() == 0 {
        0
    } else {
        sigma_total(ls.drop_last(), mode) + ls.last().sigma as nat + if mode == Mode::Predictive {
            ls.last().temporal_sigma as nat
        } else {
            0nat
        }
    }
}

pub open spec fn saturate(n: nat) -> usize {
    if n <= usize::MAX {
        n as usize
    } else {
        usize::MAX
    }
}

/// `k` is the cutoff of forced solvency: the least rank whose cut is
/// solvent or, when no cut is, the greatest rank.
pub open spec fn chosen_cut(l: Ledger, vals: Seq<LayerValues>, k: u64) -> bool {
    &&& rank_present(vals, k)
    &&& forall|k2: u64|
        rank_present(vals, k2) && k2 < k ==> units_after(l, vals, Some(k2)) > l.budget_units
    &&& (units_after(l, vals, Some(k)) <= l.budget_units || forall|k2: u64|
        rank_present(vals, k2) ==> k2 <= k)
}

/// `new` holds exactly the CELL ranks of `old` that survive `cut`, for the
/// layers that remain.
pub open spec fn values_cut(old: Seq<LayerValues>, new: Seq<LayerValues>, cut: Option<u64>) -> bool {
    &&& new.len() == trimmed_len(cut_layers(old, cut))
    &&& forall|i: int|
        0 <= i < new.len() ==> #[trigger] new[i].geometric@ == keep_above(old[i].geometric@, cut)
            && new[i].temporal@ == keep_above(old[i].temporal@, cut)
}

/// What forced solvency did.
#[derive(Clone, Copy, Debug, PartialEq, Eq)]
pub struct Contraction {
    /// The state was insolvent and had to contract.
    pub contracted: bool,
    /// Σ kernels emptied.
    pub cleared_sigma: usize,
    /// Terminal layers without knowledge dropped after emptying Σ.
    pub trimmed: usize,
    /// CELLs destroyed.
    pub destroyed: usize,
    /// Distinct values destroyed, one wave each.
    pub waves: usize,
    /// The greatest rank destroyed, when CELLs were destroyed.
    pub cutoff: Option<u64>,
    /// Terminal layers dropped after the destruction.
    pub trimmed_after: usize,
}

/// The least rank above `after` (above every rank when `after` is `None`
/// means: the least rank).
fn next_rank(vals: &Vec<LayerValues>, after: Option<u64>) -> (r: Option<u64>)
    ensures
        match r {
            Some(k) => rank_present(vals@, k) && above(k, after) && forall|k2: u64|
                rank_present(vals@, k2) && above(k2, after) ==> k <= k2,
            None => forall|k2: u64| rank_present(vals@, k2) ==> !above(k2, after),
        },
{
    let mut best: Option<u64> = None;
    let mut i: usize = 0;
    while i < vals.len()
        invariant
            i <= vals@.len(),
            forall|i2: int, j: int|
                0 <= i2 < i && 0 <= j < vals@[i2].geometric@.len() && above(
                    vals@[i2].geometric@[j],
                    after,
                ) ==> at_most(best, vals@[i2].geometric@[j]),
            forall|i2: int, j: int|
                0 <= i2 < i && 0 <= j < vals@[i2].temporal@.len() && above(
                    vals@[i2].temporal@[j],
                    after,
                ) ==> at_most(best, vals@[i2].temporal@[j]),
            best matches Some(b) ==> above(b, after) && rank_present(vals@, b),
        decreases vals@.len() - i,
    {
        let ghost before = best;
        best = scan_min(&vals[i].geometric, after, best);
        proof {
            if best != before {
                let j = choose|j: int|
                    0 <= j < vals@[i as int].geometric@.len() && vals@[i as int].geometric@[j]
                        == best->0;
                assert(rank_present(vals@, best->0));
            }
        }
        let ghost mid = best;
        best = scan_min(&vals[i].temporal, after, best);
        proof {
            if best != mid {
                let j = choose|j: int|
                    0 <= j < vals@[i as int].temporal@.len() && vals@[i as int].temporal@[j]
                        == best->0;
                assert(rank_present(vals@, best->0));
            }
        }
        i = i + 1;
    }
    proof {
        match best {
            Some(b) => {
                assert forall|k2: u64| rank_present(vals@, k2) && above(k2, after) implies b
                    <= k2 by {
                    let (i2, j) = choose|i2: int, j: int|
                        0 <= i2 < vals@.len() && ((0 <= j < vals@[i2].geometric@.len()
                            && vals@[i2].geometric@[j] == k2) || (0 <= j
                            < vals@[i2].temporal@.len() && vals@[i2].temporal@[j] == k2));
                    if 0 <= j < vals@[i2].geometric@.len() && vals@[i2].geometric@[j] == k2 {
                    } else {
                    }
                }
            },
            None => {
                assert forall|k2: u64| rank_present(vals@, k2) implies !above(k2, after) by {
                    let (i2, j) = choose|i2: int, j: int|
                        0 <= i2 < vals@.len() && ((0 <= j < vals@[i2].geometric@.len()
                            && vals@[i2].geometric@[j] == k2) || (0 <= j
                            < vals@[i2].temporal@.len() && vals@[i2].temporal@[j] == k2));
                    if 0 <= j < vals@[i2].geometric@.len() && vals@[i2].geometric@[j] == k2 {
                    } else {
                    }
                }
            },
        }
    }
    best
}

/// The least of `best` and the ranks of `s` above `after`.
fn scan_min(s: &Vec<u64>, after: Option<u64>, best: Option<u64>) -> (r: Option<u64>)
    ensures
        forall|j: int| 0 <= j < s@.len() && above(s@[j], after) ==> at_most(r, s@[j]),
        best matches Some(b) ==> at_most(r, b),
        r matches Some(m) ==> best == Some(m) || (above(m, after) && exists|j: int|
            0 <= j < s@.len() && s@[j] == m),
{
    let mut r = best;
    let mut j: usize = 0;
    while j < s.len()
        invariant
            j <= s@.len(),
            forall|j2: int| 0 <= j2 < j && above(s@[j2], after) ==> at_most(r, s@[j2]),
            best matches Some(b) ==> at_most(r, b),
            r matches Some(m) ==> best == Some(m) || (above(m, after) && exists|j2: int|
                0 <= j2 < s@.len() && s@[j2] == m),
        decreases s@.len() - j,
    {
        let x = s[j];
        let keep = match after {
            None => true,
            Some(k) => x > k,
        };
        if keep {
            let smaller = match r {
                None => true,
                Some(m) => x < m,
            };
            if smaller {
                r = Some(x);
                assert(s@[j as int] == x);
            }
        }
        j = j + 1;
    }
    r
}

/// A cut keeps no layer with knowledge that the uncut state lacks, so it
/// trims at least as far.
proof fn lemma_trim_monotone(a: Seq<LayerCounts>, b: Seq<LayerCounts>)
    requires
        a.len() == b.len(),
        forall|i: int| 0 <= i < a.len() && #[trigger] has_knowledge(a[i]) ==> has_knowledge(b[i]),
    ensures
        trimmed_len(a) <= trimmed_len(b),
    decreases a.len(),
{
    lemma_trimmed_len_bounds(a);
    lemma_trimmed_len_bounds(b);
    if a.len() > 1 {
        let a0 = a.drop_last();
        let b0 = b.drop_last();
        assert forall|i: int| 0 <= i < a0.len() && #[trigger] has_knowledge(a0[i]) implies has_knowledge(
            b0[i],
        ) by {
            assert(a0[i] == a[i] && b0[i] == b[i]);
        }
        lemma_trim_monotone(a0, b0);
        if has_knowledge(a.last()) {
            assert(has_knowledge(a[a.len() - 1]));
        }
    }
}

/// Cutting leaves every layer at most the knowledge it had.
proof fn lemma_cut_within(l: Ledger, vals: Seq<LayerValues>, k: u64)
    requires
        values_match(l, vals),
    ensures
        trimmed_len(cut_layers(vals, Some(k))) <= trimmed_len(cut_layers(vals, None)),
{
    let a = cut_layers(vals, Some(k));
    let b = cut_layers(vals, None);
    assert forall|i: int| 0 <= i < a.len() && #[trigger] has_knowledge(a[i]) implies has_knowledge(
        b[i],
    ) by {
        lemma_keep_above_len(vals[i].geometric@, Some(k));
        lemma_keep_above_len(vals[i].temporal@, Some(k));
        lemma_keep_above_len(vals[i].geometric@, None);
        lemma_keep_above_len(vals[i].temporal@, None);
        assert(vals[i].geometric@.len() == l.layers@[i].cells);
        assert(vals[i].temporal@.len() == l.layers@[i].temporal_cells);
    }
    lemma_trim_monotone(a, b);
}

proof fn lemma_cell_total_le(vals: Seq<LayerValues>, k: u64)
    ensures
        cell_total(vals, Some(k)) <= cell_total(vals, None),
    decreases vals.len(),
{
    if vals.len() > 0 {
        lemma_cell_total_le(vals.drop_last(), k);
        lemma_keep_above_len(vals.last().geometric@, Some(k));
        lemma_keep_above_len(vals.last().temporal@, Some(k));
        lemma_keep_above_len(vals.last().geometric@, None);
        lemma_keep_above_len(vals.last().temporal@, None);
    }
}

impl Ledger {
    /// Σ kernels held, counted up to `usize::MAX`.
    fn sigma_count(&self) -> (n: usize)
        ensures
            n == saturate(sigma_total(self.layers@, self.mode)),
    {
        let mut n: usize = 0;
        let mut i: usize = 0;
        let predictive = self.mode.predictive();
        assert(self.layers@.take(0) =~= Seq::<LayerCounts>::empty());
        while i < self.layers.len()
            invariant
                i <= self.layers@.len(),
                predictive == (self.mode == Mode::Predictive),
                n == saturate(sigma_total(self.layers@.take(i as int), self.mode)),
            decreases self.layers@.len() - i,
        {
            assert(self.layers@.take(i as int + 1).drop_last() =~= self.layers@.take(i as int));
            let l = self.layers[i];
            n = n.saturating_add(l.sigma);
            if predictive {
                n = n.saturating_add(l.temporal_sigma);
            }
            i = i + 1;
        }
        assert(self.layers@.take(self.layers@.len() as int) =~= self.layers@);
        n
    }

    /// Installs the contraction at `cut`: Σ emptied, CELLs at or below the
    /// cutoff destroyed, terminal layers without knowledge dropped.
    fn apply_cut(&mut self, values: &mut Vec<LayerValues>, cut: Option<u64>)
        requires
            values_match(*old(self), old(values)@),
        ensures
            final(self).layers@ == contracted(old(values)@, cut),
            final(self).dimension == old(self).dimension,
            final(self).scalar == old(self).scalar,
            final(self).mode == old(self).mode,
            final(self).budget_units == old(self).budget_units,
            values_cut(old(values)@, final(values)@, cut),
    {
        let full = cut_counts(values, cut);
        let n = trim_len(&full);
        proof {
            lemma_trimmed_len_bounds(full@);
        }
        let mut layers: Vec<LayerCounts> = Vec::new();
        let mut vals: Vec<LayerValues> = Vec::new();
        let mut i: usize = 0;
        while i < n
            invariant
                n <= full@.len(),
                full@.len() == values@.len(),
                full@ == cut_layers(values@, cut),
                i <= n,
                layers@ == full@.take(i as int),
                vals@.len() == i,
                forall|j: int|
                    0 <= j < i ==> #[trigger] vals@[j].geometric@ == keep_above(
                        values@[j].geometric@,
                        cut,
                    ) && vals@[j].temporal@ == keep_above(values@[j].temporal@, cut),
            decreases n - i,
        {
            layers.push(full[i]);
            assert(full@.take(i as int + 1) =~= full@.take(i as int).push(full@[i as int]));
            let g = filter_above(&values[i].geometric, cut);
            let t = filter_above(&values[i].temporal, cut);
            vals.push(LayerValues { geometric: g, temporal: t });
            i = i + 1;
        }
        self.layers = layers;
        *values = vals;
    }

    /// CELLs at or below the cutoff, counted up to `usize::MAX`.
    fn destroyed_count(values: &Vec<LayerValues>, k: u64) -> (n: usize)
        ensures
            n == saturate((cell_total(values@, None) - cell_total(values@, Some(k))) as nat),
    {
        let mut n: usize = 0;
        let mut i: usize = 0;
        assert(values@.take(0) =~= Seq::<LayerValues>::empty());
        while i < values.len()
            invariant
                i <= values@.len(),
                n == saturate(
                    (cell_total(values@.take(i as int), None) - cell_total(
                        values@.take(i as int),
                        Some(k),
                    )) as nat,
                ),
            decreases values@.len() - i,
        {
            let ghost p = values@.take(i as int + 1);
            assert(p.drop_last() =~= values@.take(i as int));
            proof {
                lemma_cell_total_le(values@.take(i as int), k);
                lemma_keep_above_len(values@[i as int].geometric@, Some(k));
                lemma_keep_above_len(values@[i as int].temporal@, Some(k));
                lemma_keep_above_len(values@[i as int].geometric@, None);
                lemma_keep_above_len(values@[i as int].temporal@, None);
            }
            let g = values[i].geometric.len() - kept(&values[i].geometric, Some(k));
            let t = values[i].temporal.len() - kept(&values[i].temporal, Some(k));
            n = n.saturating_add(g);
            n = n.saturating_add(t);
            i = i + 1;
        }
        assert(values@.take(values@.len() as int) =~= values@);
        n
    }

    /// Forced solvency.  A state within its budget is left alone.  Otherwise
    /// every Σ is emptied and terminal layers without knowledge are dropped;
    /// if that is not enough, whole classes of equal CELL value are destroyed,
    /// lowest first, until the state fits, and terminal layers left without
    /// knowledge are dropped again.  The first layer always remains.
    pub fn force_solvency(&mut self, values: &mut Vec<LayerValues>) -> (r: Result<
        Contraction,
        Error,
    >)
        requires
            old(self).counts_fit(),
            values_match(*old(self), old(values)@),
        ensures
            match old(self).maintenance_error() {
                Some(m) => {
                    &&& r matches Err(e) && crate::material::invalid_with(e, m)
                    &&& *final(self) == *old(self)
                    &&& final(values)@ == old(values)@
                },
                None => if old(self).spec_maintenance() <= old(self).budget_units {
                    &&& r == Ok::<Contraction, Error>(no_contraction())
                    &&& *final(self) == *old(self)
                    &&& final(values)@ == old(values)@
                } else {
                    contraction_done(*old(self), old(values)@, *final(self), final(values)@, r)
                },
            },
    {
        let m0 = self.maintenance_units()?;
        if m0 <= self.budget_units {
            return Ok(no_contraction_value());
        }
        let ghost l = *self;
        let ghost vals = values@;
        let cleared = self.sigma_count();
        let full_none = cut_counts(values, None);
        let l1 = trim_len(&full_none);
        proof {
            lemma_trimmed_len_bounds(full_none@);
        }
        let trimmed = values.len() - l1;
        let u_none = self.units_after_cut(values, None);
        if u_none <= self.budget_units {
            self.apply_cut(values, None);
            return Ok(
                Contraction {
                    contracted: true,
                    cleared_sigma: cleared,
                    trimmed,
                    destroyed: 0,
                    waves: 0,
                    cutoff: None,
                    trimmed_after: 0,
                },
            );
        }
        let mut k = match next_rank(values, None) {
            None => {
                proof {
                    assert forall|k2: u64| !rank_present(vals, k2) by {
                        if rank_present(vals, k2) {
                            assert(above(k2, None));
                        }
                    }
                    assert(!(exists|k2: u64| rank_present(vals, k2)));
                }
                self.apply_cut(values, None);
                return Err(
                    Error::Inexecutable(
                        String::from_str("minimal Auxein state exceeds the execution budget"),
                    ),
                );
            },
            Some(k0) => k0,
        };
        let mut waves: usize = 1;
        let ghost mut seen: Set<u64> = Set::empty().insert(k);
        proof {
            assert forall|r: u64| #[trigger] seen.contains(r) == ranks_through(vals, k).contains(
                r,
            ) by {
                if rank_present(vals, r) && r <= k {
                    assert(above(r, None));
                    assert(k <= r);
                }
            }
            assert(seen =~= ranks_through(vals, k));
            assert forall|k2: u64| rank_present(vals, k2) && k2 < k implies units_after(
                l,
                vals,
                Some(k2),
            ) > l.budget_units by {
                assert(above(k2, None));
            }
        }
        let mut u = self.units_after_cut(values, Some(k));
        loop
            invariant
                *self == l,
                values@ == vals,
                l.counts_fit(),
                values_match(l, vals),
                l.maintenance_error() is None,
                rank_present(vals, k),
                forall|k2: u64|
                    rank_present(vals, k2) && k2 < k ==> units_after(l, vals, Some(k2))
                        > l.budget_units,
                u == units_after(l, vals, Some(k)),
                seen == ranks_through(vals, k),
                seen.finite(),
                waves == saturate(seen.len()),
            ensures
                *self == l,
                values@ == vals,
                rank_present(vals, k),
                forall|k2: u64|
                    rank_present(vals, k2) && k2 < k ==> units_after(l, vals, Some(k2))
                        > l.budget_units,
                u == units_after(l, vals, Some(k)),
                seen == ranks_through(vals, k),
                waves == saturate(seen.len()),
                u <= l.budget_units || forall|k2: u64| rank_present(vals, k2) ==> k2 <= k,
            decreases u64::MAX - k,
        {
            if u <= self.budget_units {
                break;
            }
            match next_rank(values, Some(k)) {
                None => {
                    proof {
                        assert forall|k2: u64| rank_present(vals, k2) implies k2 <= k by {
                            assert(!above(k2, Some(k)));
                        }
                    }
                    break;
                },
                Some(k2) => {
                    proof {
                        assert(!seen.contains(k2));
                        let next = seen.insert(k2);
                        assert forall|r: u64| #[trigger] next.contains(r) == ranks_through(
                            vals,
                            k2,
                        ).contains(r) by {
                            if rank_present(vals, r) && r <= k2 && r > k {
                                assert(above(r, Some(k)));
                                assert(k2 <= r);
                            }
                        }
                        assert(next =~= ranks_through(vals, k2));
                        seen = next;
                        assert forall|k3: u64|
                            rank_present(vals, k3) && k3 < k2 implies units_after(
                            l,
                            vals,
                            Some(k3),
                        ) > l.budget_units by {
                            if k3 > k {
                                assert(above(k3, Some(k)));
                            }
                        }
                    }
                    k = k2;
                    waves = waves.saturating_add(1);
                    u = self.units_after_cut(values, Some(k));
                },
            }
        }
        proof {
            lemma_cut_within(l, vals, k);
        }
        let destroyed = Ledger::destroyed_count(values, k);
        let full_k = cut_counts(values, Some(k));
        let l2 = trim_len(&full_k);
        let trimmed_after = l1 - l2;
        self.apply_cut(values, Some(k));
        proof {
            assert(chosen_cut(l, vals, k));
        }
        if u > self.budget_units {
            return Err(
                Error::Inexecutable(String::from_str("forced solvency did not reach the budget")),
            );
        }
        Ok(
            Contraction {
                contracted: true,
                cleared_sigma: cleared,
                trimmed,
                destroyed,
                waves,
                cutoff: Some(k),
                trimmed_after,
            },
        )
    }
}

/// The report of a state that needed no contraction.
pub open spec fn no_contraction() -> Contraction {
    Contraction {
        contracted: false,
        cleared_sigma: 0,
        trimmed: 0,
        destroyed: 0,
        waves: 0,
        cutoff: None,
        trimmed_after: 0,
    }
}

fn no_contraction_value() -> (c: Contraction)
    ensures
        c == no_contraction(),
{
    Contraction {
        contracted: false,
        cleared_sigma: 0,
        trimmed: 0,
        destroyed: 0,
        waves: 0,
        cutoff: None,
        trimmed_after: 0,
    }
}

/// What forced solvency leaves of an insolvent state `l` with CELL ranks
/// `vals`, and what it answers.
pub open spec fn contraction_done(
    l: Ledger,
    vals: Seq<LayerValues>,
    fin: Ledger,
    fvals: Seq<LayerValues>,
    r: Result<Contraction, Error>,
) -> bool {
    let cleared = saturate(sigma_total(l.layers@, l.mode));
    let l1 = trimmed_len(cut_layers(vals, None));
    let trimmed = (vals.len() - l1) as usize;
    &&& fin.dimension == l.dimension
    &&& fin.scalar == l.scalar
    &&& fin.mode == l.mode
    &&& fin.budget_units == l.budget_units
    &&& if units_after(l, vals, None) <= l.budget_units {
        &&& fin.layers@ == contracted(vals, None)
        &&& values_cut(vals, fvals, None)
        &&& r == Ok::<Contraction, Error>(
            Contraction {
                contracted: true,
                cleared_sigma: cleared,
                trimmed,
                destroyed: 0,
                waves: 0,
                cutoff: None,
                trimmed_after: 0,
            },
        )
    } else if !(exists|k: u64| rank_present(vals, k)) {
        &&& fin.layers@ == contracted(vals, None)
        &&& values_cut(vals, fvals, None)
        &&& r matches Err(Error::Inexecutable(m)) && m@
            == "minimal Auxein state exceeds the execution budget"@
    } else {
        exists|k: u64|
            {
                &&& chosen_cut(l, vals, k)
                &&& fin.layers@ == contracted(vals, Some(k))
                &&& values_cut(vals, fvals, Some(k))
                &&& if units_after(l, vals, Some(k)) <= l.budget_units {
                    r == Ok::<Contraction, Error>(
                        Contraction {
                            contracted: true,
                            cleared_sigma: cleared,
                            trimmed,
                            destroyed: saturate(
                                (cell_total(vals, None) - cell_total(vals, Some(k))) as nat,
                            ),
                            waves: saturate(ranks_through(vals, k).len()),
                            cutoff: Some(k),
                            trimmed_after: (l1 - trimmed_len(cut_layers(vals, Some(k)))) as usize,
                        },
                    )
                } else {
                    r matches Err(Error::Inexecutable(m)) && m@
                        == "forced solvency did not reach the budget"@
                }
            }
    }
}

/// A CELL survives a cut exactly when its rank lies above the cutoff, so
/// CELLs of equal value share one fate.
pub proof fn law_cut_keeps_exactly_the_ranks_above(s: Seq<u64>, cut: Option<u64>, x: u64)
    ensures
        keep_above(s, cut).contains(x) <==> s.contains(x) && above(x, cut),
    decreases s.len(),
{
    if s.len() > 0 {
        let rest = s.drop_last();
        let last = s.last();
        law_cut_keeps_exactly_the_ranks_above(rest, cut, x);
        lemma_push_contains(rest, last, x);
        assert(s =~= rest.push(last));
        let r = keep_above(rest, cut);
        if above(last, cut) {
            lemma_push_contains(r, last, x);
        }
    }
}

proof fn lemma_push_contains(s: Seq<u64>, a: u64, x: u64)
    ensures
        s.push(a).contains(x) <==> s.contains(x) || a == x,
{
    let t = s.push(a);
    if t.contains(x) {
        let j = choose|j: int| 0 <= j < t.len() && t[j] == x;
        if j < s.len() {
            assert(s[j] == x);
        }
    }
    if s.contains(x) {
        let j = choose|j: int| 0 <= j < s.len() && s[j] == x;
        assert(t[j] == x);
    }
    if a == x {
        assert(t[s.len() as int] == x);
    }
}

/// Contraction never removes the first layer.
pub proof fn law_first_layer_remains(vals: Seq<LayerValues>, cut: Option<u64>)
    requires
        vals.len() >= 1,
    ensures
        contracted(vals, cut).len() >= 1,
{
    lemma_trimmed_len_bounds(cut_layers(vals, cut));
}

/// Contraction only ever frees material.
pub proof fn law_contraction_never_grows(l: Ledger, vals: Seq<LayerValues>, cut: Option<u64>)
    requires
        values_match(l, vals),
    ensures
        units_after(l, vals, cut) <= l.spec_maintenance(),
{
    lemma_contracted_shrinks(l, vals, cut);
}

/// Whenever forced solvency succeeds, the state it leaves is solvent.
pub proof fn law_forced_solvency_is_solvent(
    l: Ledger,
    vals: Seq<LayerValues>,
    fin: Ledger,
    fvals: Seq<LayerValues>,
    r: Result<Contraction, Error>,
)
    requires
        contraction_done(l, vals, fin, fvals, r),
        r is Ok,
    ensures
        fin.spec_maintenance() <= fin.budget_units,
{
    if units_after(l, vals, None) > l.budget_units && exists|k: u64| rank_present(vals, k) {
        let k = choose|k: u64|
            {
                &&& chosen_cut(l, vals, k)
                &&& fin.layers@ == contracted(vals, Some(k))
                &&& values_cut(vals, fvals, Some(k))
                &&& if units_after(l, vals, Some(k)) <= l.budget_units {
                    r == Ok::<Contraction, Error>(
                        Contraction {
                            contracted: true,
                            cleared_sigma: saturate(sigma_total(l.layers@, l.mode)),
                            trimmed: (vals.len() - trimmed_len(cut_layers(vals, None))) as usize,
                            destroyed: saturate(
                                (cell_total(vals, None) - cell_total(vals, Some(k))) as nat,
                            ),
                            waves: saturate(ranks_through(vals, k).len()),
                            cutoff: Some(k),
                            trimmed_after: (trimmed_len(cut_layers(vals, None)) - trimmed_len(
                                cut_layers(vals, Some(k)),
                            )) as usize,
                        },
                    )
                } else {
                    r matches Err(Error::Inexecutable(m)) && m@
                        == "forced solvency did not reach the budget"@
                }
            };
    }
}

/// No rank of `s` survives the cut.
pub open spec fn none_above(s: Seq<u64>, cut: Option<u64>) -> bool {
    forall|j: int| 0 <= j < s.len() ==> !above(#[trigger] s[j], cut)
}

/// No rank of the layer survives the cut, in either space.
pub open spec fn layer_none_above(v: LayerValues, cut: Option<u64>) -> bool {
    none_above(v.geometric@, cut) && none_above(v.temporal@, cut)
}

/// No rank survives the cut anywhere.
pub open spec fn nothing_survives(vals: Seq<LayerValues>, cut: Option<u64>) -> bool {
    forall|i: int| 0 <= i < vals.len() ==> #[trigger] layer_none_above(vals[i], cut)
}

/// Every rank at most `k` leaves nothing above the cut at `k`; without ranks,
/// nothing is there to survive at all.
proof fn lemma_nothing_survives_when(vals: Seq<LayerValues>, cut: Option<u64>)
    requires
        forall|k2: u64| rank_present(vals, k2) ==> !above(k2, cut),
    ensures
        nothing_survives(vals, cut),
{
    assert forall|i: int| 0 <= i < vals.len() implies #[trigger] layer_none_above(vals[i], cut) by {
        assert forall|j: int| 0 <= j < vals[i].geometric@.len() implies !above(
            #[trigger] vals[i].geometric@[j],
            cut,
        ) by {
            let x = vals[i].geometric@[j];
            assert(rank_present(vals, x));
        }
        assert forall|j: int| 0 <= j < vals[i].temporal@.len() implies !above(
            #[trigger] vals[i].temporal@[j],
            cut,
        ) by {
            let x = vals[i].temporal@[j];
            assert(rank_present(vals, x));
        }
    }
}

proof fn lemma_keep_none(s: Seq<u64>, cut: Option<u64>)
    requires
        forall|j: int| 0 <= j < s.len() ==> !above(#[trigger] s[j], cut),
    ensures
        keep_above(s, cut).len() == 0,
    decreases s.len(),
{
    if s.len() > 0 {
        assert(!above(s[s.len() - 1], cut));
        lemma_keep_none(s.drop_last(), cut);
    }
}

proof fn lemma_trim_all_empty(ls: Seq<LayerCounts>)
    requires
        ls.len() >= 1,
        forall|i: int| 0 <= i < ls.len() ==> !has_knowledge(#[trigger] ls[i]),
    ensures
        trimmed_len(ls) == 1,
    decreases ls.len(),
{
    if ls.len() > 1 {
        assert(!has_knowledge(ls[ls.len() - 1]));
        let l0 = ls.drop_last();
        assert forall|i: int| 0 <= i < l0.len() implies !has_knowledge(#[trigger] l0[i]) by {
            assert(l0[i] == ls[i]);
        }
        lemma_trim_all_empty(l0);
    }
}

/// When no CELL survives a cut, one empty layer remains: the minimal state.
proof fn lemma_nothing_survives(l: Ledger, vals: Seq<LayerValues>, cut: Option<u64>)
    requires
        values_match(l, vals),
        nothing_survives(vals, cut),
    ensures
        contracted(vals, cut) == seq![empty_layer_spec()],
        units_after(l, vals, cut) == network_units_of(l.p()) + crate::material::layer_units_of(
            l.mode,
            l.d(),
            l.p(),
        ),
{
    let full = cut_layers(vals, cut);
    assert forall|i: int| 0 <= i < full.len() implies #[trigger] full[i] == empty_layer_spec() by {
        assert(full.len() == vals.len());
        assert(0 <= i < vals.len());
        assert(layer_none_above(vals[i], cut));
        lemma_keep_none(vals[i].geometric@, cut);
        lemma_keep_none(vals[i].temporal@, cut);
    }
    assert forall|i: int| 0 <= i < full.len() implies !has_knowledge(#[trigger] full[i]) by {
        assert(full[i] == empty_layer_spec());
    }
    lemma_trim_all_empty(full);
    assert(contracted(vals, cut) =~= seq![empty_layer_spec()]) by {
        assert(full[0] == empty_layer_spec());
    }
    law_layer_cost(l.mode, l.d(), l.p(), Seq::empty());
    assert(seq![empty_layer_spec()] =~= Seq::<LayerCounts>::empty().push(empty_layer_spec()));
}

/// Forced solvency always succeeds once the budget covers the minimal
/// executable state.
pub proof fn law_forced_solvency_succeeds_within_budget(
    l: Ledger,
    vals: Seq<LayerValues>,
    fin: Ledger,
    fvals: Seq<LayerValues>,
    r: Result<Contraction, Error>,
)
    requires
        values_match(l, vals),
        contraction_done(l, vals, fin, fvals, r),
        min_units_for(l.mode, l.d(), l.p()) is Ok,
        min_units_for(l.mode, l.d(), l.p())->Ok_0 <= l.budget_units,
    ensures
        r is Ok,
{
    let min_units = network_units_of(l.p()) + crate::material::layer_units_of(l.mode, l.d(), l.p());
    assert(min_units_for(l.mode, l.d(), l.p())->Ok_0 == min_units);
    if units_after(l, vals, None) > l.budget_units {
        if !(exists|k: u64| rank_present(vals, k)) {
            assert forall|k2: u64| rank_present(vals, k2) implies !above(k2, None) by {
                assert(exists|k: u64| rank_present(vals, k));
            }
            lemma_nothing_survives_when(vals, None);
            lemma_nothing_survives(l, vals, None);
        } else {
            let k = choose|k: u64|
                {
                    &&& chosen_cut(l, vals, k)
                    &&& fin.layers@ == contracted(vals, Some(k))
                    &&& values_cut(vals, fvals, Some(k))
                    &&& if units_after(l, vals, Some(k)) <= l.budget_units {
                        r == Ok::<Contraction, Error>(
                            Contraction {
                                contracted: true,
                                cleared_sigma: saturate(sigma_total(l.layers@, l.mode)),
                                trimmed: (vals.len() - trimmed_len(cut_layers(vals, None))) as usize,
                                destroyed: saturate(
                                    (cell_total(vals, None) - cell_total(vals, Some(k))) as nat,
                                ),
                                waves: saturate(ranks_through(vals, k).len()),
                                cutoff: Some(k),
                                trimmed_after: (trimmed_len(cut_layers(vals, None)) - trimmed_len(
                                    cut_layers(vals, Some(k)),
                                )) as usize,
                            },
                        )
                    } else {
                        r matches Err(Error::Inexecutable(m)) && m@
                            == "forced solvency did not reach the budget"@
                    }
                };
            if units_after(l, vals, Some(k)) > l.budget_units {
                assert forall|k2: u64| rank_present(vals, k2) implies !above(k2, Some(k)) by {
                    assert(k2 <= k);
                }
                lemma_nothing_survives_when(vals, Some(k));
                lemma_nothing_survives(l, vals, Some(k));
            }
        }
    }
}

} // verus!
