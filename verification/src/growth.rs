use vstd::prelude::*;
use vstd::string::*;
use crate::material::{
    accounting_overflow, dimension_too_large, empty_layer, empty_layer_spec, fits_u64,
    invalid_with, kernel_units_of, layer_footprint, layer_units_error_for, layer_units_of,
    layers_footprint, temporal_kernel_units_of, LayerCounts, Ledger,
};
use crate::types::{Error, Mode};

verus! {

/// A layer after `a.0` new geometric and `a.1` new temporal kernels join Σ.
pub open spec fn grow_layer(l: LayerCounts, a: (usize, usize)) -> LayerCounts {
    LayerCounts {
        sigma: (l.sigma + a.0) as usize,
        temporal_sigma: (l.temporal_sigma + a.1) as usize,
        ..l
    }
}

/// Every layer grown by its additions, then the frontier layer if asked.
pub open spec fn grown(ls: Seq<LayerCounts>, adds: Seq<(usize, usize)>, frontier: bool) -> Seq<
    LayerCounts,
> {
    let g = Seq::new(ls.len(), |i: int| grow_layer(ls[i], adds[i]));
    if frontier {
        g.push(empty_layer_spec())
    } else {
        g
    }
}

/// Total of the geometric additions.
pub open spec fn total_geometric(adds: Seq<(usize, usize)>) -> nat
    decreases adds.len(),
{
    if adds.len() == 0 {
        0
    } else {
        total_geometric(adds.drop_last()) + adds.last().0 as nat
    }
}

/// Total of the temporal additions.
pub open spec fn total_temporal(adds: Seq<(usize, usize)>) -> nat
    decreases adds.len(),
{
    if adds.len() == 0 {
        0
    } else {
        total_temporal(adds.drop_last()) + adds.last().1 as nat
    }
}

/// The units a growth transaction adds: a new layer, `U_H` per geometric
/// seed and `U_T` per temporal seed.
pub open spec fn growth_cost_of(mode: Mode, d: int, p: int, geo: nat, tem: nat, frontier: bool) -> int {
    (if frontier {
        layer_units_of(mode, d, p)
    } else {
        0
    }) + geo * kernel_units_of(d, p) + tem * temporal_kernel_units_of(d, p)
}

/// The detail of the error that pricing a growth transaction reports.
pub open spec fn growth_error(mode: Mode, d: int, p: int, geo: nat, tem: nat, frontier: bool) -> Option<
    Seq<char>,
> {
    if frontier && layer_units_error_for(mode, d, p) is Some {
        layer_units_error_for(mode, d, p)
    } else if !fits_u64(kernel_units_of(d, p)) {
        Some(dimension_too_large())
    } else if !fits_u64(geo * kernel_units_of(d, p)) {
        Some(accounting_overflow())
    } else if !fits_u64(temporal_kernel_units_of(d, p)) {
        Some(dimension_too_large())
    } else if !fits_u64(tem * temporal_kernel_units_of(d, p)) {
        Some(accounting_overflow())
    } else if !fits_u64(growth_cost_of(mode, d, p, geo, tem, frontier)) {
        Some(accounting_overflow())
    } else {
        None
    }
}

pub open spec fn seed_overflow() -> Seq<char> {
    "seed accounting overflow"@
}

/// Additions that the layers can hold, and none in a space the mode lacks.
pub open spec fn additions_fit(mode: Mode, ls: Seq<LayerCounts>, adds: Seq<(usize, usize)>) -> bool {
    &&& adds.len() == ls.len()
    &&& forall|i: int|
        0 <= i < ls.len() ==> {
            &&& #[trigger] ls[i].sigma + adds[i].0 + ls[i].cells <= usize::MAX
            &&& ls[i].temporal_sigma + adds[i].1 + ls[i].temporal_cells <= usize::MAX
            &&& mode == Mode::Geometry ==> adds[i].1 == 0
        }
}

/// Growing one layer adds `U_H` per geometric and `U_T` per temporal seed.
pub proof fn law_seed_cost(mode: Mode, d: int, p: int, l: LayerCounts, a: (usize, usize))
    requires
        mode == Mode::Geometry ==> a.1 == 0,
        l.sigma + a.0 <= usize::MAX,
        l.temporal_sigma + a.1 <= usize::MAX,
    ensures
        layer_footprint(mode, d, p, grow_layer(l, a)) == layer_footprint(mode, d, p, l) + a.0
            * kernel_units_of(d, p) + a.1 * temporal_kernel_units_of(d, p),
{
    let h = kernel_units_of(d, p);
    let t = temporal_kernel_units_of(d, p);
    let g = grow_layer(l, a);
    assert((g.sigma + g.cells) * h == (l.sigma + l.cells) * h + a.0 * h) by (nonlinear_arith)
        requires
            g.sigma + g.cells == l.sigma + l.cells + a.0,
    ;
    assert((g.temporal_sigma + g.temporal_cells) * t == (l.temporal_sigma + l.temporal_cells) * t
        + a.1 * t) by (nonlinear_arith)
        requires
            g.temporal_sigma + g.temporal_cells == l.temporal_sigma + l.temporal_cells + a.1,
    ;
    if mode == Mode::Geometry {
        assert(a.1 * t == 0) by (nonlinear_arith)
            requires
                a.1 == 0,
        ;
    }
}

/// Promoting `n` kernels from Σ to CELL, in either space, costs nothing.
pub proof fn law_promotion_is_free(mode: Mode, d: int, p: int, l: LayerCounts, n: usize, temporal: bool)
    requires
        temporal ==> n <= l.temporal_sigma && l.temporal_cells + n <= usize::MAX,
        !temporal ==> n <= l.sigma && l.cells + n <= usize::MAX,
    ensures
        layer_footprint(mode, d, p, promote(l, n, temporal)) == layer_footprint(mode, d, p, l),
{
}

/// `n` kernels of one space moved from Σ to CELL.
pub open spec fn promote(l: LayerCounts, n: usize, temporal: bool) -> LayerCounts {
    if temporal {
        LayerCounts {
            temporal_sigma: (l.temporal_sigma - n) as usize,
            temporal_cells: (l.temporal_cells + n) as usize,
            ..l
        }
    } else {
        LayerCounts { sigma: (l.sigma - n) as usize, cells: (l.cells + n) as usize, ..l }
    }
}

/// A new empty layer costs `U_L`.
pub proof fn law_layer_cost(mode: Mode, d: int, p: int, ls: Seq<LayerCounts>)
    ensures
        layers_footprint(mode, d, p, ls.push(empty_layer_spec())) == layers_footprint(
            mode,
            d,
            p,
            ls,
        ) + layer_units_of(mode, d, p),
{
    assert(ls.push(empty_layer_spec()).drop_last() =~= ls);
    let e = empty_layer_spec();
    assert((e.sigma + e.cells) * kernel_units_of(d, p) == 0) by (nonlinear_arith)
        requires
            e.sigma + e.cells == 0,
    ;
    assert((e.temporal_sigma + e.temporal_cells) * temporal_kernel_units_of(d, p) == 0)
        by (nonlinear_arith)
        requires
            e.temporal_sigma + e.temporal_cells == 0,
    ;
}

/// The minimal executable state is exactly the network with one empty layer.
pub proof fn law_minimum_is_one_empty_layer(l: Ledger)
    requires
        l.layers@ == seq![empty_layer_spec()],
    ensures
        l.spec_maintenance() == l.spec_min_units(),
{
    law_layer_cost(l.mode, l.d(), l.p(), Seq::empty());
    assert(seq![empty_layer_spec()] =~= Seq::<LayerCounts>::empty().push(empty_layer_spec()));
}

/// A growth transaction adds exactly its price to the footprint.
pub proof fn law_growth_footprint(
    mode: Mode,
    d: int,
    p: int,
    ls: Seq<LayerCounts>,
    adds: Seq<(usize, usize)>,
    frontier: bool,
)
    requires
        additions_fit(mode, ls, adds),
    ensures
        layers_footprint(mode, d, p, grown(ls, adds, frontier)) == layers_footprint(mode, d, p, ls)
            + growth_cost_of(mode, d, p, total_geometric(adds), total_temporal(adds), frontier),
    decreases ls.len(),
{
    let g = Seq::new(ls.len(), |i: int| grow_layer(ls[i], adds[i]));
    lemma_grown_layers(mode, d, p, ls, adds);
    if frontier {
        law_layer_cost(mode, d, p, g);
    }
    let h = kernel_units_of(d, p);
    let t = temporal_kernel_units_of(d, p);
    let tg = total_geometric(adds);
    let tt = total_temporal(adds);
    assert(growth_cost_of(mode, d, p, tg, tt, frontier) == (if frontier {
        layer_units_of(mode, d, p)
    } else {
        0
    }) + tg * h + tt * t);
}

/// Growing every layer adds the totals' price.
proof fn lemma_grown_layers(
    mode: Mode,
    d: int,
    p: int,
    ls: Seq<LayerCounts>,
    adds: Seq<(usize, usize)>,
)
    requires
        additions_fit(mode, ls, adds),
    ensures
        layers_footprint(mode, d, p, Seq::new(ls.len(), |i: int| grow_layer(ls[i], adds[i])))
            == layers_footprint(mode, d, p, ls) + total_geometric(adds) * kernel_units_of(d, p)
            + total_temporal(adds) * temporal_kernel_units_of(d, p),
    decreases ls.len(),
{
    let h = kernel_units_of(d, p);
    let t = temporal_kernel_units_of(d, p);
    let g = Seq::new(ls.len(), |i: int| grow_layer(ls[i], adds[i]));
    if ls.len() == 0 {
        assert(adds.len() == 0);
        assert(total_geometric(adds) * h == 0) by (nonlinear_arith)
            requires
                total_geometric(adds) == 0,
        ;
        assert(total_temporal(adds) * t == 0) by (nonlinear_arith)
            requires
                total_temporal(adds) == 0,
        ;
    } else {
        let n = ls.len() - 1;
        let ls0 = ls.drop_last();
        let adds0 = adds.drop_last();
        assert(additions_fit(mode, ls0, adds0)) by {
            assert forall|i: int| 0 <= i < ls0.len() implies {
                &&& #[trigger] ls0[i].sigma + adds0[i].0 + ls0[i].cells <= usize::MAX
                &&& ls0[i].temporal_sigma + adds0[i].1 + ls0[i].temporal_cells <= usize::MAX
                &&& mode == Mode::Geometry ==> adds0[i].1 == 0
            } by {
                assert(ls0[i] == ls[i]);
                assert(adds0[i] == adds[i]);
            }
        }
        lemma_grown_layers(mode, d, p, ls0, adds0);
        let g0 = Seq::new(ls0.len(), |i: int| grow_layer(ls0[i], adds0[i]));
        assert(g.drop_last() =~= g0);
        assert(ls[n].sigma + adds[n].0 + ls[n].cells <= usize::MAX);
        law_seed_cost(mode, d, p, ls[n], adds[n]);
        assert(total_geometric(adds) == total_geometric(adds0) + adds[n].0);
        assert(total_temporal(adds) == total_temporal(adds0) + adds[n].1);
        assert((total_geometric(adds0) + adds[n].0) * h == total_geometric(adds0) * h + adds[n].0
            * h) by (nonlinear_arith);
        assert((total_temporal(adds0) + adds[n].1) * t == total_temporal(adds0) * t + adds[n].1
            * t) by (nonlinear_arith);
    }
}

impl Ledger {
    /// The units that a growth transaction of `geo` geometric seeds, `tem`
    /// temporal seeds and, if asked, one frontier layer would add.
    pub fn growth_units(&self, geo: u64, tem: u64, frontier: bool) -> (r: Result<u64, Error>)
        ensures
            match r {
                Ok(u) => growth_error(self.mode, self.d(), self.p(), geo as nat, tem as nat, frontier)
                    is None && u == growth_cost_of(
                    self.mode,
                    self.d(),
                    self.p(),
                    geo as nat,
                    tem as nat,
                    frontier,
                ),
                Err(e) => growth_error(self.mode, self.d(), self.p(), geo as nat, tem as nat, frontier)
                    matches Some(m) && invalid_with(e, m),
            },
    {
        let layer = if frontier {
            self.layer_units()?
        } else {
            0
        };
        let h = self.kernel_units()?;
        let geometry = match geo.checked_mul(h) {
            Some(u) => u,
            None => {
                return Err(Error::Invalid(String::from_str("material accounting overflow")));
            },
        };
        let t = self.temporal_kernel_units()?;
        let temporal = match tem.checked_mul(t) {
            Some(u) => u,
            None => {
                return Err(Error::Invalid(String::from_str("material accounting overflow")));
            },
        };
        proof {
            assert(geo * h >= 0 && tem * t >= 0) by (nonlinear_arith)
                requires
                    geo >= 0,
                    h >= 0,
                    tem >= 0,
                    t >= 0,
            ;
        }
        match layer.checked_add(geometry) {
            Some(x) => match x.checked_add(temporal) {
                Some(u) => Ok(u),
                None => Err(Error::Invalid(String::from_str("material accounting overflow"))),
            },
            None => Err(Error::Invalid(String::from_str("material accounting overflow"))),
        }
    }

    /// The error, if any, that a growth transaction reports before deciding.
    pub open spec fn commit_error(&self, adds: Seq<(usize, usize)>, frontier: bool) -> Option<
        Seq<char>,
    > {
        if total_geometric(adds) > usize::MAX || total_temporal(adds) > usize::MAX {
            Some(seed_overflow())
        } else if growth_error(
            self.mode,
            self.d(),
            self.p(),
            total_geometric(adds),
            total_temporal(adds),
            frontier,
        ) is Some {
            growth_error(
                self.mode,
                self.d(),
                self.p(),
                total_geometric(adds),
                total_temporal(adds),
                frontier,
            )
        } else {
            self.maintenance_error()
        }
    }

    /// The price of a growth transaction.
    pub open spec fn spec_growth_cost(&self, adds: Seq<(usize, usize)>, frontier: bool) -> int {
        growth_cost_of(
            self.mode,
            self.d(),
            self.p(),
            total_geometric(adds),
            total_temporal(adds),
            frontier,
        )
    }

    /// The one material growth transaction of a presentation: every layer's
    /// net new Σ kernels and, if asked, one frontier layer.  It is applied
    /// whole when the grown state stays within the budget, and not at all
    /// otherwise.
    pub fn commit_growth(&mut self, additions: &Vec<(usize, usize)>, frontier: bool) -> (r: Result<
        bool,
        Error,
    >)
        requires
            old(self).counts_fit(),
            additions_fit(old(self).mode, old(self).layers@, additions@),
        ensures
            match r {
                Ok(true) => {
                    &&& old(self).commit_error(additions@, frontier) is None
                    &&& old(self).spec_maintenance() + old(self).spec_growth_cost(
                        additions@,
                        frontier,
                    ) <= old(self).budget_units
                    &&& final(self).layers@ == grown(old(self).layers@, additions@, frontier)
                    &&& final(self).dimension == old(self).dimension
                    &&& final(self).scalar == old(self).scalar
                    &&& final(self).mode == old(self).mode
                    &&& final(self).budget_units == old(self).budget_units
                    &&& final(self).spec_maintenance() == old(self).spec_maintenance() + old(
                        self,
                    ).spec_growth_cost(additions@, frontier)
                    &&& final(self).counts_fit()
                },
                Ok(false) => {
                    &&& old(self).commit_error(additions@, frontier) is None
                    &&& old(self).spec_maintenance() + old(self).spec_growth_cost(
                        additions@,
                        frontier,
                    ) > old(self).budget_units
                    &&& *final(self) == *old(self)
                },
                Err(e) => {
                    &&& old(self).commit_error(additions@, frontier) matches Some(m) && invalid_with(
                        e,
                        m,
                    )
                    &&& *final(self) == *old(self)
                },
            },
    {
        let n = self.layers.len();
        let mut geo: usize = 0;
        let mut tem: usize = 0;
        let mut i: usize = 0;
        let mut overflow = false;
        assert(additions@.take(0) =~= Seq::<(usize, usize)>::empty());
        while i < n
            invariant
                n == self.layers@.len(),
                additions@.len() == n,
                i <= n,
                !overflow ==> geo == total_geometric(additions@.take(i as int)),
                !overflow ==> tem == total_temporal(additions@.take(i as int)),
                overflow ==> total_geometric(additions@) > usize::MAX || total_temporal(additions@)
                    > usize::MAX,
            decreases n - i,
        {
            let (a, b) = additions[i];
            proof {
                let p = additions@.take(i as int + 1);
                assert(p.drop_last() =~= additions@.take(i as int));
                lemma_totals_prefix_le(additions@, i as int + 1);
            }
            if !overflow {
                match (geo.checked_add(a), tem.checked_add(b)) {
                    (Some(x), Some(y)) => {
                        geo = x;
                        tem = y;
                    },
                    _ => {
                        overflow = true;
                    },
                }
            }
            i = i + 1;
        }
        assert(additions@.take(n as int) =~= additions@);
        if overflow {
            return Err(Error::Invalid(String::from_str("seed accounting overflow")));
        }
        let cost = self.growth_units(geo as u64, tem as u64, frontier)?;
        let before = self.maintenance_units()?;
        let payable = match before.checked_add(cost) {
            Some(total) => total <= self.budget_units,
            None => false,
        };
        if !payable {
            return Ok(false);
        }
        let ghost old_layers = self.layers@;
        proof {
            law_growth_footprint(self.mode, self.d(), self.p(), old_layers, additions@, frontier);
        }
        let mut j: usize = 0;
        while j < n
            invariant
                n == old_layers.len(),
                additions@.len() == n,
                self.layers@.len() == n,
                additions_fit(self.mode, old_layers, additions@),
                self.mode == old(self).mode,
                self.dimension == old(self).dimension,
                self.scalar == old(self).scalar,
                self.budget_units == old(self).budget_units,
                old_layers == old(self).layers@,
                j <= n,
                forall|k: int|
                    0 <= k < j ==> self.layers@[k] == grow_layer(old_layers[k], additions@[k]),
                forall|k: int| j <= k < n ==> self.layers@[k] == old_layers[k],
            decreases n - j,
        {
            let l = self.layers[j];
            let (a, b) = additions[j];
            assert(l == old_layers[j as int]);
            assert(l.sigma + a + l.cells <= usize::MAX);
            let grown_layer = LayerCounts {
                sigma: l.sigma + a,
                cells: l.cells,
                temporal_sigma: l.temporal_sigma + b,
                temporal_cells: l.temporal_cells,
            };
            self.layers.set(j, grown_layer);
            j = j + 1;
        }
        assert(self.layers@ =~= Seq::new(n as nat, |k: int| grow_layer(old_layers[k], additions@[k])));
        if frontier {
            self.layers.push(empty_layer());
        }
        proof {
            assert(self.layers@ =~= grown(old_layers, additions@, frontier));
            assert forall|k: int| 0 <= k < self.layers@.len() implies {
                &&& #[trigger] self.layers@[k].sigma + self.layers@[k].cells <= usize::MAX
                &&& self.layers@[k].temporal_sigma + self.layers@[k].temporal_cells <= usize::MAX
            } by {
                if k < n {
                    assert(self.layers@[k] == grow_layer(old_layers[k], additions@[k]));
                }
            }
        }
        Ok(true)
    }
}

/// Partial totals never exceed the whole.
proof fn lemma_totals_prefix_le(adds: Seq<(usize, usize)>, i: int)
    requires
        0 <= i <= adds.len(),
    ensures
        total_geometric(adds.take(i)) <= total_geometric(adds),
        total_temporal(adds.take(i)) <= total_temporal(adds),
    decreases adds.len() - i,
{
    if i < adds.len() {
        lemma_totals_prefix_le(adds, i + 1);
        assert(adds.take(i + 1).drop_last() =~= adds.take(i));
    } else {
        assert(adds.take(i) =~= adds);
    }
}

/// A state whose top layer holds no kernel while the layer below it holds
/// no CELL: that top layer could never have been grown, so a saved state
/// with it is refused.
pub open spec fn terminal_layer_redundant(ls: Seq<LayerCounts>) -> bool {
    &&& ls.len() > 1
    &&& ls[ls.len() - 1].sigma == 0 && ls[ls.len() - 1].cells == 0
    &&& ls[ls.len() - 1].temporal_sigma == 0 && ls[ls.len() - 1].temporal_cells == 0
    &&& ls[ls.len() - 2].cells == 0
}

/// Whether the top layer of a state is redundant.
pub fn has_redundant_terminal_layer(layers: &[LayerCounts]) -> (r: bool)
    ensures
        r == terminal_layer_redundant(layers@),
{
    let n = layers.len();
    if n < 2 {
        return false;
    }
    let last = layers[n - 1];
    let below = layers[n - 2];
    last.sigma == 0 && last.cells == 0 && last.temporal_sigma == 0 && last.temporal_cells == 0
        && below.cells == 0
}

} // verus!
