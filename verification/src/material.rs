use vstd::prelude::*;
use vstd::string::*;
use crate::types::{Budget, Error, Mode};
use crate::decimal::{floor_mul, floor_mul_spec, too_large};
use crate::ratio::{ratio_string, ratio_text_ok};

verus! {

/// The persistent scalar format of a network.
#[derive(Clone, Copy, Debug, PartialEq, Eq, Structural)]
pub enum ScalarKind {
    F32,
    F64,
}

/// Bytes of one persistent real: `p` in the packing model.
pub open spec fn scalar_bytes(s: ScalarKind) -> int {
    match s {
        ScalarKind::F32 => 4,
        ScalarKind::F64 => 8,
    }
}

impl ScalarKind {
    pub fn bytes(self) -> (b: u64)
        ensures
            b == scalar_bytes(self),
    {
        match self {
            ScalarKind::F32 => 4,
            ScalarKind::F64 => 8,
        }
    }

    pub fn name(self) -> (s: &'static str)
        ensures
            self == ScalarKind::F32 ==> s@ == "f32"@,
            self == ScalarKind::F64 ==> s@ == "f64"@,
    {
        match self {
            ScalarKind::F32 => "f32",
            ScalarKind::F64 => "f64",
        }
    }
}

/// Population sizes of one layer: the only part of a layer that occupies
/// material.
#[derive(Clone, Copy, Debug, PartialEq, Eq, Structural)]
pub struct LayerCounts {
    pub sigma: usize,
    pub cells: usize,
    pub temporal_sigma: usize,
    pub temporal_cells: usize,
}

/// `U_H = (D + 2) p`: one geometric kernel `(W, C, V)` in dimension `D`.
pub open spec fn kernel_units_of(d: int, p: int) -> int {
    (d + 2) * p
}

/// `U_T = (2D + 2) p`: one temporal kernel in dimension `2D`.
pub open spec fn temporal_kernel_units_of(d: int, p: int) -> int {
    (2 * d + 2) * p
}

/// `U_N = 34 + 2p`: the network header.
pub open spec fn network_units_of(p: int) -> int {
    34 + 2 * p
}

/// `U_L`: one empty layer; predictive layers reserve a geometric kernel slot.
pub open spec fn layer_units_of(mode: Mode, d: int, p: int) -> int {
    match mode {
        Mode::Geometry => 16,
        Mode::Predictive => 33 + kernel_units_of(d, p),
    }
}

/// Footprint of one layer with its populations.
pub open spec fn layer_footprint(mode: Mode, d: int, p: int, l: LayerCounts) -> int {
    layer_units_of(mode, d, p) + (l.sigma + l.cells) * kernel_units_of(d, p) + if mode
        == Mode::Predictive {
        (l.temporal_sigma + l.temporal_cells) * temporal_kernel_units_of(d, p)
    } else {
        0
    }
}

/// Footprint of a sequence of layers.
pub open spec fn layers_footprint(mode: Mode, d: int, p: int, ls: Seq<LayerCounts>) -> int
    decreases ls.len(),
{
    if ls.len() == 0 {
        0
    } else {
        layers_footprint(mode, d, p, ls.drop_last()) + layer_footprint(mode, d, p, ls.last())
    }
}

pub open spec fn fits_u64(x: int) -> bool {
    0 <= x <= u64::MAX
}

/// An `Invalid` error carrying exactly the given detail.
pub open spec fn invalid_with(e: Error, msg: Seq<char>) -> bool {
    match e {
        Error::Invalid(m) => m@ == msg,
        _ => false,
    }
}

pub open spec fn dimension_too_large() -> Seq<char> {
    "dimension is too large for material accounting"@
}

pub open spec fn accounting_overflow() -> Seq<char> {
    "material accounting overflow"@
}

pub open spec fn below_minimum() -> Seq<char> {
    "budget is below the minimal executable state"@
}

pub open spec fn zero_dimension() -> Seq<char> {
    "dimension must be a positive integer"@
}

/// A budget that can be handed to the decimal reader: its text leaves room
/// for the reader's index arithmetic.
pub open spec fn budget_text_fits(budget: Budget) -> bool {
    match budget {
        Budget::Kernels(t) => t@.len() + 20 <= usize::MAX,
        Budget::Units(_) => true,
    }
}

/// The detail of the error that sizing one empty layer reports, if any.
pub open spec fn layer_units_error_for(mode: Mode, d: int, p: int) -> Option<Seq<char>> {
    if !fits_u64(kernel_units_of(d, p)) && mode == Mode::Predictive {
        Some(dimension_too_large())
    } else if !fits_u64(layer_units_of(mode, d, p)) {
        Some(accounting_overflow())
    } else {
        None
    }
}

/// `M_min = U_N + U_L`, or the detail of the error that computing it reports.
pub open spec fn min_units_for(mode: Mode, d: int, p: int) -> Result<nat, Seq<char>> {
    match layer_units_error_for(mode, d, p) {
        Some(m) => Err(m),
        None => if fits_u64(network_units_of(p) + layer_units_of(mode, d, p)) {
            Ok((network_units_of(p) + layer_units_of(mode, d, p)) as nat)
        } else {
            Err(accounting_overflow())
        },
    }
}

/// The raw units a budget stands for: units as given, or the minimal state
/// plus `floor(k * U_H)` for a decimal count `k` of geometric kernels.
pub open spec fn resolve_for(mode: Mode, d: int, p: int, budget: Budget) -> Result<
    nat,
    Seq<char>,
> {
    match budget {
        Budget::Units(u) => Ok(u as nat),
        Budget::Kernels(t) => if !fits_u64(kernel_units_of(d, p)) {
            Err(dimension_too_large())
        } else {
            match floor_mul_spec(t@, kernel_units_of(d, p) as u64) {
                Err(m) => Err(m),
                Ok(extra) => match min_units_for(mode, d, p) {
                    Err(m) => Err(m),
                    Ok(min) => if min + extra > u64::MAX {
                        Err(too_large())
                    } else {
                        Ok(min + extra)
                    },
                },
            }
        },
    }
}

/// The budget in units that installing `budget` yields, or why it is
/// refused: a budget below the minimal executable state is refused.
pub open spec fn set_budget_for(mode: Mode, d: int, p: int, budget: Budget) -> Result<
    nat,
    Seq<char>,
> {
    match resolve_for(mode, d, p, budget) {
        Err(m) => Err(m),
        Ok(u) => match min_units_for(mode, d, p) {
            Err(m) => Err(m),
            Ok(min) => if u < min {
                Err(below_minimum())
            } else {
                Ok(u)
            },
        },
    }
}

/// The material ledger of a network: everything the packing model reads.
#[derive(Clone, Debug)]
pub struct Ledger {
    pub dimension: usize,
    pub scalar: ScalarKind,
    pub mode: Mode,
    pub budget_units: u64,
    pub layers: Vec<LayerCounts>,
}

impl Ledger {
    pub open spec fn d(&self) -> int {
        self.dimension as int
    }

    pub open spec fn p(&self) -> int {
        scalar_bytes(self.scalar)
    }

    pub open spec fn spec_kernel_units(&self) -> int {
        kernel_units_of(self.d(), self.p())
    }

    pub open spec fn spec_temporal_kernel_units(&self) -> int {
        temporal_kernel_units_of(self.d(), self.p())
    }

    pub open spec fn spec_network_units(&self) -> int {
        network_units_of(self.p())
    }

    pub open spec fn spec_layer_units(&self) -> int {
        layer_units_of(self.mode, self.d(), self.p())
    }

    pub open spec fn spec_min_units(&self) -> int {
        self.spec_network_units() + self.spec_layer_units()
    }

    /// `M_units`: the persistent footprint of the whole state.
    pub open spec fn spec_maintenance(&self) -> int {
        self.spec_network_units() + layers_footprint(
            self.mode,
            self.d(),
            self.p(),
            self.layers@,
        )
    }

    /// The detail of the error that layer sizing reports, if any.
    pub open spec fn layer_units_error(&self) -> Option<Seq<char>> {
        layer_units_error_for(self.mode, self.d(), self.p())
    }

    /// The detail of the error that the full footprint reports, if any.
    pub open spec fn maintenance_error(&self) -> Option<Seq<char>> {
        if self.layer_units_error() is Some {
            self.layer_units_error()
        } else if !fits_u64(self.spec_kernel_units()) || !fits_u64(
            self.spec_temporal_kernel_units(),
        ) {
            Some(dimension_too_large())
        } else if !fits_u64(self.spec_maintenance()) {
            Some(accounting_overflow())
        } else {
            None
        }
    }

    /// No layer holds more kernels than an index can count.
    pub open spec fn counts_fit(&self) -> bool {
        forall|i: int|
            0 <= i < self.layers@.len() ==> {
                &&& #[trigger] self.layers@[i].sigma + self.layers@[i].cells <= usize::MAX
                &&& self.layers@[i].temporal_sigma + self.layers@[i].temporal_cells
                    <= usize::MAX
            }
    }

    pub fn kernel_units(&self) -> (r: Result<u64, Error>)
        ensures
            match r {
                Ok(u) => fits_u64(self.spec_kernel_units()) && u == self.spec_kernel_units(),
                Err(e) => !fits_u64(self.spec_kernel_units()) && invalid_with(
                    e,
                    dimension_too_large(),
                ),
            },
    {
        let p = self.scalar.bytes();
        match (self.dimension as u64).checked_add(2) {
            Some(n) => match n.checked_mul(p) {
                Some(u) => Ok(u),
                None => Err(Error::Invalid(
                    String::from_str("dimension is too large for material accounting"),
                )),
            },
            None => {
                assert((self.dimension + 2) * self.p() > u64::MAX) by (nonlinear_arith)
                    requires
                        self.dimension + 2 > u64::MAX,
                        self.p() >= 4,
                ;
                Err(
                    Error::Invalid(
                        String::from_str("dimension is too large for material accounting"),
                    ),
                )
            },
        }
    }

    pub fn temporal_kernel_units(&self) -> (r: Result<u64, Error>)
        ensures
            match r {
                Ok(u) => fits_u64(self.spec_temporal_kernel_units()) && u
                    == self.spec_temporal_kernel_units(),
                Err(e) => !fits_u64(self.spec_temporal_kernel_units()) && invalid_with(
                    e,
                    dimension_too_large(),
                ),
            },
    {
        let p = self.scalar.bytes();
        let overflow = Err(
            Error::Invalid(String::from_str("dimension is too large for material accounting")),
        );
        match 2u64.checked_mul(self.dimension as u64) {
            Some(n) => match n.checked_add(2) {
                Some(n2) => match n2.checked_mul(p) {
                    Some(u) => Ok(u),
                    None => overflow,
                },
                None => {
                    assert((2 * self.dimension + 2) * self.p() > u64::MAX) by (nonlinear_arith)
                        requires
                            2 * self.dimension + 2 > u64::MAX,
                            self.p() >= 4,
                    ;
                    overflow
                },
            },
            None => {
                assert((2 * self.dimension + 2) * self.p() > u64::MAX) by (nonlinear_arith)
                    requires
                        2 * self.dimension > u64::MAX,
                        self.p() >= 4,
                ;
                overflow
            },
        }
    }

    pub fn network_units(&self) -> (r: Result<u64, Error>)
        ensures
            r == Ok::<u64, Error>(self.spec_network_units() as u64),
    {
        Ok(34 + 2 * self.scalar.bytes())
    }

    pub fn layer_units(&self) -> (r: Result<u64, Error>)
        ensures
            match r {
                Ok(u) => self.layer_units_error() is None && u == self.spec_layer_units(),
                Err(e) => self.layer_units_error() matches Some(m) && invalid_with(e, m),
            },
    {
        match self.mode {
            Mode::Geometry => Ok(16),
            Mode::Predictive => {
                let k = self.kernel_units()?;
                match 33u64.checked_add(k) {
                    Some(u) => Ok(u),
                    None => Err(Error::Invalid(String::from_str("material accounting overflow"))),
                }
            },
        }
    }

    /// `M_units`: network header, every layer, and every kernel it holds.
    pub fn maintenance_units(&self) -> (r: Result<u64, Error>)
        requires
            self.counts_fit(),
        ensures
            match r {
                Ok(u) => self.maintenance_error() is None && u == self.spec_maintenance(),
                Err(e) => self.maintenance_error() matches Some(m) && invalid_with(e, m),
            },
    {
        let mut total = self.network_units()?;
        let layer_units = self.layer_units()?;
        let geometric_units = self.kernel_units()?;
        let temporal_units = self.temporal_kernel_units()?;
        let predictive = self.mode.predictive();
        let ghost d = self.d();
        let ghost p = self.p();
        let ghost ls = self.layers@;
        proof {
            lemma_footprint_nonneg(self.mode, d, p, ls);
            assert(ls.take(0) =~= Seq::<LayerCounts>::empty());
        }
        let mut i: usize = 0;
        while i < self.layers.len()
            invariant
                self.counts_fit(),
                ls == self.layers@,
                d == self.d(),
                p == self.p(),
                self.layer_units_error() is None,
                fits_u64(self.spec_kernel_units()),
                fits_u64(self.spec_temporal_kernel_units()),
                layer_units == self.spec_layer_units(),
                geometric_units == self.spec_kernel_units(),
                temporal_units == self.spec_temporal_kernel_units(),
                predictive == (self.mode == Mode::Predictive),
                0 <= i <= ls.len(),
                total == self.spec_network_units() + layers_footprint(
                    self.mode,
                    d,
                    p,
                    ls.take(i as int),
                ),
            decreases ls.len() - i,
        {
            let layer = self.layers[i];
            proof {
                lemma_footprint_take_step(self.mode, d, p, ls, i as int);
                lemma_footprint_prefix_le(self.mode, d, p, ls, i as int + 1);
                assert(layer.sigma + layer.cells <= usize::MAX);
                assert(layer.temporal_sigma + layer.temporal_cells <= usize::MAX);
                assert(0 <= (layer.sigma + layer.cells) * geometric_units) by (nonlinear_arith)
                    requires
                        layer.sigma + layer.cells >= 0,
                        geometric_units >= 0,
                ;
                assert(0 <= (layer.temporal_sigma + layer.temporal_cells) * temporal_units)
                    by (nonlinear_arith)
                    requires
                        layer.temporal_sigma + layer.temporal_cells >= 0,
                        temporal_units >= 0,
                ;
            }
            let geometric_count = (layer.sigma + layer.cells) as u64;
            let step = match total.checked_add(layer_units) {
                Some(t) => match geometric_count.checked_mul(geometric_units) {
                    Some(g) => t.checked_add(g),
                    None => None,
                },
                None => None,
            };
            total = match step {
                Some(t) => t,
                None => {
                    return Err(Error::Invalid(String::from_str("material accounting overflow")));
                },
            };
            if predictive {
                let temporal_count = (layer.temporal_sigma + layer.temporal_cells) as u64;
                let extra = match temporal_count.checked_mul(temporal_units) {
                    Some(t) => total.checked_add(t),
                    None => None,
                };
                total = match extra {
                    Some(t) => t,
                    None => {
                        return Err(
                            Error::Invalid(String::from_str("material accounting overflow")),
                        );
                    },
                };
            }
            i = i + 1;
        }
        proof {
            assert(ls.take(ls.len() as int) =~= ls);
        }
        Ok(total)
    }

    /// The raw units a budget stands for.
    pub open spec fn resolve_spec(&self, budget: Budget) -> Result<nat, Seq<char>> {
        resolve_for(self.mode, self.d(), self.p(), budget)
    }

    /// `M_min`, or the detail of the error that computing it reports.
    pub open spec fn min_units_spec(&self) -> Result<nat, Seq<char>> {
        min_units_for(self.mode, self.d(), self.p())
    }

    /// The budget in units that a new budget installs, or why it is refused.
    pub open spec fn set_budget_spec(&self, budget: Budget) -> Result<nat, Seq<char>> {
        set_budget_for(self.mode, self.d(), self.p(), budget)
    }

    /// The same ledger with another budget.
    pub open spec fn with_budget(self, units: u64) -> Ledger {
        Ledger { budget_units: units, ..self }
    }

    /// `M_min`: the network header plus one empty layer.
    pub fn min_units(&self) -> (r: Result<u64, Error>)
        ensures
            match r {
                Ok(u) => self.layer_units_error() is None && u == self.spec_min_units(),
                Err(e) => match self.layer_units_error() {
                    Some(m) => invalid_with(e, m),
                    None => !fits_u64(self.spec_min_units()) && invalid_with(
                        e,
                        accounting_overflow(),
                    ),
                },
            },
    {
        let n = self.network_units()?;
        let l = self.layer_units()?;
        match n.checked_add(l) {
            Some(u) => Ok(u),
            None => Err(Error::Invalid(String::from_str("material accounting overflow"))),
        }
    }

    /// The raw units that `budget` stands for.
    pub fn resolve_budget(&self, budget: Budget) -> (r: Result<u64, Error>)
        requires
            budget_text_fits(budget),
        ensures
            match r {
                Ok(u) => self.resolve_spec(budget) == Ok::<nat, Seq<char>>(u as nat),
                Err(e) => self.resolve_spec(budget) matches Err(m) && invalid_with(e, m),
            },
    {
        match budget {
            Budget::Units(units) => Ok(units),
            Budget::Kernels(text) => {
                let k = self.kernel_units()?;
                let extra = floor_mul(text.as_str(), k)?;
                let min = self.min_units()?;
                match min.checked_add(extra) {
                    Some(u) => Ok(u),
                    None => Err(Error::Invalid(String::from_str("budget is too large"))),
                }
            },
        }
    }

    /// Installs a new budget; one below the minimal state is refused and
    /// leaves the ledger as it was.
    pub fn set_budget(&mut self, budget: Budget) -> (r: Result<(), Error>)
        requires
            budget_text_fits(budget),
        ensures
            match old(self).set_budget_spec(budget) {
                Ok(u) => r is Ok && *final(self) == old(self).with_budget(u as u64),
                Err(m) => (r matches Err(e) && invalid_with(e, m)) && *final(self) == *old(self),
            },
    {
        let units = self.resolve_budget(budget)?;
        let min = self.min_units()?;
        if units < min {
            return Err(
                Error::Invalid(String::from_str("budget is below the minimal executable state")),
            );
        }
        self.budget_units = units;
        Ok(())
    }

    /// The budget beyond the minimal state, in geometric kernels, exactly.
    pub fn budget_equivalent(&self) -> (r: Result<String, Error>)
        ensures
            match r {
                Ok(s) => {
                    &&& self.min_units_spec() is Ok
                    &&& fits_u64(self.spec_kernel_units())
                    &&& ratio_text_ok(
                        saturating_sub(self.budget_units as nat, self.min_units_spec()->Ok_0),
                        self.spec_kernel_units() as nat,
                        s@,
                    )
                },
                Err(e) => match self.min_units_spec() {
                    Err(m) => invalid_with(e, m),
                    Ok(_) => !fits_u64(self.spec_kernel_units()) && invalid_with(
                        e,
                        dimension_too_large(),
                    ),
                },
            },
    {
        let min = self.min_units()?;
        let k = self.kernel_units()?;
        proof {
            assert(self.spec_kernel_units() > 0) by (nonlinear_arith)
                requires
                    self.spec_kernel_units() == (self.d() + 2) * self.p(),
                    self.d() >= 0,
                    self.p() >= 4,
            ;
        }
        ratio_string(self.budget_units.saturating_sub(min), k)
    }

    /// A fresh ledger: dimension `D`, one empty layer, and the budget
    /// resolved against it.
    pub fn new(dimension: usize, scalar: ScalarKind, mode: Mode, budget: Budget) -> (r: Result<
        Ledger,
        Error,
    >)
        requires
            budget_text_fits(budget),
        ensures
            match r {
                Ok(l) => {
                    &&& dimension > 0
                    &&& l.dimension == dimension
                    &&& l.scalar == scalar
                    &&& l.mode == mode
                    &&& l.layers@ == seq![empty_layer_spec()]
                    &&& set_budget_for(mode, dimension as int, scalar_bytes(scalar), budget) == Ok::<
                        nat,
                        Seq<char>,
                    >(l.budget_units as nat)
                },
                Err(e) => if dimension == 0 {
                    invalid_with(e, zero_dimension())
                } else {
                    set_budget_for(mode, dimension as int, scalar_bytes(scalar), budget) matches Err(
                        m,
                    ) && invalid_with(e, m)
                },
            },
    {
        if dimension == 0 {
            return Err(Error::Invalid(String::from_str("dimension must be a positive integer")));
        }
        let mut out = Ledger { dimension, scalar, mode, budget_units: 0, layers: vec![empty_layer()] };
        out.set_budget(budget)?;
        Ok(out)
    }
}

/// A layer with no kernels.
pub open spec fn empty_layer_spec() -> LayerCounts {
    LayerCounts { sigma: 0, cells: 0, temporal_sigma: 0, temporal_cells: 0 }
}

pub fn empty_layer() -> (l: LayerCounts)
    ensures
        l == empty_layer_spec(),
{
    LayerCounts { sigma: 0, cells: 0, temporal_sigma: 0, temporal_cells: 0 }
}

pub open spec fn saturating_sub(a: nat, b: nat) -> nat {
    if a >= b {
        (a - b) as nat
    } else {
        0
    }
}

/// Every layer occupies a nonnegative footprint.
pub proof fn lemma_layer_footprint_nonneg(mode: Mode, d: int, p: int, l: LayerCounts)
    requires
        d >= 0,
        p >= 0,
    ensures
        layer_footprint(mode, d, p, l) >= 0,
{
    assert(0 <= (l.sigma + l.cells) * kernel_units_of(d, p)) by (nonlinear_arith)
        requires
            l.sigma + l.cells >= 0,
            kernel_units_of(d, p) == (d + 2) * p,
            d >= 0,
            p >= 0,
    ;
    assert(0 <= (l.temporal_sigma + l.temporal_cells) * temporal_kernel_units_of(d, p))
        by (nonlinear_arith)
        requires
            l.temporal_sigma + l.temporal_cells >= 0,
            temporal_kernel_units_of(d, p) == (2 * d + 2) * p,
            d >= 0,
            p >= 0,
    ;
    assert(kernel_units_of(d, p) >= 0) by (nonlinear_arith)
        requires
            kernel_units_of(d, p) == (d + 2) * p,
            d >= 0,
            p >= 0,
    ;
}

pub proof fn lemma_footprint_nonneg(mode: Mode, d: int, p: int, ls: Seq<LayerCounts>)
    requires
        d >= 0,
        p >= 0,
    ensures
        layers_footprint(mode, d, p, ls) >= 0,
    decreases ls.len(),
{
    if ls.len() > 0 {
        lemma_footprint_nonneg(mode, d, p, ls.drop_last());
        lemma_layer_footprint_nonneg(mode, d, p, ls.last());
    }
}

/// Adding the next layer of a prefix adds exactly that layer's footprint.
pub proof fn lemma_footprint_take_step(
    mode: Mode,
    d: int,
    p: int,
    ls: Seq<LayerCounts>,
    i: int,
)
    requires
        0 <= i < ls.len(),
    ensures
        layers_footprint(mode, d, p, ls.take(i + 1)) == layers_footprint(mode, d, p, ls.take(i))
            + layer_footprint(mode, d, p, ls[i]),
{
    assert(ls.take(i + 1).drop_last() =~= ls.take(i));
}

/// A prefix never occupies more than the whole sequence.
pub proof fn lemma_footprint_prefix_le(
    mode: Mode,
    d: int,
    p: int,
    ls: Seq<LayerCounts>,
    i: int,
)
    requires
        0 <= i <= ls.len(),
        d >= 0,
        p >= 0,
    ensures
        layers_footprint(mode, d, p, ls.take(i)) <= layers_footprint(mode, d, p, ls),
    decreases ls.len() - i,
{
    if i == ls.len() {
        assert(ls.take(i) =~= ls);
    } else {
        lemma_footprint_take_step(mode, d, p, ls, i);
        lemma_layer_footprint_nonneg(mode, d, p, ls[i]);
        lemma_footprint_prefix_le(mode, d, p, ls, i + 1);
    }
}

} // verus!
