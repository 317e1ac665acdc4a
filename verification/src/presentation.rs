use vstd::prelude::*;
use vstd::string::*;
use crate::json::{view_items, view_value, JsonView, Value};
use crate::material::invalid_with;
use crate::state::{
    expect_real, lemma_view_items_index, lemma_view_items_len, parse_reals, real_text, reals_spec,
    view_kernel, view_kernels, KernelText, KernelView,
};
use crate::text::{decimal_text, push_decimal};
use crate::types::Error;

verus! {

// ---------------------------------------------------------------------------
// Plain presentations: a nonempty list of vectors.

pub open spec fn vector_spec(v: JsonView) -> Result<Seq<Seq<char>>, Seq<char>> {
    match v {
        JsonView::Array(coords) => reals_spec(coords, "vector component"@),
        _ => Err("presentation items must be vectors"@),
    }
}

/// The vectors of a list, or the error of the first that is not one.
#[verifier::opaque]
pub open spec fn vectors_spec(items: Seq<JsonView>) -> Result<Seq<Seq<Seq<char>>>, Seq<char>>
    decreases items.len(),
{
    if items.len() == 0 {
        Ok(Seq::empty())
    } else {
        match vectors_spec(items.drop_last()) {
            Err(m) => Err(m),
            Ok(acc) => match vector_spec(items.last()) {
                Err(m) => Err(m),
                Ok(x) => Ok(acc.push(x)),
            },
        }
    }
}

/// A presentation: a nonempty list of vectors of finite reals, each real
/// kept as its number text.
pub open spec fn presentation_spec(v: JsonView) -> Result<Seq<Seq<Seq<char>>>, Seq<char>> {
    match v {
        JsonView::Array(items) => if items.len() == 0 {
            Err("presentation must be nonempty"@)
        } else {
            vectors_spec(items)
        },
        _ => Err("presentation must be a JSON array of vectors"@),
    }
}

pub open spec fn view_vector(x: Vec<String>) -> Seq<Seq<char>> {
    x@.map_values(|s: String| s@)
}

pub open spec fn view_vectors(xs: Seq<Vec<String>>) -> Seq<Seq<Seq<char>>> {
    xs.map_values(|x: Vec<String>| view_vector(x))
}

pub proof fn lemma_vectors_prefix_error(s: Seq<JsonView>, j: int)
    requires
        0 <= j <= s.len(),
        vectors_spec(s.take(j)) is Err,
    ensures
        vectors_spec(s) == vectors_spec(s.take(j)),
    decreases s.len() - j,
{
    reveal_with_fuel(vectors_spec, 1);
    if j < s.len() {
        assert(s.take(j + 1).drop_last() =~= s.take(j));
        lemma_vectors_prefix_error(s, j + 1);
    } else {
        assert(s.take(j) =~= s);
    }
}

fn parse_vector(v: Value) -> (r: Result<Vec<String>, Error>)
    ensures
        match vector_spec(view_value(v)) {
            Ok(x) => r matches Ok(w) && view_vector(w) == x,
            Err(m) => r matches Err(e) && invalid_with(e, m),
        },
{
    match v {
        Value::Array(coords) => parse_reals(coords, "vector component"),
        _ => Err(Error::Invalid(String::from_str("presentation items must be vectors"))),
    }
}

/// Reads a presentation: a nonempty JSON array of vectors of finite reals.
#[verifier::loop_isolation(false)]
pub fn parse_presentation(value: Value) -> (r: Result<Vec<Vec<String>>, Error>)
    ensures
        match presentation_spec(view_value(value)) {
            Ok(xs) => r matches Ok(v) && view_vectors(v@) == xs,
            Err(m) => r matches Err(e) && invalid_with(e, m),
        },
{
    let items = match value {
        Value::Array(items) => items,
        _ => {
            return Err(Error::Invalid(String::from_str("presentation must be a JSON array of vectors")));
        },
    };
    proof {
        lemma_view_items_len(items@);
    }
    if items.len() == 0 {
        return Err(Error::Invalid(String::from_str("presentation must be nonempty")));
    }
    let n = items.len();
    let ghost orig = items@;
    let ghost views = view_items(orig);
    proof {
        reveal_with_fuel(vectors_spec, 1);
        assert(views.take(0) =~= Seq::<JsonView>::empty());
        assert(orig.skip(0) =~= orig);
    }
    let mut rest = items;
    let mut out: Vec<Vec<String>> = Vec::new();
    let mut i: usize = 0;
    assert(view_vectors(out@) =~= Seq::<Seq<Seq<char>>>::empty());
    while rest.len() > 0
        invariant
            views == view_items(orig),
            views.len() == orig.len(),
            orig.len() == n,
            i <= orig.len(),
            rest@ == orig.skip(i as int),
            vectors_spec(views.take(i as int)) == Ok::<Seq<Seq<Seq<char>>>, Seq<char>>(
                view_vectors(out@),
            ),
        decreases rest@.len(),
    {
        let v = rest.remove(0);
        proof {
            reveal_with_fuel(vectors_spec, 1);
            lemma_view_items_index(orig, i as int);
            assert(v == orig[i as int]);
            assert(views.take(i as int + 1).drop_last() =~= views.take(i as int));
            assert(views.take(i as int + 1).last() == view_value(v));
            assert(rest@ =~= orig.skip(i as int + 1));
        }
        let ghost gv = view_value(v);
        let x = match parse_vector(v) {
            Ok(x) => x,
            Err(e) => {
                proof {
                    assert(vector_spec(gv) is Err);
                    assert(vectors_spec(views.take(i as int + 1)) == Err::<
                        Seq<Seq<Seq<char>>>,
                        Seq<char>,
                    >(vector_spec(gv)->Err_0));
                    lemma_vectors_prefix_error(views, i as int + 1);
                }
                return Err(e);
            },
        };
        let ghost before = view_vectors(out@);
        out.push(x);
        assert(view_vectors(out@) =~= before.push(view_vector(x)));
        i = i + 1;
    }
    proof {
        assert(views.take(i as int) =~= views);
    }
    Ok(out)
}

// ---------------------------------------------------------------------------
// Weighted presentations: a nonempty list of `[W, C, V]` atoms.

/// One atom `[W, C, V]` at index `i`: weight, center and variance as number
/// texts.  Its reals are checked in that order.
pub open spec fn atom_spec(v: JsonView, i: nat) -> Result<KernelView, Seq<char>> {
    match v {
        JsonView::Array(parts) => if parts.len() != 3 {
            Err("weighted presentation items must be [W,C,V]"@)
        } else {
            match real_text(parts[0], "weight"@) {
                Err(m) => Err(m),
                Ok(w) => match parts[1] {
                    JsonView::Array(coords) => match reals_spec(coords, "vector component"@) {
                        Err(m) => Err(m),
                        Ok(c) => match real_text(parts[2], "variance"@) {
                            Err(m) => Err(m),
                            Ok(var) => Ok(KernelView { weight: w, center: c, variance: var }),
                        },
                    },
                    _ => Err("presentation["@ + decimal_text(i) + "].center must be a vector"@),
                },
            }
        },
        _ => Err("weighted presentation items must be [W,C,V]"@),
    }
}

/// The atoms of a list, or the error of the first that is not one.
#[verifier::opaque]
pub open spec fn atoms_spec(items: Seq<JsonView>) -> Result<Seq<KernelView>, Seq<char>>
    decreases items.len(),
{
    if items.len() == 0 {
        Ok(Seq::empty())
    } else {
        match atoms_spec(items.drop_last()) {
            Err(m) => Err(m),
            Ok(acc) => match atom_spec(items.last(), (items.len() - 1) as nat) {
                Err(m) => Err(m),
                Ok(a) => Ok(acc.push(a)),
            },
        }
    }
}

/// A weighted presentation: a nonempty list of `[W, C, V]` atoms.
pub open spec fn weighted_spec(v: JsonView) -> Result<Seq<KernelView>, Seq<char>> {
    match v {
        JsonView::Array(items) => if items.len() == 0 {
            Err("presentation must be nonempty"@)
        } else {
            atoms_spec(items)
        },
        _ => Err("weighted presentation must be a JSON array"@),
    }
}

pub proof fn lemma_atoms_prefix_error(s: Seq<JsonView>, j: int)
    requires
        0 <= j <= s.len(),
        atoms_spec(s.take(j)) is Err,
    ensures
        atoms_spec(s) == atoms_spec(s.take(j)),
    decreases s.len() - j,
{
    reveal_with_fuel(atoms_spec, 1);
    if j < s.len() {
        assert(s.take(j + 1).drop_last() =~= s.take(j));
        lemma_atoms_prefix_error(s, j + 1);
    } else {
        assert(s.take(j) =~= s);
    }
}

fn parse_atom(v: Value, i: usize) -> (r: Result<KernelText, Error>)
    ensures
        match atom_spec(view_value(v), i as nat) {
            Ok(a) => r matches Ok(k) && view_kernel(k) == a,
            Err(m) => r matches Err(e) && invalid_with(e, m),
        },
{
    let mut parts = match v {
        Value::Array(parts) => parts,
        _ => {
            return Err(Error::Invalid(String::from_str("weighted presentation items must be [W,C,V]")));
        },
    };
    proof {
        lemma_view_items_len(parts@);
    }
    if parts.len() != 3 {
        return Err(Error::Invalid(String::from_str("weighted presentation items must be [W,C,V]")));
    }
    let ghost ps = parts@;
    proof {
        lemma_view_items_index(ps, 0);
        lemma_view_items_index(ps, 1);
        lemma_view_items_index(ps, 2);
    }
    let variance_value = match parts.pop() {
        Some(x) => x,
        None => {
            return Err(Error::Invalid(String::from_str("weighted presentation items must be [W,C,V]")));
        },
    };
    let center_value = match parts.pop() {
        Some(x) => x,
        None => {
            return Err(Error::Invalid(String::from_str("weighted presentation items must be [W,C,V]")));
        },
    };
    let weight_value = match parts.pop() {
        Some(x) => x,
        None => {
            return Err(Error::Invalid(String::from_str("weighted presentation items must be [W,C,V]")));
        },
    };
    assert(weight_value == ps[0] && center_value == ps[1] && variance_value == ps[2]);
    let weight = match expect_real(weight_value, "weight") {
        Ok(t) => t,
        Err(e) => {
            return Err(e);
        },
    };
    let center = match center_value {
        Value::Array(coords) => match parse_reals(coords, "vector component") {
            Ok(c) => c,
            Err(e) => {
                return Err(e);
            },
        },
        _ => {
            let mut m = String::from_str("presentation[");
            push_decimal(&mut m, i as u128);
            m.append("].center must be a vector");
            return Err(Error::Invalid(m));
        },
    };
    let variance = match expect_real(variance_value, "variance") {
        Ok(t) => t,
        Err(e) => {
            return Err(e);
        },
    };
    Ok(KernelText { weight, center, variance })
}

/// Reads a weighted presentation: a nonempty JSON array of `[W, C, V]`
/// atoms of finite reals.
#[verifier::loop_isolation(false)]
pub fn parse_weighted_presentation(value: Value) -> (r: Result<Vec<KernelText>, Error>)
    ensures
        match weighted_spec(view_value(value)) {
            Ok(atoms) => r matches Ok(v) && view_kernels(v@) == atoms,
            Err(m) => r matches Err(e) && invalid_with(e, m),
        },
{
    let items = match value {
        Value::Array(items) => items,
        _ => {
            return Err(Error::Invalid(String::from_str("weighted presentation must be a JSON array")));
        },
    };
    proof {
        lemma_view_items_len(items@);
    }
    if items.len() == 0 {
        return Err(Error::Invalid(String::from_str("presentation must be nonempty")));
    }
    let n = items.len();
    let ghost orig = items@;
    let ghost views = view_items(orig);
    proof {
        reveal_with_fuel(atoms_spec, 1);
        assert(views.take(0) =~= Seq::<JsonView>::empty());
        assert(orig.skip(0) =~= orig);
    }
    let mut rest = items;
    let mut out: Vec<KernelText> = Vec::new();
    let mut i: usize = 0;
    assert(view_kernels(out@) =~= Seq::<KernelView>::empty());
    while rest.len() > 0
        invariant
            views == view_items(orig),
            views.len() == orig.len(),
            orig.len() == n,
            i <= orig.len(),
            rest@ == orig.skip(i as int),
            atoms_spec(views.take(i as int)) == Ok::<Seq<KernelView>, Seq<char>>(
                view_kernels(out@),
            ),
        decreases rest@.len(),
    {
        let v = rest.remove(0);
        proof {
            reveal_with_fuel(atoms_spec, 1);
            lemma_view_items_index(orig, i as int);
            assert(v == orig[i as int]);
            assert(views.take(i as int + 1).drop_last() =~= views.take(i as int));
            assert(views.take(i as int + 1).last() == view_value(v));
            assert(rest@ =~= orig.skip(i as int + 1));
        }
        let ghost gv = view_value(v);
        let a = match parse_atom(v, i) {
            Ok(a) => a,
            Err(e) => {
                proof {
                    assert(atom_spec(gv, i as nat) is Err);
                    assert(atoms_spec(views.take(i as int + 1)) == Err::<
                        Seq<KernelView>,
                        Seq<char>,
                    >(atom_spec(gv, i as nat)->Err_0));
                    lemma_atoms_prefix_error(views, i as int + 1);
                }
                return Err(e);
            },
        };
        let ghost before = view_kernels(out@);
        out.push(a);
        assert(view_kernels(out@) =~= before.push(view_kernel(a)));
        i = i + 1;
    }
    proof {
        assert(views.take(i as int) =~= views);
    }
    Ok(out)
}

} // verus!
