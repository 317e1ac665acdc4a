use vstd::prelude::*;
use vstd::string::*;
use crate::fields::{
    exact_keys, invalid_label, missing, must_be_object, names, not_list, not_nonnegative_integer,
    not_string, take_u64, u64_text, unknown_keys,
};
use crate::json::{
    first_index, keys_of, json_number_text, number_text_class, view_entries, view_items,
    view_value, JsonView, Object, Value,
};
use crate::material::{invalid_with, ScalarKind};
use crate::number::number_finite;
use crate::rounding::{
    number_rounds_at_most_one, number_rounds_nonnegative, number_rounds_positive,
    rounds_at_most_one, rounds_nonnegative, rounds_positive,
};
use crate::text::{chars_of, decimal_text, push_decimal, str_eq};
use crate::types::{mode_of_name, Error, Mode};

verus! {

/// A kernel, or a weighted input atom: weight, center and variance, each
/// kept as the number text of the document.
#[derive(Debug)]
pub struct KernelText {
    pub weight: String,
    pub center: Vec<String>,
    pub variance: String,
}

/// One saved layer.  Geometry layers carry no temporal kernels and no
/// previous kernel.
#[derive(Debug)]
pub struct LayerText {
    pub sigma: Vec<KernelText>,
    pub cells: Vec<KernelText>,
    pub temporal_sigma: Vec<KernelText>,
    pub temporal_cells: Vec<KernelText>,
    pub previous: Option<KernelText>,
}

/// A saved state whose schema has been checked.
#[derive(Debug)]
pub struct StateText {
    pub dimension: usize,
    pub scalar: ScalarKind,
    pub memory: String,
    pub eta: String,
    pub mode: Mode,
    pub steps_seen: u64,
    pub layers: Vec<LayerText>,
}

/// The mathematical content of a `KernelText`.
pub struct KernelView {
    pub weight: Seq<char>,
    pub center: Seq<Seq<char>>,
    pub variance: Seq<char>,
}

/// The mathematical content of a `LayerText`.
pub struct LayerView {
    pub sigma: Seq<KernelView>,
    pub cells: Seq<KernelView>,
    pub temporal_sigma: Seq<KernelView>,
    pub temporal_cells: Seq<KernelView>,
    pub previous: Option<KernelView>,
}

/// The mathematical content of a `StateText`.
pub struct StateView {
    pub dimension: nat,
    pub scalar: ScalarKind,
    pub memory: Seq<char>,
    pub eta: Seq<char>,
    pub mode: Mode,
    pub steps_seen: nat,
    pub layers: Seq<LayerView>,
}

pub open spec fn view_kernel(k: KernelText) -> KernelView {
    KernelView {
        weight: k.weight@,
        center: k.center@.map_values(|s: String| s@),
        variance: k.variance@,
    }
}

pub open spec fn view_kernels(ks: Seq<KernelText>) -> Seq<KernelView> {
    ks.map_values(|k: KernelText| view_kernel(k))
}

pub open spec fn view_layer(l: LayerText) -> LayerView {
    LayerView {
        sigma: view_kernels(l.sigma@),
        cells: view_kernels(l.cells@),
        temporal_sigma: view_kernels(l.temporal_sigma@),
        temporal_cells: view_kernels(l.temporal_cells@),
        previous: match l.previous {
            Some(k) => Some(view_kernel(k)),
            None => None,
        },
    }
}

pub open spec fn view_layers(ls: Seq<LayerText>) -> Seq<LayerView> {
    ls.map_values(|l: LayerText| view_layer(l))
}

pub open spec fn view_state(s: StateText) -> StateView {
    StateView {
        dimension: s.dimension as nat,
        scalar: s.scalar,
        memory: s.memory@,
        eta: s.eta@,
        mode: s.mode,
        steps_seen: s.steps_seen as nat,
        layers: view_layers(s.layers@),
    }
}

// ---------------------------------------------------------------------------
// Members of an object view.

pub type Members = Seq<(Seq<char>, JsonView)>;

/// The member names, in document order.
pub open spec fn member_keys(es: Members) -> Seq<Seq<char>> {
    es.map_values(|e: (Seq<char>, JsonView)| e.0)
}

/// The object has exactly the given names, counted with multiplicity.
pub open spec fn has_exactly(es: Members, expected: Seq<Seq<char>>) -> bool {
    member_keys(es).to_multiset() == expected.to_multiset()
}

/// The value of the first member named `key`, and the members without it.
pub open spec fn take_member(es: Members, key: Seq<char>) -> Option<(JsonView, Members)> {
    match first_index(member_keys(es), key) {
        Some(i) => Some((es[i].1, es.remove(i))),
        None => None,
    }
}

/// A finite real in a number text of the JSON grammar.
pub open spec fn real_text(v: JsonView, label: Seq<char>) -> Result<Seq<char>, Seq<char>> {
    match v {
        JsonView::Number(t) => if !json_number_text(t) {
            Err(label + " must be a real number"@)
        } else if !number_finite(t) {
            Err(label + " must be finite"@)
        } else {
            Ok(t)
        },
        _ => Err(label + " must be a real number"@),
    }
}

/// Takes out a member that must hold a finite real.
pub open spec fn take_real(es: Members, key: Seq<char>, label: Seq<char>) -> Result<
    (Seq<char>, Members),
    Seq<char>,
> {
    match take_member(es, key) {
        None => Err(missing(label)),
        Some((v, rest)) => match real_text(v, label) {
            Ok(t) => Ok((t, rest)),
            Err(m) => Err(m),
        },
    }
}

/// Takes out a member that must hold a nonnegative integer.
pub open spec fn take_count(es: Members, key: Seq<char>, label: Seq<char>) -> Result<
    (nat, Members),
    Seq<char>,
> {
    match take_member(es, key) {
        None => Err(missing(label)),
        Some((v, rest)) => match v {
            JsonView::Number(t) => if t.contains('.') || t.contains('e') || t.contains('E') || (
            t.len() > 0 && t[0] == '-') {
                Err(not_nonnegative_integer(label))
            } else {
                match u64_text(t) {
                    Some(n) => Ok((n, rest)),
                    None => Err(not_nonnegative_integer(label)),
                }
            },
            _ => Err(not_nonnegative_integer(label)),
        },
    }
}

/// Takes out a member that must hold a string.
pub open spec fn take_text(es: Members, key: Seq<char>, label: Seq<char>) -> Result<
    (Seq<char>, Members),
    Seq<char>,
> {
    match take_member(es, key) {
        None => Err(not_string(label)),
        Some((v, rest)) => match v {
            JsonView::Str(s) => Ok((s, rest)),
            _ => Err(not_string(label)),
        },
    }
}

/// Takes out a member that must hold a list.
pub open spec fn take_list(es: Members, key: Seq<char>, label: Seq<char>) -> Result<
    (Seq<JsonView>, Members),
    Seq<char>,
> {
    match take_member(es, key) {
        None => Err(not_list(label)),
        Some((v, rest)) => match v {
            JsonView::Array(items) => Ok((items, rest)),
            _ => Err(not_list(label)),
        },
    }
}

// ---------------------------------------------------------------------------
// From exec members to their views.

pub proof fn lemma_view_entries_index(s: Seq<(String, Value)>, i: int)
    requires
        0 <= i < s.len(),
    ensures
        view_entries(s).len() == s.len(),
        view_entries(s)[i] == (s[i].0@, view_value(s[i].1)),
    decreases s.len(),
{
    crate::json::lemma_view_entries_len(s);
    if i < s.len() - 1 {
        lemma_view_entries_index(s.subrange(0, s.len() - 1), i);
    }
}

pub proof fn lemma_view_items_index(s: Seq<Value>, i: int)
    requires
        0 <= i < s.len(),
    ensures
        view_items(s).len() == s.len(),
        view_items(s)[i] == view_value(s[i]),
    decreases s.len(),
{
    lemma_view_items_len(s);
    if i < s.len() - 1 {
        lemma_view_items_index(s.subrange(0, s.len() - 1), i);
    }
}

pub proof fn lemma_view_items_len(s: Seq<Value>)
    ensures
        view_items(s).len() == s.len(),
    decreases s.len(),
{
    if s.len() > 0 {
        lemma_view_items_len(s.subrange(0, s.len() - 1));
    }
}

/// The views of a suffix of items are the suffix of their views.
pub proof fn lemma_view_items_skip(s: Seq<Value>, k: int)
    requires
        0 <= k <= s.len(),
    ensures
        view_items(s.skip(k)) == view_items(s).skip(k),
        view_items(s).len() == s.len(),
{
    lemma_view_items_len(s);
    lemma_view_items_len(s.skip(k));
    assert forall|j: int| 0 <= j < s.len() - k implies #[trigger] view_items(s.skip(k))[j]
        == view_items(s)[j + k] by {
        lemma_view_items_index(s.skip(k), j);
        lemma_view_items_index(s, j + k);
    }
    assert(view_items(s.skip(k)) =~= view_items(s).skip(k));
}

/// A name that occurs has a first occurrence.
pub proof fn lemma_first_index_bounds(ks: Seq<Seq<char>>, k: Seq<char>)
    ensures
        first_index(ks, k) matches Some(i) ==> 0 <= i < ks.len() && ks[i] == k,
{
    if ks.contains(k) {
        let j = choose|j: int| 0 <= j < ks.len() && ks[j] == k;
        lemma_first_occurrence(ks, k, j);
    }
}

proof fn lemma_first_occurrence(ks: Seq<Seq<char>>, k: Seq<char>, j: int)
    requires
        0 <= j < ks.len(),
        ks[j] == k,
    ensures
        exists|i: int| 0 <= i < ks.len() && ks[i] == k && forall|t: int| 0 <= t < i ==> ks[t] != k,
    decreases j,
{
    if exists|t: int| 0 <= t < j && ks[t] == k {
        let t = choose|t: int| 0 <= t < j && ks[t] == k;
        lemma_first_occurrence(ks, k, t);
    } else {
        assert(forall|t: int| 0 <= t < j ==> ks[t] != k);
    }
}

/// Member names and member removal commute with taking views.
pub proof fn lemma_members_view(s: Seq<(String, Value)>, k: Seq<char>)
    ensures
        member_keys(view_entries(s)) == keys_of(s),
        take_member(view_entries(s), k) == match first_index(keys_of(s), k) {
            Some(i) => Some((view_value(s[i].1), view_entries(s.remove(i)))),
            None => None::<(JsonView, Members)>,
        },
{
    crate::json::lemma_view_entries_len(s);
    assert forall|j: int| 0 <= j < s.len() implies #[trigger] view_entries(s)[j] == (
    s[j].0@, view_value(s[j].1)) by {
        lemma_view_entries_index(s, j);
    }
    assert(member_keys(view_entries(s)) =~= keys_of(s));
    match first_index(keys_of(s), k) {
        Some(i) => {
            lemma_first_index_bounds(keys_of(s), k);
            {
                let r = s.remove(i);
                crate::json::lemma_view_entries_len(r);
                assert forall|j: int| 0 <= j < r.len() implies #[trigger] view_entries(r)[j]
                    == view_entries(s).remove(i)[j] by {
                    lemma_view_entries_index(r, j);
                    if j < i {
                        lemma_view_entries_index(s, j);
                    } else {
                        lemma_view_entries_index(s, j + 1);
                    }
                }
                assert(view_entries(r) =~= view_entries(s).remove(i));
            }
        },
        None => {},
    }
}

// ---------------------------------------------------------------------------
// Reading members.

/// The text of a value that must be a finite real.
pub fn expect_real(value: Value, label: &str) -> (r: Result<String, Error>)
    ensures
        match real_text(view_value(value), label@) {
            Ok(t) => r matches Ok(s) && s@ == t,
            Err(m) => r matches Err(e) && invalid_with(e, m),
        },
{
    match value {
        Value::Number(text) => match number_text_class(text.as_str()) {
            None => Err(invalid_label(label, " must be a real number")),
            Some(false) => Err(invalid_label(label, " must be finite")),
            Some(true) => Ok(text),
        },
        _ => Err(invalid_label(label, " must be a real number")),
    }
}

/// Takes out `key`, which must hold a finite real.
fn take_real_member(obj: &mut Object, key: &str, label: &str) -> (r: Result<String, Error>)
    ensures
        match take_real(view_entries(old(obj).entries@), key@, label@) {
            Ok((t, rest)) => r matches Ok(s) && s@ == t && view_entries(final(obj).entries@)
                == rest,
            Err(m) => r matches Err(e) && invalid_with(e, m),
        },
{
    proof {
        lemma_members_view(obj.entries@, key@);
        lemma_first_index_bounds(keys_of(obj.entries@), key@);
    }
    let value = match obj.remove(key) {
        Some(v) => v,
        None => {
            return Err(invalid_label("missing ", label));
        },
    };
    expect_real(value, label)
}

/// Takes out `key`, which must hold a nonnegative integer.
#[verifier::spinoff_prover]
#[verifier::rlimit(40)]
fn take_count_member(obj: &mut Object, key: &str, label: &str) -> (r: Result<u64, Error>)
    ensures
        match take_count(view_entries(old(obj).entries@), key@, label@) {
            Ok((n, rest)) => r == Ok::<u64, Error>(n as u64) && view_entries(final(obj).entries@)
                == rest,
            Err(m) => r matches Err(e) && invalid_with(e, m),
        },
{
    proof {
        lemma_members_view(obj.entries@, key@);
        lemma_first_index_bounds(keys_of(obj.entries@), key@);
    }
    take_u64(obj, key, label)
}

/// Takes out `key`, which must hold a string.
fn take_text_member(obj: &mut Object, key: &str, label: &str) -> (r: Result<String, Error>)
    ensures
        match take_text(view_entries(old(obj).entries@), key@, label@) {
            Ok((t, rest)) => r matches Ok(s) && s@ == t && view_entries(final(obj).entries@)
                == rest,
            Err(m) => r matches Err(e) && invalid_with(e, m),
        },
{
    proof {
        lemma_members_view(obj.entries@, key@);
        lemma_first_index_bounds(keys_of(obj.entries@), key@);
    }
    let value = match obj.remove(key) {
        Some(v) => v,
        None => {
            return Err(invalid_label(label, " must be a string"));
        },
    };
    match value {
        Value::String(t) => Ok(t),
        _ => Err(invalid_label(label, " must be a string")),
    }
}

/// Takes out `key`, which must hold a list.
fn take_list_member(obj: &mut Object, key: &str, label: &str) -> (r: Result<Vec<Value>, Error>)
    ensures
        match take_list(view_entries(old(obj).entries@), key@, label@) {
            Ok((items, rest)) => r matches Ok(v) && view_items(v@) == items && view_entries(
                final(obj).entries@,
            ) == rest,
            Err(m) => r matches Err(e) && invalid_with(e, m),
        },
{
    proof {
        lemma_members_view(obj.entries@, key@);
        lemma_first_index_bounds(keys_of(obj.entries@), key@);
    }
    let value = match obj.remove(key) {
        Some(v) => v,
        None => {
            return Err(invalid_label(label, " must be a list"));
        },
    };
    match value {
        Value::Array(v) => Ok(v),
        _ => Err(invalid_label(label, " must be a list")),
    }
}

// ---------------------------------------------------------------------------
// Kernels.

pub open spec fn kernel_names() -> Seq<Seq<char>> {
    seq!["W"@, "C"@, "V"@]
}

/// `label[i]`, the label of the item at index `i` of a list.
pub open spec fn indexed(label: Seq<char>, i: nat) -> Seq<char> {
    label + "["@ + decimal_text(i) + "]"@
}

/// The finite reals of a list, each labelled `label` in an error, or the
/// error of the first that is not one.
#[verifier::opaque]
pub open spec fn reals_spec(items: Seq<JsonView>, label: Seq<char>) -> Result<
    Seq<Seq<char>>,
    Seq<char>,
>
    decreases items.len(),
{
    if items.len() == 0 {
        Ok(Seq::empty())
    } else {
        match reals_spec(items.drop_last(), label) {
            Err(m) => Err(m),
            Ok(acc) => match real_text(items.last(), label) {
                Err(m) => Err(m),
                Ok(t) => Ok(acc.push(t)),
            },
        }
    }
}

/// A kernel `{W, C, V}` whose center has `d` components: the weight must
/// round to a positive binary64, the variance to one that is not below zero.
#[verifier::opaque]
pub open spec fn kernel_spec(v: JsonView, d: nat, k: Seq<char>) -> Result<KernelView, Seq<char>> {
    match v {
        JsonView::Object(es) => if !has_exactly(es, kernel_names()) {
            Err(unknown_keys(k))
        } else {
            kernel_members(es, d, k)
        },
        _ => Err(must_be_object(k)),
    }
}

#[verifier::opaque]
pub open spec fn kernel_members(es: Members, d: nat, k: Seq<char>) -> Result<KernelView, Seq<char>> {
    match take_real(es, "W"@, "W"@) {
        Err(m) => Err(m),
        Ok((w, es1)) => if !rounds_positive(w) {
            Err(k + ".W must be positive"@)
        } else {
            match take_list(es1, "C"@, "C"@) {
                Err(m) => Err(m),
                Ok((items, es2)) => if items.len() != d {
                    Err(k + ".C has wrong dimension"@)
                } else {
                    match reals_spec(items, "center component"@) {
                        Err(m) => Err(m),
                        Ok(c) => match take_real(es2, "V"@, "V"@) {
                            Err(m) => Err(m),
                            Ok((vt, _)) => if !rounds_nonnegative(vt) {
                                Err(k + ".V must be nonnegative"@)
                            } else {
                                Ok(KernelView { weight: w, center: c, variance: vt })
                            },
                        },
                    }
                },
            }
        },
    }
}

/// An error on a prefix of a list of reals is the error of the whole list.
pub proof fn lemma_reals_prefix_error(s: Seq<JsonView>, label: Seq<char>, j: int)
    requires
        0 <= j <= s.len(),
        reals_spec(s.take(j), label) is Err,
    ensures
        reals_spec(s, label) == reals_spec(s.take(j), label),
    decreases s.len() - j,
{
    reveal_with_fuel(reals_spec, 1);
    if j < s.len() {
        assert(s.take(j + 1).drop_last() =~= s.take(j));
        lemma_reals_prefix_error(s, label, j + 1);
    } else {
        assert(s.take(j) =~= s);
    }
}

/// Reads a list of finite reals, each labelled `label` in an error.
#[verifier::loop_isolation(false)]
pub fn parse_reals(items: Vec<Value>, label: &str) -> (r: Result<Vec<String>, Error>)
    ensures
        match reals_spec(view_items(items@), label@) {
            Ok(c) => r matches Ok(v) && v@.map_values(|s: String| s@) == c,
            Err(m) => r matches Err(e) && invalid_with(e, m),
        },
{
    let n = items.len();
    let ghost orig = items@;
    let ghost views = view_items(orig);
    proof {
        reveal_with_fuel(reals_spec, 1);
        lemma_view_items_len(orig);
        assert(views.take(0) =~= Seq::<JsonView>::empty());
        assert(orig.skip(0) =~= orig);
    }
    let mut rest = items;
    let mut out: Vec<String> = Vec::new();
    let mut i: usize = 0;
    assert(out@.map_values(|s: String| s@) =~= Seq::<Seq<char>>::empty());
    while rest.len() > 0
        invariant
            views == view_items(orig),
            views.len() == orig.len(),
            orig.len() == n,
            i <= orig.len(),
            rest@ == orig.skip(i as int),
            reals_spec(views.take(i as int), label@) == Ok::<Seq<Seq<char>>, Seq<char>>(
                out@.map_values(|s: String| s@),
            ),
        decreases rest@.len(),
    {
        let v = rest.remove(0);
        proof {
            reveal_with_fuel(reals_spec, 1);
            lemma_view_items_index(orig, i as int);
            assert(v == orig[i as int]);
            assert(views.take(i as int + 1).drop_last() =~= views.take(i as int));
            assert(views.take(i as int + 1).last() == view_value(v));
            assert(rest@ =~= orig.skip(i as int + 1));
        }
        let ghost gv = view_value(v);
        let t = match expect_real(v, label) {
            Ok(t) => t,
            Err(e) => {
                proof {
                    assert(real_text(gv, label@) is Err);
                    assert(reals_spec(views.take(i as int + 1), label@) == Err::<
                        Seq<Seq<char>>,
                        Seq<char>,
                    >(real_text(gv, label@)->Err_0));
                    lemma_reals_prefix_error(views, label@, i as int + 1);
                }
                return Err(e);
            },
        };
        let ghost before = out@.map_values(|s: String| s@);
        out.push(t);
        assert(out@.map_values(|s: String| s@) =~= before.push(t@));
        i = i + 1;
    }
    proof {
        assert(views.take(i as int) =~= views);
    }
    Ok(out)
}

/// Checks that an object has exactly the given names.
fn check_names(obj: &Object, expected: &[&str], label: &str) -> (r: Result<(), Error>)
    ensures
        match r {
            Ok(_) => has_exactly(view_entries(obj.entries@), names(expected@)),
            Err(e) => !has_exactly(view_entries(obj.entries@), names(expected@)) && invalid_with(
                e,
                unknown_keys(label@),
            ),
        },
{
    proof {
        lemma_members_view(obj.entries@, Seq::empty());
    }
    exact_keys(obj, expected, label)
}

/// Reads one kernel whose center has `d` components; `k` labels it.
pub fn parse_kernel(value: Value, d: u128, k: &str) -> (r: Result<KernelText, Error>)
    ensures
        match kernel_spec(view_value(value), d as nat, k@) {
            Ok(kv) => r matches Ok(kt) && view_kernel(kt) == kv,
            Err(m) => r matches Err(e) && invalid_with(e, m),
        },
{
    proof {
        reveal(kernel_spec);
    }
    let mut obj = match value {
        Value::Object(o) => o,
        _ => {
            return Err(invalid_label(k, " must be an object"));
        },
    };
    let expected: [&str; 3] = ["W", "C", "V"];
    assert(names(expected@) =~= kernel_names());
    match check_names(&obj, &expected, k) {
        Ok(_) => {},
        Err(e) => {
            return Err(e);
        },
    }
    parse_kernel_members(&mut obj, d, k)
}

/// Reads the members of a kernel whose names have been checked.
#[verifier::spinoff_prover]
#[verifier::rlimit(40)]
fn parse_kernel_members(obj: &mut Object, d: u128, k: &str) -> (r: Result<KernelText, Error>)
    ensures
        match kernel_members(view_entries(old(obj).entries@), d as nat, k@) {
            Ok(kv) => r matches Ok(kt) && view_kernel(kt) == kv,
            Err(m) => r matches Err(e) && invalid_with(e, m),
        },
{
    proof {
        reveal(kernel_members);
    }
    let w = match take_real_member(obj, "W", "W") {
        Ok(t) => t,
        Err(e) => {
            return Err(e);
        },
    };
    let wc = chars_of(w.as_str());
    if !number_rounds_positive(&wc) {
        return Err(invalid_label(k, ".W must be positive"));
    }
    let items = match take_list_member(obj, "C", "C") {
        Ok(v) => v,
        Err(e) => {
            return Err(e);
        },
    };
    proof {
        lemma_view_items_len(items@);
    }
    if items.len() as u128 != d {
        return Err(invalid_label(k, ".C has wrong dimension"));
    }
    let center = match parse_reals(items, "center component") {
        Ok(c) => c,
        Err(e) => {
            return Err(e);
        },
    };
    let v = match take_real_member(obj, "V", "V") {
        Ok(t) => t,
        Err(e) => {
            return Err(e);
        },
    };
    let vc = chars_of(v.as_str());
    if !number_rounds_nonnegative(&vc) {
        return Err(invalid_label(k, ".V must be nonnegative"));
    }
    Ok(KernelText { weight: w, center, variance: v })
}

/// The kernels of a list, or the error of the first that is not one.
#[verifier::opaque]
pub open spec fn kernel_list_spec(items: Seq<JsonView>, d: nat, label: Seq<char>) -> Result<
    Seq<KernelView>,
    Seq<char>,
>
    decreases items.len(),
{
    if items.len() == 0 {
        Ok(Seq::empty())
    } else {
        match kernel_list_spec(items.drop_last(), d, label) {
            Err(m) => Err(m),
            Ok(acc) => match kernel_spec(items.last(), d, indexed(label, (items.len() - 1) as nat)) {
                Err(m) => Err(m),
                Ok(kv) => Ok(acc.push(kv)),
            },
        }
    }
}

pub proof fn lemma_kernel_list_prefix_error(s: Seq<JsonView>, d: nat, label: Seq<char>, j: int)
    requires
        0 <= j <= s.len(),
        kernel_list_spec(s.take(j), d, label) is Err,
    ensures
        kernel_list_spec(s, d, label) == kernel_list_spec(s.take(j), d, label),
    decreases s.len() - j,
{
    reveal_with_fuel(kernel_list_spec, 1);
    if j < s.len() {
        assert(s.take(j + 1).drop_last() =~= s.take(j));
        lemma_kernel_list_prefix_error(s, d, label, j + 1);
    } else {
        assert(s.take(j) =~= s);
    }
}

/// `label[i]` as a string.
fn indexed_label(label: &str, i: usize) -> (s: String)
    ensures
        s@ == indexed(label@, i as nat),
{
    let mut s = String::from_str(label);
    s.append("[");
    push_decimal(&mut s, i as u128);
    s.append("]");
    s
}

/// `label` followed by `suffix`, as a string.
fn joined(label: &str, suffix: &str) -> (s: String)
    ensures
        s@ == label@ + suffix@,
{
    let mut s = String::from_str(label);
    s.append(suffix);
    s
}

/// Reads a list of kernels whose centers have `d` components.
#[verifier::loop_isolation(false)]
pub fn parse_kernel_list(items: Vec<Value>, d: u128, label: &str) -> (r: Result<
    Vec<KernelText>,
    Error,
>)
    ensures
        match kernel_list_spec(view_items(items@), d as nat, label@) {
            Ok(ks) => r matches Ok(v) && view_kernels(v@) == ks,
            Err(m) => r matches Err(e) && invalid_with(e, m),
        },
{
    let n = items.len();
    let ghost orig = items@;
    let ghost views = view_items(orig);
    proof {
        lemma_view_items_len(orig);
        assert(views.take(0) =~= Seq::<JsonView>::empty());
        assert(orig.skip(0) =~= orig);
    }
    proof {
        reveal_with_fuel(kernel_list_spec, 1);
    }
    let mut rest = items;
    let mut out: Vec<KernelText> = Vec::new();
    let mut i: usize = 0;
    assert(view_kernels(out@) =~= Seq::<KernelView>::empty());
    while rest.len() > 0
        invariant
            views == view_items(orig),
            views.len() == orig.len(),
            orig.len() == n,
            i <= orig.len(),
            rest@ == orig.skip(i as int),
            kernel_list_spec(views.take(i as int), d as nat, label@) == Ok::<
                Seq<KernelView>,
                Seq<char>,
            >(view_kernels(out@)),
        decreases rest@.len(),
    {
        let v = rest.remove(0);
        proof {
            reveal_with_fuel(kernel_list_spec, 1);
            lemma_view_items_index(orig, i as int);
            assert(v == orig[i as int]);
            assert(views.take(i as int + 1).drop_last() =~= views.take(i as int));
            assert(views.take(i as int + 1).last() == view_value(v));
            assert(rest@ =~= orig.skip(i as int + 1));
        }
        let ghost gv = view_value(v);
        let k = indexed_label(label, i);
        let kt = match parse_kernel(v, d, k.as_str()) {
            Ok(kt) => kt,
            Err(e) => {
                proof {
                    assert(kernel_spec(gv, d as nat, k@) is Err);
                    assert(kernel_list_spec(views.take(i as int + 1), d as nat, label@) == Err::<
                        Seq<KernelView>,
                        Seq<char>,
                    >(kernel_spec(gv, d as nat, k@)->Err_0));
                    lemma_kernel_list_prefix_error(views, d as nat, label@, i as int + 1);
                }
                return Err(e);
            },
        };
        let ghost before = view_kernels(out@);
        out.push(kt);
        assert(view_kernels(out@) =~= before.push(view_kernel(kt)));
        i = i + 1;
    }
    proof {
        assert(views.take(i as int) =~= views);
    }
    Ok(out)
}

// ---------------------------------------------------------------------------
// Layers.

pub open spec fn layer_names(mode: Mode) -> Seq<Seq<char>> {
    match mode {
        Mode::Geometry => seq!["sigma"@, "cells"@],
        Mode::Predictive => seq![
            "sigma"@,
            "cells"@,
            "temporal_sigma"@,
            "temporal_cells"@,
            "previous"@,
        ],
    }
}

/// The previous kernel of a predictive layer: `null`, or one kernel, which
/// is labelled as the only item of a list.
pub open spec fn previous_spec(v: JsonView, d: nat, layer: Seq<char>) -> Result<
    Option<KernelView>,
    Seq<char>,
> {
    match v {
        JsonView::Null => Ok(None),
        _ => match kernel_spec(v, d, indexed(layer + ".previous"@, 0)) {
            Ok(kv) => Ok(Some(kv)),
            Err(m) => Err(m),
        },
    }
}

/// The temporal members of a predictive layer, after its geometry.
pub open spec fn temporal_spec(es: Members, d: nat, layer: Seq<char>) -> Result<
    (Seq<KernelView>, Seq<KernelView>, Option<KernelView>),
    Seq<char>,
> {
    match take_list(es, "temporal_sigma"@, "temporal_sigma"@) {
        Err(m) => Err(m),
        Ok((tsi, es1)) => match kernel_list_spec(tsi, 2 * d, layer + ".temporal_sigma"@) {
            Err(m) => Err(m),
            Ok(ts) => match take_list(es1, "temporal_cells"@, "temporal_cells"@) {
                Err(m) => Err(m),
                Ok((tci, es2)) => match kernel_list_spec(tci, 2 * d, layer + ".temporal_cells"@) {
                    Err(m) => Err(m),
                    Ok(tc) => match take_member(es2, "previous"@) {
                        None => Err("missing state.layers[].previous"@),
                        Some((pv, _)) => match previous_spec(pv, d, layer) {
                            Err(m) => Err(m),
                            Ok(p) => Ok((ts, tc, p)),
                        },
                    },
                },
            },
        },
    }
}

/// One layer of a state in the given mode, with `d` dimensions.
#[verifier::opaque]
pub open spec fn layer_spec(v: JsonView, mode: Mode, d: nat, layer: Seq<char>) -> Result<
    LayerView,
    Seq<char>,
> {
    match v {
        JsonView::Object(es) => if !has_exactly(es, layer_names(mode)) {
            Err(unknown_keys(layer))
        } else {
            layer_members(es, mode, d, layer)
        },
        _ => Err(must_be_object(layer)),
    }
}

#[verifier::opaque]
pub open spec fn layer_members(es: Members, mode: Mode, d: nat, layer: Seq<char>) -> Result<
    LayerView,
    Seq<char>,
> {
    match take_list(es, "sigma"@, "sigma"@) {
        Err(m) => Err(m),
        Ok((si, es1)) => match kernel_list_spec(si, d, layer + ".sigma"@) {
            Err(m) => Err(m),
            Ok(sigma) => match take_list(es1, "cells"@, "cells"@) {
                Err(m) => Err(m),
                Ok((ci, es2)) => match kernel_list_spec(ci, d, layer + ".cells"@) {
                    Err(m) => Err(m),
                    Ok(cells) => match mode {
                        Mode::Geometry => Ok(
                            LayerView {
                                sigma,
                                cells,
                                temporal_sigma: Seq::empty(),
                                temporal_cells: Seq::empty(),
                                previous: None,
                            },
                        ),
                        Mode::Predictive => match temporal_spec(es2, d, layer) {
                            Err(m) => Err(m),
                            Ok((ts, tc, p)) => Ok(
                                LayerView {
                                    sigma,
                                    cells,
                                    temporal_sigma: ts,
                                    temporal_cells: tc,
                                    previous: p,
                                },
                            ),
                        },
                    },
                },
            },
        },
    }
}

/// Reads the temporal members of a predictive layer.
#[verifier::spinoff_prover]
#[verifier::rlimit(40)]
fn parse_temporal(obj: &mut Object, d: usize, layer: &str) -> (r: Result<
    (Vec<KernelText>, Vec<KernelText>, Option<KernelText>),
    Error,
>)
    ensures
        match temporal_spec(view_entries(old(obj).entries@), d as nat, layer@) {
            Ok((ts, tc, p)) => r matches Ok(t) && view_kernels(t.0@) == ts && view_kernels(t.1@)
                == tc && p == match t.2 {
                Some(k) => Some(view_kernel(k)),
                None => None::<KernelView>,
            },
            Err(m) => r matches Err(e) && invalid_with(e, m),
        },
{
    let d2 = (d as u128) * 2;
    let tsi = match take_list_member(obj, "temporal_sigma", "temporal_sigma") {
        Ok(v) => v,
        Err(e) => {
            return Err(e);
        },
    };
    let label = joined(layer, ".temporal_sigma");
    let ts = match parse_kernel_list(tsi, d2, label.as_str()) {
        Ok(v) => v,
        Err(e) => {
            return Err(e);
        },
    };
    let tci = match take_list_member(obj, "temporal_cells", "temporal_cells") {
        Ok(v) => v,
        Err(e) => {
            return Err(e);
        },
    };
    let label = joined(layer, ".temporal_cells");
    let tc = match parse_kernel_list(tci, d2, label.as_str()) {
        Ok(v) => v,
        Err(e) => {
            return Err(e);
        },
    };
    proof {
        lemma_members_view(obj.entries@, "previous"@);
        lemma_first_index_bounds(keys_of(obj.entries@), "previous"@);
    }
    let pv = match obj.remove("previous") {
        Some(v) => v,
        None => {
            return Err(Error::Invalid(String::from_str("missing state.layers[].previous")));
        },
    };
    let p = match parse_previous(pv, d, layer) {
        Ok(p) => p,
        Err(e) => {
            return Err(e);
        },
    };
    Ok((ts, tc, p))
}

/// Reads the previous kernel of a predictive layer.
fn parse_previous(pv: Value, d: usize, layer: &str) -> (r: Result<Option<KernelText>, Error>)
    ensures
        match previous_spec(view_value(pv), d as nat, layer@) {
            Ok(p) => r matches Ok(t) && p == match t {
                Some(k) => Some(view_kernel(k)),
                None => None::<KernelView>,
            },
            Err(m) => r matches Err(e) && invalid_with(e, m),
        },
{
    match pv {
        Value::Null => Ok(None),
        v => {
            let label = joined(layer, ".previous");
            let k = indexed_label(label.as_str(), 0);
            match parse_kernel(v, d as u128, k.as_str()) {
                Ok(kt) => Ok(Some(kt)),
                Err(e) => Err(e),
            }
        },
    }
}

/// Reads one layer of a state in the given mode, with `d` dimensions.
#[verifier::spinoff_prover]
#[verifier::rlimit(40)]
pub fn parse_layer(value: Value, mode: Mode, d: usize, layer: &str) -> (r: Result<
    LayerText,
    Error,
>)
    ensures
        match layer_spec(view_value(value), mode, d as nat, layer@) {
            Ok(lv) => r matches Ok(lt) && view_layer(lt) == lv,
            Err(m) => r matches Err(e) && invalid_with(e, m),
        },
{
    proof {
        reveal(layer_spec);
    }
    let mut obj = match value {
        Value::Object(o) => o,
        _ => {
            return Err(invalid_label(layer, " must be an object"));
        },
    };
    let checked = match mode {
        Mode::Geometry => {
            let expected: [&str; 2] = ["sigma", "cells"];
            assert(names(expected@) =~= layer_names(mode));
            check_names(&obj, &expected, layer)
        },
        Mode::Predictive => {
            let expected: [&str; 5] = [
                "sigma",
                "cells",
                "temporal_sigma",
                "temporal_cells",
                "previous",
            ];
            assert(names(expected@) =~= layer_names(mode));
            check_names(&obj, &expected, layer)
        },
    };
    match checked {
        Ok(_) => {},
        Err(e) => {
            return Err(e);
        },
    }
    parse_layer_members(&mut obj, mode, d, layer)
}

/// Reads the members of a layer whose names have been checked.
#[verifier::spinoff_prover]
#[verifier::rlimit(40)]
fn parse_layer_members(obj: &mut Object, mode: Mode, d: usize, layer: &str) -> (r: Result<
    LayerText,
    Error,
>)
    ensures
        match layer_members(view_entries(old(obj).entries@), mode, d as nat, layer@) {
            Ok(lv) => r matches Ok(lt) && view_layer(lt) == lv,
            Err(m) => r matches Err(e) && invalid_with(e, m),
        },
{
    proof {
        reveal(layer_members);
    }
    let si = match take_list_member(obj, "sigma", "sigma") {
        Ok(v) => v,
        Err(e) => {
            return Err(e);
        },
    };
    let label = joined(layer, ".sigma");
    let sigma = match parse_kernel_list(si, d as u128, label.as_str()) {
        Ok(v) => v,
        Err(e) => {
            return Err(e);
        },
    };
    let ci = match take_list_member(obj, "cells", "cells") {
        Ok(v) => v,
        Err(e) => {
            return Err(e);
        },
    };
    let label = joined(layer, ".cells");
    let cells = match parse_kernel_list(ci, d as u128, label.as_str()) {
        Ok(v) => v,
        Err(e) => {
            return Err(e);
        },
    };
    match mode {
        Mode::Geometry => {
            let lt = LayerText {
                sigma,
                cells,
                temporal_sigma: Vec::new(),
                temporal_cells: Vec::new(),
                previous: None,
            };
            assert(view_kernels(lt.temporal_sigma@) =~= Seq::<KernelView>::empty());
            assert(view_kernels(lt.temporal_cells@) =~= Seq::<KernelView>::empty());
            Ok(lt)
        },
        Mode::Predictive => {
            let (temporal_sigma, temporal_cells, previous) = match parse_temporal(obj, d, layer) {
                Ok(t) => t,
                Err(e) => {
                    return Err(e);
                },
            };
            Ok(LayerText { sigma, cells, temporal_sigma, temporal_cells, previous })
        },
    }
}

/// The layers of a state, or the error of the first that is not one.
#[verifier::opaque]
pub open spec fn layers_spec(items: Seq<JsonView>, mode: Mode, d: nat) -> Result<
    Seq<LayerView>,
    Seq<char>,
>
    decreases items.len(),
{
    if items.len() == 0 {
        Ok(Seq::empty())
    } else {
        match layers_spec(items.drop_last(), mode, d) {
            Err(m) => Err(m),
            Ok(acc) => match layer_spec(
                items.last(),
                mode,
                d,
                indexed("state.layers"@, (items.len() - 1) as nat),
            ) {
                Err(m) => Err(m),
                Ok(lv) => Ok(acc.push(lv)),
            },
        }
    }
}

pub proof fn lemma_layers_prefix_error(s: Seq<JsonView>, mode: Mode, d: nat, j: int)
    requires
        0 <= j <= s.len(),
        layers_spec(s.take(j), mode, d) is Err,
    ensures
        layers_spec(s, mode, d) == layers_spec(s.take(j), mode, d),
    decreases s.len() - j,
{
    reveal_with_fuel(layers_spec, 1);
    if j < s.len() {
        assert(s.take(j + 1).drop_last() =~= s.take(j));
        lemma_layers_prefix_error(s, mode, d, j + 1);
    } else {
        assert(s.take(j) =~= s);
    }
}

/// Reads the layers of a state.
#[verifier::loop_isolation(false)]
fn parse_layers(items: Vec<Value>, mode: Mode, d: usize) -> (r: Result<Vec<LayerText>, Error>)
    ensures
        match layers_spec(view_items(items@), mode, d as nat) {
            Ok(ls) => r matches Ok(v) && view_layers(v@) == ls,
            Err(m) => r matches Err(e) && invalid_with(e, m),
        },
{
    let n = items.len();
    let ghost orig = items@;
    let ghost views = view_items(orig);
    proof {
        reveal_with_fuel(layers_spec, 1);
        lemma_view_items_len(orig);
        assert(views.take(0) =~= Seq::<JsonView>::empty());
        assert(orig.skip(0) =~= orig);
    }
    let mut rest = items;
    let mut out: Vec<LayerText> = Vec::new();
    let mut i: usize = 0;
    assert(view_layers(out@) =~= Seq::<LayerView>::empty());
    while rest.len() > 0
        invariant
            views == view_items(orig),
            views.len() == orig.len(),
            orig.len() == n,
            i <= orig.len(),
            rest@ == orig.skip(i as int),
            layers_spec(views.take(i as int), mode, d as nat) == Ok::<Seq<LayerView>, Seq<char>>(
                view_layers(out@),
            ),
        decreases rest@.len(),
    {
        let v = rest.remove(0);
        proof {
            reveal_with_fuel(layers_spec, 1);
            lemma_view_items_index(orig, i as int);
            assert(v == orig[i as int]);
            assert(views.take(i as int + 1).drop_last() =~= views.take(i as int));
            assert(views.take(i as int + 1).last() == view_value(v));
            assert(rest@ =~= orig.skip(i as int + 1));
        }
        let ghost gv = view_value(v);
        let label = indexed_label("state.layers", i);
        let lt = match parse_layer(v, mode, d, label.as_str()) {
            Ok(lt) => lt,
            Err(e) => {
                proof {
                    assert(layer_spec(gv, mode, d as nat, label@) is Err);
                    assert(layers_spec(views.take(i as int + 1), mode, d as nat) == Err::<
                        Seq<LayerView>,
                        Seq<char>,
                    >(layer_spec(gv, mode, d as nat, label@)->Err_0));
                    lemma_layers_prefix_error(views, mode, d as nat, i as int + 1);
                }
                return Err(e);
            },
        };
        let ghost before = view_layers(out@);
        out.push(lt);
        assert(view_layers(out@) =~= before.push(view_layer(lt)));
        i = i + 1;
    }
    proof {
        assert(views.take(i as int) =~= views);
    }
    Ok(out)
}

// ---------------------------------------------------------------------------
// The state.

pub open spec fn state_names() -> Seq<Seq<char>> {
    seq![
        "format_version"@,
        "dimension"@,
        "scalar"@,
        "memory"@,
        "eta"@,
        "mode"@,
        "steps_seen"@,
        "layers"@,
    ]
}

/// The format version of saved states.
pub const FORMAT_VERSION: u64 = 5;

/// The format version that this reader accepts.
pub open spec fn format_version() -> nat {
    FORMAT_VERSION as nat
}

/// The scalar kind that a canonical name denotes.
pub open spec fn scalar_of_name(name: Seq<char>) -> Option<ScalarKind> {
    if name == "f32"@ {
        Some(ScalarKind::F32)
    } else if name == "f64"@ {
        Some(ScalarKind::F64)
    } else {
        None
    }
}

/// A saved state: its schema, its format version, a dimension that fits a
/// `usize` and is at least one, a known scalar kind, a memory that rounds
/// to a positive binary64, an eta that rounds into `[0, 1]`, a known mode,
/// a step count, and a nonempty list of layers.  Each check fails with the
/// message given here, and the first failing check decides.
#[verifier::opaque]
pub open spec fn state_spec(v: JsonView) -> Result<StateView, Seq<char>> {
    match v {
        JsonView::Object(es) => if !has_exactly(es, state_names()) {
            Err(unknown_keys("state"@))
        } else {
            state_members(es)
        },
        _ => Err(must_be_object("state"@)),
    }
}

#[verifier::opaque]
pub open spec fn state_members(es: Members) -> Result<StateView, Seq<char>> {
    match take_count(es, "format_version"@, "state.format_version"@) {
        Err(m) => Err(m),
        Ok((version, es1)) => if version != format_version() {
            Err("unsupported format_version"@)
        } else {
            match take_count(es1, "dimension"@, "state.dimension"@) {
                Err(m) => Err(m),
                Ok((dim, es2)) => if dim > usize::MAX {
                    Err("state.dimension is too large"@)
                } else if dim == 0 {
                    Err("invalid state.dimension"@)
                } else {
                    state_settings(es2, dim)
                },
            }
        },
    }
}

#[verifier::opaque]
pub open spec fn state_settings(es: Members, dim: nat) -> Result<StateView, Seq<char>> {
    match take_text(es, "scalar"@, "state.scalar"@) {
        Err(m) => Err(m),
        Ok((name, es1)) => match scalar_of_name(name) {
            None => Err("invalid state.scalar"@),
            Some(scalar) => match take_real(es1, "memory"@, "state.memory"@) {
                Err(m) => Err(m),
                Ok((memory, es2)) => if !rounds_positive(memory) {
                    Err("state.memory must be positive"@)
                } else {
                    match take_real(es2, "eta"@, "state.eta"@) {
                        Err(m) => Err(m),
                        Ok((eta, es3)) => if !(rounds_nonnegative(eta) && rounds_at_most_one(eta)) {
                            Err("state.eta must lie in [0,1]"@)
                        } else {
                            state_body(es3, dim, scalar, memory, eta)
                        },
                    }
                },
            },
        },
    }
}

#[verifier::opaque]
pub open spec fn state_body(
    es: Members,
    dim: nat,
    scalar: ScalarKind,
    memory: Seq<char>,
    eta: Seq<char>,
) -> Result<StateView, Seq<char>> {
    match take_text(es, "mode"@, "state.mode"@) {
        Err(m) => Err(m),
        Ok((name, es1)) => match mode_of_name(name) {
            None => Err("mode must be 'geometry' or 'predictive'"@),
            Some(mode) => match take_count(es1, "steps_seen"@, "state.steps_seen"@) {
                Err(m) => Err(m),
                Ok((steps, es2)) => match take_list(es2, "layers"@, "state.layers"@) {
                    Err(m) => Err(m),
                    Ok((items, _)) => if items.len() == 0 {
                        Err("state.layers must be nonempty"@)
                    } else {
                        match layers_spec(items, mode, dim) {
                            Err(m) => Err(m),
                            Ok(layers) => Ok(
                                StateView {
                                    dimension: dim,
                                    scalar,
                                    memory,
                                    eta,
                                    mode,
                                    steps_seen: steps,
                                    layers,
                                },
                            ),
                        }
                    },
                },
            },
        },
    }
}

/// Reads the mode, the step count and the layers.
#[verifier::spinoff_prover]
#[verifier::rlimit(40)]
fn parse_state_body(
    obj: &mut Object,
    dim: usize,
    scalar: ScalarKind,
    memory: String,
    eta: String,
) -> (r: Result<StateText, Error>)
    ensures
        match state_body(view_entries(old(obj).entries@), dim as nat, scalar, memory@, eta@) {
            Ok(sv) => r matches Ok(st) && view_state(st) == sv,
            Err(m) => r matches Err(e) && invalid_with(e, m),
        },
{
    proof {
        reveal(state_body);
    }
    let name = match take_text_member(obj, "mode", "state.mode") {
        Ok(t) => t,
        Err(e) => {
            return Err(e);
        },
    };
    let mode = match Mode::parse(name.as_str()) {
        Ok(m) => m,
        Err(e) => {
            return Err(e);
        },
    };
    let steps_seen = match take_count_member(obj, "steps_seen", "state.steps_seen") {
        Ok(n) => n,
        Err(e) => {
            return Err(e);
        },
    };
    let items = match take_list_member(obj, "layers", "state.layers") {
        Ok(v) => v,
        Err(e) => {
            return Err(e);
        },
    };
    proof {
        lemma_view_items_len(items@);
    }
    if items.len() == 0 {
        return Err(Error::Invalid(String::from_str("state.layers must be nonempty")));
    }
    let layers = match parse_layers(items, mode, dim) {
        Ok(v) => v,
        Err(e) => {
            return Err(e);
        },
    };
    Ok(StateText { dimension: dim, scalar, memory, eta, mode, steps_seen, layers })
}

/// Reads the scalar kind, the memory and eta, then the rest.
#[verifier::spinoff_prover]
#[verifier::rlimit(40)]
fn parse_state_settings(obj: &mut Object, dim: usize) -> (r: Result<StateText, Error>)
    ensures
        match state_settings(view_entries(old(obj).entries@), dim as nat) {
            Ok(sv) => r matches Ok(st) && view_state(st) == sv,
            Err(m) => r matches Err(e) && invalid_with(e, m),
        },
{
    proof {
        reveal(state_settings);
    }
    let name = match take_text_member(obj, "scalar", "state.scalar") {
        Ok(t) => t,
        Err(e) => {
            return Err(e);
        },
    };
    proof {
        reveal_strlit("f32");
        reveal_strlit("f64");
    }
    let scalar = if str_eq(name.as_str(), "f32") {
        ScalarKind::F32
    } else if str_eq(name.as_str(), "f64") {
        ScalarKind::F64
    } else {
        return Err(Error::Invalid(String::from_str("invalid state.scalar")));
    };
    let memory = match take_real_member(obj, "memory", "state.memory") {
        Ok(t) => t,
        Err(e) => {
            return Err(e);
        },
    };
    let mc = chars_of(memory.as_str());
    if !number_rounds_positive(&mc) {
        return Err(Error::Invalid(String::from_str("state.memory must be positive")));
    }
    let eta = match take_real_member(obj, "eta", "state.eta") {
        Ok(t) => t,
        Err(e) => {
            return Err(e);
        },
    };
    let ec = chars_of(eta.as_str());
    if !(number_rounds_nonnegative(&ec) && number_rounds_at_most_one(&ec)) {
        return Err(Error::Invalid(String::from_str("state.eta must lie in [0,1]")));
    }
    parse_state_body(obj, dim, scalar, memory, eta)
}

/// Checks the schema of a saved state and reads it.  Every real stays the
/// number text of the document; whether it is finite, positive, within
/// `[0, 1]` or not below zero is decided exactly on the binary64 that the
/// text rounds to.  A number whose text is not of the JSON grammar counts as
/// no real number.
#[verifier::spinoff_prover]
pub fn parse_state(value: Value) -> (r: Result<StateText, Error>)
    ensures
        match state_spec(view_value(value)) {
            Ok(sv) => r matches Ok(st) && view_state(st) == sv,
            Err(m) => r matches Err(e) && invalid_with(e, m),
        },
{
    proof {
        reveal(state_spec);
    }
    let mut obj = match value {
        Value::Object(o) => o,
        _ => {
            return Err(invalid_label("state", " must be an object"));
        },
    };
    let expected: [&str; 8] = [
        "format_version",
        "dimension",
        "scalar",
        "memory",
        "eta",
        "mode",
        "steps_seen",
        "layers",
    ];
    assert(names(expected@) =~= state_names());
    match check_names(&obj, &expected, "state") {
        Ok(_) => {},
        Err(e) => {
            return Err(e);
        },
    }
    parse_state_members(&mut obj)
}

/// Reads the format version and the dimension, then the rest.
#[verifier::spinoff_prover]
#[verifier::rlimit(40)]
fn parse_state_members(obj: &mut Object) -> (r: Result<StateText, Error>)
    ensures
        match state_members(view_entries(old(obj).entries@)) {
            Ok(sv) => r matches Ok(st) && view_state(st) == sv,
            Err(m) => r matches Err(e) && invalid_with(e, m),
        },
{
    proof {
        reveal(state_members);
    }
    let version = match take_count_member(obj, "format_version", "state.format_version") {
        Ok(n) => n,
        Err(e) => {
            return Err(e);
        },
    };
    if version != FORMAT_VERSION {
        return Err(Error::Invalid(String::from_str("unsupported format_version")));
    }
    let dim = match take_count_member(obj, "dimension", "state.dimension") {
        Ok(n) => n,
        Err(e) => {
            return Err(e);
        },
    };
    if dim as u128 > usize::MAX as u128 {
        return Err(Error::Invalid(String::from_str("state.dimension is too large")));
    }
    if dim == 0 {
        return Err(Error::Invalid(String::from_str("invalid state.dimension")));
    }
    parse_state_settings(obj, dim as usize)
}

} // verus!
