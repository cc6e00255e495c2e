//! Executable JSON values: the tagged union `JsonDtype`, its numeric payload
//! `Num`, and the object container `Json`, a map from values to values kept
//! as a vector of entries with pairwise non-equivalent keys.

use vstd::prelude::*;

use crate::model::DecModel;
use crate::model::JVal;
use crate::model::entry_matched;
use crate::model::covers;
use crate::model::jeq;
use crate::model::jval_wf;
use crate::model::key_idx;
use crate::model::lookup;
use crate::model::merge;
use crate::model::remove_key;
use crate::model::upsert;
use crate::model::lemma_key_idx_from_props;
use crate::model::lemma_remove_key_wf;
use crate::model::lemma_upsert_wf;

verus! {

/// A decimal number held exactly: `(-1)^neg * digits * 10^exp`, with the
/// significand in canonical form (no leading or trailing `'0'`; zero is the
/// empty significand with exponent 0 and an optional sign).
#[derive(Debug)]
pub struct Dec {
    pub neg: bool,
    pub digits: Vec<char>,
    pub exp: i128,
}

/// A JSON number: a 128-bit signed integer, or an exact decimal.
#[derive(Debug)]
pub enum Num {
    Integer(i128),
    Float(Dec),
}

/// A JSON value.
#[derive(Debug)]
pub enum JsonDtype {
    String(String),
    Number(Num),
    Object(Json),
    Array(Vec<JsonDtype>),
    Boolean(bool),
    Null,
}

/// A JSON object: a mapping from values to values. Iteration order is the
/// insertion order, but equality and the contracts treat it as unordered.
#[derive(Debug)]
pub struct Json {
    pub entries: Vec<(JsonDtype, JsonDtype)>,
}

pub open spec fn dec_view(d: Dec) -> DecModel {
    DecModel { neg: d.neg, digits: d.digits@, exp: d.exp as int }
}

impl View for Dec {
    type V = DecModel;

    open spec fn view(&self) -> DecModel {
        dec_view(*self)
    }
}

pub open spec fn view_value(v: JsonDtype) -> JVal
    decreases v,
{
    match v {
        JsonDtype::String(s) => JVal::Str(s@),
        JsonDtype::Number(Num::Integer(i)) => JVal::Int(i as int),
        JsonDtype::Number(Num::Float(d)) => JVal::Dec(dec_view(d)),
        JsonDtype::Object(o) => JVal::Obj(view_entries(o.entries@)),
        JsonDtype::Array(a) => JVal::Arr(view_items(a@)),
        JsonDtype::Boolean(b) => JVal::Bool(b),
        JsonDtype::Null => JVal::Null,
    }
}

pub open spec fn view_items(vs: Seq<JsonDtype>) -> Seq<JVal>
    decreases vs,
{
    if vs.len() == 0 {
        Seq::empty()
    } else {
        seq![view_value(vs[0])] + view_items(vs.subrange(1, vs.len() as int))
    }
}

pub open spec fn view_entries(es: Seq<(JsonDtype, JsonDtype)>) -> Seq<(JVal, JVal)>
    decreases es,
{
    if es.len() == 0 {
        Seq::empty()
    } else {
        seq![(view_value(es[0].0), view_value(es[0].1))] + view_entries(
            es.subrange(1, es.len() as int),
        )
    }
}

impl View for JsonDtype {
    type V = JVal;

    open spec fn view(&self) -> JVal {
        view_value(*self)
    }
}

impl View for Json {
    type V = Seq<(JVal, JVal)>;

    open spec fn view(&self) -> Seq<(JVal, JVal)> {
        view_entries(self.entries@)
    }
}

/// Structural size of a value, the recursion measure of the executable walks.
pub open spec fn jsize(v: JsonDtype) -> nat
    decreases v,
{
    match v {
        JsonDtype::Object(o) => 1 + jsize_entries(o.entries@),
        JsonDtype::Array(a) => 1 + jsize_items(a@),
        _ => 1,
    }
}

pub open spec fn jsize_items(vs: Seq<JsonDtype>) -> nat
    decreases vs,
{
    if vs.len() == 0 {
        0
    } else {
        jsize(vs[0]) + jsize_items(vs.subrange(1, vs.len() as int))
    }
}

pub open spec fn jsize_entries(es: Seq<(JsonDtype, JsonDtype)>) -> nat
    decreases es,
{
    if es.len() == 0 {
        0
    } else {
        jsize(es[0].0) + jsize(es[0].1) + jsize_entries(es.subrange(1, es.len() as int))
    }
}

pub proof fn lemma_jsize_pos(v: JsonDtype)
    ensures
        jsize(v) >= 1,
{
    match v {
        JsonDtype::Object(o) => {},
        JsonDtype::Array(a) => {},
        _ => {},
    }
}

pub proof fn lemma_jsize_items_elem(vs: Seq<JsonDtype>, i: int)
    requires
        0 <= i < vs.len(),
    ensures
        jsize(vs[i]) <= jsize_items(vs),
    decreases vs.len(),
{
    if i > 0 {
        lemma_jsize_items_elem(vs.subrange(1, vs.len() as int), i - 1);
        assert(vs.subrange(1, vs.len() as int)[i - 1] == vs[i]);
    }
}

pub proof fn lemma_jsize_entries_elem(es: Seq<(JsonDtype, JsonDtype)>, i: int)
    requires
        0 <= i < es.len(),
    ensures
        jsize(es[i].0) + jsize(es[i].1) <= jsize_entries(es),
    decreases es.len(),
{
    if i > 0 {
        lemma_jsize_entries_elem(es.subrange(1, es.len() as int), i - 1);
        assert(es.subrange(1, es.len() as int)[i - 1] == es[i]);
    }
}

/// Pointwise description of `view_items`.
pub proof fn lemma_view_items_props(vs: Seq<JsonDtype>)
    ensures
        view_items(vs).len() == vs.len(),
        forall|i: int|
            #![trigger view_items(vs)[i]]
            #![trigger vs[i]]
            0 <= i < vs.len() ==> view_items(vs)[i] == view_value(vs[i]),
    decreases vs.len(),
{
    if vs.len() > 0 {
        lemma_view_items_props(vs.subrange(1, vs.len() as int));
        assert(forall|i: int|
            1 <= i < vs.len() ==> vs.subrange(1, vs.len() as int)[i - 1] == #[trigger] vs[i]);
    }
}

/// Pointwise description of `view_entries`.
pub proof fn lemma_view_entries_props(es: Seq<(JsonDtype, JsonDtype)>)
    ensures
        view_entries(es).len() == es.len(),
        forall|i: int|
            #![trigger view_entries(es)[i]]
            #![trigger es[i]]
            0 <= i < es.len() ==> view_entries(es)[i] == (
            view_value(es[i].0),
            view_value(es[i].1),
            ),
    decreases es.len(),
{
    if es.len() > 0 {
        lemma_view_entries_props(es.subrange(1, es.len() as int));
        assert(forall|i: int|
            1 <= i < es.len() ==> es.subrange(1, es.len() as int)[i - 1] == #[trigger] es[i]);
    }
}

/// Decides equivalence of two values (`jeq` on the views).
pub fn value_eq(a: &JsonDtype, b: &JsonDtype) -> (r: bool)
    ensures
        r == jeq(a@, b@),
    decreases jsize(*a) + jsize(*b), 1int,
{
    match (a, b) {
        (JsonDtype::String(x), JsonDtype::String(y)) => {
            let r = *x == *y;
            proof {
                assert(a@ == JVal::Str(x@) && b@ == JVal::Str(y@));
                assert(jeq(a@, b@) == (x@ == y@));
            }
            return r;
        },
        (JsonDtype::Number(Num::Integer(x)), JsonDtype::Number(Num::Integer(y))) => {
            let r = x == y;
            proof {
                assert(a@ == JVal::Int(*x as int) && b@ == JVal::Int(*y as int));
                assert(jeq(a@, b@) == (*x as int == *y as int));
            }
            return r;
        },
        (JsonDtype::Number(Num::Float(x)), JsonDtype::Number(Num::Float(y))) => {
            let r = dec_eq(x, y);
            proof {
                assert(a@ == JVal::Dec(x@) && b@ == JVal::Dec(y@));
                assert(jeq(a@, b@) == (x@ == y@));
            }
            return r;
        },
        (JsonDtype::Boolean(x), JsonDtype::Boolean(y)) => {
            let r = x == y;
            proof {
                assert(a@ == JVal::Bool(*x) && b@ == JVal::Bool(*y));
                assert(jeq(a@, b@) == (*x == *y));
            }
            return r;
        },
        (JsonDtype::Null, JsonDtype::Null) => {
            proof {
                assert(a@ == JVal::Null && b@ == JVal::Null);
                assert(jeq(a@, b@));
            }
            return true;
        },
        (JsonDtype::Array(x), JsonDtype::Array(y)) => {
            if x.len() != y.len() {
                proof {
                    lemma_view_items_props(x@);
                    lemma_view_items_props(y@);
                }
                return false;
            }
            let ghost xs = view_items(x@);
            let ghost ys = view_items(y@);
            proof {
                lemma_view_items_props(x@);
                lemma_view_items_props(y@);
            }
            let mut i: usize = 0;
            while i < x.len()
                invariant
                    i <= x.len(),
                    x.len() == y.len(),
                    *a == JsonDtype::Array(*x),
                    *b == JsonDtype::Array(*y),
                    xs == view_items(x@),
                    ys == view_items(y@),
                    xs.len() == x@.len() && ys.len() == y@.len(),
                    forall|t: int| 0 <= t < x@.len() ==> xs[t] == view_value(#[trigger] x@[t]),
                    forall|t: int| 0 <= t < y@.len() ==> ys[t] == view_value(#[trigger] y@[t]),
                    forall|t: int| 0 <= t < i ==> jeq(#[trigger] xs[t], ys[t]),
                decreases x.len() - i,
            {
                proof {
                    lemma_jsize_items_elem(x@, i as int);
                    lemma_jsize_items_elem(y@, i as int);
                }
                if !value_eq(&x[i], &y[i]) {
                    assert(!jeq(xs[i as int], ys[i as int]));
                    return false;
                }
                i = i + 1;
            }
            return true;
        },
        (JsonDtype::Object(x), JsonDtype::Object(y)) => {
            let ghost p = view_entries(x.entries@);
            let ghost q = view_entries(y.entries@);
            proof {
                lemma_view_entries_props(x.entries@);
                lemma_view_entries_props(y.entries@);
            }
            let (fwd, fwd_wit) = entries_included(&x.entries, &y.entries);
            if !fwd {
                proof {
                    let i0 = fwd_wit@;
                    assert(a@ == JVal::Obj(p));
                    assert(b@ == JVal::Obj(q));
                    assert(a@->Obj_0 == p);
                    assert(b@->Obj_0 == q);
                    assert(!entry_matched(p[i0], q));
                    assert(!jeq(a@, b@)) by {
                        if jeq(a@, b@) {
                            assert(entry_matched(p[i0], q));
                        }
                    }
                }
                return false;
            }
            let (bwd, bwd_wit) = entries_covering(&x.entries, &y.entries);
            if !bwd {
                proof {
                    let j0 = bwd_wit@;
                    assert(a@ == JVal::Obj(p));
                    assert(b@ == JVal::Obj(q));
                    assert(a@->Obj_0 == p);
                    assert(b@->Obj_0 == q);
                    assert(!covers(p, q[j0]));
                    assert(!jeq(a@, b@)) by {
                        if jeq(a@, b@) {
                            assert(covers(p, q[j0]));
                        }
                    }
                }
                return false;
            }
            proof {
                assert(a@ == JVal::Obj(p));
                assert(b@ == JVal::Obj(q));
                assert(a@->Obj_0 == p);
                assert(b@->Obj_0 == q);
                assert(forall|i: int| 0 <= i < p.len() ==> entry_matched(#[trigger] p[i], q));
                assert(forall|j: int| 0 <= j < q.len() ==> covers(p, #[trigger] q[j]));
                assert(jeq(a@, b@));
            }
            return true;
        },
        _ => {
            proof {
                match a {
                    JsonDtype::String(s) => assert(a@ is Str),
                    JsonDtype::Number(Num::Integer(i)) => assert(a@ is Int),
                    JsonDtype::Number(Num::Float(d)) => assert(a@ is Dec),
                    JsonDtype::Object(o) => assert(a@ is Obj),
                    JsonDtype::Array(v) => assert(a@ is Arr),
                    JsonDtype::Boolean(t) => assert(a@ is Bool),
                    JsonDtype::Null => assert(a@ is Null),
                }
                match b {
                    JsonDtype::String(s) => assert(b@ is Str),
                    JsonDtype::Number(Num::Integer(i)) => assert(b@ is Int),
                    JsonDtype::Number(Num::Float(d)) => assert(b@ is Dec),
                    JsonDtype::Object(o) => assert(b@ is Obj),
                    JsonDtype::Array(v) => assert(b@ is Arr),
                    JsonDtype::Boolean(t) => assert(b@ is Bool),
                    JsonDtype::Null => assert(b@ is Null),
                }
                assert(!jeq(a@, b@));
            }
            return false;
        },
    }
}

/// Decides equality of two decimal payloads.
fn dec_eq(x: &Dec, y: &Dec) -> (r: bool)
    ensures
        r == (x@ == y@),
{
    if x.neg != y.neg || x.exp != y.exp || x.digits.len() != y.digits.len() {
        return false;
    }
    let mut i: usize = 0;
    while i < x.digits.len()
        invariant
            i <= x.digits.len(),
            x.digits.len() == y.digits.len(),
            forall|t: int| 0 <= t < i ==> x.digits@[t] == y.digits@[t],
        decreases x.digits.len() - i,
    {
        if x.digits[i] != y.digits[i] {
            assert(x.digits@[i as int] != y.digits@[i as int]);
            assert(!(x.digits@ =~= y.digits@));
            return false;
        }
        i = i + 1;
    }
    proof {
        assert(x.digits@ =~= y.digits@);
    }
    true
}

/// Every entry of `xs` has an equivalent entry in `ys`; on failure the ghost
/// result is a counterexample index.
fn entries_included(xs: &Vec<(JsonDtype, JsonDtype)>, ys: &Vec<(JsonDtype, JsonDtype)>) -> (r: (
    bool,
    Ghost<int>,
))
    ensures
        r.0 ==> forall|i: int|
            0 <= i < view_entries(xs@).len() ==> entry_matched(
                #[trigger] view_entries(xs@)[i],
                view_entries(ys@),
            ),
        !r.0 ==> 0 <= r.1@ < view_entries(xs@).len() && !entry_matched(
            view_entries(xs@)[r.1@],
            view_entries(ys@),
        ),
    decreases jsize_entries(xs@) + jsize_entries(ys@), 0int,
{
    let ghost p = view_entries(xs@);
    let ghost q = view_entries(ys@);
    proof {
        lemma_view_entries_props(xs@);
        lemma_view_entries_props(ys@);
    }
    let mut i: usize = 0;
    while i < xs.len()
        invariant
            i <= xs.len(),
            p == view_entries(xs@),
            q == view_entries(ys@),
            p.len() == xs@.len() && q.len() == ys@.len(),
            forall|t: int|
                0 <= t < xs@.len() ==> p[t] == (
                view_value((#[trigger] xs@[t]).0),
                view_value(xs@[t].1),
                ),
            forall|t: int|
                0 <= t < ys@.len() ==> q[t] == (
                view_value((#[trigger] ys@[t]).0),
                view_value(ys@[t].1),
                ),
            forall|t: int| 0 <= t < i ==> entry_matched(#[trigger] p[t], q),
        decreases xs.len() - i,
    {
        let mut j: usize = 0;
        let mut found = false;
        while j < ys.len() && !found
            invariant
                j <= ys.len(),
                i < xs.len(),
                p == view_entries(xs@),
                q == view_entries(ys@),
                p.len() == xs@.len() && q.len() == ys@.len(),
                forall|t: int|
                    0 <= t < xs@.len() ==> p[t] == (
                    view_value((#[trigger] xs@[t]).0),
                    view_value(xs@[t].1),
                    ),
                forall|t: int|
                    0 <= t < ys@.len() ==> q[t] == (
                    view_value((#[trigger] ys@[t]).0),
                    view_value(ys@[t].1),
                    ),
                found ==> entry_matched(p[i as int], q),
                !found ==> forall|t: int|
                    0 <= t < j ==> !(jeq(p[i as int].0, (#[trigger] q[t]).0) && jeq(
                        p[i as int].1,
                        q[t].1,
                    )),
            decreases ys.len() - j, (if found { 0int } else { 1int }),
        {
            proof {
                lemma_jsize_entries_elem(xs@, i as int);
                lemma_jsize_entries_elem(ys@, j as int);
                lemma_jsize_pos(xs@[i as int].0);
                lemma_jsize_pos(xs@[i as int].1);
                lemma_jsize_pos(ys@[j as int].0);
                lemma_jsize_pos(ys@[j as int].1);
            }
            if value_eq(&xs[i].0, &ys[j].0) && value_eq(&xs[i].1, &ys[j].1) {
                found = true;
                assert(jeq(p[i as int].0, q[j as int].0) && jeq(p[i as int].1, q[j as int].1));
            } else {
                j = j + 1;
            }
        }
        if !found {
            assert(forall|t: int|
                0 <= t < q.len() ==> !(jeq(p[i as int].0, (#[trigger] q[t]).0) && jeq(
                    p[i as int].1,
                    q[t].1,
                )));
            assert(!entry_matched(p[i as int], q));
            return (false, Ghost(i as int));
        }
        i = i + 1;
    }
    (true, Ghost(0))
}

/// Every entry of `ys` is covered by an equivalent entry of `xs`; on failure
/// the ghost result is a counterexample index.
fn entries_covering(xs: &Vec<(JsonDtype, JsonDtype)>, ys: &Vec<(JsonDtype, JsonDtype)>) -> (r: (
    bool,
    Ghost<int>,
))
    ensures
        r.0 ==> forall|j: int|
            0 <= j < view_entries(ys@).len() ==> covers(
                view_entries(xs@),
                #[trigger] view_entries(ys@)[j],
            ),
        !r.0 ==> 0 <= r.1@ < view_entries(ys@).len() && !covers(
            view_entries(xs@),
            view_entries(ys@)[r.1@],
        ),
    decreases jsize_entries(xs@) + jsize_entries(ys@), 0int,
{
    let ghost p = view_entries(xs@);
    let ghost q = view_entries(ys@);
    proof {
        lemma_view_entries_props(xs@);
        lemma_view_entries_props(ys@);
    }
    let mut j: usize = 0;
    while j < ys.len()
        invariant
            j <= ys.len(),
            p == view_entries(xs@),
            q == view_entries(ys@),
            p.len() == xs@.len() && q.len() == ys@.len(),
            forall|t: int|
                0 <= t < xs@.len() ==> p[t] == (
                view_value((#[trigger] xs@[t]).0),
                view_value(xs@[t].1),
                ),
            forall|t: int|
                0 <= t < ys@.len() ==> q[t] == (
                view_value((#[trigger] ys@[t]).0),
                view_value(ys@[t].1),
                ),
            forall|t: int| 0 <= t < j ==> covers(p, #[trigger] q[t]),
        decreases ys.len() - j,
    {
        let mut i: usize = 0;
        let mut found = false;
        while i < xs.len() && !found
            invariant
                i <= xs.len(),
                j < ys.len(),
                p == view_entries(xs@),
                q == view_entries(ys@),
                p.len() == xs@.len() && q.len() == ys@.len(),
                forall|t: int|
                    0 <= t < xs@.len() ==> p[t] == (
                    view_value((#[trigger] xs@[t]).0),
                    view_value(xs@[t].1),
                    ),
                forall|t: int|
                    0 <= t < ys@.len() ==> q[t] == (
                    view_value((#[trigger] ys@[t]).0),
                    view_value(ys@[t].1),
                    ),
                found ==> covers(p, q[j as int]),
                !found ==> forall|t: int|
                    0 <= t < i ==> !(jeq((#[trigger] p[t]).0, q[j as int].0) && jeq(
                        p[t].1,
                        q[j as int].1,
                    )),
            decreases xs.len() - i, (if found { 0int } else { 1int }),
        {
            proof {
                lemma_jsize_entries_elem(xs@, i as int);
                lemma_jsize_entries_elem(ys@, j as int);
                lemma_jsize_pos(xs@[i as int].0);
                lemma_jsize_pos(xs@[i as int].1);
                lemma_jsize_pos(ys@[j as int].0);
                lemma_jsize_pos(ys@[j as int].1);
            }
            if value_eq(&xs[i].0, &ys[j].0) && value_eq(&xs[i].1, &ys[j].1) {
                found = true;
                assert(jeq(p[i as int].0, q[j as int].0) && jeq(p[i as int].1, q[j as int].1));
            } else {
                i = i + 1;
            }
        }
        if !found {
            assert(!covers(p, q[j as int]));
            return (false, Ghost(j as int));
        }
        j = j + 1;
    }
    (true, Ghost(0))
}

/// Index of the first entry of `es` whose key is equivalent to `key`.
fn find_key(es: &Vec<(JsonDtype, JsonDtype)>, key: &JsonDtype) -> (r: Option<usize>)
    ensures
        match r {
            Some(u) => u < es@.len() && key_idx(view_entries(es@), key@) == u,
            None => key_idx(view_entries(es@), key@) == -1,
        },
{
    let ghost p = view_entries(es@);
    proof {
        lemma_view_entries_props(es@);
        lemma_key_idx_from_props(p, key@, 0);
    }
    let mut i: usize = 0;
    while i < es.len()
        invariant
            i <= es.len(),
            p == view_entries(es@),
            p.len() == es@.len(),
            forall|t: int|
                0 <= t < es@.len() ==> p[t] == (
                view_value((#[trigger] es@[t]).0),
                view_value(es@[t].1),
                ),
            forall|t: int| 0 <= t < i ==> !jeq(key@, (#[trigger] p[t]).0),
        decreases es.len() - i,
    {
        if value_eq(key, &es[i].0) {
            proof {
                lemma_key_idx_from_props(p, key@, 0);
                assert(jeq(key@, p[i as int].0));
            }
            return Some(i);
        }
        i = i + 1;
    }
    proof {
        lemma_key_idx_from_props(p, key@, 0);
        if key_idx(p, key@) >= 0 {
            assert(jeq(key@, p[key_idx(p, key@)].0));
            assert(false);
        }
    }
    None
}

/// Copies a value; the copy has the same view.
pub fn deep_clone(v: &JsonDtype) -> (r: JsonDtype)
    ensures
        r@ == v@,
    decreases jsize(*v),
{
    match v {
        JsonDtype::String(s) => JsonDtype::String(s.clone()),
        JsonDtype::Number(Num::Integer(i)) => JsonDtype::Number(Num::Integer(*i)),
        JsonDtype::Number(Num::Float(d)) => {
            let mut digits: Vec<char> = Vec::new();
            let mut t: usize = 0;
            while t < d.digits.len()
                invariant
                    t <= d.digits.len(),
                    digits@ == d.digits@.subrange(0, t as int),
                decreases d.digits.len() - t,
            {
                digits.push(d.digits[t]);
                proof {
                    assert(digits@ =~= d.digits@.subrange(0, t + 1));
                }
                t = t + 1;
            }
            proof {
                assert(digits@ =~= d.digits@);
            }
            JsonDtype::Number(Num::Float(Dec { neg: d.neg, digits, exp: d.exp }))
        },
        JsonDtype::Boolean(b) => JsonDtype::Boolean(*b),
        JsonDtype::Null => JsonDtype::Null,
        JsonDtype::Array(a) => {
            let ghost xs = view_items(a@);
            proof {
                lemma_view_items_props(a@);
            }
            let mut items: Vec<JsonDtype> = Vec::new();
            let mut t: usize = 0;
            while t < a.len()
                invariant
                    t <= a.len(),
                    *v == JsonDtype::Array(*a),
                    xs == view_items(a@),
                    xs.len() == a@.len(),
                    forall|u: int| 0 <= u < a@.len() ==> xs[u] == view_value(#[trigger] a@[u]),
                    items@.len() == t,
                    forall|u: int|
                        0 <= u < t ==> view_value(#[trigger] items@[u]) == view_value(a@[u]),
                decreases a.len() - t,
            {
                proof {
                    lemma_jsize_items_elem(a@, t as int);
                }
                let c = deep_clone(&a[t]);
                items.push(c);
                t = t + 1;
            }
            proof {
                lemma_view_items_props(items@);
                assert(view_items(items@) =~= view_items(a@));
            }
            JsonDtype::Array(items)
        },
        JsonDtype::Object(o) => {
            let ghost ps = view_entries(o.entries@);
            proof {
                lemma_view_entries_props(o.entries@);
            }
            let mut entries: Vec<(JsonDtype, JsonDtype)> = Vec::new();
            let mut t: usize = 0;
            while t < o.entries.len()
                invariant
                    t <= o.entries.len(),
                    *v == JsonDtype::Object(*o),
                    ps == view_entries(o.entries@),
                    ps.len() == o.entries@.len(),
                    forall|u: int|
                        0 <= u < o.entries@.len() ==> ps[u] == (
                        view_value((#[trigger] o.entries@[u]).0),
                        view_value(o.entries@[u].1),
                        ),
                    entries@.len() == t,
                    forall|u: int|
                        0 <= u < t ==> view_value((#[trigger] entries@[u]).0) == view_value(
                            o.entries@[u].0,
                        ) && view_value(entries@[u].1) == view_value(o.entries@[u].1),
                decreases o.entries.len() - t,
            {
                proof {
                    lemma_jsize_entries_elem(o.entries@, t as int);
                    lemma_jsize_pos(o.entries@[t as int].0);
                    lemma_jsize_pos(o.entries@[t as int].1);
                }
                let ck = deep_clone(&o.entries[t].0);
                let cv = deep_clone(&o.entries[t].1);
                entries.push((ck, cv));
                t = t + 1;
            }
            proof {
                lemma_view_entries_props(entries@);
                assert(view_entries(entries@) =~= view_entries(o.entries@));
            }
            JsonDtype::Object(Json { entries })
        },
    }
}

impl Json {
    /// Well-formed object: canonical numbers throughout and no two
    /// equivalent keys in any object.
    pub open spec fn wf(self) -> bool {
        jval_wf(JVal::Obj(self@))
    }

    /// Creates an empty object.
    pub fn new() -> (r: Json)
        ensures
            r@ == Seq::<(JVal, JVal)>::empty(),
            r.wf(),
    {
        let r = Json { entries: Vec::new() };
        proof {
            assert(view_entries(r.entries@) =~= Seq::<(JVal, JVal)>::empty());
        }
        r
    }

    /// Number of entries.
    pub fn len(&self) -> (r: usize)
        ensures
            r == self@.len(),
    {
        proof {
            lemma_view_entries_props(self.entries@);
        }
        self.entries.len()
    }

    /// True iff the object has no entry.
    pub fn is_empty(&self) -> (r: bool)
        ensures
            r == (self@.len() == 0),
    {
        proof {
            lemma_view_entries_props(self.entries@);
        }
        self.entries.len() == 0
    }

    /// Removes every entry.
    pub fn clear(&mut self)
        ensures
            final(self)@ == Seq::<(JVal, JVal)>::empty(),
            final(self).wf(),
    {
        self.entries.clear();
        proof {
            assert(view_entries(self.entries@) =~= Seq::<(JVal, JVal)>::empty());
        }
    }

    /// Borrow of the value stored under the first key equivalent to `key`.
    pub fn get(&self, key: &JsonDtype) -> (r: Option<&JsonDtype>)
        ensures
            match r {
                Some(v) => key_idx(self@, key@) >= 0 && v@ == self@[key_idx(self@, key@)].1
                    && lookup(self@, key@) == Some(v@),
                None => key_idx(self@, key@) == -1 && lookup(self@, key@) is None,
            },
    {
        proof {
            lemma_view_entries_props(self.entries@);
        }
        match find_key(&self.entries, key) {
            Some(i) => Some(&self.entries[i].1),
            None => None,
        }
    }

    /// True iff a key equivalent to `key` is present.
    pub fn contains_key(&self, key: &JsonDtype) -> (r: bool)
        ensures
            r == (key_idx(self@, key@) >= 0),
    {
        match find_key(&self.entries, key) {
            Some(_) => true,
            None => false,
        }
    }

    /// Inserts or overwrites: an existing entry with an equivalent key keeps
    /// its stored key and takes the new value; otherwise the pair is appended.
    pub fn insert(&mut self, key: JsonDtype, value: JsonDtype)
        requires
            old(self).wf(),
            jval_wf(key@),
            jval_wf(value@),
        ensures
            final(self)@ == upsert(old(self)@, key@, value@),
            final(self).wf(),
    {
        proof {
            lemma_view_entries_props(self.entries@);
            lemma_upsert_wf(self@, key@, value@);
        }
        let ghost p = view_entries(self.entries@);
        match find_key(&self.entries, &key) {
            Some(i) => {
                let ghost es0 = self.entries@;
                let pair = self.entries.remove(i);
                let ghost es1 = self.entries@;
                self.entries.insert(i, (pair.0, value));
                proof {
                    es0.remove_ensures(i as int);
                    es1.insert_ensures(i as int, (pair.0, value));
                    assert(self.entries@ =~= es0.update(
                        i as int,
                        (es0[i as int].0, value),
                    ));
                    lemma_view_entries_props(self.entries@);
                    lemma_key_idx_from_props(p, key@, 0);
                    assert(view_entries(self.entries@) =~= upsert(p, key@, value@));
                }
            },
            None => {
                self.entries.push((key, value));
                proof {
                    lemma_view_entries_props(self.entries@);
                    assert(view_entries(self.entries@) =~= upsert(p, key@, value@));
                }
            },
        }
    }

    /// Removes the entry with a key equivalent to `key`, if present.
    pub fn remove(&mut self, key: &JsonDtype)
        requires
            old(self).wf(),
        ensures
            final(self)@ == remove_key(old(self)@, key@),
            final(self).wf(),
    {
        proof {
            lemma_view_entries_props(self.entries@);
            lemma_remove_key_wf(self@, key@);
        }
        let ghost p = view_entries(self.entries@);
        match find_key(&self.entries, key) {
            Some(i) => {
                let ghost es0 = self.entries@;
                self.entries.remove(i);
                proof {
                    es0.remove_ensures(i as int);
                    p.remove_ensures(i as int);
                    lemma_view_entries_props(self.entries@);
                    assert(view_entries(self.entries@) =~= remove_key(p, key@));
                }
            },
            None => {},
        }
    }

    /// Borrows of all keys, in storage order.
    pub fn keys(&self) -> (r: Vec<&JsonDtype>)
        ensures
            r@.len() == self@.len(),
            forall|i: int| 0 <= i < r@.len() ==> (#[trigger] r@[i])@ == self@[i].0,
    {
        proof {
            lemma_view_entries_props(self.entries@);
        }
        let mut r: Vec<&JsonDtype> = Vec::new();
        let mut i: usize = 0;
        while i < self.entries.len()
            invariant
                i <= self.entries.len(),
                self@ == view_entries(self.entries@),
                self@.len() == self.entries@.len(),
                forall|t: int|
                    0 <= t < self.entries@.len() ==> self@[t] == (
                    view_value((#[trigger] self.entries@[t]).0),
                    view_value(self.entries@[t].1),
                    ),
                r@.len() == i,
                forall|t: int| 0 <= t < i ==> (#[trigger] r@[t])@ == self@[t].0,
            decreases self.entries.len() - i,
        {
            r.push(&self.entries[i].0);
            i = i + 1;
        }
        r
    }

    /// Borrow of the entry list, in storage order.
    pub fn iter(&self) -> (r: &Vec<(JsonDtype, JsonDtype)>)
        ensures
            view_entries(r@) == self@,
            r@.len() == self@.len(),
    {
        proof {
            lemma_view_entries_props(self.entries@);
        }
        &self.entries
    }

    /// Merges every entry of `other` into `self`, overwriting values under
    /// existing keys; `other` is read, not consumed.
    pub fn update(&mut self, other: &Json)
        requires
            old(self).wf(),
            other.wf(),
        ensures
            final(self)@ == merge(old(self)@, other@),
            final(self).wf(),
    {
        proof {
            lemma_view_entries_props(other.entries@);
            crate::model::lemma_entries_wf_props(other@);
        }
        let ghost os = other@;
        proof {
            assert(os.subrange(0, os.len() as int) =~= os);
        }
        let mut k: usize = 0;
        while k < other.entries.len()
            invariant
                k <= other.entries.len(),
                self.wf(),
                os == other@,
                os.len() == other.entries@.len(),
                forall|t: int|
                    0 <= t < other.entries@.len() ==> os[t] == (
                    view_value((#[trigger] other.entries@[t]).0),
                    view_value(other.entries@[t].1),
                    ),
                forall|t: int| 0 <= t < os.len() ==> jval_wf((#[trigger] os[t]).0) && jval_wf(os[t].1),
                merge(old(self)@, os) == merge(self@, os.subrange(k as int, os.len() as int)),
            decreases other.entries.len() - k,
        {
            let ck = deep_clone(&other.entries[k].0);
            let cv = deep_clone(&other.entries[k].1);
            let ghost before = self@;
            self.insert(ck, cv);
            proof {
                let rest = os.subrange(k as int, os.len() as int);
                assert(rest[0] == os[k as int]);
                assert(rest.subrange(1, rest.len() as int) =~= os.subrange(
                    k as int + 1,
                    os.len() as int,
                ));
                assert(merge(before, rest) == merge(
                    upsert(before, os[k as int].0, os[k as int].1),
                    os.subrange(k as int + 1, os.len() as int),
                ));
            }
            k = k + 1;
        }
        proof {
            assert(os.subrange(os.len() as int, os.len() as int) =~= Seq::<(JVal, JVal)>::empty());
            assert(merge(self@, os.subrange(os.len() as int, os.len() as int)) == self@);
        }
    }

    /// Decides equivalence with another object: same keys (up to equivalence)
    /// bound to equivalent values, in any order.
    pub fn obj_eq(&self, other: &Json) -> (r: bool)
        ensures
            r == jeq(JVal::Obj(self@), JVal::Obj(other@)),
    {
        let ghost p = view_entries(self.entries@);
        let ghost q = view_entries(other.entries@);
        let (fwd, fwd_wit) = entries_included(&self.entries, &other.entries);
        if !fwd {
            proof {
                let i0 = fwd_wit@;
                assert(!entry_matched(p[i0], q));
                assert(JVal::Obj(p)->Obj_0 == p);
                assert(JVal::Obj(q)->Obj_0 == q);
                assert(!jeq(JVal::Obj(p), JVal::Obj(q))) by {
                    if jeq(JVal::Obj(p), JVal::Obj(q)) {
                        assert(entry_matched(p[i0], q));
                    }
                }
            }
            return false;
        }
        let (bwd, bwd_wit) = entries_covering(&self.entries, &other.entries);
        if !bwd {
            proof {
                let j0 = bwd_wit@;
                assert(!covers(p, q[j0]));
                assert(JVal::Obj(p)->Obj_0 == p);
                assert(JVal::Obj(q)->Obj_0 == q);
                assert(!jeq(JVal::Obj(p), JVal::Obj(q))) by {
                    if jeq(JVal::Obj(p), JVal::Obj(q)) {
                        assert(covers(p, q[j0]));
                    }
                }
            }
            return false;
        }
        proof {
            assert(JVal::Obj(p)->Obj_0 == p);
            assert(JVal::Obj(q)->Obj_0 == q);
            assert(forall|i: int| 0 <= i < p.len() ==> entry_matched(#[trigger] p[i], q));
            assert(forall|j: int| 0 <= j < q.len() ==> covers(p, #[trigger] q[j]));
            assert(jeq(JVal::Obj(p), JVal::Obj(q)));
        }
        true
    }
}


impl JsonDtype {
    /// Builds a value from anything the library converts (see the `From`
    /// impls below); with a `JsonDtype` it is the identity.
    pub fn new(value: JsonDtype) -> (r: JsonDtype)
        ensures
            r == value,
    {
        value
    }
}

impl From<i128> for JsonDtype {
    fn from(value: i128) -> (r: JsonDtype)
        ensures
            r == JsonDtype::Number(Num::Integer(value)),
    {
        JsonDtype::Number(Num::Integer(value))
    }
}

impl vstd::std_specs::convert::FromSpecImpl<i128> for JsonDtype {
    open spec fn obeys_from_spec() -> bool {
        true
    }

    open spec fn from_spec(v: i128) -> JsonDtype {
        JsonDtype::Number(Num::Integer(v))
    }
}

impl From<bool> for JsonDtype {
    fn from(value: bool) -> (r: JsonDtype)
        ensures
            r == JsonDtype::Boolean(value),
    {
        JsonDtype::Boolean(value)
    }
}

impl vstd::std_specs::convert::FromSpecImpl<bool> for JsonDtype {
    open spec fn obeys_from_spec() -> bool {
        true
    }

    open spec fn from_spec(v: bool) -> JsonDtype {
        JsonDtype::Boolean(v)
    }
}

impl From<String> for JsonDtype {
    fn from(value: String) -> (r: JsonDtype)
        ensures
            r == JsonDtype::String(value),
    {
        JsonDtype::String(value)
    }
}

impl vstd::std_specs::convert::FromSpecImpl<String> for JsonDtype {
    open spec fn obeys_from_spec() -> bool {
        true
    }

    open spec fn from_spec(v: String) -> JsonDtype {
        JsonDtype::String(v)
    }
}

impl From<Json> for JsonDtype {
    fn from(value: Json) -> (r: JsonDtype)
        ensures
            r == JsonDtype::Object(value),
    {
        JsonDtype::Object(value)
    }
}

impl vstd::std_specs::convert::FromSpecImpl<Json> for JsonDtype {
    open spec fn obeys_from_spec() -> bool {
        true
    }

    open spec fn from_spec(v: Json) -> JsonDtype {
        JsonDtype::Object(v)
    }
}

impl From<Vec<JsonDtype>> for JsonDtype {
    fn from(value: Vec<JsonDtype>) -> (r: JsonDtype)
        ensures
            r == JsonDtype::Array(value),
    {
        JsonDtype::Array(value)
    }
}

impl vstd::std_specs::convert::FromSpecImpl<Vec<JsonDtype>> for JsonDtype {
    open spec fn obeys_from_spec() -> bool {
        true
    }

    open spec fn from_spec(v: Vec<JsonDtype>) -> JsonDtype {
        JsonDtype::Array(v)
    }
}

impl From<()> for JsonDtype {
    fn from(value: ()) -> (r: JsonDtype)
        ensures
            r == JsonDtype::Null,
    {
        JsonDtype::Null
    }
}

impl vstd::std_specs::convert::FromSpecImpl<()> for JsonDtype {
    open spec fn obeys_from_spec() -> bool {
        true
    }

    open spec fn from_spec(v: ()) -> JsonDtype {
        JsonDtype::Null
    }
}

impl<'a> From<&'a str> for JsonDtype {
    fn from(value: &'a str) -> (r: JsonDtype)
        ensures
            r matches JsonDtype::String(s) && s@ == value@,
    {
        JsonDtype::String(value.to_owned())
    }
}

// The conversion from a borrowed text allocates a new `String`, which no
// spec-level function can name, so the spec-side contract stays switched off;
// the `ensures` on the impl above is the binding statement.
impl<'a> vstd::std_specs::convert::FromSpecImpl<&'a str> for JsonDtype {
    open spec fn obeys_from_spec() -> bool {
        false
    }

    open spec fn from_spec(v: &'a str) -> JsonDtype {
        JsonDtype::Null
    }
}

} // verus!
