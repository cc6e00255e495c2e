//! Mathematical model of JSON trees.
//!
//! `JVal` is the specification-level mirror of the executable value type:
//! text as `Seq<char>`, integers as unbounded `int`, decimal numbers as an
//! exact sign/significand/exponent triple, objects as sequences of key/value
//! pairs. All contracts of the library speak about this model.

use vstd::prelude::*;

verus! {

/// Model of a decimal (non-integer) number: the exact value
/// `(-1)^neg * digits * 10^exp`, where `digits` is read as a base-10 numeral.
/// Canonical form (see `dec_wf`): `digits` has no leading and no trailing
/// zero digit, and the number zero is `digits == empty, exp == 0`.
pub struct DecModel {
    pub neg: bool,
    pub digits: Seq<char>,
    pub exp: int,
}

/// Specification-level JSON value.
pub enum JVal {
    Str(Seq<char>),
    Int(int),
    Dec(DecModel),
    Obj(Seq<(JVal, JVal)>),
    Arr(Seq<JVal>),
    Bool(bool),
    Null,
}

/// Equivalence of JSON values: same variant and equal payload, where objects
/// compare as unordered collections of key/value pairs (each entry of one
/// side has an equivalent entry on the other side).
pub open spec fn jeq(a: JVal, b: JVal) -> bool
    decreases a,
{
    match (a, b) {
        (JVal::Str(x), JVal::Str(y)) => x == y,
        (JVal::Int(x), JVal::Int(y)) => x == y,
        (JVal::Dec(x), JVal::Dec(y)) => x == y,
        (JVal::Bool(x), JVal::Bool(y)) => x == y,
        (JVal::Null, JVal::Null) => true,
        (JVal::Arr(x), JVal::Arr(y)) => {
            &&& x.len() == y.len()
            &&& forall|i: int| 0 <= i < x.len() ==> jeq(#[trigger] x[i], y[i])
        },
        (JVal::Obj(p), JVal::Obj(q)) => {
            &&& forall|i: int| 0 <= i < p.len() ==> entry_matched(#[trigger] p[i], q)
            &&& forall|j: int| 0 <= j < q.len() ==> covers(p, #[trigger] q[j])
        },
        _ => false,
    }
}

/// Some entry of `q` pairs with `e`: equivalent key and equivalent value.
pub open spec fn entry_matched(e: (JVal, JVal), q: Seq<(JVal, JVal)>) -> bool
    decreases e,
{
    exists|j: int| 0 <= j < q.len() && jeq(e.0, (#[trigger] q[j]).0) && jeq(e.1, q[j].1)
}

/// Some entry of `p` pairs with `e`, comparing from `p`'s side.
pub open spec fn covers(p: Seq<(JVal, JVal)>, e: (JVal, JVal)) -> bool
    decreases p,
{
    exists|i: int| 0 <= i < p.len() && jeq((#[trigger] p[i]).0, e.0) && jeq(p[i].1, e.1)
}

/// Index of the first entry of `es` whose key is equivalent to `k`, or -1.
pub open spec fn key_idx_from(es: Seq<(JVal, JVal)>, k: JVal, j: int) -> int
    decreases es.len() - j,
{
    if j < 0 || j >= es.len() {
        -1
    } else if jeq(k, es[j].0) {
        j
    } else {
        key_idx_from(es, k, j + 1)
    }
}

pub open spec fn key_idx(es: Seq<(JVal, JVal)>, k: JVal) -> int {
    key_idx_from(es, k, 0)
}

/// The value bound to the first key equivalent to `k`, if any.
pub open spec fn lookup(es: Seq<(JVal, JVal)>, k: JVal) -> Option<JVal> {
    if key_idx(es, k) >= 0 {
        Some(es[key_idx(es, k)].1)
    } else {
        None
    }
}

/// Insert-or-overwrite: if a key equivalent to `k` is present, its value is
/// replaced (the stored key is kept); otherwise the pair is appended.
pub open spec fn upsert(es: Seq<(JVal, JVal)>, k: JVal, v: JVal) -> Seq<(JVal, JVal)> {
    let i = key_idx(es, k);
    if i >= 0 {
        es.update(i, (es[i].0, v))
    } else {
        es.push((k, v))
    }
}

/// Remove the first entry whose key is equivalent to `k`, if any.
pub open spec fn remove_key(es: Seq<(JVal, JVal)>, k: JVal) -> Seq<(JVal, JVal)> {
    let i = key_idx(es, k);
    if i >= 0 {
        es.remove(i)
    } else {
        es
    }
}

/// Upsert every entry of `os` into `es`, left to right.
pub open spec fn merge(es: Seq<(JVal, JVal)>, os: Seq<(JVal, JVal)>) -> Seq<(JVal, JVal)>
    decreases os.len(),
{
    if os.len() == 0 {
        es
    } else {
        merge(upsert(es, os[0].0, os[0].1), os.subrange(1, os.len() as int))
    }
}

pub open spec fn is_digit(c: char) -> bool {
    '0' <= c <= '9'
}

/// Canonical form of a decimal model: digit characters only, no leading or
/// trailing zero digit, zero written with an empty significand and exponent 0,
/// and an exponent that fits the executable representation.
pub open spec fn dec_wf(d: DecModel) -> bool {
    &&& forall|i: int| 0 <= i < d.digits.len() ==> is_digit(#[trigger] d.digits[i])
    &&& d.digits.len() == 0 ==> d.exp == 0
    &&& d.digits.len() > 0 ==> d.digits[0] != '0' && d.digits[d.digits.len() - 1] != '0'
    &&& i128::MIN <= d.exp <= i128::MAX
}

/// Well-formed model value: numbers in range and canonical, and within each
/// object no two keys equivalent.
pub open spec fn jval_wf(v: JVal) -> bool
    decreases v,
{
    match v {
        JVal::Int(i) => i128::MIN <= i <= i128::MAX,
        JVal::Dec(d) => dec_wf(d),
        JVal::Arr(x) => items_wf(x),
        JVal::Obj(p) => entries_wf(p) && uniq_keys(p),
        _ => true,
    }
}

pub open spec fn items_wf(x: Seq<JVal>) -> bool
    decreases x,
{
    if x.len() == 0 {
        true
    } else {
        jval_wf(x[0]) && items_wf(x.subrange(1, x.len() as int))
    }
}

pub open spec fn entries_wf(p: Seq<(JVal, JVal)>) -> bool
    decreases p,
{
    if p.len() == 0 {
        true
    } else {
        jval_wf(p[0].0) && jval_wf(p[0].1) && entries_wf(p.subrange(1, p.len() as int))
    }
}

/// No two keys of `p` are equivalent.
pub open spec fn uniq_keys(p: Seq<(JVal, JVal)>) -> bool {
    forall|i: int, j: int|
        0 <= i < j < p.len() ==> !jeq((#[trigger] p[i]).0, (#[trigger] p[j]).0)
}

/// `items_wf` is the pointwise well-formedness of the elements.
pub proof fn lemma_items_wf_props(x: Seq<JVal>)
    ensures
        items_wf(x) == forall|i: int| 0 <= i < x.len() ==> jval_wf(#[trigger] x[i]),
    decreases x.len(),
{
    if x.len() > 0 {
        lemma_items_wf_props(x.subrange(1, x.len() as int));
        assert(forall|i: int|
            1 <= i < x.len() ==> x.subrange(1, x.len() as int)[i - 1] == #[trigger] x[i]);
        if jval_wf(x[0]) && (forall|i: int| 1 <= i < x.len() ==> jval_wf(#[trigger] x[i])) {
            assert(forall|i: int|
                0 <= i < x.subrange(1, x.len() as int).len() ==> jval_wf(
                    #[trigger] x.subrange(1, x.len() as int)[i]));
        }
    }
}

/// `entries_wf` is the pointwise well-formedness of keys and values.
pub proof fn lemma_entries_wf_props(p: Seq<(JVal, JVal)>)
    ensures
        entries_wf(p) == forall|i: int|
            0 <= i < p.len() ==> jval_wf((#[trigger] p[i]).0) && jval_wf(p[i].1),
    decreases p.len(),
{
    if p.len() > 0 {
        lemma_entries_wf_props(p.subrange(1, p.len() as int));
        assert(forall|i: int|
            1 <= i < p.len() ==> p.subrange(1, p.len() as int)[i - 1] == #[trigger] p[i]);
        if jval_wf(p[0].0) && jval_wf(p[0].1) && (forall|i: int|
            1 <= i < p.len() ==> jval_wf((#[trigger] p[i]).0) && jval_wf(p[i].1)) {
            assert(forall|i: int|
                0 <= i < p.subrange(1, p.len() as int).len() ==> jval_wf(
                    (#[trigger] p.subrange(1, p.len() as int)[i]).0) && jval_wf(
                    p.subrange(1, p.len() as int)[i].1));
        }
    }
}

/// Equivalence of values is reflexive.
pub proof fn lemma_jeq_refl(a: JVal)
    ensures
        jeq(a, a),
    decreases a,
{
    match a {
        JVal::Arr(x) => {
            assert forall|i: int| 0 <= i < x.len() implies jeq(#[trigger] x[i], x[i]) by {
                lemma_jeq_refl(x[i]);
            }
        },
        JVal::Obj(p) => {
            assert forall|i: int| 0 <= i < p.len() implies entry_matched(#[trigger] p[i], p) by {
                lemma_jeq_refl(p[i].0);
                lemma_jeq_refl(p[i].1);
                assert(0 <= i < p.len() && jeq(p[i].0, p[i].0) && jeq(p[i].1, p[i].1));
            }
            assert forall|j: int| 0 <= j < p.len() implies covers(p, #[trigger] p[j]) by {
                lemma_jeq_refl(p[j].0);
                lemma_jeq_refl(p[j].1);
                assert(0 <= j < p.len() && jeq(p[j].0, p[j].0) && jeq(p[j].1, p[j].1));
            }
        },
        _ => {},
    }
}

/// Equivalence of values is symmetric.
pub proof fn lemma_jeq_sym(a: JVal, b: JVal)
    ensures
        jeq(a, b) == jeq(b, a),
    decreases a,
{
    match (a, b) {
        (JVal::Arr(x), JVal::Arr(y)) => {
            assert forall|i: int| 0 <= i < x.len() implies jeq(#[trigger] x[i], y[i]) == jeq(
                y[i],
                x[i],
            ) by {
                lemma_jeq_sym(x[i], y[i]);
            }
        },
        (JVal::Obj(p), JVal::Obj(q)) => {
            assert forall|i: int| 0 <= i < p.len() implies entry_matched(#[trigger] p[i], q)
                == covers(q, p[i]) by {
                if entry_matched(p[i], q) {
                    let j = choose|j: int|
                        0 <= j < q.len() && jeq(p[i].0, (#[trigger] q[j]).0) && jeq(p[i].1, q[j].1);
                    lemma_jeq_sym(p[i].0, q[j].0);
                    lemma_jeq_sym(p[i].1, q[j].1);
                    assert(0 <= j < q.len() && jeq(q[j].0, p[i].0) && jeq(q[j].1, p[i].1));
                }
                if covers(q, p[i]) {
                    let j = choose|j: int|
                        0 <= j < q.len() && jeq((#[trigger] q[j]).0, p[i].0) && jeq(q[j].1, p[i].1);
                    lemma_jeq_sym(p[i].0, q[j].0);
                    lemma_jeq_sym(p[i].1, q[j].1);
                    assert(0 <= j < q.len() && jeq(p[i].0, q[j].0) && jeq(p[i].1, q[j].1));
                }
            }
            assert forall|j: int| 0 <= j < q.len() implies covers(p, #[trigger] q[j])
                == entry_matched(q[j], p) by {
                if covers(p, q[j]) {
                    let i = choose|i: int|
                        0 <= i < p.len() && jeq((#[trigger] p[i]).0, q[j].0) && jeq(p[i].1, q[j].1);
                    lemma_jeq_sym(p[i].0, q[j].0);
                    lemma_jeq_sym(p[i].1, q[j].1);
                    assert(0 <= i < p.len() && jeq(q[j].0, p[i].0) && jeq(q[j].1, p[i].1));
                }
                if entry_matched(q[j], p) {
                    let i = choose|i: int|
                        0 <= i < p.len() && jeq(q[j].0, (#[trigger] p[i]).0) && jeq(q[j].1, p[i].1);
                    lemma_jeq_sym(p[i].0, q[j].0);
                    lemma_jeq_sym(p[i].1, q[j].1);
                    assert(0 <= i < p.len() && jeq(p[i].0, q[j].0) && jeq(p[i].1, q[j].1));
                }
            }
        },
        _ => {},
    }
}

/// Equivalence of values is transitive.
pub proof fn lemma_jeq_trans(a: JVal, b: JVal, c: JVal)
    requires
        jeq(a, b),
        jeq(b, c),
    ensures
        jeq(a, c),
    decreases a,
{
    match (a, b, c) {
        (JVal::Arr(x), JVal::Arr(y), JVal::Arr(z)) => {
            assert forall|i: int| 0 <= i < x.len() implies jeq(#[trigger] x[i], z[i]) by {
                assert(jeq(x[i], y[i]));
                assert(jeq(y[i], z[i]));
                lemma_jeq_trans(x[i], y[i], z[i]);
            }
        },
        (JVal::Obj(p), JVal::Obj(q), JVal::Obj(r)) => {
            assert forall|i: int| 0 <= i < p.len() implies entry_matched(#[trigger] p[i], r) by {
                assert(entry_matched(p[i], q));
                let jq = choose|j: int|
                    0 <= j < q.len() && jeq(p[i].0, (#[trigger] q[j]).0) && jeq(p[i].1, q[j].1);
                assert(entry_matched(q[jq], r));
                let jr = choose|j: int|
                    0 <= j < r.len() && jeq(q[jq].0, (#[trigger] r[j]).0) && jeq(q[jq].1, r[j].1);
                lemma_jeq_trans(p[i].0, q[jq].0, r[jr].0);
                lemma_jeq_trans(p[i].1, q[jq].1, r[jr].1);
                assert(0 <= jr < r.len() && jeq(p[i].0, r[jr].0) && jeq(p[i].1, r[jr].1));
            }
            assert forall|j: int| 0 <= j < r.len() implies covers(p, #[trigger] r[j]) by {
                assert(covers(q, r[j]));
                let jq = choose|jj: int|
                    0 <= jj < q.len() && jeq((#[trigger] q[jj]).0, r[j].0) && jeq(q[jj].1, r[j].1);
                assert(covers(p, q[jq]));
                let ip = choose|i: int|
                    0 <= i < p.len() && jeq((#[trigger] p[i]).0, q[jq].0) && jeq(p[i].1, q[jq].1);
                lemma_jeq_trans(p[ip].0, q[jq].0, r[j].0);
                lemma_jeq_trans(p[ip].1, q[jq].1, r[j].1);
                assert(0 <= ip < p.len() && jeq(p[ip].0, r[j].0) && jeq(p[ip].1, r[j].1));
            }
        },
        _ => {},
    }
}

/// What `key_idx_from` finds: either no key equivalent to `k` from `j` on,
/// or the first position at or after `j` holding one.
pub proof fn lemma_key_idx_from_props(es: Seq<(JVal, JVal)>, k: JVal, j: int)
    requires
        0 <= j,
    ensures
        key_idx_from(es, k, j) == -1 || key_idx_from(es, k, j) >= 0,
        key_idx_from(es, k, j) < 0 ==> forall|i: int|
            j <= i < es.len() ==> !jeq(k, (#[trigger] es[i]).0),
        key_idx_from(es, k, j) >= 0 ==> {
            &&& j <= key_idx_from(es, k, j) < es.len()
            &&& jeq(k, es[key_idx_from(es, k, j)].0)
            &&& forall|i: int| j <= i < key_idx_from(es, k, j) ==> !jeq(k, (#[trigger] es[i]).0)
        },
    decreases es.len() - j,
{
    if j < es.len() && !jeq(k, es[j].0) {
        lemma_key_idx_from_props(es, k, j + 1);
    }
}

/// `upsert` keeps an object well-formed.
pub proof fn lemma_upsert_wf(es: Seq<(JVal, JVal)>, k: JVal, v: JVal)
    requires
        jval_wf(JVal::Obj(es)),
        jval_wf(k),
        jval_wf(v),
    ensures
        jval_wf(JVal::Obj(upsert(es, k, v))),
        upsert(es, k, v).len() == if key_idx(es, k) >= 0 {
            es.len() as int
        } else {
            es.len() as int + 1
        },
{
    lemma_key_idx_from_props(es, k, 0);
    lemma_entries_wf_props(es);
    let i = key_idx(es, k);
    let es2 = upsert(es, k, v);
    lemma_entries_wf_props(es2);
    if i >= 0 {
        assert forall|t: int| 0 <= t < es2.len() implies jval_wf((#[trigger] es2[t]).0)
            && jval_wf(es2[t].1) by {
            if t == i {
                assert(es2[t] == (es[i].0, v));
            } else {
                assert(es2[t] == es[t]);
            }
        }
        assert forall|a: int, b: int| 0 <= a < b < es2.len() implies !jeq(
            (#[trigger] es2[a]).0,
            (#[trigger] es2[b]).0,
        ) by {
            assert(es2[a].0 == es[a].0 && es2[b].0 == es[b].0);
        }
    } else {
        assert forall|t: int| 0 <= t < es2.len() implies jval_wf((#[trigger] es2[t]).0)
            && jval_wf(es2[t].1) by {
            if t < es.len() {
                assert(es2[t] == es[t]);
            } else {
                assert(es2[t] == (k, v));
            }
        }
        assert forall|a: int, b: int| 0 <= a < b < es2.len() implies !jeq(
            (#[trigger] es2[a]).0,
            (#[trigger] es2[b]).0,
        ) by {
            if b < es.len() {
                assert(es2[a].0 == es[a].0 && es2[b].0 == es[b].0);
            } else {
                assert(es2[a].0 == es[a].0 && es2[b] == (k, v));
                assert(!jeq(k, es[a].0));
                lemma_jeq_sym(es[a].0, k);
            }
        }
    }
    assert(jval_wf(JVal::Obj(es2)));
}

/// `remove_key` keeps an object well-formed.
pub proof fn lemma_remove_key_wf(es: Seq<(JVal, JVal)>, k: JVal)
    requires
        jval_wf(JVal::Obj(es)),
    ensures
        jval_wf(JVal::Obj(remove_key(es, k))),
{
    let i = key_idx(es, k);
    if i >= 0 {
        lemma_key_idx_from_props(es, k, 0);
        lemma_entries_wf_props(es);
        es.remove_ensures(i);
        let es2 = es.remove(i);
        lemma_entries_wf_props(es2);
        assert forall|t: int| 0 <= t < es2.len() implies jval_wf((#[trigger] es2[t]).0)
            && jval_wf(es2[t].1) by {
            if t < i {
                assert(es2[t] == es[t]);
            } else {
                assert(es2[t] == es[t + 1]);
            }
        }
        assert forall|a: int, b: int| 0 <= a < b < es2.len() implies !jeq(
            (#[trigger] es2[a]).0,
            (#[trigger] es2[b]).0,
        ) by {
            let oa: int = if a < i {
                a
            } else {
                a + 1
            };
            let ob: int = if b < i {
                b
            } else {
                b + 1
            };
            assert(es2[a] == es[oa] && es2[b] == es[ob]);
            assert(!jeq(es[oa].0, es[ob].0));
        }
        assert(jval_wf(JVal::Obj(es2)));
    }
}

} // verus!

