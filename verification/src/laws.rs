//! Laws of the object operations, stated over the model and proved once for
//! every well-formed object.

use vstd::prelude::*;

use crate::model::JVal;
use crate::model::jeq;
use crate::model::jval_wf;
use crate::model::key_idx;
use crate::model::key_idx_from;
use crate::model::lookup;
use crate::model::merge;
use crate::model::remove_key;
use crate::model::upsert;
use crate::model::lemma_jeq_refl;
use crate::model::lemma_jeq_sym;
use crate::model::lemma_jeq_trans;
use crate::model::lemma_key_idx_from_props;

verus! {

/// The key search depends only on the stored keys.
pub proof fn lemma_key_idx_same_keys(
    es1: Seq<(JVal, JVal)>,
    es2: Seq<(JVal, JVal)>,
    k: JVal,
    j: int,
)
    requires
        es1.len() == es2.len(),
        forall|t: int| 0 <= t < es1.len() ==> (#[trigger] es1[t]).0 == es2[t].0,
    ensures
        key_idx_from(es1, k, j) == key_idx_from(es2, k, j),
    decreases es1.len() - j,
{
    if 0 <= j < es1.len() && !jeq(k, es1[j].0) {
        lemma_key_idx_same_keys(es1, es2, k, j + 1);
    }
}

/// After an insert, the key is present and reads back the inserted value.
pub proof fn lemma_insert_get(es: Seq<(JVal, JVal)>, k: JVal, v: JVal)
    ensures
        key_idx(upsert(es, k, v), k) >= 0,
        lookup(upsert(es, k, v), k) == Some(v),
{
    lemma_jeq_refl(k);
    lemma_key_idx_from_props(es, k, 0);
    let i = key_idx(es, k);
    let es2 = upsert(es, k, v);
    lemma_key_idx_from_props(es2, k, 0);
    if i >= 0 {
        lemma_key_idx_same_keys(es, es2, k, 0);
        assert(key_idx(es2, k) == i);
        assert(es2[i].1 == v);
    } else {
        let r = key_idx(es2, k);
        assert(es2[es.len() as int] == (k, v));
        if r < 0 {
            assert(!jeq(k, es2[es.len() as int].0));
            assert(false);
        }
        if r < es.len() {
            assert(es2[r] == es[r]);
            assert(false);
        }
        assert(r == es.len());
        assert(es2[r].1 == v);
    }
}

/// After a removal, the key is absent.
pub proof fn lemma_remove_get(es: Seq<(JVal, JVal)>, k: JVal)
    requires
        jval_wf(JVal::Obj(es)),
    ensures
        lookup(remove_key(es, k), k) is None,
        key_idx(remove_key(es, k), k) == -1,
{
    lemma_key_idx_from_props(es, k, 0);
    let i = key_idx(es, k);
    if i >= 0 {
        es.remove_ensures(i);
        let es2 = es.remove(i);
        lemma_key_idx_from_props(es2, k, 0);
        let r = key_idx(es2, k);
        if r >= 0 {
            let orig: int = if r < i {
                r
            } else {
                r + 1
            };
            assert(es2[r] == es[orig]);
            assert(jeq(k, es[orig].0));
            assert(jeq(k, es[i].0));
            lemma_jeq_sym(k, es[i].0);
            lemma_jeq_trans(es[i].0, k, es[orig].0);
            if i < orig {
                assert(!jeq(es[i].0, es[orig].0));
            } else {
                lemma_jeq_sym(es[i].0, es[orig].0);
                assert(!jeq(es[orig].0, es[i].0));
            }
            assert(false);
        }
    } else {
        assert(remove_key(es, k) == es);
    }
}

/// The key search treats equivalent keys alike.
pub proof fn lemma_key_idx_congr(es: Seq<(JVal, JVal)>, k1: JVal, k2: JVal, j: int)
    requires
        jeq(k1, k2),
    ensures
        key_idx_from(es, k1, j) == key_idx_from(es, k2, j),
    decreases es.len() - j,
{
    if 0 <= j < es.len() {
        lemma_jeq_sym(k1, k2);
        if jeq(k1, es[j].0) {
            lemma_jeq_trans(k2, k1, es[j].0);
        }
        if jeq(k2, es[j].0) {
            lemma_jeq_trans(k1, k2, es[j].0);
        }
        if !jeq(k1, es[j].0) {
            lemma_key_idx_congr(es, k1, k2, j + 1);
        }
    }
}

/// What an upsert does to any later read: an equivalent key reads the new
/// value, any other key reads as before.
pub proof fn lemma_upsert_lookup(es: Seq<(JVal, JVal)>, k: JVal, v: JVal, k2: JVal)
    ensures
        jeq(k2, k) ==> lookup(upsert(es, k, v), k2) == Some(v) && key_idx(upsert(es, k, v), k2)
            >= 0,
        !jeq(k2, k) ==> lookup(upsert(es, k, v), k2) == lookup(es, k2) && (key_idx(
            upsert(es, k, v),
            k2,
        ) >= 0 <==> key_idx(es, k2) >= 0),
{
    let es2 = upsert(es, k, v);
    lemma_key_idx_from_props(es, k, 0);
    lemma_key_idx_from_props(es, k2, 0);
    lemma_key_idx_from_props(es2, k2, 0);
    let i = key_idx(es, k);
    if jeq(k2, k) {
        lemma_key_idx_congr(es2, k2, k, 0);
        lemma_insert_get(es, k, v);
    } else {
        lemma_jeq_sym(k2, k);
        if i >= 0 {
            lemma_key_idx_same_keys(es, es2, k2, 0);
            let r = key_idx(es, k2);
            if r >= 0 {
                if r == i {
                    lemma_jeq_sym(k, es[i].0);
                    lemma_jeq_trans(k2, es[i].0, k);
                    assert(false);
                }
                assert(es2[r].1 == es[r].1);
            }
        } else {
            let r = key_idx(es, k2);
            let rp = key_idx(es2, k2);
            assert(es2[es.len() as int] == (k, v));
            assert(forall|t: int| 0 <= t < es.len() ==> #[trigger] es2[t] == es[t]);
            if r >= 0 {
                if rp < 0 {
                    assert(!jeq(k2, es2[r].0));
                    assert(false);
                }
                if rp < r {
                    assert(jeq(k2, es[rp].0));
                    assert(false);
                }
                if rp > r {
                    assert(!jeq(k2, es2[r].0));
                    assert(false);
                }
                assert(es2[rp].1 == es[r].1);
            } else {
                if rp >= 0 {
                    if rp < es.len() {
                        assert(jeq(k2, es[rp].0));
                        assert(false);
                    }
                    assert(jeq(k2, k));
                    assert(false);
                }
            }
        }
    }
}

/// Merging entries whose keys are all foreign to `k` leaves `k`'s reading
/// unchanged.
pub proof fn lemma_merge_foreign(es: Seq<(JVal, JVal)>, os: Seq<(JVal, JVal)>, k: JVal)
    requires
        forall|j: int| 0 <= j < os.len() ==> !jeq(k, (#[trigger] os[j]).0),
    ensures
        lookup(merge(es, os), k) == lookup(es, k),
        key_idx(merge(es, os), k) >= 0 <==> key_idx(es, k) >= 0,
    decreases os.len(),
{
    if os.len() > 0 {
        let es2 = upsert(es, os[0].0, os[0].1);
        let rest = os.subrange(1, os.len() as int);
        assert(!jeq(k, os[0].0));
        lemma_upsert_lookup(es, os[0].0, os[0].1, k);
        assert(forall|j: int| 0 <= j < rest.len() ==> rest[j] == #[trigger] os[j + 1]);
        assert forall|j: int| 0 <= j < rest.len() implies !jeq(k, (#[trigger] rest[j]).0) by {
            assert(rest[j] == os[j + 1]);
        }
        lemma_merge_foreign(es2, rest, k);
    }
}

/// Containment in terms of an explicit witness.
pub proof fn lemma_contains_exists(es: Seq<(JVal, JVal)>, k: JVal)
    ensures
        key_idx(es, k) >= 0 <==> exists|j: int|
            0 <= j < es.len() && jeq(k, (#[trigger] es[j]).0),
{
    lemma_key_idx_from_props(es, k, 0);
    if key_idx(es, k) >= 0 {
        assert(jeq(k, es[key_idx(es, k)].0));
    }
}

/// A key is in a merge exactly when it is in one of the sides.
pub proof fn lemma_merge_contains(a: Seq<(JVal, JVal)>, b: Seq<(JVal, JVal)>, k: JVal)
    ensures
        key_idx(merge(a, b), k) >= 0 <==> (key_idx(a, k) >= 0 || key_idx(b, k) >= 0),
    decreases b.len(),
{
    lemma_key_idx_from_props(b, k, 0);
    if b.len() == 0 {
    } else {
        let a2 = upsert(a, b[0].0, b[0].1);
        let rest = b.subrange(1, b.len() as int);
        lemma_merge_contains(a2, rest, k);
        lemma_upsert_lookup(a, b[0].0, b[0].1, k);
        lemma_contains_exists(b, k);
        lemma_contains_exists(rest, k);
        assert(forall|j: int| 0 <= j < rest.len() ==> rest[j] == #[trigger] b[j + 1]);
        if key_idx(b, k) >= 0 {
            let w = choose|j: int| 0 <= j < b.len() && jeq(k, (#[trigger] b[j]).0);
            if w > 0 {
                assert(rest[w - 1] == b[w]);
                assert(jeq(k, rest[w - 1].0));
            }
        }
        if key_idx(rest, k) >= 0 {
            let w = choose|j: int| 0 <= j < rest.len() && jeq(k, (#[trigger] rest[j]).0);
            assert(rest[w] == b[w + 1]);
            assert(jeq(k, b[w + 1].0));
        }
    }
}

/// After a merge, every key of the merged-in object reads its value there.
pub proof fn lemma_merge_reads_right(a: Seq<(JVal, JVal)>, b: Seq<(JVal, JVal)>, j: int)
    requires
        jval_wf(JVal::Obj(b)),
        0 <= j < b.len(),
    ensures
        lookup(merge(a, b), b[j].0) == Some(b[j].1),
        lookup(b, b[j].0) == Some(b[j].1),
    decreases b.len(),
{
    let k = b[j].0;
    lemma_jeq_refl(k);
    lemma_key_idx_from_props(b, k, 0);
    let r = key_idx(b, k);
    assert(r >= 0);
    if r != j {
        assert(jeq(b[j].0, b[r].0)) by {
            lemma_jeq_sym(k, b[r].0);
            lemma_jeq_trans(b[j].0, k, b[r].0);
            assert(jeq(k, b[r].0));
        }
        if r < j {
            assert(!jeq(b[r].0, b[j].0));
            lemma_jeq_sym(b[r].0, b[j].0);
        } else {
            assert(!jeq(b[j].0, b[r].0));
        }
        assert(false);
    }
    assert(lookup(b, k) == Some(b[j].1));
    let a2 = upsert(a, b[0].0, b[0].1);
    let rest = b.subrange(1, b.len() as int);
    assert(forall|t: int| 0 <= t < rest.len() ==> rest[t] == #[trigger] b[t + 1]);
    if j == 0 {
        lemma_insert_get(a, b[0].0, b[0].1);
        assert forall|t: int| 0 <= t < rest.len() implies !jeq(k, (#[trigger] rest[t]).0) by {
            assert(rest[t] == b[t + 1]);
            assert(!jeq(b[0].0, b[t + 1].0));
            if jeq(k, rest[t].0) {
                assert(jeq(b[0].0, b[t + 1].0));
            }
        }
        lemma_merge_foreign(a2, rest, k);
        assert(lookup(a2, k) == Some(b[0].1));
    } else {
        assert(jval_wf(JVal::Obj(rest))) by {
            crate::model::lemma_entries_wf_props(b);
            crate::model::lemma_entries_wf_props(rest);
            assert forall|t: int| 0 <= t < rest.len() implies jval_wf(
                (#[trigger] rest[t]).0,
            ) && jval_wf(rest[t].1) by {
                assert(rest[t] == b[t + 1]);
            }
            assert forall|x: int, y: int| 0 <= x < y < rest.len() implies !jeq(
                (#[trigger] rest[x]).0,
                (#[trigger] rest[y]).0,
            ) by {
                assert(rest[x] == b[x + 1] && rest[y] == b[y + 1]);
            }
        }
        lemma_merge_reads_right(a2, rest, j - 1);
        assert(rest[j - 1] == b[j]);
    }
}

/// The law of `update`: afterwards a key is present exactly when it was in
/// either object, and every key of the merged-in object reads the value it
/// has there.
pub proof fn lemma_update_props(a: Seq<(JVal, JVal)>, b: Seq<(JVal, JVal)>)
    requires
        jval_wf(JVal::Obj(b)),
    ensures
        forall|k: JVal|
            key_idx(#[trigger] merge(a, b), k) >= 0 <==> (key_idx(a, k) >= 0 || key_idx(b, k)
                >= 0),
        forall|j: int|
            0 <= j < b.len() ==> lookup(merge(a, b), (#[trigger] b[j]).0) == lookup(b, b[j].0),
{
    assert forall|k: JVal|
        key_idx(#[trigger] merge(a, b), k) >= 0 <==> (key_idx(a, k) >= 0 || key_idx(b, k)
            >= 0) by {
        lemma_merge_contains(a, b, k);
    }
    assert forall|j: int| 0 <= j < b.len() implies lookup(merge(a, b), (#[trigger] b[j]).0)
        == lookup(b, b[j].0) by {
        lemma_merge_reads_right(a, b, j);
    }
}

} // verus!
