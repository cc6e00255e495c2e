//! Hashing of values: a 64-bit structural hash, with objects combined by
//! wrapping addition over their entries so that iteration order cannot show.

use vstd::prelude::*;

use crate::model::JVal;
use crate::model::jeq;
use crate::value::Dec;
use crate::value::Json;
use crate::value::JsonDtype;
use crate::value::Num;
use crate::value::jsize;
use crate::value::jsize_entries;
use crate::value::jsize_items;
use crate::value::lemma_jsize_entries_elem;
use crate::value::lemma_jsize_items_elem;
use crate::value::lemma_jsize_pos;
use crate::value::lemma_view_entries_props;
use crate::value::lemma_view_items_props;
use crate::value::view_entries;
use crate::value::view_items;
use crate::value::view_value;
use crate::parse::str_to_chars;

verus! {

/// One mixing step of the hash.
pub open spec fn hmix(h: u64, x: u64) -> u64 {
    h.wrapping_mul(31).wrapping_add(x)
}

/// Hash of a character sequence.
pub open spec fn hstr(s: Seq<char>, k: int) -> u64
    decreases s.len() - k,
{
    if k < 0 || k >= s.len() {
        11
    } else {
        hmix(hstr(s, k + 1), (s[k] as u32) as u64)
    }
}

/// Hash of a value: tagged per variant; an integer hashes its 64 low bits, a
/// decimal its sign, significand and exponent, an object the order-blind sum
/// of its entry hashes.
pub open spec fn jhash(v: JVal) -> u64
    decreases v, 0int, 0int,
{
    match v {
        JVal::Str(s) => hmix(1, hstr(s, 0)),
        JVal::Int(i) => hmix(2, i as u64),
        JVal::Dec(d) => hmix(
            3,
            hmix(
                if d.neg {
                    1u64
                } else {
                    0u64
                },
                hmix(hstr(d.digits, 0), d.exp as u64),
            ),
        ),
        JVal::Bool(b) => {
            if b {
                5
            } else {
                6
            }
        },
        JVal::Null => 7,
        JVal::Arr(x) => hmix(4, harr(x, 0)),
        JVal::Obj(p) => hmix(8, hobj(p, 0)),
    }
}

pub open spec fn harr(x: Seq<JVal>, k: int) -> u64
    decreases x, x.len() - k, 0int,
{
    if k < 0 || k >= x.len() {
        9
    } else {
        hmix(harr(x, k + 1), jhash(x[k]))
    }
}

/// Entry hashes combined by wrapping addition, a commutative operation.
pub open spec fn hobj(p: Seq<(JVal, JVal)>, k: int) -> u64
    decreases p, p.len() - k, 0int,
{
    if k < 0 || k >= p.len() {
        10
    } else {
        hmix(jhash(p[k].0), jhash(p[k].1)).wrapping_add(hobj(p, k + 1))
    }
}

/// Hash of a stored text, walked from the end.
fn hash_chars(s: &str) -> (r: u64)
    ensures
        r == hstr(s@, 0),
{
    let cs = str_to_chars(s);
    let mut h: u64 = 11;
    let mut k: usize = cs.len();
    while k > 0
        invariant
            0 <= k <= cs@.len(),
            cs@ == s@,
            h == hstr(s@, k as int),
        decreases k,
    {
        k = k - 1;
        h = h.wrapping_mul(31).wrapping_add((cs[k] as u32) as u64);
    }
    h
}

fn hash_char_vec(cs: &Vec<char>) -> (r: u64)
    ensures
        r == hstr(cs@, 0),
{
    let mut h: u64 = 11;
    let mut k: usize = cs.len();
    while k > 0
        invariant
            0 <= k <= cs@.len(),
            h == hstr(cs@, k as int),
        decreases k,
    {
        k = k - 1;
        h = h.wrapping_mul(31).wrapping_add((cs[k] as u32) as u64);
    }
    h
}

fn hash_dec(d: &Dec) -> (r: u64)
    ensures
        r == jhash(JVal::Dec(d@)),
{
    let sign: u64 = if d.neg {
        1
    } else {
        0
    };
    let hd = hash_char_vec(&d.digits);
    let inner = hd.wrapping_mul(31).wrapping_add(d.exp as u64);
    let mid = sign.wrapping_mul(31).wrapping_add(inner);
    3u64.wrapping_mul(31).wrapping_add(mid)
}

/// Computes the hash of a value.
pub fn hash_value(v: &JsonDtype) -> (r: u64)
    ensures
        r == jhash(v@),
    decreases jsize(*v),
{
    match v {
        JsonDtype::String(s) => {
            let h = hash_chars(s.as_str());
            1u64.wrapping_mul(31).wrapping_add(h)
        },
        JsonDtype::Number(Num::Integer(i)) => 2u64.wrapping_mul(31).wrapping_add(*i as u64),
        JsonDtype::Number(Num::Float(d)) => hash_dec(d),
        JsonDtype::Boolean(b) => {
            if *b {
                5
            } else {
                6
            }
        },
        JsonDtype::Null => 7,
        JsonDtype::Array(a) => {
            let ghost xs = view_items(a@);
            proof {
                lemma_view_items_props(a@);
            }
            let mut h: u64 = 9;
            let mut k: usize = a.len();
            while k > 0
                invariant
                    0 <= k <= a@.len(),
                    *v == JsonDtype::Array(*a),
                    xs == view_items(a@),
                    xs.len() == a@.len(),
                    forall|t: int| 0 <= t < a@.len() ==> xs[t] == view_value(#[trigger] a@[t]),
                    h == harr(xs, k as int),
                decreases k,
            {
                k = k - 1;
                proof {
                    lemma_jsize_items_elem(a@, k as int);
                }
                let hv = hash_value(&a[k]);
                h = h.wrapping_mul(31).wrapping_add(hv);
            }
            4u64.wrapping_mul(31).wrapping_add(h)
        },
        JsonDtype::Object(o) => {
            let ghost ps = view_entries(o.entries@);
            proof {
                lemma_view_entries_props(o.entries@);
            }
            let mut h: u64 = 10;
            let mut k: usize = o.entries.len();
            while k > 0
                invariant
                    0 <= k <= o.entries@.len(),
                    *v == JsonDtype::Object(*o),
                    ps == view_entries(o.entries@),
                    ps.len() == o.entries@.len(),
                    forall|t: int|
                        0 <= t < o.entries@.len() ==> ps[t] == (
                        view_value((#[trigger] o.entries@[t]).0),
                        view_value(o.entries@[t].1),
                        ),
                    h == hobj(ps, k as int),
                decreases k,
            {
                k = k - 1;
                proof {
                    lemma_jsize_entries_elem(o.entries@, k as int);
                    lemma_jsize_pos(o.entries@[k as int].0);
                    lemma_jsize_pos(o.entries@[k as int].1);
                }
                let hk = hash_value(&o.entries[k].0);
                let hv = hash_value(&o.entries[k].1);
                h = hk.wrapping_mul(31).wrapping_add(hv).wrapping_add(h);
            }
            8u64.wrapping_mul(31).wrapping_add(h)
        },
    }
}

impl JsonDtype {
    /// The 64-bit hash of the value.
    pub fn hash64(&self) -> (r: u64)
        ensures
            r == jhash(self@),
    {
        hash_value(self)
    }
}

impl Json {
    /// The 64-bit hash of the object as a value.
    pub fn hash64(&self) -> (r: u64)
        ensures
            r == jhash(JVal::Obj(self@)),
    {
        let ghost ps = view_entries(self.entries@);
        proof {
            lemma_view_entries_props(self.entries@);
        }
        let mut h: u64 = 10;
        let mut k: usize = self.entries.len();
        while k > 0
            invariant
                0 <= k <= self.entries@.len(),
                ps == view_entries(self.entries@),
                ps.len() == self.entries@.len(),
                forall|t: int|
                    0 <= t < self.entries@.len() ==> ps[t] == (
                    view_value((#[trigger] self.entries@[t]).0),
                    view_value(self.entries@[t].1),
                    ),
                h == hobj(ps, k as int),
            decreases k,
        {
            k = k - 1;
            proof {
                lemma_jsize_entries_elem(self.entries@, k as int);
                lemma_jsize_pos(self.entries@[k as int].0);
                lemma_jsize_pos(self.entries@[k as int].1);
            }
            let hk = hash_value(&self.entries[k].0);
            let hv = hash_value(&self.entries[k].1);
            h = hk.wrapping_mul(31).wrapping_add(hv).wrapping_add(h);
        }
        8u64.wrapping_mul(31).wrapping_add(h)
    }
}

/// No object occurs inside the value.
pub open spec fn obj_free(v: JVal) -> bool
    decreases v, 0int,
{
    match v {
        JVal::Obj(_) => false,
        JVal::Arr(x) => obj_free_items(x, 0),
        _ => true,
    }
}

pub open spec fn obj_free_items(x: Seq<JVal>, k: int) -> bool
    decreases x, x.len() - k, 0int,
{
    if k < 0 || k >= x.len() {
        true
    } else {
        obj_free(x[k]) && obj_free_items(x, k + 1)
    }
}

/// Equivalent values hash alike, shown here for values without objects
/// (object equivalence pairs entries in any order; its hash case is built
/// from a commutative sum for the same reason, but is not proved here).
pub proof fn lemma_jeq_hash(a: JVal, b: JVal)
    requires
        jeq(a, b),
        obj_free(a),
    ensures
        jhash(a) == jhash(b),
    decreases a, 1int, 0int,
{
    match (a, b) {
        (JVal::Arr(x), JVal::Arr(y)) => {
            lemma_jeq_hash_items(x, y, 0);
        },
        _ => {},
    }
}

pub proof fn lemma_jeq_hash_items(x: Seq<JVal>, y: Seq<JVal>, k: int)
    requires
        jeq(JVal::Arr(x), JVal::Arr(y)),
        obj_free_items(x, k),
        0 <= k,
    ensures
        harr(x, k) == harr(y, k),
    decreases x, x.len() - k, 1int,
{
    if k < x.len() {
        assert(jeq(x[k], y[k]));
        assert(obj_free(x[k]));
        lemma_jeq_hash(x[k], y[k]);
        lemma_jeq_hash_items(x, y, k + 1);
    }
}

} // verus!
