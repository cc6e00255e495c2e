//! The serializers: compact (one line, a space after `:` and `,`) and pretty
//! (indented, a configurable step per nesting level).
//!
//! The `cstr`/`pstr` spec functions define the exact output text; the
//! executable writers are proved to produce it character for character.

use vstd::prelude::*;

use crate::model::DecModel;
use crate::model::JVal;
use crate::value::Dec;
use crate::value::Num;
use crate::value::Json;
use crate::value::JsonDtype;
use crate::value::jsize;
use crate::value::jsize_entries;
use crate::value::jsize_items;
use crate::value::lemma_jsize_entries_elem;
use crate::value::lemma_jsize_items_elem;
use crate::value::lemma_jsize_pos;
use crate::value::lemma_view_entries_props;
use crate::value::lemma_view_items_props;
use crate::value::view_entries;
use crate::value::view_items;
use crate::value::view_value;
use crate::parse::chars_to_string;
use crate::parse::str_to_chars;

verus! {

/// The escaped form of text: `\` and `"` gain a backslash, all else is copied.
pub open spec fn esc_from(sq: Seq<char>, k: int) -> Seq<char>
    decreases sq.len() - k,
{
    if k < 0 || k >= sq.len() {
        Seq::empty()
    } else {
        let c = sq[k];
        let piece = if c == '\\' {
            seq!['\\', '\\']
        } else if c == '"' {
            seq!['\\', '"']
        } else {
            seq![c]
        };
        piece + esc_from(sq, k + 1)
    }
}

pub open spec fn digit_char(d: int) -> char {
    if d == 0 {
        '0'
    } else if d == 1 {
        '1'
    } else if d == 2 {
        '2'
    } else if d == 3 {
        '3'
    } else if d == 4 {
        '4'
    } else if d == 5 {
        '5'
    } else if d == 6 {
        '6'
    } else if d == 7 {
        '7'
    } else if d == 8 {
        '8'
    } else {
        '9'
    }
}

/// Decimal numeral of a non-negative number.
pub open spec fn nat_str(n: int) -> Seq<char>
    decreases n,
{
    if n < 10 {
        seq![digit_char(if n < 0 {
            0
        } else {
            n % 10
        })]
    } else {
        nat_str(n / 10).push(digit_char(n % 10))
    }
}

/// Decimal numeral of an integer.
pub open spec fn int_str(v: int) -> Seq<char> {
    if v < 0 {
        seq!['-'] + nat_str(-v)
    } else {
        nat_str(v)
    }
}

pub open spec fn zeros(k: int) -> Seq<char>
    decreases k,
{
    if k <= 0 {
        Seq::empty()
    } else {
        seq!['0'] + zeros(k - 1)
    }
}

/// Rendering of an exact decimal: the plain notation of
/// `digits * 10^exp`, with no exponent mark, mirroring how a binary double
/// with the same value would print. Zero renders as `0` (or `-0`).
pub open spec fn dec_str(d: DecModel) -> Seq<char> {
    let sign: Seq<char> = if d.neg {
        seq!['-']
    } else {
        Seq::empty()
    };
    if d.digits.len() == 0 {
        sign + seq!['0']
    } else {
        let n = d.digits.len() as int;
        let point = n + d.exp;
        if d.exp >= 0 {
            sign + d.digits + zeros(d.exp)
        } else if point > 0 {
            sign + d.digits.subrange(0, point) + seq!['.'] + d.digits.subrange(point, n)
        } else {
            sign + seq!['0', '.'] + zeros(-point) + d.digits
        }
    }
}

/// Compact rendering of a value.
pub open spec fn cstr(v: JVal) -> Seq<char>
    decreases v, 0int, 0int,
{
    match v {
        JVal::Str(sq) => seq!['"'] + esc_from(sq, 0) + seq!['"'],
        JVal::Int(i) => int_str(i),
        JVal::Dec(d) => dec_str(d),
        JVal::Bool(b) => {
            if b {
                seq!['t', 'r', 'u', 'e']
            } else {
                seq!['f', 'a', 'l', 's', 'e']
            }
        },
        JVal::Null => seq!['n', 'u', 'l', 'l'],
        JVal::Arr(x) => seq!['['] + citems(x, 0) + seq![']'],
        JVal::Obj(p) => seq!['{'] + centries(p, 0) + seq!['}'],
    }
}

/// Rendering of a key: a string key is escaped and quoted; any other key is
/// its compact rendering wrapped in quotes.
pub open spec fn key_str(k: JVal) -> Seq<char>
    decreases k, 0int, 1int,
{
    match k {
        JVal::Str(sq) => seq!['"'] + esc_from(sq, 0) + seq!['"'],
        _ => seq!['"'] + cstr(k) + seq!['"'],
    }
}

/// Compact rendering of the items from `k` on, comma-separated.
pub open spec fn citems(x: Seq<JVal>, k: int) -> Seq<char>
    decreases x, x.len() - k, 0int,
{
    if k < 0 || k >= x.len() {
        Seq::empty()
    } else {
        let sep: Seq<char> = if k > 0 {
            seq![',', ' ']
        } else {
            Seq::empty()
        };
        sep + cstr(x[k]) + citems(x, k + 1)
    }
}

/// Compact rendering of the entries from `k` on: `key: value`, separated by
/// commas.
pub open spec fn centries(p: Seq<(JVal, JVal)>, k: int) -> Seq<char>
    decreases p, p.len() - k, 2int,
{
    if k < 0 || k >= p.len() {
        Seq::empty()
    } else {
        let sep: Seq<char> = if k > 0 {
            seq![',', ' ']
        } else {
            Seq::empty()
        };
        sep + key_str(p[k].0) + seq![':', ' '] + cstr(p[k].1) + centries(p, k + 1)
    }
}

/// Compact rendering of a whole object.
pub open spec fn ostr(p: Seq<(JVal, JVal)>) -> Seq<char> {
    seq!['{'] + centries(p, 0) + seq!['}']
}

pub open spec fn spaces(k: int) -> Seq<char>
    decreases k,
{
    if k <= 0 {
        Seq::empty()
    } else {
        seq![' '] + spaces(k - 1)
    }
}

/// The indent one level deeper, mirroring the executable saturation.
pub open spec fn deeper(ind: int, inc: int) -> int {
    if ind + inc > usize::MAX {
        usize::MAX as int
    } else {
        ind + inc
    }
}

/// Pretty rendering of a value at indent `ind` with step `inc`.
pub open spec fn pstr(v: JVal, ind: int, inc: int) -> Seq<char>
    decreases v, 0int, 0int,
{
    match v {
        JVal::Arr(x) => {
            if x.len() == 0 {
                seq!['[', ']']
            } else {
                seq!['[', '\n'] + pitems(x, 0, deeper(ind, inc), inc) + seq!['\n'] + spaces(ind)
                    + seq![']']
            }
        },
        JVal::Obj(p) => pobj(p, ind, inc),
        _ => cstr(v),
    }
}

/// Pretty rendering of a whole object at indent `ind`.
pub open spec fn pobj(p: Seq<(JVal, JVal)>, ind: int, inc: int) -> Seq<char>
    decreases p, p.len() + 1, 0int,
{
    if p.len() == 0 {
        seq!['{', '}']
    } else {
        seq!['{', '\n'] + pentries(p, 0, deeper(ind, inc), inc) + seq!['\n'] + spaces(ind)
            + seq!['}']
    }
}

/// Pretty rendering of the items from `k` on, each on its own line.
pub open spec fn pitems(x: Seq<JVal>, k: int, ind: int, inc: int) -> Seq<char>
    decreases x, x.len() - k, 0int,
{
    if k < 0 || k >= x.len() {
        Seq::empty()
    } else {
        let sep: Seq<char> = if k > 0 {
            seq![',', '\n']
        } else {
            Seq::empty()
        };
        sep + spaces(ind) + pstr(x[k], ind, inc) + pitems(x, k + 1, ind, inc)
    }
}

/// Pretty rendering of the entries from `k` on, each on its own line; keys
/// render in their compact form.
pub open spec fn pentries(p: Seq<(JVal, JVal)>, k: int, ind: int, inc: int) -> Seq<char>
    decreases p, p.len() - k, 2int,
{
    if k < 0 || k >= p.len() {
        Seq::empty()
    } else {
        let sep: Seq<char> = if k > 0 {
            seq![',', '\n']
        } else {
            Seq::empty()
        };
        sep + spaces(ind) + key_str(p[k].0) + seq![':', ' '] + pstr(p[k].1, ind, inc) + pentries(
            p,
            k + 1,
            ind,
            inc,
        )
    }
}

pub proof fn lemma_zeros_snoc(n: int)
    requires
        n >= 0,
    ensures
        zeros(n + 1) == zeros(n) + seq!['0'],
    decreases n,
{
    if n == 0 {
        assert(zeros(1) =~= zeros(0) + seq!['0']);
    } else {
        lemma_zeros_snoc(n - 1);
        assert(zeros(n + 1) =~= zeros(n) + seq!['0']);
    }
}

pub proof fn lemma_spaces_snoc(n: int)
    requires
        n >= 0,
    ensures
        spaces(n + 1) == spaces(n) + seq![' '],
    decreases n,
{
    if n == 0 {
        assert(spaces(1) =~= spaces(0) + seq![' ']);
    } else {
        lemma_spaces_snoc(n - 1);
        assert(spaces(n + 1) =~= spaces(n) + seq![' ']);
    }
}

/// Appends `k` zero digits.
fn write_zeros(out: &mut Vec<char>, k: u128)
    ensures
        final(out)@ == old(out)@ + zeros(k as int),
{
    let mut c: u128 = 0;
    while c < k
        invariant
            0 <= c <= k,
            out@ == old(out)@ + zeros(c as int),
        decreases k - c,
    {
        out.push('0');
        proof {
            lemma_zeros_snoc(c as int);
            assert(old(out)@ + zeros(c as int) + seq!['0'] =~= old(out)@ + zeros(c + 1));
        }
        c = c + 1;
    }
    proof {
        assert(out@ =~= old(out)@ + zeros(k as int));
    }
}

/// Appends `k` spaces.
fn write_spaces(out: &mut Vec<char>, k: usize)
    ensures
        final(out)@ == old(out)@ + spaces(k as int),
{
    let mut c: usize = 0;
    while c < k
        invariant
            0 <= c <= k,
            out@ == old(out)@ + spaces(c as int),
        decreases k - c,
    {
        out.push(' ');
        proof {
            lemma_spaces_snoc(c as int);
            assert(old(out)@ + spaces(c as int) + seq![' '] =~= old(out)@ + spaces(c + 1));
        }
        c = c + 1;
    }
    proof {
        assert(out@ =~= old(out)@ + spaces(k as int));
    }
}

fn digit_of(d: u128) -> (r: char)
    requires
        d < 10,
    ensures
        r == digit_char(d as int),
{
    if d == 0 {
        '0'
    } else if d == 1 {
        '1'
    } else if d == 2 {
        '2'
    } else if d == 3 {
        '3'
    } else if d == 4 {
        '4'
    } else if d == 5 {
        '5'
    } else if d == 6 {
        '6'
    } else if d == 7 {
        '7'
    } else if d == 8 {
        '8'
    } else {
        '9'
    }
}

/// Appends the decimal numeral of `m`.
fn write_nat(out: &mut Vec<char>, m: u128)
    ensures
        final(out)@ == old(out)@ + nat_str(m as int),
    decreases m,
{
    if m < 10 {
        out.push(digit_of(m));
        proof {
            assert(out@ =~= old(out)@ + nat_str(m as int));
        }
    } else {
        write_nat(out, m / 10);
        out.push(digit_of(m % 10));
        proof {
            assert(out@ =~= old(out)@ + nat_str(m as int));
        }
    }
}

/// Appends the decimal numeral of `v`, with its sign.
fn write_int(out: &mut Vec<char>, v: i128)
    ensures
        final(out)@ == old(out)@ + int_str(v as int),
{
    if v < 0 {
        out.push('-');
        let mag: u128 = ((-(v + 1)) as u128) + 1;
        proof {
            assert(mag as int == -(v as int));
        }
        write_nat(out, mag);
        proof {
            assert(out@ =~= old(out)@ + (seq!['-'] + nat_str(mag as int)));
        }
    } else {
        write_nat(out, v as u128);
    }
}

/// Appends the escaped, quoted form of a text.
fn write_quoted(out: &mut Vec<char>, s: &String)
    ensures
        final(out)@ == old(out)@ + seq!['"'] + esc_from(s@, 0) + seq!['"'],
{
    out.push('"');
    let cs = str_to_chars(s.as_str());
    let ghost base = out@;
    let mut k: usize = 0;
    while k < cs.len()
        invariant
            0 <= k <= cs@.len(),
            cs@ == s@,
            base == old(out)@ + seq!['"'],
            out@ + esc_from(s@, k as int) == base + esc_from(s@, 0),
        decreases cs@.len() - k,
    {
        let c = cs[k];
        let ghost before = out@;
        if c == '\\' {
            out.push('\\');
            out.push('\\');
            proof {
                assert(out@ =~= before + seq!['\\', '\\']);
            }
        } else if c == '"' {
            out.push('\\');
            out.push('"');
            proof {
                assert(out@ =~= before + seq!['\\', '"']);
            }
        } else {
            out.push(c);
            proof {
                assert(out@ =~= before + seq![c]);
            }
        }
        proof {
            assert(out@ + esc_from(s@, k + 1) =~= base + esc_from(s@, 0));
        }
        k = k + 1;
    }
    proof {
        assert(esc_from(s@, cs@.len() as int) =~= Seq::<char>::empty());
        assert(out@ =~= base + esc_from(s@, 0));
    }
    out.push('"');
    proof {
        assert(out@ =~= old(out)@ + seq!['"'] + esc_from(s@, 0) + seq!['"']);
    }
}

/// Appends the rendering of an exact decimal.
fn write_dec(out: &mut Vec<char>, d: &Dec)
    ensures
        final(out)@ == old(out)@ + dec_str(d@),
{
    let ghost start = out@;
    if d.neg {
        out.push('-');
    }
    let ghost signed = out@;
    let n = d.digits.len();
    if n == 0 {
        out.push('0');
        proof {
            assert(out@ =~= old(out)@ + dec_str(d@));
        }
        return ;
    }
    if d.exp >= 0 {
        let mut t: usize = 0;
        while t < n
            invariant
                0 <= t <= n,
                n == d.digits@.len(),
                out@ == signed + d.digits@.subrange(0, t as int),
            decreases n - t,
        {
            out.push(d.digits[t]);
            proof {
                assert(out@ =~= signed + d.digits@.subrange(0, t + 1));
            }
            t = t + 1;
        }
        proof {
            assert(d.digits@.subrange(0, n as int) =~= d.digits@);
        }
        write_zeros(out, d.exp as u128);
        proof {
            assert(out@ =~= old(out)@ + dec_str(d@));
        }
    } else {
        let point_i: i128 = match (n as u64 as i128).checked_add(d.exp) {
            Some(x) => x,
            None => {
                proof {
                    assert(false);
                }
                0
            },
        };
        if point_i > 0 {
            let point: usize = point_i as usize;
            proof {
                assert(point as int == n + d.exp);
                assert(point <= n);
            }
            let mut t: usize = 0;
            while t < point
                invariant
                    0 <= t <= point,
                    point <= n,
                    n == d.digits@.len(),
                    out@ == signed + d.digits@.subrange(0, t as int),
                decreases point - t,
            {
                out.push(d.digits[t]);
                proof {
                    assert(out@ =~= signed + d.digits@.subrange(0, t + 1));
                }
                t = t + 1;
            }
            out.push('.');
            let ghost mid = out@;
            let mut u: usize = point;
            while u < n
                invariant
                    point <= u <= n,
                    n == d.digits@.len(),
                    mid == signed + d.digits@.subrange(0, point as int) + seq!['.'],
                    out@ == mid + d.digits@.subrange(point as int, u as int),
                decreases n - u,
            {
                out.push(d.digits[u]);
                proof {
                    assert(out@ =~= mid + d.digits@.subrange(point as int, u + 1));
                }
                u = u + 1;
            }
            proof {
                assert(out@ =~= old(out)@ + dec_str(d@));
            }
        } else {
            out.push('0');
            out.push('.');
            let ghost mid = out@;
            let mag_exp: u128 = ((-(d.exp + 1)) as u128) + 1;
            let negpoint: u128 = mag_exp - (n as u64 as u128);
            proof {
                assert(negpoint as int == -(n + d.exp));
            }
            write_zeros(out, negpoint);
            let ghost mid2 = out@;
            let mut t: usize = 0;
            while t < n
                invariant
                    0 <= t <= n,
                    n == d.digits@.len(),
                    out@ == mid2 + d.digits@.subrange(0, t as int),
                decreases n - t,
            {
                out.push(d.digits[t]);
                proof {
                    assert(out@ =~= mid2 + d.digits@.subrange(0, t + 1));
                }
                t = t + 1;
            }
            proof {
                assert(d.digits@.subrange(0, n as int) =~= d.digits@);
                assert(out@ =~= old(out)@ + dec_str(d@));
            }
        }
    }
}

/// Appends the compact rendering of a value.
fn write_value(v: &JsonDtype, out: &mut Vec<char>)
    ensures
        final(out)@ == old(out)@ + cstr(v@),
    decreases jsize(*v), 0int,
{
    match v {
        JsonDtype::String(st) => {
            write_quoted(out, st);
            proof {
                assert(out@ =~= old(out)@ + cstr(v@));
            }
        },
        JsonDtype::Number(Num::Integer(i)) => {
            write_int(out, *i);
        },
        JsonDtype::Number(Num::Float(d)) => {
            write_dec(out, d);
        },
        JsonDtype::Boolean(b) => {
            if *b {
                out.push('t');
                out.push('r');
                out.push('u');
                out.push('e');
                proof {
                    assert(out@ =~= old(out)@ + cstr(v@));
                }
            } else {
                out.push('f');
                out.push('a');
                out.push('l');
                out.push('s');
                out.push('e');
                proof {
                    assert(out@ =~= old(out)@ + cstr(v@));
                }
            }
        },
        JsonDtype::Null => {
            out.push('n');
            out.push('u');
            out.push('l');
            out.push('l');
            proof {
                assert(out@ =~= old(out)@ + cstr(v@));
            }
        },
        JsonDtype::Array(a) => {
            let ghost xs = view_items(a@);
            proof {
                lemma_view_items_props(a@);
            }
            out.push('[');
            let ghost base = out@;
            let mut k: usize = 0;
            while k < a.len()
                invariant
                    0 <= k <= a@.len(),
                    *v == JsonDtype::Array(*a),
                    xs == view_items(a@),
                    xs.len() == a@.len(),
                    forall|t: int| 0 <= t < a@.len() ==> xs[t] == view_value(#[trigger] a@[t]),
                    base == old(out)@ + seq!['['],
                    out@ + citems(xs, k as int) == base + citems(xs, 0),
                decreases a@.len() - k,
            {
                let ghost before = out@;
                if k > 0 {
                    out.push(',');
                    out.push(' ');
                }
                proof {
                    lemma_jsize_items_elem(a@, k as int);
                }
                write_value(&a[k], out);
                proof {
                    if k > 0 {
                        assert(out@ =~= before + (seq![',', ' '] + cstr(xs[k as int])));
                    } else {
                        assert(out@ =~= before + (Seq::<char>::empty() + cstr(xs[k as int])));
                    }
                    assert(out@ + citems(xs, k + 1) =~= base + citems(xs, 0));
                }
                k = k + 1;
            }
            proof {
                assert(citems(xs, a@.len() as int) =~= Seq::<char>::empty());
                assert(out@ =~= base + citems(xs, 0));
            }
            out.push(']');
            proof {
                assert(out@ =~= old(out)@ + (seq!['['] + citems(xs, 0) + seq![']']));
                assert(cstr(v@) == seq!['['] + citems(xs, 0) + seq![']']);
            }
        },
        JsonDtype::Object(o) => {
            out.push('{');
            let ghost base = out@;
            write_entries(&o.entries, out);
            out.push('}');
            proof {
                assert(out@ =~= old(out)@ + (seq!['{'] + centries(view_entries(o.entries@), 0)
                    + seq!['}']));
                assert(cstr(v@) == seq!['{'] + centries(view_entries(o.entries@), 0) + seq!['}']);
            }
        },
    }
}

/// Appends the compact rendering of a key.
fn write_key(kv: &JsonDtype, out: &mut Vec<char>)
    ensures
        final(out)@ == old(out)@ + key_str(kv@),
    decreases jsize(*kv), 1int,
{
    match kv {
        JsonDtype::String(st) => {
            write_quoted(out, st);
            proof {
                assert(out@ =~= old(out)@ + key_str(kv@));
            }
        },
        _ => {
            out.push('"');
            write_value(kv, out);
            out.push('"');
            proof {
                assert(out@ =~= old(out)@ + (seq!['"'] + cstr(kv@) + seq!['"']));
                assert(key_str(kv@) == seq!['"'] + cstr(kv@) + seq!['"']);
            }
        },
    }
}

/// Appends the compact rendering of an entry list.
fn write_entries(es: &Vec<(JsonDtype, JsonDtype)>, out: &mut Vec<char>)
    ensures
        final(out)@ == old(out)@ + centries(view_entries(es@), 0),
    decreases jsize_entries(es@), 2int,
{
    let ghost ps = view_entries(es@);
    proof {
        lemma_view_entries_props(es@);
    }
    let mut k: usize = 0;
    while k < es.len()
        invariant
            0 <= k <= es@.len(),
            ps == view_entries(es@),
            ps.len() == es@.len(),
            forall|t: int|
                0 <= t < es@.len() ==> ps[t] == (
                view_value((#[trigger] es@[t]).0),
                view_value(es@[t].1),
                ),
            out@ + centries(ps, k as int) == old(out)@ + centries(ps, 0),
        decreases es@.len() - k,
    {
        let ghost before = out@;
        if k > 0 {
            out.push(',');
            out.push(' ');
        }
        proof {
            lemma_jsize_entries_elem(es@, k as int);
            lemma_jsize_pos(es@[k as int].0);
            lemma_jsize_pos(es@[k as int].1);
        }
        write_key(&es[k].0, out);
        out.push(':');
        out.push(' ');
        write_value(&es[k].1, out);
        proof {
            if k > 0 {
                assert(out@ =~= before + (seq![',', ' '] + key_str(ps[k as int].0) + seq![':', ' ']
                    + cstr(ps[k as int].1)));
            } else {
                assert(out@ =~= before + (Seq::<char>::empty() + key_str(ps[k as int].0)
                    + seq![':', ' '] + cstr(ps[k as int].1)));
            }
            assert(out@ + centries(ps, k + 1) =~= old(out)@ + centries(ps, 0));
        }
        k = k + 1;
    }
    proof {
        assert(centries(ps, es@.len() as int) =~= Seq::<char>::empty());
        assert(out@ =~= old(out)@ + centries(ps, 0));
    }
}

/// The indent one level deeper, saturating at the machine limit.
fn deeper_exec(ind: usize, inc: usize) -> (r: usize)
    ensures
        r as int == deeper(ind as int, inc as int),
{
    if ind > usize::MAX - inc {
        usize::MAX
    } else {
        ind + inc
    }
}

/// Appends the pretty rendering of a value.
fn write_pretty(v: &JsonDtype, ind: usize, inc: usize, out: &mut Vec<char>)
    ensures
        final(out)@ == old(out)@ + pstr(v@, ind as int, inc as int),
    decreases jsize(*v), 0int,
{
    match v {
        JsonDtype::Array(a) => {
            let ghost xs = view_items(a@);
            proof {
                lemma_view_items_props(a@);
            }
            if a.len() == 0 {
                out.push('[');
                out.push(']');
                proof {
                    assert(out@ =~= old(out)@ + pstr(v@, ind as int, inc as int));
                }
                return ;
            }
            out.push('[');
            out.push('\n');
            let ghost base = out@;
            let ind2 = deeper_exec(ind, inc);
            let mut k: usize = 0;
            while k < a.len()
                invariant
                    0 <= k <= a@.len(),
                    *v == JsonDtype::Array(*a),
                    xs == view_items(a@),
                    xs.len() == a@.len(),
                    forall|t: int| 0 <= t < a@.len() ==> xs[t] == view_value(#[trigger] a@[t]),
                    base == old(out)@ + seq!['[', '\n'],
                    ind2 as int == deeper(ind as int, inc as int),
                    out@ + pitems(xs, k as int, ind2 as int, inc as int) == base + pitems(
                        xs,
                        0,
                        ind2 as int,
                        inc as int,
                    ),
                decreases a@.len() - k,
            {
                let ghost before = out@;
                if k > 0 {
                    out.push(',');
                    out.push('\n');
                }
                write_spaces(out, ind2);
                proof {
                    lemma_jsize_items_elem(a@, k as int);
                }
                write_pretty(&a[k], ind2, inc, out);
                proof {
                    if k > 0 {
                        assert(out@ =~= before + (seq![',', '\n'] + spaces(ind2 as int) + pstr(
                            xs[k as int],
                            ind2 as int,
                            inc as int,
                        )));
                    } else {
                        assert(out@ =~= before + (Seq::<char>::empty() + spaces(ind2 as int)
                            + pstr(xs[k as int], ind2 as int, inc as int)));
                    }
                    assert(out@ + pitems(xs, k + 1, ind2 as int, inc as int) =~= base + pitems(
                        xs,
                        0,
                        ind2 as int,
                        inc as int,
                    ));
                }
                k = k + 1;
            }
            out.push('\n');
            write_spaces(out, ind);
            out.push(']');
            proof {
                assert(pitems(xs, a@.len() as int, ind2 as int, inc as int)
                    =~= Seq::<char>::empty());
                assert(out@ =~= old(out)@ + (seq!['[', '\n'] + pitems(
                    xs,
                    0,
                    deeper(ind as int, inc as int),
                    inc as int,
                ) + seq!['\n'] + spaces(ind as int) + seq![']']));
            }
        },
        JsonDtype::Object(o) => {
            write_pretty_entries(&o.entries, ind, inc, out);
            proof {
                assert(pstr(v@, ind as int, inc as int) == pobj(
                    view_entries(o.entries@),
                    ind as int,
                    inc as int,
                ));
            }
        },
        _ => {
            write_value(v, out);
            proof {
                assert(pstr(v@, ind as int, inc as int) == cstr(v@));
            }
        },
    }
}

/// Appends the pretty rendering of a whole object (braces included).
fn write_pretty_entries(es: &Vec<(JsonDtype, JsonDtype)>, ind: usize, inc: usize, out: &mut Vec<
    char,
>)
    ensures
        final(out)@ == old(out)@ + pobj(view_entries(es@), ind as int, inc as int),
    decreases jsize_entries(es@), 2int,
{
    let ghost ps = view_entries(es@);
    proof {
        lemma_view_entries_props(es@);
    }
    if es.len() == 0 {
        out.push('{');
        out.push('}');
        proof {
            assert(out@ =~= old(out)@ + pobj(ps, ind as int, inc as int));
        }
        return ;
    }
    out.push('{');
    out.push('\n');
    let ghost base = out@;
    let ind2 = deeper_exec(ind, inc);
    let mut k: usize = 0;
    while k < es.len()
        invariant
            0 <= k <= es@.len(),
            ps == view_entries(es@),
            ps.len() == es@.len(),
            es@.len() > 0,
            forall|t: int|
                0 <= t < es@.len() ==> ps[t] == (
                view_value((#[trigger] es@[t]).0),
                view_value(es@[t].1),
                ),
            base == old(out)@ + seq!['{', '\n'],
            ind2 as int == deeper(ind as int, inc as int),
            out@ + pentries(ps, k as int, ind2 as int, inc as int) == base + pentries(
                ps,
                0,
                ind2 as int,
                inc as int,
            ),
        decreases es@.len() - k,
    {
        let ghost before = out@;
        if k > 0 {
            out.push(',');
            out.push('\n');
        }
        write_spaces(out, ind2);
        proof {
            lemma_jsize_entries_elem(es@, k as int);
            lemma_jsize_pos(es@[k as int].0);
            lemma_jsize_pos(es@[k as int].1);
        }
        write_key(&es[k].0, out);
        out.push(':');
        out.push(' ');
        write_pretty(&es[k].1, ind2, inc, out);
        proof {
            if k > 0 {
                assert(out@ =~= before + (seq![',', '\n'] + spaces(ind2 as int) + key_str(
                    ps[k as int].0,
                ) + seq![':', ' '] + pstr(ps[k as int].1, ind2 as int, inc as int)));
            } else {
                assert(out@ =~= before + (Seq::<char>::empty() + spaces(ind2 as int) + key_str(
                    ps[k as int].0,
                ) + seq![':', ' '] + pstr(ps[k as int].1, ind2 as int, inc as int)));
            }
            assert(out@ + pentries(ps, k + 1, ind2 as int, inc as int) =~= base + pentries(
                ps,
                0,
                ind2 as int,
                inc as int,
            ));
        }
        k = k + 1;
    }
    out.push('\n');
    write_spaces(out, ind);
    out.push('}');
    proof {
        assert(pentries(ps, es@.len() as int, ind2 as int, inc as int) =~= Seq::<char>::empty());
        assert(out@ =~= old(out)@ + (seq!['{', '\n'] + pentries(
            ps,
            0,
            deeper(ind as int, inc as int),
            inc as int,
        ) + seq!['\n'] + spaces(ind as int) + seq!['}']));
    }
}

impl Json {
    /// Compact rendering: one line, with a space after each colon and comma.
    pub fn stringify(&self) -> (r: String)
        ensures
            r@ == ostr(self@),
    {
        let mut out: Vec<char> = Vec::new();
        out.push('{');
        write_entries(&self.entries, &mut out);
        out.push('}');
        proof {
            assert(out@ =~= ostr(self@));
        }
        chars_to_string(&out)
    }

    /// Pretty rendering with the default step of four spaces per level.
    pub fn stringify_pretty(&self) -> (r: String)
        ensures
            r@ == pobj(self@, 0, 4),
    {
        let mut out: Vec<char> = Vec::new();
        write_pretty_entries(&self.entries, 0, 4, &mut out);
        proof {
            assert(out@ =~= pobj(self@, 0, 4));
        }
        chars_to_string(&out)
    }
}

impl JsonDtype {
    /// Pretty rendering of a value at the given indent and step.
    pub fn stringify_pretty(&self, indent: usize, inc: usize) -> (r: String)
        ensures
            r@ == pstr(self@, indent as int, inc as int),
    {
        let mut out: Vec<char> = Vec::new();
        write_pretty(self, indent, inc, &mut out);
        proof {
            assert(out@ =~= pstr(self@, indent as int, inc as int));
        }
        chars_to_string(&out)
    }

    /// Compact rendering of a value.
    pub fn stringify(&self) -> (r: String)
        ensures
            r@ == cstr(self@),
    {
        let mut out: Vec<char> = Vec::new();
        write_value(self, &mut out);
        proof {
            assert(out@ =~= cstr(self@));
        }
        chars_to_string(&out)
    }
}

/// The text with every space, tab and newline removed.
pub open spec fn strip_ws(s: Seq<char>) -> Seq<char>
    decreases s.len(),
{
    if s.len() == 0 {
        Seq::empty()
    } else if crate::parse::is_ws(s[0]) {
        strip_ws(s.subrange(1, s.len() as int))
    } else {
        seq![s[0]] + strip_ws(s.subrange(1, s.len() as int))
    }
}

pub proof fn lemma_strip_concat(a: Seq<char>, b: Seq<char>)
    ensures
        strip_ws(a + b) == strip_ws(a) + strip_ws(b),
    decreases a.len(),
{
    if a.len() == 0 {
        assert(a + b =~= b);
        assert(strip_ws(a) + strip_ws(b) =~= strip_ws(b));
    } else {
        let c = a + b;
        assert(c[0] == a[0]);
        assert(c.subrange(1, c.len() as int) =~= a.subrange(1, a.len() as int) + b);
        lemma_strip_concat(a.subrange(1, a.len() as int), b);
        if !crate::parse::is_ws(a[0]) {
            assert(seq![a[0]] + (strip_ws(a.subrange(1, a.len() as int)) + strip_ws(b)) =~= (
            seq![a[0]] + strip_ws(a.subrange(1, a.len() as int))) + strip_ws(b));
        }
    }
}

pub proof fn lemma_strip_spaces(n: int)
    ensures
        strip_ws(spaces(n)) == Seq::<char>::empty(),
    decreases n,
{
    if n > 0 {
        assert(spaces(n).subrange(1, spaces(n).len() as int) =~= spaces(n - 1));
        lemma_strip_spaces(n - 1);
    }
}

/// A one- or two-character piece with no whitespace strips to itself, and a
/// separator strips to its comma; spelled out for the pieces the renderers
/// use.
pub proof fn lemma_strip_small()
    ensures
        strip_ws(seq![',', '\n']) == seq![','],
        strip_ws(seq![',', ' ']) == seq![','],
        strip_ws(seq![':', ' ']) == seq![':'],
        strip_ws(seq!['[', '\n']) == seq!['['],
        strip_ws(seq!['{', '\n']) == seq!['{'],
        strip_ws(seq!['\n']) == Seq::<char>::empty(),
        strip_ws(seq![']']) == seq![']'],
        strip_ws(seq!['}']) == seq!['}'],
        strip_ws(seq!['[']) == seq!['['],
        strip_ws(seq!['{']) == seq!['{'],
        strip_ws(seq!['[', ']']) == seq!['[', ']'],
        strip_ws(seq!['{', '}']) == seq!['{', '}'],
        strip_ws(Seq::<char>::empty()) == Seq::<char>::empty(),
{
    let e = Seq::<char>::empty();
    assert(strip_ws(e) =~= e);
    assert(seq!['\n'].subrange(1, 1) =~= e);
    assert(strip_ws(seq!['\n']) =~= e);
    assert(seq![' '].subrange(1, 1) =~= e);
    assert(strip_ws(seq![' ']) =~= e);
    assert(seq![']'].subrange(1, 1) =~= e);
    assert(strip_ws(seq![']']) =~= seq![']']);
    assert(seq!['}'].subrange(1, 1) =~= e);
    assert(strip_ws(seq!['}']) =~= seq!['}']);
    assert(seq![','].subrange(1, 1) =~= e);
    assert(strip_ws(seq![',']) =~= seq![',']);
    assert(seq!['['].subrange(1, 1) =~= e);
    assert(strip_ws(seq!['[']) =~= seq!['[']);
    assert(seq!['{'].subrange(1, 1) =~= e);
    assert(strip_ws(seq!['{']) =~= seq!['{']);

    assert(seq![',', '\n'].subrange(1, 2) =~= seq!['\n']);
    assert(strip_ws(seq![',', '\n']) =~= seq![','] + strip_ws(seq!['\n']));
    assert(strip_ws(seq![',', '\n']) =~= seq![',']);

    assert(seq![',', ' '].subrange(1, 2) =~= seq![' ']);
    assert(strip_ws(seq![',', ' ']) =~= seq![','] + strip_ws(seq![' ']));
    assert(strip_ws(seq![',', ' ']) =~= seq![',']);

    assert(seq![':', ' '].subrange(1, 2) =~= seq![' ']);
    assert(strip_ws(seq![':', ' ']) =~= seq![':'] + strip_ws(seq![' ']));
    assert(strip_ws(seq![':', ' ']) =~= seq![':']);

    assert(seq!['[', '\n'].subrange(1, 2) =~= seq!['\n']);
    assert(strip_ws(seq!['[', '\n']) =~= seq!['['] + strip_ws(seq!['\n']));
    assert(strip_ws(seq!['[', '\n']) =~= seq!['[']);

    assert(seq!['{', '\n'].subrange(1, 2) =~= seq!['\n']);
    assert(strip_ws(seq!['{', '\n']) =~= seq!['{'] + strip_ws(seq!['\n']));
    assert(strip_ws(seq!['{', '\n']) =~= seq!['{']);

    assert(seq!['[', ']'].subrange(1, 2) =~= seq![']']);
    assert(strip_ws(seq!['[', ']']) =~= seq!['['] + strip_ws(seq![']']));
    assert(strip_ws(seq!['[', ']']) =~= seq!['[', ']']);

    assert(seq!['{', '}'].subrange(1, 2) =~= seq!['}']);
    assert(strip_ws(seq!['{', '}']) =~= seq!['{'] + strip_ws(seq!['}']));
    assert(strip_ws(seq!['{', '}']) =~= seq!['{', '}']);
}

/// Pretty and compact rendering agree once whitespace is stripped.
pub proof fn lemma_strip_pstr(v: JVal, ind: int, inc: int)
    ensures
        strip_ws(pstr(v, ind, inc)) == strip_ws(cstr(v)),
    decreases v, 0int, 0int,
{
    lemma_strip_small();
    match v {
        JVal::Arr(x) => {
            if x.len() == 0 {
                assert(citems(x, 0) =~= Seq::<char>::empty());
                assert(seq!['['] + Seq::<char>::empty() + seq![']'] =~= seq!['[', ']']);
            } else {
                let d = deeper(ind, inc);
                lemma_strip_pitems(x, 0, d, inc);
                lemma_strip_concat(seq!['[', '\n'], pitems(x, 0, d, inc));
                lemma_strip_concat(seq!['[', '\n'] + pitems(x, 0, d, inc), seq!['\n']);
                lemma_strip_concat(
                    seq!['[', '\n'] + pitems(x, 0, d, inc) + seq!['\n'],
                    spaces(ind),
                );
                lemma_strip_concat(
                    seq!['[', '\n'] + pitems(x, 0, d, inc) + seq!['\n'] + spaces(ind),
                    seq![']'],
                );
                lemma_strip_spaces(ind);
                lemma_strip_concat(seq!['['], citems(x, 0));
                lemma_strip_concat(seq!['['] + citems(x, 0), seq![']']);
                assert(strip_ws(seq!['[', '\n']) =~= strip_ws(seq!['[']));
                assert(strip_ws(pstr(v, ind, inc)) =~= strip_ws(cstr(v)));
            }
        },
        JVal::Obj(p) => {
            lemma_strip_pobj(p, ind, inc);
        },
        _ => {},
    }
}

pub proof fn lemma_strip_pobj(p: Seq<(JVal, JVal)>, ind: int, inc: int)
    ensures
        strip_ws(pobj(p, ind, inc)) == strip_ws(ostr(p)),
    decreases p, p.len() + 1, 0int,
{
    lemma_strip_small();
    if p.len() == 0 {
        assert(centries(p, 0) =~= Seq::<char>::empty());
        assert(seq!['{'] + Seq::<char>::empty() + seq!['}'] =~= seq!['{', '}']);
    } else {
        let d = deeper(ind, inc);
        lemma_strip_pentries(p, 0, d, inc);
        lemma_strip_concat(seq!['{', '\n'], pentries(p, 0, d, inc));
        lemma_strip_concat(seq!['{', '\n'] + pentries(p, 0, d, inc), seq!['\n']);
        lemma_strip_concat(seq!['{', '\n'] + pentries(p, 0, d, inc) + seq!['\n'], spaces(ind));
        lemma_strip_concat(
            seq!['{', '\n'] + pentries(p, 0, d, inc) + seq!['\n'] + spaces(ind),
            seq!['}'],
        );
        lemma_strip_spaces(ind);
        lemma_strip_concat(seq!['{'], centries(p, 0));
        lemma_strip_concat(seq!['{'] + centries(p, 0), seq!['}']);
        assert(strip_ws(seq!['{', '\n']) =~= strip_ws(seq!['{']));
        assert(strip_ws(pobj(p, ind, inc)) =~= strip_ws(ostr(p)));
    }
}

pub proof fn lemma_strip_pitems(x: Seq<JVal>, k: int, ind: int, inc: int)
    ensures
        strip_ws(pitems(x, k, ind, inc)) == strip_ws(citems(x, k)),
    decreases x, x.len() - k, 0int,
{
    lemma_strip_small();
    if 0 <= k < x.len() {
        let sep: Seq<char> = if k > 0 {
            seq![',', '\n']
        } else {
            Seq::empty()
        };
        let csep: Seq<char> = if k > 0 {
            seq![',', ' ']
        } else {
            Seq::empty()
        };
        lemma_strip_pstr(x[k], ind, inc);
        lemma_strip_pitems(x, k + 1, ind, inc);
        lemma_strip_spaces(ind);
        lemma_strip_concat(sep, spaces(ind));
        lemma_strip_concat(sep + spaces(ind), pstr(x[k], ind, inc));
        lemma_strip_concat(sep + spaces(ind) + pstr(x[k], ind, inc), pitems(x, k + 1, ind, inc));
        lemma_strip_concat(csep, cstr(x[k]));
        lemma_strip_concat(csep + cstr(x[k]), citems(x, k + 1));
        assert(strip_ws(sep) =~= strip_ws(csep));
        assert(strip_ws(pitems(x, k, ind, inc)) =~= strip_ws(citems(x, k)));
    }
}

pub proof fn lemma_strip_pentries(p: Seq<(JVal, JVal)>, k: int, ind: int, inc: int)
    ensures
        strip_ws(pentries(p, k, ind, inc)) == strip_ws(centries(p, k)),
    decreases p, p.len() - k, 2int,
{
    lemma_strip_small();
    if 0 <= k < p.len() {
        let sep: Seq<char> = if k > 0 {
            seq![',', '\n']
        } else {
            Seq::empty()
        };
        let csep: Seq<char> = if k > 0 {
            seq![',', ' ']
        } else {
            Seq::empty()
        };
        lemma_strip_pstr(p[k].1, ind, inc);
        lemma_strip_pentries(p, k + 1, ind, inc);
        lemma_strip_spaces(ind);
        lemma_strip_concat(sep, spaces(ind));
        lemma_strip_concat(sep + spaces(ind), key_str(p[k].0));
        lemma_strip_concat(sep + spaces(ind) + key_str(p[k].0), seq![':', ' ']);
        lemma_strip_concat(
            sep + spaces(ind) + key_str(p[k].0) + seq![':', ' '],
            pstr(p[k].1, ind, inc),
        );
        lemma_strip_concat(
            sep + spaces(ind) + key_str(p[k].0) + seq![':', ' '] + pstr(p[k].1, ind, inc),
            pentries(p, k + 1, ind, inc),
        );
        lemma_strip_concat(csep, key_str(p[k].0));
        lemma_strip_concat(csep + key_str(p[k].0), seq![':', ' ']);
        lemma_strip_concat(csep + key_str(p[k].0) + seq![':', ' '], cstr(p[k].1));
        lemma_strip_concat(
            csep + key_str(p[k].0) + seq![':', ' '] + cstr(p[k].1),
            centries(p, k + 1),
        );
        assert(strip_ws(sep) =~= strip_ws(csep));
        assert(strip_ws(pentries(p, k, ind, inc)) =~= strip_ws(centries(p, k)));
    }
}

/// The law of the two serializers: stripping spaces, tabs and newlines from
/// the pretty form of an object yields the stripped compact form.
pub proof fn lemma_pretty_compact_agree(o: Seq<(JVal, JVal)>, ind: int, inc: int)
    ensures
        strip_ws(pobj(o, ind, inc)) == strip_ws(ostr(o)),
{
    lemma_strip_pobj(o, ind, inc);
}

} // verus!
