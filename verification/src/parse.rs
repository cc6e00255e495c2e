//! The parser: a single-pass recursive descent over a character sequence.
//!
//! The functions `sp_*` are the specification of the accepted dialect and of
//! the tree each text parses to; the executable parser is proved to return
//! exactly what they say, and an error exactly where they say `None`.

use vstd::prelude::*;

use crate::model::DecModel;
use crate::model::JVal;
use crate::model::is_digit;
use crate::model::jval_wf;
use crate::model::upsert;
use crate::model::key_idx;
use crate::model::lemma_key_idx_from_props;
use crate::value::Dec;
use crate::value::Json;
use crate::value::JsonDtype;
use crate::value::Num;
use crate::value::lemma_view_items_props;
use crate::value::view_items;
use crate::value::view_value;
use vstd::string::StringExecFns;
use vstd::string::StrSliceExecFns;

verus! {

/// The whitespace of the dialect: space, newline and tab (not carriage return).
pub open spec fn is_ws(c: char) -> bool {
    c == ' ' || c == '\n' || c == '\t'
}

/// First position at or after `i` holding no whitespace (or the end).
pub open spec fn ws_end(s: Seq<char>, i: int) -> int
    decreases s.len() - i,
{
    if i < 0 || i >= s.len() {
        i
    } else if is_ws(s[i]) {
        ws_end(s, i + 1)
    } else {
        i
    }
}

pub proof fn lemma_ws_end_bounds(s: Seq<char>, i: int)
    requires
        0 <= i <= s.len(),
    ensures
        i <= ws_end(s, i) <= s.len(),
    decreases s.len() - i,
{
    if i < s.len() && is_ws(s[i]) {
        lemma_ws_end_bounds(s, i + 1);
    }
}

/// Numeric value of a digit string, most significant first.
pub open spec fn digits_val(ds: Seq<char>) -> int
    decreases ds.len(),
{
    if ds.len() == 0 {
        0
    } else {
        digits_val(ds.subrange(0, ds.len() - 1)) * 10 + (ds[ds.len() - 1] as int - '0' as int)
    }
}

pub proof fn lemma_digits_val_nonneg(ds: Seq<char>)
    requires
        forall|i: int| 0 <= i < ds.len() ==> is_digit(#[trigger] ds[i]),
    ensures
        digits_val(ds) >= 0,
    decreases ds.len(),
{
    if ds.len() > 0 {
        let pre = ds.subrange(0, ds.len() - 1);
        assert(forall|i: int| 0 <= i < pre.len() ==> is_digit(#[trigger] pre[i]));
        lemma_digits_val_nonneg(pre);
        assert(digits_val(pre) * 10 >= 0) by (nonlinear_arith)
            requires
                digits_val(pre) >= 0,
        ;
    }
}

/// Appending a digit multiplies by ten and adds it.
pub proof fn lemma_digits_val_push(ds: Seq<char>, c: char)
    ensures
        digits_val(ds.push(c)) == digits_val(ds) * 10 + (c as int - '0' as int),
{
    let e = ds.push(c);
    assert(e.subrange(0, e.len() - 1) =~= ds);
}

/// The string scanner: accumulates characters up to an unescaped quote,
/// decoding only the escapes `\\` and `\"`.
pub open spec fn sp_string(s: Seq<char>, i: int, skip: bool, acc: Seq<char>) -> Option<
    (JVal, int),
>
    decreases s.len() - i,
{
    if i < 0 || i >= s.len() {
        None
    } else {
        let c = s[i];
        if c == '\\' {
            if skip {
                sp_string(s, i + 1, false, acc.push('\\'))
            } else {
                sp_string(s, i + 1, true, acc)
            }
        } else if c == '"' {
            if skip {
                sp_string(s, i + 1, false, acc.push('"'))
            } else {
                Some((JVal::Str(acc), i + 1))
            }
        } else if skip {
            sp_string(s, i + 1, false, acc.push('\\').push(c))
        } else {
            sp_string(s, i + 1, false, acc.push(c))
        }
    }
}

pub open spec fn is_bool_char(c: char) -> bool {
    c == 't' || c == 'r' || c == 'u' || c == 'e' || c == 'f' || c == 'a' || c == 'l' || c == 's'
}

/// The boolean scanner: greedily consumes letter runs, then compares them
/// with the literals `true` and `false`.
pub open spec fn sp_bool(s: Seq<char>, i: int, acc: Seq<char>) -> Option<(JVal, int)>
    decreases s.len() - i,
{
    if i < 0 || i >= s.len() {
        None
    } else if is_bool_char(s[i]) {
        sp_bool(s, i + 1, acc.push(s[i]))
    } else if acc == seq!['t', 'r', 'u', 'e'] {
        Some((JVal::Bool(true), i))
    } else if acc == seq!['f', 'a', 'l', 's', 'e'] {
        Some((JVal::Bool(false), i))
    } else {
        None
    }
}

pub open spec fn is_null_char(c: char) -> bool {
    c == 'n' || c == 'u' || c == 'l'
}

/// The null scanner.
pub open spec fn sp_null(s: Seq<char>, i: int, acc: Seq<char>) -> Option<(JVal, int)>
    decreases s.len() - i,
{
    if i < 0 || i >= s.len() {
        None
    } else if is_null_char(s[i]) {
        sp_null(s, i + 1, acc.push(s[i]))
    } else if acc == seq!['n', 'u', 'l', 'l'] {
        Some((JVal::Null, i))
    } else {
        None
    }
}

/// Outcome of the number scanner: the sign, the digits before the point,
/// after the point, and of the exponent, the flags for a seen point and
/// exponent mark, and the position of the terminating character.
pub struct NumScan {
    pub intd: Seq<char>,
    pub frd: Seq<char>,
    pub exd: Seq<char>,
    pub isf: bool,
    pub ise: bool,
    pub end: int,
}

/// The number scanner: consumes digits, at most one `.` and at most one
/// `e`/`E`, and stops at the first other character. `None` on a repeated
/// `.`/`e` or on end of input.
pub open spec fn sp_num_scan(s: Seq<char>, i: int, st: NumScan) -> Option<NumScan>
    decreases s.len() - i,
{
    if i < 0 || i >= s.len() {
        None
    } else {
        let c = s[i];
        if c == '.' {
            if st.isf || st.ise {
                None
            } else {
                sp_num_scan(s, i + 1, NumScan { isf: true, ..st })
            }
        } else if c == 'e' || c == 'E' {
            if st.ise {
                None
            } else {
                sp_num_scan(s, i + 1, NumScan { ise: true, ..st })
            }
        } else if is_digit(c) {
            if st.ise {
                sp_num_scan(s, i + 1, NumScan { exd: st.exd.push(c), ..st })
            } else if st.isf {
                sp_num_scan(s, i + 1, NumScan { frd: st.frd.push(c), ..st })
            } else {
                sp_num_scan(s, i + 1, NumScan { intd: st.intd.push(c), ..st })
            }
        } else {
            Some(NumScan { end: i, ..st })
        }
    }
}

/// First index of `ds` holding a digit other than `'0'`, or the length.
pub open spec fn first_sig(ds: Seq<char>, i: int) -> int
    decreases ds.len() - i,
{
    if i < 0 || i >= ds.len() {
        ds.len() as int
    } else if ds[i] != '0' {
        i
    } else {
        first_sig(ds, i + 1)
    }
}

/// Last index of `ds` holding a digit other than `'0'`, or -1.
pub open spec fn last_sig(ds: Seq<char>, i: int) -> int
    decreases i + 1,
{
    if i < 0 || i >= ds.len() {
        -1
    } else if ds[i] != '0' {
        i
    } else {
        last_sig(ds, i - 1)
    }
}

pub proof fn lemma_first_sig_props(ds: Seq<char>, i: int)
    requires
        0 <= i <= ds.len(),
    ensures
        i <= first_sig(ds, i) <= ds.len(),
        forall|t: int| i <= t < first_sig(ds, i) ==> ds[t] == '0',
        first_sig(ds, i) < ds.len() ==> ds[first_sig(ds, i)] != '0',
    decreases ds.len() - i,
{
    if i < ds.len() && ds[i] == '0' {
        lemma_first_sig_props(ds, i + 1);
    }
}

pub proof fn lemma_last_sig_props(ds: Seq<char>, i: int)
    requires
        -1 <= i < ds.len(),
    ensures
        -1 <= last_sig(ds, i) <= i,
        forall|t: int| last_sig(ds, i) < t <= i ==> ds[t] == '0',
        last_sig(ds, i) >= 0 ==> ds[last_sig(ds, i)] != '0',
    decreases i + 1,
{
    if 0 <= i && ds[i] == '0' {
        lemma_last_sig_props(ds, i - 1);
    }
}

/// The value a finished number scan denotes. Mirrors the executable limits:
/// an integer literal out of the 128-bit signed range, an exponent whose own
/// digits exceed that range, or a normalized exponent above it, all fail.
pub open spec fn sp_num_finish(st: NumScan, neg: bool) -> Option<JVal> {
    if !st.isf {
        if st.ise || st.intd.len() == 0 {
            None
        } else {
            let m = digits_val(st.intd);
            let v = if neg {
                -m
            } else {
                m
            };
            if i128::MIN <= v <= i128::MAX {
                Some(JVal::Int(v))
            } else {
                None
            }
        }
    } else {
        if st.intd.len() + st.frd.len() == 0 {
            None
        } else if st.ise && st.exd.len() == 0 {
            None
        } else {
            let ev = digits_val(st.exd);
            if ev > i128::MAX {
                None
            } else {
                let alld = st.intd + st.frd;
                let lead = first_sig(alld, 0);
                let last = last_sig(alld, alld.len() - 1);
                if last < 0 {
                    Some(JVal::Dec(DecModel { neg, digits: Seq::empty(), exp: 0 }))
                } else {
                    let exp = ev - st.frd.len() + (alld.len() - 1 - last);
                    if exp > i128::MAX {
                        None
                    } else {
                        Some(
                            JVal::Dec(
                                DecModel { neg, digits: alld.subrange(lead, last + 1), exp },
                            ),
                        )
                    }
                }
            }
        }
    }
}

/// The number production: an optional leading minus, then the scan, then the
/// finish. The terminating character is not consumed.
pub open spec fn sp_number(s: Seq<char>, i: int) -> Option<(JVal, int)> {
    if i < 0 || i >= s.len() {
        None
    } else {
        let neg = s[i] == '-';
        let start = if neg {
            i + 1
        } else {
            i
        };
        let st0 = NumScan {
            intd: Seq::empty(),
            frd: Seq::empty(),
            exd: Seq::empty(),
            isf: false,
            ise: false,
            end: start,
        };
        match sp_num_scan(s, start, st0) {
            None => None,
            Some(st) => match sp_num_finish(st, neg) {
                None => None,
                Some(v) => Some((v, st.end)),
            },
        }
    }
}

/// The value production: dispatch on the first character after whitespace.
pub open spec fn sp_value(s: Seq<char>, i: int) -> Option<(JVal, int)>
    decreases s.len() - i, 0int,
{
    let j0 = ws_end(s, i);
    let j = if j0 >= i {
        j0
    } else {
        i
    };
    if j >= s.len() {
        None
    } else {
        let c = s[j];
        if c == '"' {
            sp_string(s, j + 1, false, Seq::empty())
        } else if c == '-' || is_digit(c) {
            sp_number(s, j)
        } else if c == 't' || c == 'f' {
            sp_bool(s, j, Seq::empty())
        } else if c == 'n' {
            sp_null(s, j, Seq::empty())
        } else if c == '[' {
            sp_array(s, j + 1, Seq::empty())
        } else if c == '{' {
            sp_object(s, j + 1, Seq::empty())
        } else {
            None
        }
    }
}

/// The array production after the opening bracket: `]` ends it, commas are
/// skipped wherever they appear, anything else must be a value.
pub open spec fn sp_array(s: Seq<char>, i: int, acc: Seq<JVal>) -> Option<(JVal, int)>
    decreases s.len() - i, 1int,
{
    let j0 = ws_end(s, i);
    let j = if j0 >= i {
        j0
    } else {
        i
    };
    if j >= s.len() {
        None
    } else if s[j] == ']' {
        Some((JVal::Arr(acc), j + 1))
    } else if s[j] == ',' {
        sp_array(s, j + 1, acc)
    } else {
        match sp_value(s, j) {
            None => None,
            Some((v, k)) => {
                let k2 = if j < k <= s.len() {
                    k
                } else {
                    j + 1
                };
                sp_array(s, k2, acc.push(v))
            },
        }
    }
}

/// The object production after the opening brace: `}` ends it, otherwise a
/// key (any value), a colon, a value, and a comma or closing brace follow;
/// a repeated key overwrites the stored value (last wins).
pub open spec fn sp_object(s: Seq<char>, i: int, acc: Seq<(JVal, JVal)>) -> Option<(JVal, int)>
    decreases s.len() - i, 1int,
{
    let j0 = ws_end(s, i);
    let j = if j0 >= i {
        j0
    } else {
        i
    };
    if j >= s.len() {
        None
    } else if s[j] == '}' {
        Some((JVal::Obj(acc), j + 1))
    } else {
        match sp_value(s, j) {
            None => None,
            Some((k, jk)) => {
                let jk2 = if j < jk <= s.len() {
                    jk
                } else {
                    j + 1
                };
                let j20 = ws_end(s, jk2);
                let j2 = if j20 >= jk2 {
                    j20
                } else {
                    jk2
                };
                if j2 >= s.len() || s[j2] != ':' {
                    None
                } else {
                    match sp_value(s, j2 + 1) {
                        None => None,
                        Some((v, jv)) => {
                            let jv2 = if j2 < jv <= s.len() {
                                jv
                            } else {
                                j2 + 1
                            };
                            let acc2 = upsert(acc, k, v);
                            let j30 = ws_end(s, jv2);
                            let j3 = if j30 >= jv2 {
                                j30
                            } else {
                                jv2
                            };
                            if j3 >= s.len() {
                                None
                            } else if s[j3] == ',' {
                                sp_object(s, j3 + 1, acc2)
                            } else if s[j3] == '}' {
                                Some((JVal::Obj(acc2), j3 + 1))
                            } else {
                                None
                            }
                        },
                    }
                }
            },
        }
    }
}

/// The whole text: the top level must be an object, or an array, which is
/// wrapped under the key `"data"`. Text after the closing bracket is ignored.
pub open spec fn sp_parse(s: Seq<char>) -> Option<JVal> {
    let j0 = ws_end(s, 0);
    let j = if j0 >= 0 {
        j0
    } else {
        0
    };
    if j >= s.len() {
        None
    } else if s[j] == '{' {
        match sp_object(s, j + 1, Seq::empty()) {
            None => None,
            Some((v, _)) => Some(v),
        }
    } else if s[j] == '[' {
        match sp_array(s, j + 1, Seq::empty()) {
            None => None,
            Some((v, _)) => Some(
                JVal::Obj(seq![(JVal::Str(seq!['d', 'a', 't', 'a']), v)]),
            ),
        }
    } else {
        None
    }
}


/// Error of the parser: the input violated the dialect. The position is
/// where reading stopped.
#[derive(Debug)]
pub struct ParseError {
    pub at: usize,
}

/// Relies on `String: FromIterator<char>`: collecting characters yields the
/// string of exactly those characters, in order.
#[verifier::external_body]
pub fn chars_to_string(v: &Vec<char>) -> (r: String)
    ensures
        r@ == v@,
{
    v.iter().collect()
}

/// The characters of a text, as a vector.
pub fn str_to_chars(text: &str) -> (r: Vec<char>)
    ensures
        r@ == text@,
{
    let n = text.unicode_len();
    let mut r: Vec<char> = Vec::new();
    let mut i: usize = 0;
    while i < n
        invariant
            i <= n,
            n == text@.len(),
            r@ == text@.subrange(0, i as int),
        decreases n - i,
    {
        r.push(text.get_char(i));
        proof {
            assert(r@ =~= text@.subrange(0, i + 1));
        }
        i = i + 1;
    }
    proof {
        assert(r@ =~= text@);
    }
    r
}

/// Position of the first non-whitespace character at or after `pos`.
pub fn skip_whitespaces(s: &Vec<char>, pos: usize) -> (r: usize)
    requires
        pos <= s@.len(),
    ensures
        r == ws_end(s@, pos as int),
        pos <= r <= s@.len(),
{
    let mut i: usize = pos;
    while i < s.len()
        invariant
            pos <= i <= s@.len(),
            ws_end(s@, pos as int) == ws_end(s@, i as int),
        decreases s@.len() - i,
    {
        let c = s[i];
        if c == ' ' || c == '\n' || c == '\t' {
            i = i + 1;
        } else {
            proof {
                lemma_ws_end_bounds(s@, i as int);
            }
            return i;
        }
    }
    i
}

/// The string production. `pos` is at the opening quote, which is consumed.
fn parse_string(s: &Vec<char>, pos: usize) -> (r: (Result<JsonDtype, ParseError>, usize))
    requires
        pos < s@.len(),
    ensures
        match r.0 {
            Ok(v) => {
                &&& sp_string(s@, pos + 1, false, Seq::empty()) == Some((v@, r.1 as int))
                &&& pos < r.1 <= s@.len()
                &&& jval_wf(v@)
            },
            Err(_) => sp_string(s@, pos + 1, false, Seq::empty()) is None,
        },
{
    let n = s.len();
    let mut i: usize = pos + 1;
    let mut skip = false;
    let mut buf: Vec<char> = Vec::new();
    while i < s.len()
        invariant
            pos + 1 <= i <= s@.len(),
            sp_string(s@, pos + 1, false, Seq::empty()) == sp_string(s@, i as int, skip, buf@),
        decreases s@.len() - i,
    {
        let c = s[i];
        if c == '\\' {
            if skip {
                buf.push('\\');
                skip = false;
            } else {
                skip = true;
            }
            i = i + 1;
        } else if c == '"' {
            if skip {
                buf.push('"');
                skip = false;
                i = i + 1;
            } else {
                let out = JsonDtype::String(chars_to_string(&buf));
                proof {
                    assert(out@ == JVal::Str(buf@));
                }
                return (Ok(out), i + 1);
            }
        } else {
            if skip {
                buf.push('\\');
                skip = false;
            }
            buf.push(c);
            i = i + 1;
        }
    }
    (Err(ParseError { at: i }), i)
}

/// The boolean production: a greedy letter run compared with the literals.
fn parse_boolean(s: &Vec<char>, pos: usize) -> (r: (Result<JsonDtype, ParseError>, usize))
    requires
        pos <= s@.len(),
    ensures
        match r.0 {
            Ok(v) => {
                &&& sp_bool(s@, pos as int, Seq::empty()) == Some((v@, r.1 as int))
                &&& pos <= r.1 <= s@.len()
                &&& jval_wf(v@)
            },
            Err(_) => sp_bool(s@, pos as int, Seq::empty()) is None,
        },
{
    let mut i: usize = pos;
    let mut buf: Vec<char> = Vec::new();
    while i < s.len()
        invariant
            pos <= i <= s@.len(),
            sp_bool(s@, pos as int, Seq::empty()) == sp_bool(s@, i as int, buf@),
        decreases s@.len() - i,
    {
        let c = s[i];
        if c == 't' || c == 'r' || c == 'u' || c == 'e' || c == 'f' || c == 'a' || c == 'l' || c
            == 's' {
            buf.push(c);
            i = i + 1;
        } else {
            if buf.len() == 4 && buf[0] == 't' && buf[1] == 'r' && buf[2] == 'u' && buf[3] == 'e' {
                proof {
                    assert(buf@ =~= seq!['t', 'r', 'u', 'e']);
                }
                return (Ok(JsonDtype::Boolean(true)), i);
            }
            if buf.len() == 5 && buf[0] == 'f' && buf[1] == 'a' && buf[2] == 'l' && buf[3] == 's'
                && buf[4] == 'e' {
                proof {
                    assert(buf@ =~= seq!['f', 'a', 'l', 's', 'e']);
                }
                return (Ok(JsonDtype::Boolean(false)), i);
            }
            proof {
                if buf@ == seq!['t', 'r', 'u', 'e'] {
                    assert(buf@.len() == 4 && buf@[0] == 't' && buf@[1] == 'r' && buf@[2] == 'u'
                        && buf@[3] == 'e');
                }
                if buf@ == seq!['f', 'a', 'l', 's', 'e'] {
                    assert(buf@.len() == 5 && buf@[0] == 'f' && buf@[1] == 'a' && buf@[2] == 'l'
                        && buf@[3] == 's' && buf@[4] == 'e');
                }
            }
            return (Err(ParseError { at: i }), i);
        }
    }
    (Err(ParseError { at: i }), i)
}

/// The null production.
fn parse_null(s: &Vec<char>, pos: usize) -> (r: (Result<JsonDtype, ParseError>, usize))
    requires
        pos <= s@.len(),
    ensures
        match r.0 {
            Ok(v) => {
                &&& sp_null(s@, pos as int, Seq::empty()) == Some((v@, r.1 as int))
                &&& pos <= r.1 <= s@.len()
                &&& jval_wf(v@)
            },
            Err(_) => sp_null(s@, pos as int, Seq::empty()) is None,
        },
{
    let mut i: usize = pos;
    let mut buf: Vec<char> = Vec::new();
    while i < s.len()
        invariant
            pos <= i <= s@.len(),
            sp_null(s@, pos as int, Seq::empty()) == sp_null(s@, i as int, buf@),
        decreases s@.len() - i,
    {
        let c = s[i];
        if c == 'n' || c == 'u' || c == 'l' {
            buf.push(c);
            i = i + 1;
        } else {
            if buf.len() == 4 && buf[0] == 'n' && buf[1] == 'u' && buf[2] == 'l' && buf[3] == 'l' {
                proof {
                    assert(buf@ =~= seq!['n', 'u', 'l', 'l']);
                }
                return (Ok(JsonDtype::Null), i);
            }
            proof {
                if buf@ == seq!['n', 'u', 'l', 'l'] {
                    assert(buf@.len() == 4 && buf@[0] == 'n' && buf@[1] == 'u' && buf@[2] == 'l'
                        && buf@[3] == 'l');
                }
            }
            return (Err(ParseError { at: i }), i);
        }
    }
    (Err(ParseError { at: i }), i)
}


/// Folds a digit string into a number, flagging overflow. When the flag is
/// set the denoted value exceeds `2^127`.
fn fold_digits(ds: &Vec<char>) -> (r: (u128, bool))
    requires
        forall|t: int| 0 <= t < ds@.len() ==> is_digit(#[trigger] ds@[t]),
    ensures
        !r.1 ==> r.0 as int == digits_val(ds@),
        r.1 ==> digits_val(ds@) > 0x8000_0000_0000_0000_0000_0000_0000_0000int,
{
    let mut mag: u128 = 0;
    let mut over = false;
    let mut t: usize = 0;
    let lim: u128 = (u128::MAX - 9) / 10;
    while t < ds.len()
        invariant
            t <= ds@.len(),
            forall|u: int| 0 <= u < ds@.len() ==> is_digit(#[trigger] ds@[u]),
            lim == (u128::MAX - 9) / 10,
            !over ==> mag as int == digits_val(ds@.subrange(0, t as int)),
            over ==> digits_val(ds@.subrange(0, t as int))
                > 0x8000_0000_0000_0000_0000_0000_0000_0000int,
        decreases ds@.len() - t,
    {
        let c = ds[t];
        let d: u128 = (c as u32 - 48) as u128;
        proof {
            assert(is_digit(ds@[t as int]));
            assert(d as int == c as int - '0' as int);
            assert(ds@.subrange(0, t as int).push(c) =~= ds@.subrange(0, t + 1));
            lemma_digits_val_push(ds@.subrange(0, t as int), c);
        }
        if !over {
            if mag > lim {
                over = true;
                proof {
                    let pre = digits_val(ds@.subrange(0, t as int));
                    assert(pre * 10 + (c as int - '0' as int)
                        > 0x8000_0000_0000_0000_0000_0000_0000_0000int) by (nonlinear_arith)
                        requires
                            pre > (u128::MAX - 9) / 10,
                            0 <= c as int - '0' as int,
                    ;
                }
            } else {
                mag = mag * 10 + d;
            }
        } else {
            proof {
                let pre = digits_val(ds@.subrange(0, t as int));
                assert(pre * 10 + (c as int - '0' as int)
                    > 0x8000_0000_0000_0000_0000_0000_0000_0000int) by (nonlinear_arith)
                    requires
                        pre > 0x8000_0000_0000_0000_0000_0000_0000_0000int,
                        0 <= c as int - '0' as int,
                ;
            }
        }
        t = t + 1;
    }
    proof {
        assert(ds@.subrange(0, ds@.len() as int) =~= ds@);
    }
    (mag, over)
}

/// Executable state of the number scanner.
struct ScanState {
    intd: Vec<char>,
    frd: Vec<char>,
    exd: Vec<char>,
    isf: bool,
    ise: bool,
}

pub open spec fn scan_init(start: int) -> NumScan {
    NumScan {
        intd: Seq::empty(),
        frd: Seq::empty(),
        exd: Seq::empty(),
        isf: false,
        ise: false,
        end: start,
    }
}

/// Runs the number scanner from `start` (after any sign).
fn num_scan(s: &Vec<char>, start: usize) -> (r: (Result<ScanState, ParseError>, usize))
    requires
        start <= s@.len(),
    ensures
        match r.0 {
            Ok(st) => {
                &&& sp_num_scan(s@, start as int, scan_init(start as int)) == Some(
                    NumScan {
                        intd: st.intd@,
                        frd: st.frd@,
                        exd: st.exd@,
                        isf: st.isf,
                        ise: st.ise,
                        end: r.1 as int,
                    },
                )
                &&& start <= r.1 <= s@.len()
                &&& forall|t: int| 0 <= t < st.intd@.len() ==> is_digit(#[trigger] st.intd@[t])
                &&& forall|t: int| 0 <= t < st.frd@.len() ==> is_digit(#[trigger] st.frd@[t])
                &&& forall|t: int| 0 <= t < st.exd@.len() ==> is_digit(#[trigger] st.exd@[t])
            },
            Err(_) => sp_num_scan(s@, start as int, scan_init(start as int)) is None,
        },
{
    let n = s.len();
    let mut intd: Vec<char> = Vec::new();
    let mut frd: Vec<char> = Vec::new();
    let mut exd: Vec<char> = Vec::new();
    let mut isf = false;
    let mut ise = false;
    let mut i: usize = start;
    while i < n
        invariant
            start <= i <= n,
            n == s@.len(),
            sp_num_scan(s@, start as int, scan_init(start as int)) == sp_num_scan(
                s@,
                i as int,
                NumScan { intd: intd@, frd: frd@, exd: exd@, isf, ise, end: start as int },
            ),
            forall|t: int| 0 <= t < intd@.len() ==> is_digit(#[trigger] intd@[t]),
            forall|t: int| 0 <= t < frd@.len() ==> is_digit(#[trigger] frd@[t]),
            forall|t: int| 0 <= t < exd@.len() ==> is_digit(#[trigger] exd@[t]),
        decreases n - i,
    {
        let c = s[i];
        if c == '.' {
            if isf || ise {
                return (Err(ParseError { at: i }), i);
            }
            isf = true;
            i = i + 1;
        } else if c == 'e' || c == 'E' {
            if ise {
                return (Err(ParseError { at: i }), i);
            }
            ise = true;
            i = i + 1;
        } else if '0' <= c && c <= '9' {
            if ise {
                exd.push(c);
            } else if isf {
                frd.push(c);
            } else {
                intd.push(c);
            }
            i = i + 1;
        } else {
            return (Ok(ScanState { intd, frd, exd, isf, ise }), i);
        }
    }
    (Err(ParseError { at: i }), i)
}

/// The integer value of a scanned digit run with its sign, or an error
/// exactly when it falls outside the signed 128-bit range.
fn finish_int(neg: bool, intd: &Vec<char>) -> (r: Result<i128, ParseError>)
    requires
        forall|t: int| 0 <= t < intd@.len() ==> is_digit(#[trigger] intd@[t]),
    ensures
        ({
            let m = digits_val(intd@);
            let v = if neg {
                -m
            } else {
                m
            };
            match r {
                Ok(x) => i128::MIN <= v <= i128::MAX && x as int == v,
                Err(_) => !(i128::MIN <= v <= i128::MAX),
            }
        }),
{
    let (mag, over) = fold_digits(intd);
    proof {
        lemma_digits_val_nonneg(intd@);
    }
    if over {
        return Err(ParseError { at: 0 });
    }
    if neg {
        if mag > 0x8000_0000_0000_0000_0000_0000_0000_0000u128 {
            return Err(ParseError { at: 0 });
        }
        if mag == 0x8000_0000_0000_0000_0000_0000_0000_0000u128 {
            Ok(i128::MIN)
        } else {
            Ok(-(mag as i128))
        }
    } else {
        if mag > i128::MAX as u128 {
            return Err(ParseError { at: 0 });
        }
        Ok(mag as i128)
    }
}

/// The normalized decimal a scanned float denotes, per the float branch of
/// `sp_num_finish`; an error exactly where that branch is `None`.
fn finish_float(neg: bool, st: &ScanState) -> (r: Result<Dec, ParseError>)
    requires
        st.isf,
        forall|t: int| 0 <= t < st.intd@.len() ==> is_digit(#[trigger] st.intd@[t]),
        forall|t: int| 0 <= t < st.frd@.len() ==> is_digit(#[trigger] st.frd@[t]),
        forall|t: int| 0 <= t < st.exd@.len() ==> is_digit(#[trigger] st.exd@[t]),
    ensures
        ({
            let sn = NumScan {
                intd: st.intd@,
                frd: st.frd@,
                exd: st.exd@,
                isf: st.isf,
                ise: st.ise,
                end: 0,
            };
            match r {
                Ok(d) => sp_num_finish(sn, neg) == Some(JVal::Dec(d@)) && jval_wf(JVal::Dec(d@)),
                Err(_) => sp_num_finish(sn, neg) is None,
            }
        }),
{
    if st.intd.len() == 0 && st.frd.len() == 0 {
        return Err(ParseError { at: 0 });
    }
    if st.ise && st.exd.len() == 0 {
        return Err(ParseError { at: 0 });
    }
    let (ev, evover) = fold_digits(&st.exd);
    proof {
        lemma_digits_val_nonneg(st.exd@);
    }
    if evover || ev > i128::MAX as u128 {
        return Err(ParseError { at: 0 });
    }
    let evi: i128 = ev as i128;
    let mut alld: Vec<char> = Vec::new();
    let mut t: usize = 0;
    while t < st.intd.len()
        invariant
            t <= st.intd@.len(),
            alld@ == st.intd@.subrange(0, t as int),
        decreases st.intd@.len() - t,
    {
        alld.push(st.intd[t]);
        proof {
            assert(alld@ =~= st.intd@.subrange(0, t + 1));
        }
        t = t + 1;
    }
    let mut u: usize = 0;
    while u < st.frd.len()
        invariant
            u <= st.frd@.len(),
            alld@ == st.intd@.subrange(0, st.intd@.len() as int) + st.frd@.subrange(0, u as int),
        decreases st.frd@.len() - u,
    {
        alld.push(st.frd[u]);
        proof {
            assert(alld@ =~= st.intd@.subrange(0, st.intd@.len() as int) + st.frd@.subrange(
                0,
                u + 1,
            ));
        }
        u = u + 1;
    }
    proof {
        assert(alld@ =~= st.intd@ + st.frd@);
        assert(forall|w: int| 0 <= w < alld@.len() ==> is_digit(#[trigger] alld@[w]));
    }
    let mut lead: usize = 0;
    while lead < alld.len() && alld[lead] == '0'
        invariant
            0 <= lead <= alld@.len(),
            first_sig(alld@, 0) == first_sig(alld@, lead as int),
        decreases alld@.len() - lead,
    {
        lead = lead + 1;
    }
    proof {
        assert(first_sig(alld@, 0) == lead);
    }
    let mut lastp: usize = alld.len();
    while lastp > 0 && alld[lastp - 1] == '0'
        invariant
            0 <= lastp <= alld@.len(),
            last_sig(alld@, alld@.len() - 1) == last_sig(alld@, lastp - 1),
        decreases lastp,
    {
        lastp = lastp - 1;
    }
    if lastp == 0 {
        proof {
            assert(last_sig(alld@, alld@.len() - 1) < 0);
        }
        return Ok(Dec { neg, digits: Vec::new(), exp: 0 });
    }
    let last: usize = lastp - 1;
    proof {
        assert(last_sig(alld@, alld@.len() - 1) == last);
        assert(alld@[last as int] != '0');
        lemma_first_sig_props(alld@, 0);
        assert(lead <= last) by {
            if lead > last {
                assert(alld@[last as int] == '0');
            }
        }
        assert(alld@[lead as int] != '0');
    }
    let mut digits: Vec<char> = Vec::new();
    let mut w: usize = lead;
    while w < lastp
        invariant
            lead <= w <= lastp,
            lastp == last + 1,
            last < alld@.len(),
            lead <= last,
            digits@ == alld@.subrange(lead as int, w as int),
        decreases lastp - w,
    {
        digits.push(alld[w]);
        proof {
            assert(digits@ =~= alld@.subrange(lead as int, w + 1));
        }
        w = w + 1;
    }
    let e0: i128 = evi - (st.frd.len() as i128);
    let strips: i128 = ((alld.len() - 1 - last) as u64) as i128;
    let exp: i128 = match e0.checked_add(strips) {
        Some(x) => x,
        None => {
            return Err(ParseError { at: 0 });
        },
    };
    let d = Dec { neg, digits, exp };
    proof {
        assert(d@ == DecModel {
            neg,
            digits: alld@.subrange(lead as int, last + 1),
            exp: evi - st.frd@.len() + (alld@.len() - 1 - last),
        });
        assert(jval_wf(JVal::Dec(d@)));
    }
    Ok(d)
}

/// The number production. `pos` is at the sign or first digit; the
/// terminating character is not consumed.
fn parse_number(s: &Vec<char>, pos: usize) -> (r: (Result<JsonDtype, ParseError>, usize))
    requires
        pos < s@.len(),
    ensures
        match r.0 {
            Ok(v) => {
                &&& sp_number(s@, pos as int) == Some((v@, r.1 as int))
                &&& pos <= r.1 <= s@.len()
                &&& jval_wf(v@)
            },
            Err(_) => sp_number(s@, pos as int) is None,
        },
{
    let n = s.len();
    let neg = s[pos] == '-';
    let start: usize = if neg {
        pos + 1
    } else {
        pos
    };
    let (scanned, end) = num_scan(s, start);
    let st = match scanned {
        Ok(st) => st,
        Err(e) => {
            return (Err(e), end);
        },
    };
    let ghost sn = NumScan {
        intd: st.intd@,
        frd: st.frd@,
        exd: st.exd@,
        isf: st.isf,
        ise: st.ise,
        end: end as int,
    };
    if !st.isf {
        if st.ise || st.intd.len() == 0 {
            return (Err(ParseError { at: end }), end);
        }
        match finish_int(neg, &st.intd) {
            Ok(x) => {
                let out = JsonDtype::Number(Num::Integer(x));
                proof {
                    assert(sp_num_finish(sn, neg) == Some(JVal::Int(x as int)));
                    assert(out@ == JVal::Int(x as int));
                }
                (Ok(out), end)
            },
            Err(e) => {
                proof {
                    assert(sp_num_finish(sn, neg) is None);
                }
                (Err(e), end)
            },
        }
    } else {
        match finish_float(neg, &st) {
            Ok(d) => {
                let out = JsonDtype::Number(Num::Float(d));
                proof {
                    assert(sp_num_finish(sn, neg) == sp_num_finish(
                        NumScan { end: 0, ..sn },
                        neg,
                    ));
                    assert(out@ == JVal::Dec(d@));
                }
                (Ok(out), end)
            },
            Err(e) => {
                proof {
                    assert(sp_num_finish(sn, neg) == sp_num_finish(
                        NumScan { end: 0, ..sn },
                        neg,
                    ));
                }
                (Err(e), end)
            },
        }
    }
}

/// The value production: dispatch on the first character after whitespace.
fn parse_value(s: &Vec<char>, pos: usize) -> (r: (Result<JsonDtype, ParseError>, usize))
    requires
        pos <= s@.len(),
    ensures
        match r.0 {
            Ok(v) => {
                &&& sp_value(s@, pos as int) == Some((v@, r.1 as int))
                &&& pos <= r.1 <= s@.len()
                &&& jval_wf(v@)
            },
            Err(_) => sp_value(s@, pos as int) is None,
        },
    decreases s@.len() - pos, 1int,
{
    let n = s.len();
    let j = skip_whitespaces(s, pos);
    if j >= n {
        return (Err(ParseError { at: j }), j);
    }
    let c = s[j];
    if c == '"' {
        parse_string(s, j)
    } else if c == '-' || ('0' <= c && c <= '9') {
        parse_number(s, j)
    } else if c == 't' || c == 'f' {
        parse_boolean(s, j)
    } else if c == 'n' {
        parse_null(s, j)
    } else if c == '[' {
        parse_array(s, j)
    } else if c == '{' {
        match parse_object(s, j) {
            (Ok(o), np) => {
                let out = JsonDtype::Object(o);
                proof {
                    assert(out@ == JVal::Obj(o@));
                }
                (Ok(out), np)
            },
            (Err(e), np) => (Err(e), np),
        }
    } else {
        (Err(ParseError { at: j }), j)
    }
}

/// The array production. `pos` is at the opening bracket, which is consumed.
fn parse_array(s: &Vec<char>, pos: usize) -> (r: (Result<JsonDtype, ParseError>, usize))
    requires
        pos < s@.len(),
        s@[pos as int] == '[',
    ensures
        match r.0 {
            Ok(v) => {
                &&& sp_array(s@, pos + 1, Seq::empty()) == Some((v@, r.1 as int))
                &&& pos < r.1 <= s@.len()
                &&& jval_wf(v@)
            },
            Err(_) => sp_array(s@, pos + 1, Seq::empty()) is None,
        },
    decreases s@.len() - pos, 0int,
{
    let n = s.len();
    let mut items: Vec<JsonDtype> = Vec::new();
    let mut i: usize = pos + 1;
    while i < n
        invariant
            pos + 1 <= i <= n,
            n == s@.len(),
            sp_array(s@, pos + 1, Seq::empty()) == sp_array(s@, i as int, view_items(items@)),
            forall|t: int| 0 <= t < items@.len() ==> jval_wf(view_value(#[trigger] items@[t])),
        decreases n - i,
    {
        let j = skip_whitespaces(s, i);
        if j >= n {
            return (Err(ParseError { at: j }), j);
        }
        let c = s[j];
        if c == ']' {
            let out = JsonDtype::Array(items);
            proof {
                lemma_view_items_props(out->Array_0@);
                crate::model::lemma_items_wf_props(view_items(out->Array_0@));
                assert(out@ == JVal::Arr(view_items(out->Array_0@)));
            }
            return (Ok(out), j + 1);
        }
        if c == ',' {
            i = j + 1;
        } else {
            let (rv, np) = parse_value(s, j);
            match rv {
                Ok(v) => {
                    let ghost before = view_items(items@);
                    proof {
                        lemma_view_items_props(items@);
                    }
                    items.push(v);
                    proof {
                        lemma_view_items_props(items@);
                        assert(view_items(items@) =~= before.push(v@));
                    }
                    i = if np > j {
                        np
                    } else {
                        j + 1
                    };
                },
                Err(e) => {
                    return (Err(e), np);
                },
            }
        }
    }
    (Err(ParseError { at: i }), i)
}

/// The object production. `pos` is at the opening brace, which is consumed.
fn parse_object(s: &Vec<char>, pos: usize) -> (r: (Result<Json, ParseError>, usize))
    requires
        pos < s@.len(),
        s@[pos as int] == '{',
    ensures
        match r.0 {
            Ok(o) => {
                &&& sp_object(s@, pos + 1, Seq::empty()) == Some((JVal::Obj(o@), r.1 as int))
                &&& pos < r.1 <= s@.len()
                &&& o.wf()
            },
            Err(_) => sp_object(s@, pos + 1, Seq::empty()) is None,
        },
    decreases s@.len() - pos, 0int,
{
    let n = s.len();
    let mut obj = Json::new();
    let mut i: usize = pos + 1;
    proof {
        assert(jval_wf(JVal::Obj(obj@)));
    }
    while i < n
        invariant
            pos + 1 <= i <= n,
            n == s@.len(),
            sp_object(s@, pos + 1, Seq::empty()) == sp_object(s@, i as int, obj@),
            obj.wf(),
        decreases n - i,
    {
        let j = skip_whitespaces(s, i);
        if j >= n {
            return (Err(ParseError { at: j }), j);
        }
        if s[j] == '}' {
            return (Ok(obj), j + 1);
        }
        let (rk, jk) = parse_value(s, j);
        let key = match rk {
            Ok(k) => k,
            Err(e) => {
                return (Err(e), jk);
            },
        };
        let jk2: usize = if jk > j {
            jk
        } else {
            j + 1
        };
        let j2 = skip_whitespaces(s, jk2);
        if j2 >= n {
            return (Err(ParseError { at: j2 }), j2);
        }
        if s[j2] != ':' {
            return (Err(ParseError { at: j2 }), j2);
        }
        let (rv, jv) = parse_value(s, j2 + 1);
        let value = match rv {
            Ok(v) => v,
            Err(e) => {
                return (Err(e), jv);
            },
        };
        let jv2: usize = if jv > j2 {
            jv
        } else {
            j2 + 1
        };
        let ghost before = obj@;
        obj.insert(key, value);
        let j3 = skip_whitespaces(s, jv2);
        if j3 >= n {
            return (Err(ParseError { at: j3 }), j3);
        }
        if s[j3] == ',' {
            i = j3 + 1;
        } else if s[j3] == '}' {
            return (Ok(obj), j3 + 1);
        } else {
            return (Err(ParseError { at: j3 }), j3);
        }
    }
    (Err(ParseError { at: i }), i)
}

impl Json {
    /// Parses a text: the top level must be an object, or an array, which is
    /// returned wrapped under the key `"data"`. Fails exactly where the
    /// dialect (`sp_parse`) rejects the text.
    pub fn parse(text: &str) -> (r: Result<Json, ParseError>)
        ensures
            match r {
                Ok(o) => sp_parse(text@) == Some(JVal::Obj(o@)) && o.wf(),
                Err(_) => sp_parse(text@) is None,
            },
    {
        let s = str_to_chars(text);
        let n = s.len();
        let j = skip_whitespaces(&s, 0);
        if j >= n {
            return Err(ParseError { at: j });
        }
        let c = s[j];
        if c == '{' {
            match parse_object(&s, j) {
                (Ok(o), _) => Ok(o),
                (Err(e), _) => Err(e),
            }
        } else if c == '[' {
            match parse_array(&s, j) {
                (Ok(v), _) => {
                    let mut res = Json::new();
                    let key = JsonDtype::String(String::from_str("data"));
                    proof {
                        reveal_strlit("data");
                        assert("data"@ =~= seq!['d', 'a', 't', 'a']);
                        assert(key@ == JVal::Str(seq!['d', 'a', 't', 'a']));
                        assert(jval_wf(key@));
                        lemma_key_idx_from_props(res@, key@, 0);
                    }
                    let ghost arrv = v@;
                    let ghost keyv = key@;
                    res.insert(key, v);
                    proof {
                        assert(res@ == upsert(Seq::<(JVal, JVal)>::empty(), keyv, arrv));
                        assert(key_idx(Seq::<(JVal, JVal)>::empty(), keyv) == -1);
                        assert(res@ =~= Seq::<(JVal, JVal)>::empty().push((keyv, arrv)));
                        assert(res@ =~= seq![(JVal::Str(seq!['d', 'a', 't', 'a']), arrv)]);
                    }
                    Ok(res)
                },
                (Err(e), _) => Err(e),
            }
        } else {
            Err(ParseError { at: j })
        }
    }
}

} // verus!
