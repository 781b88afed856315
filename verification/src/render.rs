//! Values, models and interpretations as text.

use crate::collections::map_get;
use crate::numbers::{signed_binary, signed_decimal, signed_value, BigNum, Rat};
use crate::sorts::{append_sort, components_below, env_of, sort_text, sorts_wf, SortEnv, SortNames};
use crate::terms::{
    Data, DataView, NameId, Op, SortId, SortKind, TermId, TermStore, TermView, BOOL_SORT, INT_SORT,
    REAL_SORT,
};
use crate::text::{append, append_decimal, decimal, push_char};
use rustc_hash::FxHashMap;
use vstd::prelude::*;

verus! {

/// The text with zeros before it, up to the width.
pub open spec fn padded(text: Seq<char>, width: nat) -> Seq<char> {
    Seq::new((if text.len() < width { width - text.len() } else { 0 }) as nat, |k: int| '0') + text
}

fn append_padded(out: &mut String, text: &str, width: u32)
    ensures
        final(out)@ == old(out)@ + padded(text@, width as nat),
{
    let n: usize = text.unicode_len();
    let ghost before = out@;
    let mut k: usize = 0;
    assert(out@ =~= before + Seq::new(0, |j: int| '0'));
    let w: usize = width as usize;
    let zeros: usize = if n < w {
        w - n
    } else {
        0
    };
    while k < zeros
        invariant
            k <= zeros,
            out@ == before + Seq::new(k as nat, |j: int| '0'),
        decreases zeros - k,
    {
        push_char(out, '0');
        assert(out@ =~= before + Seq::new((k + 1) as nat, |j: int| '0'));
        k = k + 1;
    }
    append(out, text);
    assert(out@ =~= before + padded(text@, width as nat));
}

fn append_word(out: &mut String, n: i64)
    ensures
        final(out)@ == old(out)@ + signed_decimal(n as int),
{
    let text = BigNum::from_i64(n).decimal_text();
    append(out, text.as_str());
}

/// What the printer says of a term.
pub open spec fn printed_text(printed: Map<TermId, String>, t: TermId) -> Seq<char> {
    if printed.contains_key(t) {
        printed[t]@
    } else {
        "?"@
    }
}

/// A rational as a value.
pub open spec fn rational_text(r: Rat) -> Seq<char> {
    if r.den == 1 {
        signed_decimal(r.num as int) + ".0"@
    } else {
        "(/ "@ + signed_decimal(r.num as int) + " "@ + signed_decimal(r.den as int) + ")"@
    }
}

/// How a value is written.
pub open spec fn value_text(s: Seq<TermView>, printed: Map<TermId, String>, t: TermId) -> Seq<char> {
    if t >= s.len() {
        "?"@
    } else {
        match (s[t as int].op, s[t as int].data) {
            (Op::True, _) => "true"@,
            (Op::False, _) => "false"@,
            (Op::IntConst, DataView::Int(negative, digits)) => signed_decimal(
                signed_value(negative, digits),
            ),
            (Op::RealConst, DataView::Real(r)) => rational_text(r),
            (Op::BitVecConst, DataView::Bits(negative, digits, w)) => "#b"@ + padded(
                signed_binary(signed_value(negative, digits)),
                w as nat,
            ),
            (Op::FpLit, _) | (Op::FpConst, _) | (Op::Store, _) | (Op::StringLit, _) => printed_text(
                printed,
                t,
            ),
            _ => "?"@,
        }
    }
}

/// Writes a value.  `printed` holds the texts of floating-point literals, stored
/// arrays and string literals.
pub fn format_value(store: &TermStore, printed: &FxHashMap<TermId, String>, t: TermId) -> (text: String)
    ensures
        text@ == value_text(store.terms(), printed@, t),
{
    let mut out = String::new();
    if t >= store.nodes.len() {
        append(&mut out, "?");
        assert(out@ =~= "?"@);
        return out;
    }
    let node = &store.nodes[t];
    assert(node@ == store.terms()[t as int]);
    match (&node.op, &node.data) {
        (Op::True, _) => append(&mut out, "true"),
        (Op::False, _) => append(&mut out, "false"),
        (Op::IntConst, Data::Int(n)) => {
            let text = n.decimal_text();
            append(&mut out, text.as_str());
        },
        (Op::RealConst, Data::Real(r)) => {
            if r.den == 1 {
                append_word(&mut out, r.num);
                append(&mut out, ".0");
            } else {
                append(&mut out, "(/ ");
                append_word(&mut out, r.num);
                append(&mut out, " ");
                append_word(&mut out, r.den);
                append(&mut out, ")");
            }
        },
        (Op::BitVecConst, Data::Bits(n, w)) => {
            let text = n.binary_text();
            append(&mut out, "#b");
            append_padded(&mut out, text.as_str(), *w);
        },
        (Op::FpLit, _) | (Op::FpConst, _) | (Op::Store, _) | (Op::StringLit, _) => {
            match map_get(printed, t) {
                Some(text) => append(&mut out, text.as_str()),
                None => append(&mut out, "?"),
            }
        },
        _ => append(&mut out, "?"),
    }
    assert(out@ =~= value_text(store.terms(), printed@, t));
    out
}

/// The first constructor without arguments of the data type.
pub open spec fn default_constructor(env: SortEnv, defaults: Map<Seq<char>, String>, n: NameId) -> Seq<char> {
    if n < env.names.len() && defaults.contains_key(env.names[n as int]) {
        defaults[env.names[n as int]]@
    } else {
        "?"@
    }
}

/// The value that a constant without a value is given.
pub open spec fn default_text(env: SortEnv, defaults: Map<Seq<char>, String>, id: SortId) -> Seq<char>
    decreases id,
{
    if id == BOOL_SORT {
        "false"@
    } else if id == INT_SORT {
        "0"@
    } else if id == REAL_SORT {
        "0.0"@
    } else if id >= env.sorts.len() {
        "?"@
    } else {
        match env.sorts[id as int] {
            SortKind::String => "\"\""@,
            SortKind::BitVec(w) => "#b"@ + padded("0"@, w as nat),
            SortKind::FloatingPoint { eb, sb } => "(_ +zero "@ + decimal(eb as nat) + " "@
                + decimal(sb as nat) + ")"@,
            SortKind::Array { domain, range } => if range < id {
                "((as const "@ + sort_text(env, id) + ") "@ + default_text(env, defaults, range)
                    + ")"@
            } else {
                "?"@
            },
            SortKind::Datatype(n) => default_constructor(env, defaults, n),
            SortKind::Uninterpreted(_) => witness_text(env, id, 0),
            _ => "?"@,
        }
    }
}

/// The name of an element of an uninterpreted sort.
pub open spec fn witness_text(env: SortEnv, id: SortId, k: nat) -> Seq<char> {
    "@uc_"@ + sort_text(env, id) + "_"@ + decimal(k)
}

fn append_default(store: &TermStore, known: &SortNames, out: &mut String, id: SortId)
    requires
        sorts_wf(store.sorts@),
        known.defaults.wf(),
    ensures
        final(out)@ == old(out)@ + default_text(env_of(store, known), known.defaults@, id),
    decreases id,
{
    let ghost before = out@;
    let ghost env = env_of(store, known);
    if id == BOOL_SORT {
        append(out, "false");
        return;
    }
    if id == INT_SORT {
        append(out, "0");
        return;
    }
    if id == REAL_SORT {
        append(out, "0.0");
        return;
    }
    if id >= store.sorts.len() {
        append(out, "?");
        return;
    }
    assert(components_below(store.sorts@[id as int], id as int));
    match store.sorts[id] {
        SortKind::String => append(out, "\"\""),
        SortKind::BitVec(w) => {
            append(out, "#b");
            append_padded(out, "0", w);
        },
        SortKind::FloatingPoint { eb, sb } => {
            append(out, "(_ +zero ");
            append_decimal(out, eb as u64);
            append(out, " ");
            append_decimal(out, sb as u64);
            append(out, ")");
        },
        SortKind::Array { domain: _, range } => {
            append(out, "((as const ");
            append_sort(store, known, out, id);
            append(out, ") ");
            append_default(store, known, out, range);
            append(out, ")");
        },
        SortKind::Datatype(n) => {
            if n < store.names.len() {
                assert(env.names[n as int] == store.names@[n as int]@);
                match known.defaults.get(store.names[n].as_str()) {
                    Some(text) => append(out, text.as_str()),
                    None => append(out, "?"),
                }
            } else {
                append(out, "?");
            }
        },
        SortKind::Uninterpreted(_) => append_witness(store, known, out, id, 0),
        _ => append(out, "?"),
    }
    assert(out@ =~= before + default_text(env, known.defaults@, id));
}

pub(crate) fn append_witness(store: &TermStore, known: &SortNames, out: &mut String, id: SortId, k: u64)
    requires
        sorts_wf(store.sorts@),
    ensures
        final(out)@ == old(out)@ + witness_text(env_of(store, known), id, k as nat),
{
    let ghost before = out@;
    append(out, "@uc_");
    append_sort(store, known, out, id);
    append(out, "_");
    append_decimal(out, k);
    assert(out@ =~= before + witness_text(env_of(store, known), id, k as nat));
}

/// Writes the default value of a sort.
pub fn default_value(store: &TermStore, known: &SortNames, id: SortId) -> (text: String)
    requires
        sorts_wf(store.sorts@),
        known.defaults.wf(),
    ensures
        text@ == default_text(env_of(store, known), known.defaults@, id),
{
    let mut out = String::new();
    append_default(store, known, &mut out, id);
    assert(out@ =~= default_text(env_of(store, known), known.defaults@, id));
    out
}

} // verus!
