//! Tagged attribute values.
//!
//! The authoring layer hands the core arbitrary key-value attribute maps and
//! resolved interpolation values.  Both are represented by a closed tagged
//! value type; a resolved value may be a scalar, a reference to another
//! derivation, or a nested collection holding such references.  All
//! derivation references reachable inside a value are collected as the
//! dependencies of the derivation whose placeholder the value resolves.

use vstd::prelude::*;

use crate::hash::dec_str;
use crate::hash::u64_to_dec;
use crate::strutil::push_char;

verus! {

broadcast use
    vstd::std_specs::vec::axiom_vec_decreases_to_view,
    vstd::seq::axiom_seq_index_decreases,
;

/// A value supplied by the authoring layer: a scalar, a reference to a
/// derivation (carrying that derivation's content hash), or a nested
/// collection of further values.
pub enum AttrValue {
    Str(String),
    Int(i64),
    Bool(bool),
    DerivationRef(String),
    List(Vec<AttrValue>),
    Dict(Vec<(String, AttrValue)>),
}

/// The content hashes of every derivation reference reachable in `v`: a
/// scalar contributes nothing, a derivation reference contributes its hash,
/// and a collection contributes the hashes found in each of its elements.
pub open spec fn spec_dep_hashes(v: AttrValue) -> Seq<Seq<char>>
    decreases v, 0int,
{
    match v {
        AttrValue::Str(_) => Seq::empty(),
        AttrValue::Int(_) => Seq::empty(),
        AttrValue::Bool(_) => Seq::empty(),
        AttrValue::DerivationRef(h) => seq![h@],
        AttrValue::List(elems) => spec_dep_hashes_seq(elems@),
        AttrValue::Dict(entries) => spec_dep_hashes_entries(entries@),
    }
}

/// The dependency hashes of a sequence of values, in order.
pub open spec fn spec_dep_hashes_seq(elems: Seq<AttrValue>) -> Seq<Seq<char>>
    decreases elems, 1int,
{
    if elems.len() == 0 {
        Seq::empty()
    } else {
        spec_dep_hashes(elems[0]) + spec_dep_hashes_seq(elems.drop_first())
    }
}

/// The dependency hashes of a mapping's values, in entry order.
pub open spec fn spec_dep_hashes_entries(entries: Seq<(String, AttrValue)>) -> Seq<Seq<char>>
    decreases entries, 1int,
{
    if entries.len() == 0 {
        Seq::empty()
    } else {
        spec_dep_hashes(entries[0].1) + spec_dep_hashes_entries(entries.drop_first())
    }
}

/// Appends the hash of every derivation reference reachable in `val` to
/// `vec`.
pub fn extract_derivation_hashes_recursive(val: &AttrValue, vec: &mut Vec<String>)
    ensures
        final(vec).deep_view() == old(vec).deep_view() + spec_dep_hashes(*val),
    decreases *val, 0int, 0int,
{
    match val {
        AttrValue::Str(_) => {
            proof {
                assert(vec.deep_view() =~= old(vec).deep_view() + spec_dep_hashes(*val));
            }
        },
        AttrValue::Int(_) => {
            proof {
                assert(vec.deep_view() =~= old(vec).deep_view() + spec_dep_hashes(*val));
            }
        },
        AttrValue::Bool(_) => {
            proof {
                assert(vec.deep_view() =~= old(vec).deep_view() + spec_dep_hashes(*val));
            }
        },
        AttrValue::DerivationRef(h) => {
            vec.push(h.clone());
            proof {
                assert(vec.deep_view() =~= old(vec).deep_view() + spec_dep_hashes(*val));
            }
        },
        AttrValue::List(elems) => {
            extract_from_list(elems, 0, vec);
            proof {
                assert(elems@.skip(0) =~= elems@);
            }
        },
        AttrValue::Dict(entries) => {
            extract_from_entries(entries, 0, vec);
            proof {
                assert(entries@.skip(0) =~= entries@);
            }
        },
    }
}

/// Appends the reachable derivation hashes of `elems[i..]` to `vec`.
fn extract_from_list(elems: &Vec<AttrValue>, i: usize, vec: &mut Vec<String>)
    requires
        i <= elems@.len(),
    ensures
        final(vec).deep_view() == old(vec).deep_view() + spec_dep_hashes_seq(
            elems@.skip(i as int),
        ),
    decreases elems@, 1int, elems@.len() - i,
{
    if i == elems.len() {
        proof {
            assert(vec.deep_view() =~= old(vec).deep_view() + spec_dep_hashes_seq(
                elems@.skip(i as int),
            ));
        }
    } else {
        extract_derivation_hashes_recursive(&elems[i], vec);
        let ghost mid = vec.deep_view();
        extract_from_list(elems, i + 1, vec);
        proof {
            assert(elems@.skip(i as int).drop_first() =~= elems@.skip(i + 1));
            assert(elems@.skip(i as int)[0] == elems@[i as int]);
            assert(vec.deep_view() =~= old(vec).deep_view() + spec_dep_hashes_seq(
                elems@.skip(i as int),
            ));
        }
    }
}

/// Appends the reachable derivation hashes of the values of
/// `entries[i..]` to `vec`.
fn extract_from_entries(entries: &Vec<(String, AttrValue)>, i: usize, vec: &mut Vec<String>)
    requires
        i <= entries@.len(),
    ensures
        final(vec).deep_view() == old(vec).deep_view() + spec_dep_hashes_entries(
            entries@.skip(i as int),
        ),
    decreases entries@, 1int, entries@.len() - i,
{
    if i == entries.len() {
        proof {
            assert(vec.deep_view() =~= old(vec).deep_view() + spec_dep_hashes_entries(
                entries@.skip(i as int),
            ));
        }
    } else {
        extract_derivation_hashes_recursive(&entries[i].1, vec);
        let ghost mid = vec.deep_view();
        extract_from_entries(entries, i + 1, vec);
        proof {
            assert(entries@.skip(i as int).drop_first() =~= entries@.skip(i + 1));
            assert(entries@.skip(i as int)[0] == entries@[i as int]);
            assert(vec.deep_view() =~= old(vec).deep_view() + spec_dep_hashes_entries(
                entries@.skip(i as int),
            ));
        }
    }
}

/// Collects the hash of every derivation reference reachable in `val`.
pub fn extract_derivation_hashes(val: &AttrValue) -> (r: Vec<String>)
    ensures
        r.deep_view() == spec_dep_hashes(*val),
{
    let mut vec = Vec::<String>::new();
    extract_derivation_hashes_recursive(val, &mut vec);
    proof {
        assert(vec.deep_view() =~= spec_dep_hashes(*val));
    }
    vec
}

/// The decimal rendering of a signed integer.
pub open spec fn spec_int_str(i: i64) -> Seq<char> {
    if i >= 0 {
        dec_str(i as u64)
    } else {
        seq!['-'] + dec_str((-(i as int)) as u64)
    }
}

/// The literal text a value contributes to a script when its placeholder is
/// substituted: scalars render themselves, a derivation reference renders
/// its hash (the name of the dependency's link in the work directory), and
/// collections render their elements separated by single spaces.
pub open spec fn spec_literal(v: AttrValue) -> Seq<char>
    decreases v, 0int,
{
    match v {
        AttrValue::Str(s) => s@,
        AttrValue::Int(i) => spec_int_str(i),
        AttrValue::Bool(b) => if b {
            "true"@
        } else {
            "false"@
        },
        AttrValue::DerivationRef(h) => h@,
        AttrValue::List(elems) => spec_literal_seq(elems@),
        AttrValue::Dict(entries) => spec_literal_entries(entries@),
    }
}

/// Element literals separated by single spaces.
pub open spec fn spec_literal_seq(elems: Seq<AttrValue>) -> Seq<char>
    decreases elems, 1int,
{
    if elems.len() == 0 {
        Seq::empty()
    } else if elems.len() == 1 {
        spec_literal(elems[0])
    } else {
        spec_literal(elems[0]) + seq![' '] + spec_literal_seq(elems.drop_first())
    }
}

/// Entry-value literals separated by single spaces.
pub open spec fn spec_literal_entries(entries: Seq<(String, AttrValue)>) -> Seq<char>
    decreases entries, 1int,
{
    if entries.len() == 0 {
        Seq::empty()
    } else if entries.len() == 1 {
        spec_literal(entries[0].1)
    } else {
        spec_literal(entries[0].1) + seq![' '] + spec_literal_entries(entries.drop_first())
    }
}

/// Renders a signed integer in decimal.
fn int_to_dec(i: i64) -> (r: String)
    ensures
        r@ == spec_int_str(i),
{
    if i >= 0 {
        u64_to_dec(i as u64)
    } else {
        let magnitude: u64 = (-(i as i128)) as u64;
        let mut out = String::new();
        push_char(&mut out, '-');
        let digits = u64_to_dec(magnitude);
        out.append(digits.as_str());
        proof {
            assert(out@ =~= spec_int_str(i));
        }
        out
    }
}

/// Renders the literal text of `val`, as `spec_literal` describes it.
pub fn literal_of(val: &AttrValue) -> (r: String)
    ensures
        r@ == spec_literal(*val),
    decreases *val, 0int, 0int,
{
    match val {
        AttrValue::Str(s) => s.clone(),
        AttrValue::Int(i) => int_to_dec(*i),
        AttrValue::Bool(b) => {
            if *b {
                String::from_str("true")
            } else {
                String::from_str("false")
            }
        },
        AttrValue::DerivationRef(h) => h.clone(),
        AttrValue::List(elems) => {
            let r = literal_of_list(elems, 0);
            proof {
                assert(elems@.skip(0) =~= elems@);
            }
            r
        },
        AttrValue::Dict(entries) => {
            let r = literal_of_entries(entries, 0);
            proof {
                assert(entries@.skip(0) =~= entries@);
            }
            r
        },
    }
}

/// Renders the literals of `elems[i..]`, separated by single spaces.
fn literal_of_list(elems: &Vec<AttrValue>, i: usize) -> (r: String)
    requires
        i <= elems@.len(),
    ensures
        r@ == spec_literal_seq(elems@.skip(i as int)),
    decreases elems@, 1int, elems@.len() - i,
{
    if i == elems.len() {
        let r = String::new();
        proof {
            assert(r@ =~= spec_literal_seq(elems@.skip(i as int)));
        }
        r
    } else {
        let mut r = literal_of(&elems[i]);
        proof {
            assert(elems@.skip(i as int)[0] == elems@[i as int]);
            assert(elems@.skip(i as int).drop_first() =~= elems@.skip(i + 1));
        }
        if i + 1 < elems.len() {
            push_char(&mut r, ' ');
            let rest = literal_of_list(elems, i + 1);
            r.append(rest.as_str());
            proof {
                assert(r@ =~= spec_literal_seq(elems@.skip(i as int)));
            }
        } else {
            proof {
                assert(elems@.skip(i as int).len() == 1);
                assert(r@ =~= spec_literal_seq(elems@.skip(i as int)));
            }
        }
        r
    }
}

/// Renders the literals of the values of `entries[i..]`, separated by
/// single spaces.
fn literal_of_entries(entries: &Vec<(String, AttrValue)>, i: usize) -> (r: String)
    requires
        i <= entries@.len(),
    ensures
        r@ == spec_literal_entries(entries@.skip(i as int)),
    decreases entries@, 1int, entries@.len() - i,
{
    if i == entries.len() {
        let r = String::new();
        proof {
            assert(r@ =~= spec_literal_entries(entries@.skip(i as int)));
        }
        r
    } else {
        let mut r = literal_of(&entries[i].1);
        proof {
            assert(entries@.skip(i as int)[0] == entries@[i as int]);
            assert(entries@.skip(i as int).drop_first() =~= entries@.skip(i + 1));
        }
        if i + 1 < entries.len() {
            push_char(&mut r, ' ');
            let rest = literal_of_entries(entries, i + 1);
            r.append(rest.as_str());
            proof {
                assert(r@ =~= spec_literal_entries(entries@.skip(i as int)));
            }
        } else {
            proof {
                assert(entries@.skip(i as int).len() == 1);
                assert(r@ =~= spec_literal_entries(entries@.skip(i as int)));
            }
        }
        r
    }
}

} // verus!
