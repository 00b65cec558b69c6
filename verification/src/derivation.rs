//! Derivations: the nodes of the process graph.
//!
//! A derivation is built from an attribute map that must carry a `name` and
//! a `script`.  The authoring layer later resolves the script's placeholder
//! expressions to literal values; the hashes of every derivation reference
//! reachable in those values become the derivation's dependencies, and the
//! content hash over the name and the fully resolved script text becomes its
//! identity.

use vstd::prelude::*;

use crate::errors::BuildError;
use crate::hash::calculate_hash;
use crate::hash::spec_hash;
use crate::scriptstring::spec_indent;
use crate::scriptstring::spec_indentable;
use crate::scriptstring::spec_render;
use crate::scriptstring::spec_parse;
use crate::scriptstring::ScriptString;
use crate::strutil::str_eq;
use crate::value::extract_derivation_hashes_recursive;
use crate::value::literal_of;
use crate::value::spec_dep_hashes_seq;
use crate::value::spec_literal;
use crate::value::AttrValue;
use std::collections::HashMap;

verus! {

/// A unit of work: a named script with resolved interpolation values and
/// the dependencies discovered inside them.  Immutable once hashed.
pub struct Derivation {
    pub attributes: Vec<(String, AttrValue)>,
    pub script: ScriptString,
    pub name: String,
    pub hash: Option<String>,
    pub inward_edges: Option<Vec<String>>,
}

/// The mathematical content of a derivation.
pub ghost struct DerivationView {
    pub name: Seq<char>,
    pub fragments: Seq<Seq<char>>,
    pub interpolations: Seq<Seq<char>>,
    pub hash: Option<Seq<char>>,
    pub inward_edges: Option<Seq<Seq<char>>>,
}

impl DerivationView {
    /// The script with the resolved values substituted for the placeholders.
    pub open spec fn rendered(self) -> Seq<char> {
        spec_render(self.fragments, self.interpolations)
    }

    /// Whether the final script text exists: there is a fragment to render
    /// and a line remains after the reserved first line.
    pub open spec fn renderable(self) -> bool {
        self.fragments.len() > 0 && spec_indentable(self.rendered())
    }

    /// The fully resolved, indentation-normalized script text.
    pub open spec fn text(self) -> Seq<char> {
        spec_indent(self.rendered())
    }

    /// The content hash this derivation receives when it is hashed.
    pub open spec fn full_hash(self) -> Seq<char> {
        spec_hash(self.name, self.text())
    }

    /// The dependency hashes; a derivation whose interpolations were never
    /// resolved has none.
    pub open spec fn deps(self) -> Seq<Seq<char>> {
        match self.inward_edges {
            Some(e) => e,
            None => Seq::empty(),
        }
    }
}

impl View for Derivation {
    type V = DerivationView;

    open spec fn view(&self) -> DerivationView {
        DerivationView {
            name: self.name@,
            fragments: self.script.string_fragments.deep_view(),
            interpolations: self.script.interpolations.deep_view(),
            hash: match self.hash {
                Some(h) => Some(h@),
                None => None,
            },
            inward_edges: match self.inward_edges {
                Some(e) => Some(e.deep_view()),
                None => None,
            },
        }
    }
}

impl DeepView for Derivation {
    type V = DerivationView;

    open spec fn deep_view(&self) -> DerivationView {
        self@
    }
}

/// The first value stored under `key`, if any.
pub open spec fn spec_lookup(entries: Seq<(String, AttrValue)>, key: Seq<char>) -> Option<
    AttrValue,
>
    decreases entries.len(),
{
    if entries.len() == 0 {
        None
    } else if entries[0].0@ == key {
        Some(entries[0].1)
    } else {
        spec_lookup(entries.drop_first(), key)
    }
}

/// Finds the first value stored under `key` at or after index `i`.
fn lookup_from<'a>(entries: &'a Vec<(String, AttrValue)>, key: &str, i: usize) -> (r: Option<
    &'a AttrValue,
>)
    requires
        i <= entries@.len(),
    ensures
        match r {
            Some(v) => spec_lookup(entries@.skip(i as int), key@) == Some(*v),
            None => spec_lookup(entries@.skip(i as int), key@) is None,
        },
    decreases entries@.len() - i,
{
    proof {
        if i < entries@.len() {
            assert(entries@.skip(i as int)[0] == entries@[i as int]);
            assert(entries@.skip(i as int).drop_first() =~= entries@.skip(i + 1));
        }
    }
    if i == entries.len() {
        None
    } else if str_eq(entries[i].0.as_str(), key) {
        Some(&entries[i].1)
    } else {
        lookup_from(entries, key, i + 1)
    }
}

impl Derivation {
    /// The attribute map this derivation was built from.
    pub open spec fn spec_attrs(&self) -> Seq<(String, AttrValue)> {
        self.attributes@
    }

    /// Builds an unresolved, unhashed derivation from an attribute map.  The
    /// `name` and `script` attributes are mandatory and must be strings; the
    /// script is split at its placeholders right away.
    pub fn new(attributes: Vec<(String, AttrValue)>) -> (r: Result<Derivation, BuildError>)
        ensures
            ({
                let nv = spec_lookup(attributes@, "name"@);
                let sv = spec_lookup(attributes@, "script"@);
                match r {
                    Ok(d) => nv matches Some(AttrValue::Str(n)) && sv matches Some(
                        AttrValue::Str(s),
                    ) && d@ == (DerivationView {
                        name: nv->Some_0->Str_0@,
                        fragments: spec_parse(sv->Some_0->Str_0@).0,
                        interpolations: spec_parse(sv->Some_0->Str_0@).1,
                        hash: None,
                        inward_edges: None,
                    }) && d.spec_attrs() == attributes@,
                    Err(e) => (e == BuildError::MissingAttribute || e
                        == BuildError::BadAttributeValue) && (if nv is None || sv is None {
                        e == BuildError::MissingAttribute
                    } else {
                        e == BuildError::BadAttributeValue && (!(nv->Some_0 is Str) || !(
                        sv->Some_0 is Str))
                    }),
                }
            }),
    {
        proof {
            assert(attributes@.skip(0) =~= attributes@);
        }
        let name: String = match lookup_from(&attributes, "name", 0) {
            None => {
                return Err(BuildError::MissingAttribute);
            },
            Some(AttrValue::Str(n)) => n.clone(),
            Some(_) => {
                if lookup_from(&attributes, "script", 0).is_none() {
                    return Err(BuildError::MissingAttribute);
                }
                return Err(BuildError::BadAttributeValue);
            },
        };
        let script: String = match lookup_from(&attributes, "script", 0) {
            None => {
                return Err(BuildError::MissingAttribute);
            },
            Some(AttrValue::Str(s)) => s.clone(),
            Some(_) => {
                return Err(BuildError::BadAttributeValue);
            },
        };
        Ok(
            Derivation {
                attributes,
                hash: None,
                script: ScriptString::new(script),
                name,
                inward_edges: None,
            },
        )
    }

    /// The first attribute stored under `key`, if any.
    pub fn attr<'a>(&'a self, key: &str) -> (r: Option<&'a AttrValue>)
        ensures
            match r {
                Some(v) => spec_lookup(self.spec_attrs(), key@) == Some(*v),
                None => spec_lookup(self.spec_attrs(), key@) is None,
            },
    {
        proof {
            assert(self.attributes@.skip(0) =~= self.attributes@);
        }
        lookup_from(&self.attributes, key, 0)
    }

    /// The fully resolved, indentation-normalized script text.
    pub fn script(&self) -> (r: Result<String, BuildError>)
        ensures
            self@.renderable() <==> r is Ok,
            r matches Ok(t) ==> t@ == self@.text(),
            r is Err ==> r == Result::<String, BuildError>::Err(BuildError::EmptyScript),
    {
        self.script.to_string()
    }

    /// The content hash.  Meaningful only once `write_hash` has run.
    pub fn hash(&self) -> (r: String)
        requires
            self@.hash is Some,
        ensures
            Some(r@) == self@.hash,
    {
        match &self.hash {
            Some(h) => h.clone(),
            None => vstd::pervasive::unreached(),
        }
    }

    /// The resolved interpolation values, as literal text.
    pub fn interpolations(&self) -> (r: Vec<String>)
        ensures
            r.deep_view() == self@.interpolations,
    {
        let r = self.script.interpolations.clone();
        proof {
            assert forall|i: int| 0 <= i < r@.len() implies r@[i]@
                == self.script.interpolations@[i]@ by {}
            assert(r.deep_view() =~= self@.interpolations);
        }
        r
    }

    /// The dependency hashes, once the interpolations are resolved.
    pub fn inward_hashes(&self) -> (r: Option<Vec<String>>)
        ensures
            r is Some <==> self@.inward_edges is Some,
            r matches Some(v) ==> Some(v.deep_view()) == self@.inward_edges,
    {
        match &self.inward_edges {
            None => None,
            Some(edges) => {
                let r = edges.clone();
                proof {
                    assert forall|i: int| 0 <= i < r@.len() implies r@[i]@ == edges@[i]@ by {}
                    assert(r.deep_view() =~= edges.deep_view());
                }
                Some(r)
            },
        }
    }

    /// Stores the literal text of each resolved placeholder value, and
    /// collects the hashes of every derivation reference reachable in the
    /// values as this derivation's dependencies.
    pub fn set_interpolations(&mut self, interpolations: Vec<AttrValue>)
        ensures
            final(self)@ == (DerivationView {
                interpolations: interpolations@.map_values(|v: AttrValue| spec_literal(v)),
                inward_edges: Some(spec_dep_hashes_seq(interpolations@)),
                ..old(self)@
            }),
            final(self).spec_attrs() == old(self).spec_attrs(),
    {
        let ghost vals = interpolations@;
        let mut lits: Vec<String> = Vec::new();
        let mut deps: Vec<String> = Vec::new();
        let mut i: usize = 0;
        proof {
            assert(vals.skip(0) =~= vals);
        }
        while i < interpolations.len()
            invariant
                vals == interpolations@,
                i <= vals.len(),
                lits.deep_view() =~= vals.take(i as int).map_values(
                    |v: AttrValue| spec_literal(v),
                ),
                spec_dep_hashes_seq(vals) == deps.deep_view() + spec_dep_hashes_seq(
                    vals.skip(i as int),
                ),
            decreases vals.len() - i,
        {
            proof {
                assert(vals.skip(i as int)[0] == vals[i as int]);
                assert(vals.skip(i as int).drop_first() =~= vals.skip(i + 1));
            }
            let lit = literal_of(&interpolations[i]);
            let ghost prev = lits.deep_view();
            lits.push(lit);
            extract_derivation_hashes_recursive(&interpolations[i], &mut deps);
            proof {
                let f = |v: AttrValue| spec_literal(v);
                assert(lits.deep_view() =~= prev.push(spec_literal(vals[i as int])));
                assert(vals.take(i + 1).map_values(f) =~= vals.take(i as int).map_values(f).push(
                    f(vals[i as int]),
                ));
                assert(lits.deep_view() =~= vals.take(i + 1).map_values(f));
            }
            i = i + 1;
        }
        proof {
            assert(spec_dep_hashes_seq(vals.skip(vals.len() as int)) =~= Seq::<Seq<char>>::empty());
            assert(deps.deep_view() =~= spec_dep_hashes_seq(vals));
            assert(vals.take(vals.len() as int) =~= vals);
        }
        self.script.interpolations = lits;
        self.inward_edges = Some(deps);
    }

    /// Renders the final script text and stores the content hash computed
    /// from it and the name.  Fails, leaving the derivation unchanged, when
    /// the script cannot be rendered.
    pub fn write_hash(&mut self) -> (r: Result<(), BuildError>)
        ensures
            old(self)@.renderable() <==> r is Ok,
            r is Ok ==> final(self)@ == (DerivationView {
                hash: Some(old(self)@.full_hash()),
                ..old(self)@
            }) && final(self).spec_attrs() == old(self).spec_attrs(),
            r is Err ==> final(self)@ == old(self)@ && final(self).spec_attrs() == old(
                self,
            ).spec_attrs() && r == Result::<(), BuildError>::Err(BuildError::EmptyScript),
    {
        match self.script.to_string() {
            Ok(text) => {
                let h = calculate_hash(self.name.clone(), text);
                self.hash = Some(h);
                Ok(())
            },
            Err(e) => Err(e),
        }
    }
}

/// Insertion that refuses to replace: `Ok` only when the key was absent.
pub trait SafeInsert<K, V> {
    fn safe_insert(&mut self, key: K, value: V) -> Result<(), ()>;
}

impl<K: core::cmp::Eq + core::hash::Hash, V> SafeInsert<K, V> for HashMap<K, V> {
    fn safe_insert(&mut self, key: K, value: V) -> Result<(), ()> {
        match self.get(&key) {
            Some(_) => Err(()),
            None => {
                self.insert(key, value);
                Ok(())
            },
        }
    }
}

} // verus!
