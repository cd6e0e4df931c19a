//! Documents, the faceted-field walker and the field-id map.
//!
//! A document is an ordered list of named values.  The walker selects
//! the attributes to extract, spreads arrays into one emission per
//! element, keeps empty arrays and objects as themselves (so the
//! `Empty` tag can be recorded), and resolves the fields of an object
//! through dotted attribute names one nesting level deep — a
//! deliberate bound: attributes under two or more dots are not
//! extracted.  Field
//! names then become numeric field ids through the shared map, which
//! allocates a fresh id on first sight and fails once the 16-bit id
//! space is spent.

use vstd::prelude::*;

verus! {

/// A parsed document value.  A number carries the raw IEEE-754 bits
/// of a double, so values stay plain data.
pub enum JsonVal {
    Null,
    Bool(bool),
    Number(u64),
    String(String),
    Array(Vec<JsonVal>),
    Object(Vec<(String, JsonVal)>),
}

/// A document: its named top-level values, in order.
pub type Document = Vec<(String, JsonVal)>;

/// A ghost emission of the walker: the dotted attribute name and the
/// value observed under it.
pub type Emission = (Seq<char>, JsonVal);

/// The names of a list of strings.
pub open spec fn view_names(s: Seq<String>) -> Seq<Seq<char>> {
    s.map_values(|x: String| x@)
}

/// The ghost contents of an exec emission list.
pub open spec fn view_emissions(s: Seq<(String, JsonVal)>) -> Seq<Emission> {
    s.map_values(|e: (String, JsonVal)| (e.0@, e.1))
}

/// What one matched value emits: an array spreads into one emission
/// per element (an empty one stands for itself); anything else is
/// emitted once.
pub open spec fn emit_leaf(name: Seq<char>, v: JsonVal) -> Seq<Emission> {
    match v {
        JsonVal::Array(elems) => if elems@.len() == 0 {
            seq![(name, v)]
        } else {
            elems@.map_values(|e: JsonVal| (name, e))
        },
        _ => seq![(name, v)],
    }
}

/// What the fields of a non-empty object emit under dotted names.
/// Nesting is deliberately resolved one level deep, not recursively:
/// a matched field is emitted once whatever it is, so a nested
/// non-empty object records `Exists` alone and a nested empty one
/// records `Empty` too, while attributes nested deeper than one dot
/// are never reached.
pub open spec fn emit_object(
    attrs: Seq<Seq<char>>,
    name: Seq<char>,
    fields: Seq<(String, JsonVal)>,
) -> Seq<Emission>
    decreases fields.len(),
{
    if fields.len() == 0 {
        Seq::empty()
    } else {
        emit_object(attrs, name, fields.drop_last()) + (
        if attrs.contains(name + seq!['.'] + fields.last().0@) {
            emit_leaf(name + seq!['.'] + fields.last().0@, fields.last().1)
        } else {
            Seq::empty()
        })
    }
}

/// What one top-level field emits.
pub open spec fn emit_field(attrs: Seq<Seq<char>>, name: Seq<char>, v: JsonVal) -> Seq<Emission> {
    match v {
        JsonVal::Object(fields) => if fields@.len() == 0 {
            if attrs.contains(name) {
                seq![(name, v)]
            } else {
                Seq::empty()
            }
        } else {
            emit_object(attrs, name, fields@)
        },
        _ => if attrs.contains(name) {
            emit_leaf(name, v)
        } else {
            Seq::empty()
        },
    }
}

/// Everything a document emits, in traversal order.
pub open spec fn spec_flatten(attrs: Seq<Seq<char>>, doc: Seq<(String, JsonVal)>) -> Seq<Emission>
    decreases doc.len(),
{
    if doc.len() == 0 {
        Seq::empty()
    } else {
        spec_flatten(attrs, doc.drop_last()) + emit_field(attrs, doc.last().0@, doc.last().1)
    }
}

/// Whether a name is among the attributes to extract.
fn contains_attr(attrs: &Vec<String>, name: &String) -> (r: bool)
    ensures
        r == view_names(attrs@).contains(name@),
{
    let n = attrs.len();
    let mut i: usize = 0;
    while i < n
        invariant
            n == attrs@.len(),
            i <= n,
            forall|j: int| 0 <= j < i ==> view_names(attrs@)[j] != name@,
        decreases n - i,
    {
        if attrs[i].eq(name) {
            proof {
                assert(view_names(attrs@)[i as int] == name@);
            }
            return true;
        }
        i = i + 1;
    }
    proof {
        if view_names(attrs@).contains(name@) {
            let j = choose|j: int|
                0 <= j < view_names(attrs@).len() && view_names(attrs@)[j] == name@;
        }
    }
    false
}

/// Appends what a matched value emits.
fn emit_leaf_exec(out: &mut Vec<(String, JsonVal)>, name: String, v: JsonVal)
    ensures
        view_emissions(final(out)@) == view_emissions(old(out)@) + emit_leaf(name@, v),
{
    let ghost out0 = out@;
    let ghost name0 = name@;
    let ghost v0 = v;
    match v {
        JsonVal::Array(mut elems) => {
            if elems.len() == 0 {
                out.push((name, JsonVal::Array(elems)));
                proof {
                    assert(JsonVal::Array(elems) == v0);
                    assert(view_emissions(out@) =~= view_emissions(out0) + emit_leaf(name0, v0));
                }
            } else {
                let ghost elems0 = elems@;
                let ghost ef: spec_fn(JsonVal) -> Emission = |e: JsonVal| (name0, e);
                let n = elems.len();
                let mut i: usize = 0;
                while i < n
                    invariant
                        n == elems@.len(),
                        i <= n,
                        n >= 1,
                        elems0.len() == n,
                        forall|j: int| i <= j < n ==> elems@[j] == elems0[j],
                        name@ == name0,
                        ef == (|e: JsonVal| (name0, e)),
                        view_emissions(out@) == view_emissions(out0) + elems0.take(
                            i as int,
                        ).map_values(ef),
                    decreases n - i,
                {
                    let ghost pre = out@;
                    let mut tmp: JsonVal = JsonVal::Null;
                    core::mem::swap(&mut tmp, &mut elems[i]);
                    proof {
                        assert(tmp == elems0[i as int]);
                    }
                    let cloned = name.clone();
                    out.push((cloned, tmp));
                    // the swapped-in placeholder never escapes: only
                    // indices below `i` change, and those are done
                    proof {
                        assert(out@ == pre.push((cloned, tmp)));
                        assert(view_emissions(out@) =~= view_emissions(pre).push((name0, elems0[i
                            as int])));
                        assert(elems0.take(i + 1).map_values(ef) =~= elems0.take(
                            i as int,
                        ).map_values(ef).push(ef(elems0[i as int])));
                        assert(ef(elems0[i as int]) == (name0, elems0[i as int]));
                        assert(view_emissions(out@) =~= view_emissions(out0) + elems0.take(i + 1)
                            .map_values(ef));
                    }
                    i = i + 1;
                    proof {
                        assert(elems@.len() == elems0.len());
                    }
                }
                proof {
                    assert(elems0.take(n as int) =~= elems0);
                    assert(emit_leaf(name0, v0) == elems0.map_values(ef));
                }
            }
        },
        other => {
            out.push((name, other));
            proof {
                assert(view_emissions(out@) =~= view_emissions(out0) + emit_leaf(name0, v0));
            }
        },
    }
}

/// Appends what the fields of a non-empty object emit.
fn emit_object_exec(
    out: &mut Vec<(String, JsonVal)>,
    attrs: &Vec<String>,
    name: &String,
    fields: Vec<(String, JsonVal)>,
)
    requires
        fields@.len() >= 1,
    ensures
        view_emissions(final(out)@) == view_emissions(old(out)@) + emit_object(
            view_names(attrs@),
            name@,
            fields@,
        ),
{
    let ghost out0 = out@;
    let ghost fields0 = fields@;
    let ghost a = view_names(attrs@);
    let mut fields = fields;
    let n = fields.len();
    let mut i: usize = 0;
    while i < n
        invariant
            n == fields@.len(),
            i <= n,
            fields0.len() == n,
            a == view_names(attrs@),
            forall|j: int| i <= j < n ==> fields@[j] == fields0[j],
            view_emissions(out@) == view_emissions(out0) + emit_object(
                a,
                name@,
                fields0.take(i as int),
            ),
        decreases n - i,
    {
        let mut tmp: (String, JsonVal) = (String::new(), JsonVal::Null);
        core::mem::swap(&mut tmp, &mut fields[i]);
        proof {
            assert(tmp == fields0[i as int]);
        }
        let (k, sub) = tmp;
        let mut dotted = name.clone();
        dotted.append(".");
        dotted.append(k.as_str());
        proof {
            assert(dotted@ == name@ + seq!['.'] + k@) by {
                reveal_strlit(".");
                assert(("."@) =~= seq!['.']);
            }
        }
        if contains_attr(attrs, &dotted) {
            emit_leaf_exec(out, dotted, sub);
        }
        proof {
            assert(fields0.take(i + 1).drop_last() =~= fields0.take(i as int));
            assert(fields0.take(i + 1).last() == fields0[i as int]);
            assert(view_emissions(out@) =~= view_emissions(out0) + emit_object(
                a,
                name@,
                fields0.take(i + 1),
            ));
        }
        i = i + 1;
    }
    proof {
        assert(fields0.take(n as int) =~= fields0);
    }
}

/// Flattens a document into `(dotted name, value)` emissions, in
/// traversal order.
pub fn flatten_document(attrs: &Vec<String>, doc: Document) -> (r: Vec<(String, JsonVal)>)
    ensures
        view_emissions(r@) == spec_flatten(view_names(attrs@), doc@),
{
    let ghost doc0 = doc@;
    let ghost a = view_names(attrs@);
    let mut doc = doc;
    let mut out: Vec<(String, JsonVal)> = Vec::new();
    let n = doc.len();
    let mut i: usize = 0;
    proof {
        assert(view_emissions(out@) =~= Seq::<Emission>::empty());
        assert(spec_flatten(a, doc0.take(0)) =~= Seq::<Emission>::empty());
    }
    while i < n
        invariant
            n == doc@.len(),
            i <= n,
            doc0.len() == n,
            a == view_names(attrs@),
            forall|j: int| i <= j < n ==> doc@[j] == doc0[j],
            view_emissions(out@) == spec_flatten(a, doc0.take(i as int)),
        decreases n - i,
    {
        let mut tmp: (String, JsonVal) = (String::new(), JsonVal::Null);
        core::mem::swap(&mut tmp, &mut doc[i]);
        proof {
            assert(tmp == doc0[i as int]);
        }
        let (name, v) = tmp;
        let ghost name0 = name@;
        let ghost v0 = v;
        match v {
            JsonVal::Object(fields) => {
                if fields.len() == 0 {
                    if contains_attr(attrs, &name) {
                        out.push((name, JsonVal::Object(fields)));
                    }
                } else {
                    emit_object_exec(&mut out, attrs, &name, fields);
                }
            },
            other => {
                if contains_attr(attrs, &name) {
                    emit_leaf_exec(&mut out, name, other);
                }
            },
        }
        proof {
            assert(doc0.take(i + 1).drop_last() =~= doc0.take(i as int));
            assert(doc0.take(i + 1).last() == doc0[i as int]);
            assert(view_emissions(out@) =~= spec_flatten(a, doc0.take(i + 1)));
        }
        i = i + 1;
    }
    proof {
        assert(doc0.take(n as int) =~= doc0);
    }
    out
}

/// The index of the first occurrence of a name, or -1.
pub open spec fn fm_find(names: Seq<Seq<char>>, name: Seq<char>) -> int
    decreases names.len(),
{
    if names.len() == 0 {
        -1
    } else if fm_find(names.drop_last(), name) >= 0 {
        fm_find(names.drop_last(), name)
    } else if names.last() == name {
        names.len() - 1
    } else {
        -1
    }
}

/// `fm_find` points at the first occurrence, or reports absence.
proof fn lemma_fm_find(names: Seq<Seq<char>>, name: Seq<char>)
    ensures
        fm_find(names, name) == -1 ==> forall|j: int| 0 <= j < names.len() ==> names[j] != name,
        fm_find(names, name) >= 0 ==> 0 <= fm_find(names, name) < names.len() && names[fm_find(
            names,
            name,
        )] == name && forall|j: int| 0 <= j < fm_find(names, name) ==> names[j] != name,
    decreases names.len(),
{
    if names.len() > 0 {
        lemma_fm_find(names.drop_last(), name);
        assert(forall|j: int| 0 <= j < names.len() - 1 ==> names[j] == names.drop_last()[j]);
    }
}

/// The error of the extraction pipeline: the 16-bit field-id space
/// is spent and a new field cannot be named.
#[derive(Clone, Copy, Debug, PartialEq, Eq, Structural)]
pub enum ExtractError {
    FieldIdSpaceExhausted,
}

/// One field-id resolution step: an already-known name keeps its id,
/// a fresh one takes the next id, and a full map admits nothing new.
pub open spec fn spec_resolve_one(names: Seq<Seq<char>>, name: Seq<char>) -> Option<
    (u16, Seq<Seq<char>>),
> {
    if fm_find(names, name) >= 0 {
        Some((fm_find(names, name) as u16, names))
    } else if names.len() < 0x10000 {
        Some((names.len() as u16, names.push(name)))
    } else {
        None
    }
}

/// Field ids for a whole emission list, left to right, threading the
/// map state; `None` when the id space runs out.
pub open spec fn spec_resolve(names: Seq<Seq<char>>, ems: Seq<Emission>) -> Option<
    (Seq<(u16, JsonVal)>, Seq<Seq<char>>),
>
    decreases ems.len(),
{
    if ems.len() == 0 {
        Some((Seq::empty(), names))
    } else {
        match spec_resolve(names, ems.drop_last()) {
            None => None,
            Some(p) => match spec_resolve_one(p.1, ems.last().0) {
                None => None,
                Some(q) => Some((p.0.push((q.0, ems.last().1)), q.1)),
            },
        }
    }
}

/// The shared map from attribute names to numeric field ids; an id
/// is the position at which its name first appeared.
pub struct FieldIdMap {
    names: Vec<String>,
}

impl FieldIdMap {
    /// The known names, in allocation order.
    pub closed spec fn names_view(self) -> Seq<Seq<char>> {
        view_names(self.names@)
    }

    /// Ids never exceed the 16-bit space.
    pub closed spec fn wf(self) -> bool {
        self.names@.len() <= 0x10000
    }

    /// An empty map.
    pub fn new() -> (r: Self)
        ensures
            r.wf(),
            r.names_view() == Seq::<Seq<char>>::empty(),
    {
        let r = FieldIdMap { names: Vec::new() };
        proof {
            assert(r.names_view() =~= Seq::<Seq<char>>::empty());
        }
        r
    }

    /// The id of a name, allocating the next free one on first
    /// sight; `None` once the id space is spent.
    pub fn id_or_insert(&mut self, name: &String) -> (r: Option<u16>)
        requires
            old(self).wf(),
        ensures
            final(self).wf(),
            match spec_resolve_one(old(self).names_view(), name@) {
                Some(q) => r == Some(q.0) && final(self).names_view() == q.1,
                None => r is None && final(self).names_view() == old(self).names_view(),
            },
    {
        let ghost names0 = self.names_view();
        let n = self.names.len();
        let mut i: usize = 0;
        proof {
            lemma_fm_find(names0, name@);
        }
        while i < n
            invariant
                n == self.names@.len(),
                i <= n,
                self.wf(),
                names0 == self.names_view(),
                forall|j: int| 0 <= j < i ==> names0[j] != name@,
            decreases n - i,
        {
            if self.names[i].eq(name) {
                proof {
                    assert(names0[i as int] == name@);
                    lemma_fm_find(names0, name@);
                    assert(fm_find(names0, name@) == i as int);
                }
                return Some(i as u16);
            }
            i = i + 1;
        }
        proof {
            assert(fm_find(names0, name@) == -1) by {
                lemma_fm_find(names0, name@);
            }
        }
        if self.names.len() < 0x10000 {
            let id = self.names.len() as u16;
            self.names.push(name.clone());
            proof {
                assert(self.names_view() =~= names0.push(name@));
            }
            Some(id)
        } else {
            None
        }
    }
}

/// Resolves every emission's dotted name to a field id, allocating
/// fresh ids in traversal order.  On exhaustion of the id space the
/// error is returned; ids handed out before the failure stay
/// allocated.
pub fn resolve_emissions(flat: Vec<(String, JsonVal)>, fields: &mut FieldIdMap) -> (r: Result<
    Vec<(u16, JsonVal)>,
    ExtractError,
>)
    requires
        old(fields).wf(),
    ensures
        final(fields).wf(),
        r matches Ok(v) ==> spec_resolve(old(fields).names_view(), view_emissions(flat@))
            == Some((v@, final(fields).names_view())),
        r is Err ==> spec_resolve(old(fields).names_view(), view_emissions(flat@)) is None,
{
    let ghost names0 = fields.names_view();
    let ghost flat0 = flat@;
    let ghost ems = view_emissions(flat@);
    let mut flat = flat;
    let mut out: Vec<(u16, JsonVal)> = Vec::new();
    let n = flat.len();
    let mut i: usize = 0;
    let mut failed = false;
    proof {
        assert(ems.take(0) =~= Seq::<Emission>::empty());
        assert(spec_resolve(names0, ems.take(0)) == Some((out@, fields.names_view())));
    }
    while i < n
        invariant_except_break
            n == flat@.len(),
            i <= n,
            flat0.len() == n,
            ems == view_emissions(flat0),
            fields.wf(),
            !failed,
            forall|j: int| i <= j < n ==> flat@[j] == flat0[j],
            spec_resolve(names0, ems.take(i as int)) == Some((out@, fields.names_view())),
        ensures
            fields.wf(),
            failed ==> spec_resolve(names0, ems) is None,
            !failed ==> spec_resolve(names0, ems.take(n as int)) == Some((
                out@,
                fields.names_view(),
            )),
        decreases n - i,
    {
        let mut tmp: (String, JsonVal) = (String::new(), JsonVal::Null);
        core::mem::swap(&mut tmp, &mut flat[i]);
        proof {
            assert(tmp == flat0[i as int]);
        }
        let (name, v) = tmp;
        proof {
            assert((name@, v) == ems[i as int]);
        }
        let id_opt = fields.id_or_insert(&name);
        proof {
            assert(ems.take(i + 1).drop_last() =~= ems.take(i as int));
            assert(ems.take(i + 1).last() == ems[i as int]);
        }
        match id_opt {
            Some(id) => {
                out.push((id, v));
                proof {
                    assert(spec_resolve(names0, ems.take(i + 1)) == Some((
                        out@,
                        fields.names_view(),
                    )));
                }
            },
            None => {
                proof {
                    assert(spec_resolve(names0, ems.take(i + 1)) is None);
                    lemma_resolve_none_extends(names0, ems, i + 1);
                }
                failed = true;
                break;
            },
        }
        i = i + 1;
    }
    if failed {
        return Err(ExtractError::FieldIdSpaceExhausted);
    }
    proof {
        assert(ems.take(n as int) =~= ems);
    }
    Ok(out)
}

/// Once resolution fails on a prefix, it fails on the whole list.
proof fn lemma_resolve_none_extends(names: Seq<Seq<char>>, ems: Seq<Emission>, i: int)
    requires
        0 <= i <= ems.len(),
        spec_resolve(names, ems.take(i)) is None,
    ensures
        spec_resolve(names, ems) is None,
    decreases ems.len() - i,
{
    if i < ems.len() {
        assert(ems.take(i + 1).drop_last() =~= ems.take(i));
        lemma_resolve_none_extends(names, ems, i + 1);
    } else {
        assert(ems.take(i) =~= ems);
    }
}


/// One name list begins with another.
pub open spec fn names_extend(a: Seq<Seq<char>>, b: Seq<Seq<char>>) -> bool {
    a.len() <= b.len() && forall|i: int| 0 <= i < a.len() ==> b[i] == a[i]
}

/// An occurrence with none before it is where `fm_find` points.
proof fn lemma_fm_find_first(names: Seq<Seq<char>>, name: Seq<char>, j: int)
    requires
        0 <= j < names.len(),
        names[j] == name,
        forall|i: int| 0 <= i < j ==> names[i] != name,
    ensures
        fm_find(names, name) == j,
{
    lemma_fm_find(names, name);
    if fm_find(names, name) == -1 {
        assert(names[j] != name);
    }
}

/// A resolution step against any extension of its resulting name
/// list finds the same id and allocates nothing.
proof fn lemma_resolve_one_stable(n1: Seq<Seq<char>>, bigger: Seq<Seq<char>>, name: Seq<char>)
    requires
        spec_resolve_one(n1, name) is Some,
        names_extend(spec_resolve_one(n1, name)->Some_0.1, bigger),
    ensures
        spec_resolve_one(bigger, name) == Some(
            (spec_resolve_one(n1, name)->Some_0.0, bigger),
        ),
{
    lemma_fm_find(n1, name);
    if fm_find(n1, name) >= 0 {
        let j = fm_find(n1, name);
        assert(bigger[j] == n1[j]);
        assert forall|i: int| 0 <= i < j implies bigger[i] != name by {
            assert(bigger[i] == n1[i]);
        }
        lemma_fm_find_first(bigger, name, j);
    } else {
        let n2 = n1.push(name);
        assert(bigger[n1.len() as int] == n2[n1.len() as int]);
        assert forall|i: int| 0 <= i < n1.len() implies bigger[i] != name by {
            assert(bigger[i] == n2[i] && n2[i] == n1[i]);
        }
        lemma_fm_find_first(bigger, name, n1.len() as int);
    }
}

/// A resolved emission list resolves identically against any name
/// list that extends the state it left behind: the same ids come
/// back and nothing new is allocated.
proof fn lemma_resolve_extends(names: Seq<Seq<char>>, ems: Seq<Emission>, bigger: Seq<Seq<char>>)
    requires
        spec_resolve(names, ems) is Some,
        names_extend(spec_resolve(names, ems)->Some_0.1, bigger),
    ensures
        spec_resolve(bigger, ems) == Some((spec_resolve(names, ems)->Some_0.0, bigger)),
    decreases ems.len(),
{
    if ems.len() == 0 {
        assert(spec_resolve(bigger, ems) == Some((Seq::<(u16, JsonVal)>::empty(), bigger)));
    } else {
        let p1 = spec_resolve(names, ems.drop_last())->Some_0;
        let q = spec_resolve_one(p1.1, ems.last().0)->Some_0;
        // each step only appends, so the prior state extends into the
        // final one and further into `bigger`
        assert(names_extend(p1.1, q.1)) by {
            lemma_fm_find(p1.1, ems.last().0);
            if fm_find(p1.1, ems.last().0) < 0 {
                assert forall|i: int| 0 <= i < p1.1.len() implies q.1[i] == p1.1[i] by {
                    assert(p1.1.push(ems.last().0)[i] == p1.1[i]);
                }
            }
        }
        assert(names_extend(p1.1, bigger)) by {
            assert forall|i: int| 0 <= i < p1.1.len() implies bigger[i] == p1.1[i] by {
                assert(bigger[i] == q.1[i]);
            }
        }
        lemma_resolve_extends(names, ems.drop_last(), bigger);
        lemma_resolve_one_stable(p1.1, bigger, ems.last().0);
    }
}

/// Resolution is stable: running the same emission list again from
/// the name state it produced yields the same resolved ids and the
/// same state.  An update whose two walks emit the same list
/// therefore resolves both sides identically.
pub proof fn lemma_resolve_stable(names: Seq<Seq<char>>, ems: Seq<Emission>)
    requires
        spec_resolve(names, ems) is Some,
    ensures
        spec_resolve(spec_resolve(names, ems)->Some_0.1, ems) == Some(
            spec_resolve(names, ems)->Some_0,
        ),
{
    let p = spec_resolve(names, ems)->Some_0;
    lemma_resolve_extends(names, ems, p.1);
}

} // verus!
