//! The catalog file format: exact rendering of a catalog as a pretty-printed
//! object text, and validation of a loaded tree of plain values into the
//! typed catalog.
//!
//! The renderer is the one place that defines what a catalog file looks like
//! on disk.  Loading is split: the surrounding application turns file bytes
//! into a tree of plain string/object nodes, and `from_nodes` validates that
//! tree — values must be strings or metadata-shaped objects, keys must be
//! unique — into a well-formed catalog.

use vstd::prelude::*;

use crate::arb::ArbValue;
use crate::arb::Catalog;
use crate::arb::Entry;
use crate::arb::Metadata;
use crate::arb::Placeholder;
use crate::quoted::escape_seq;
use crate::quoted::push_escape_seq;
use crate::text::chars_of;
use crate::text::push_str_chars;
use crate::text::str_eq;
use crate::text::string_of;
use vstd::string::StringExecFns;

verus! {

/// A text rendered as a quoted string.
pub open spec fn quoted_of(s: Seq<char>) -> Seq<char> {
    seq!['"'] + escape_seq(s) + seq!['"']
}

/// One placeholder rendered inside the placeholders object.
pub open spec fn ser_placeholder(p: Placeholder) -> Seq<char> {
    "      "@ + quoted_of(p.name@) + ": {\n        \"type\": "@ + quoted_of(p.ptype@)
        + "\n      }"@
}

/// A nonempty placeholder list rendered as an object body.
pub open spec fn ser_placeholders(ps: Seq<Placeholder>) -> Seq<char>
    decreases ps.len(),
{
    if ps.len() == 0 {
        Seq::<char>::empty()
    } else if ps.len() == 1 {
        ser_placeholder(ps[0])
    } else {
        ser_placeholder(ps[0]) + ",\n"@ + ser_placeholders(ps.drop_first())
    }
}

/// A catalog value rendered at entry depth.
pub open spec fn ser_value(v: ArbValue) -> Seq<char> {
    match v {
        ArbValue::Text(t) => quoted_of(t@),
        ArbValue::Meta(m) => if m.placeholders@.len() == 0 {
            "{}"@
        } else {
            "{\n    \"placeholders\": {\n"@ + ser_placeholders(m.placeholders@) + "\n    }\n  }"@
        },
    }
}

/// One catalog entry rendered on its own line.
pub open spec fn ser_entry(e: Entry) -> Seq<char> {
    "  "@ + quoted_of(e.key@) + ": "@ + ser_value(e.value)
}

/// The entry lines of a catalog, comma-separated.
pub open spec fn ser_entries(es: Seq<Entry>) -> Seq<char>
    decreases es.len(),
{
    if es.len() == 0 {
        Seq::<char>::empty()
    } else if es.len() == 1 {
        ser_entry(es[0])
    } else {
        ser_entry(es[0]) + ",\n"@ + ser_entries(es.drop_first())
    }
}

/// The full pretty-printed text of a catalog file.
pub open spec fn ser_catalog(c: Catalog) -> Seq<char> {
    if c.entries@.len() == 0 {
        "{}"@
    } else {
        "{\n"@ + ser_entries(c.entries@) + "\n}"@
    }
}

proof fn lemma_ser_placeholders_snoc(ps: Seq<Placeholder>, p: Placeholder)
    requires
        ps.len() > 0,
    ensures
        ser_placeholders(ps.push(p)) == ser_placeholders(ps) + ",\n"@ + ser_placeholder(p),
    decreases ps.len(),
{
    if ps.len() == 1 {
        assert(ps.push(p)[0] == ps[0]);
        assert(ps.push(p).drop_first() =~= seq![p]);
        assert(ser_placeholders(seq![p]) == ser_placeholder(p));
        assert(ser_placeholders(ps.push(p)) =~= ser_placeholders(ps) + ",\n"@
            + ser_placeholder(p));
    } else {
        assert(ps.push(p)[0] == ps[0]);
        assert(ps.push(p).drop_first() =~= ps.drop_first().push(p));
        lemma_ser_placeholders_snoc(ps.drop_first(), p);
        assert(ser_placeholders(ps.push(p)) == ser_placeholder(ps[0]) + ",\n"@ + ser_placeholders(
            ps.drop_first().push(p),
        ));
        assert(ser_placeholders(ps.push(p)) =~= ser_placeholders(ps) + ",\n"@
            + ser_placeholder(p));
    }
}

proof fn lemma_ser_entries_snoc(es: Seq<Entry>, e: Entry)
    requires
        es.len() > 0,
    ensures
        ser_entries(es.push(e)) == ser_entries(es) + ",\n"@ + ser_entry(e),
    decreases es.len(),
{
    if es.len() == 1 {
        assert(es.push(e)[0] == es[0]);
        assert(es.push(e).drop_first() =~= seq![e]);
        assert(ser_entries(seq![e]) == ser_entry(e));
        assert(ser_entries(es.push(e)) =~= ser_entries(es) + ",\n"@ + ser_entry(e));
    } else {
        assert(es.push(e)[0] == es[0]);
        assert(es.push(e).drop_first() =~= es.drop_first().push(e));
        lemma_ser_entries_snoc(es.drop_first(), e);
        assert(ser_entries(es.push(e)) == ser_entry(es[0]) + ",\n"@ + ser_entries(
            es.drop_first().push(e),
        ));
        assert(ser_entries(es.push(e)) =~= ser_entries(es) + ",\n"@ + ser_entry(e));
    }
}

/// Appends a quoted rendering of `s`.
fn push_quoted(out: &mut Vec<char>, s: &str)
    ensures
        final(out)@ == old(out)@ + quoted_of(s@),
{
    out.push('"');
    let v = chars_of(s);
    push_escape_seq(out, &v);
    out.push('"');
    proof {
        assert(out@ =~= old(out)@ + quoted_of(s@));
    }
}

/// Appends the rendering of one placeholder.
fn push_placeholder(out: &mut Vec<char>, p: &Placeholder)
    ensures
        final(out)@ == old(out)@ + ser_placeholder(*p),
{
    push_str_chars(out, "      ");
    push_quoted(out, p.name.as_str());
    push_str_chars(out, ": {\n        \"type\": ");
    push_quoted(out, p.ptype.as_str());
    push_str_chars(out, "\n      }");
    proof {
        assert(out@ =~= old(out)@ + ser_placeholder(*p));
    }
}

/// Appends the rendering of one catalog value.
fn push_value(out: &mut Vec<char>, v: &ArbValue)
    ensures
        final(out)@ == old(out)@ + ser_value(*v),
{
    match v {
        ArbValue::Text(t) => {
            push_quoted(out, t.as_str());
        },
        ArbValue::Meta(m) => {
            if m.placeholders.len() == 0 {
                push_str_chars(out, "{}");
            } else {
                push_str_chars(out, "{\n    \"placeholders\": {\n");
                let mut i: usize = 0;
                while i < m.placeholders.len()
                    invariant
                        i <= m.placeholders@.len(),
                        m.placeholders@.len() > 0,
                        out@ == if i == 0 {
                            old(out)@ + "{\n    \"placeholders\": {\n"@
                        } else {
                            (old(out)@ + "{\n    \"placeholders\": {\n"@ + ser_placeholders(
                                m.placeholders@.subrange(0, i as int),
                            ))
                        },
                    decreases m.placeholders@.len() - i,
                {
                    if i > 0 {
                        push_str_chars(out, ",\n");
                    }
                    push_placeholder(out, &m.placeholders[i]);
                    proof {
                        if i == 0 {
                            assert(m.placeholders@.subrange(0, 1) =~= seq![m.placeholders@[0]]);
                            assert(ser_placeholders(seq![m.placeholders@[0]]) == ser_placeholder(
                                m.placeholders@[0],
                            ));
                        } else {
                            lemma_ser_placeholders_snoc(
                                m.placeholders@.subrange(0, i as int),
                                m.placeholders@[i as int],
                            );
                            assert(m.placeholders@.subrange(0, i as int).push(
                                m.placeholders@[i as int],
                            ) =~= m.placeholders@.subrange(0, i as int + 1));
                        }
                    }
                    i = i + 1;
                }
                proof {
                    assert(m.placeholders@.subrange(0, m.placeholders@.len() as int)
                        =~= m.placeholders@);
                }
                push_str_chars(out, "\n    }\n  }");
                proof {
                    assert(out@ =~= old(out)@ + ser_value(*v));
                }
            }
        },
    }
}

/// Renders a catalog as its on-disk text: a pretty-printed object, one entry
/// per line, metadata objects nested below their keys.
pub fn serialize_catalog(c: &Catalog) -> (r: String)
    ensures
        r@ == ser_catalog(*c),
{
    if c.entries.len() == 0 {
        return String::from_str("{}");
    }
    let mut out: Vec<char> = Vec::new();
    push_str_chars(&mut out, "{\n");
    let mut i: usize = 0;
    while i < c.entries.len()
        invariant
            i <= c.entries@.len(),
            c.entries@.len() > 0,
            out@ == if i == 0 {
                "{\n"@
            } else {
                ("{\n"@ + ser_entries(c.entries@.subrange(0, i as int)))
            },
        decreases c.entries@.len() - i,
    {
        if i > 0 {
            push_str_chars(&mut out, ",\n");
        }
        push_str_chars(&mut out, "  ");
        push_quoted(&mut out, c.entries[i].key.as_str());
        push_str_chars(&mut out, ": ");
        push_value(&mut out, &c.entries[i].value);
        proof {
            if i == 0 {
                assert(c.entries@.subrange(0, 1) =~= seq![c.entries@[0]]);
                assert(ser_entries(seq![c.entries@[0]]) == ser_entry(c.entries@[0]));
                assert(out@ =~= "{\n"@ + ser_entries(c.entries@.subrange(0, 1)));
            } else {
                lemma_ser_entries_snoc(c.entries@.subrange(0, i as int), c.entries@[i as int]);
                assert(c.entries@.subrange(0, i as int).push(c.entries@[i as int])
                    =~= c.entries@.subrange(0, i as int + 1));
                assert(out@ =~= "{\n"@ + ser_entries(c.entries@.subrange(0, i as int + 1)));
            }
        }
        i = i + 1;
    }
    proof {
        assert(c.entries@.subrange(0, c.entries@.len() as int) =~= c.entries@);
    }
    push_str_chars(&mut out, "\n}");
    proof {
        assert(out@ =~= ser_catalog(*c));
    }
    string_of(&out)
}

/// A plain tree of loaded values: what the surrounding application hands
/// the library after decoding a catalog file.  Anything besides strings and
/// objects arrives as `Other`, which validation rejects.
#[derive(Debug)]
pub enum JsonNode {
    Str(String),
    Obj(Vec<(String, JsonNode)>),
    Other,
}

/// A well-shaped placeholder descriptor: an object holding exactly a `type`
/// string.
pub open spec fn ph_shape(n: JsonNode) -> bool {
    &&& n is Obj
    &&& n->Obj_0@.len() == 1
    &&& n->Obj_0@[0].0@ == "type"@
    &&& n->Obj_0@[0].1 is Str
}

/// The type string of a well-shaped placeholder descriptor.
pub open spec fn ph_type_of(n: JsonNode) -> Seq<char> {
    n->Obj_0@[0].1->Str_0@
}

/// A well-shaped metadata object: empty, or exactly a `placeholders` object
/// of well-shaped descriptors.
pub open spec fn meta_shape(n: JsonNode) -> bool {
    &&& n is Obj
    &&& (n->Obj_0@.len() == 0 || {
        &&& n->Obj_0@.len() == 1
        &&& n->Obj_0@[0].0@ == "placeholders"@
        &&& n->Obj_0@[0].1 is Obj
        &&& forall|j: int|
            0 <= j < n->Obj_0@[0].1->Obj_0@.len() ==> ph_shape(
                (#[trigger] n->Obj_0@[0].1->Obj_0@[j]).1,
            )
    })
}

/// A loadable catalog value: a string, or a well-shaped metadata object.
pub open spec fn node_valid(n: JsonNode) -> bool {
    n is Str || meta_shape(n)
}

/// The placeholder descriptors of a well-shaped metadata object.
pub open spec fn meta_ph_list(n: JsonNode) -> Seq<(String, JsonNode)> {
    if n->Obj_0@.len() == 0 {
        Seq::<(String, JsonNode)>::empty()
    } else {
        n->Obj_0@[0].1->Obj_0@
    }
}

/// Validates a loaded tree into a catalog: every value must be a string or
/// a metadata-shaped object, and keys must be unique.  The catalog keeps
/// the file's entry order.
pub fn from_nodes(nodes: &Vec<(String, JsonNode)>) -> (r: Result<Catalog, String>)
    ensures
        r is Ok <==> {
            &&& forall|i: int|
                0 <= i < nodes@.len() ==> node_valid((#[trigger] nodes@[i]).1)
            &&& forall|a: int, b: int|
                0 <= a < b < nodes@.len() ==> (#[trigger] nodes@[a]).0@ != (
                #[trigger] nodes@[b]).0@
        },
        r matches Ok(c) ==> {
            &&& c.wf()
            &&& c.entries@.len() == nodes@.len()
            &&& forall|i: int|
                #![trigger c.entries@[i]]
                0 <= i < nodes@.len() ==> {
                    &&& c.entries@[i].key@ == nodes@[i].0@
                    &&& (nodes@[i].1 is Str ==> (c.entries@[i].value matches ArbValue::Text(tx)
                        && tx@ == nodes@[i].1->Str_0@))
                    &&& (nodes@[i].1 is Obj ==> (c.entries@[i].value matches ArbValue::Meta(m)
                        && {
                        &&& m.placeholders@.len() == meta_ph_list(nodes@[i].1).len()
                        &&& forall|j: int|
                            0 <= j < meta_ph_list(nodes@[i].1).len() ==> (
                            #[trigger] m.placeholders@[j]).name@ == meta_ph_list(nodes@[i].1)[j].0@
                                && m.placeholders@[j].ptype@ == ph_type_of(
                                meta_ph_list(nodes@[i].1)[j].1,
                            )
                    }))
                }
        },
{
    let mut cat = Catalog::new();
    let mut i: usize = 0;
    while i < nodes.len()
        invariant
            i <= nodes@.len(),
            cat.wf(),
            cat.entries@.len() == i as int,
            forall|t: int| 0 <= t < i as int ==> node_valid((#[trigger] nodes@[t]).1),
            forall|a: int, b: int|
                0 <= a < b < i as int ==> (#[trigger] nodes@[a]).0@ != (#[trigger] nodes@[b]).0@,
            forall|t: int|
                #![trigger cat.entries@[t]]
                0 <= t < i as int ==> {
                    &&& cat.entries@[t].key@ == nodes@[t].0@
                    &&& (nodes@[t].1 is Str ==> (cat.entries@[t].value matches ArbValue::Text(
                        tx,
                    ) && tx@ == nodes@[t].1->Str_0@))
                    &&& (nodes@[t].1 is Obj ==> (cat.entries@[t].value matches ArbValue::Meta(m)
                        && {
                        &&& m.placeholders@.len() == meta_ph_list(nodes@[t].1).len()
                        &&& forall|j: int|
                            0 <= j < meta_ph_list(nodes@[t].1).len() ==> (
                            #[trigger] m.placeholders@[j]).name@ == meta_ph_list(nodes@[t].1)[j].0@
                                && m.placeholders@[j].ptype@ == ph_type_of(
                                meta_ph_list(nodes@[t].1)[j].1,
                            )
                    }))
                },
        decreases nodes@.len() - i,
    {
        let ghost prev = cat;
        let key = &nodes[i].0;
        if cat.find_index(key.as_str()).is_some() {
            proof {
                let w = choose|t: int|
                    0 <= t < cat.keys().len() && cat.keys()[t] == key@;
                assert(cat.entries@[w].key@ == key@);
                assert(nodes@[w].0@ == nodes@[i as int].0@);
            }
            return Err(String::from_str("catalog holds the same key twice"));
        }
        proof {
            assert forall|t: int| 0 <= t < i as int implies (#[trigger] nodes@[t]).0@
                != nodes@[i as int].0@ by {
                assert(cat.keys()[t] == cat.entries@[t].key@);
            }
        }
        let value = match &nodes[i].1 {
            JsonNode::Str(t) => ArbValue::Text(t.clone()),
            JsonNode::Obj(fields) => {
                if fields.len() == 0 {
                    ArbValue::Meta(Metadata { placeholders: Vec::new() })
                } else if fields.len() == 1 && str_eq(fields[0].0.as_str(), "placeholders") {
                    match &fields[0].1 {
                        JsonNode::Obj(ps) => {
                            let mut placeholders: Vec<Placeholder> = Vec::new();
                            let mut j: usize = 0;
                            while j < ps.len()
                                invariant
                                    j <= ps@.len(),
                                    i < nodes@.len(),
                                    nodes@[i as int].1 is Obj,
                                    nodes@[i as int].1->Obj_0@ == fields@,
                                    fields@.len() == 1,
                                    fields@[0].0@ == "placeholders"@,
                                    fields@[0].1 is Obj,
                                    fields@[0].1->Obj_0@ == ps@,
                                    placeholders@.len() == j as int,
                                    forall|t: int|
                                        0 <= t < j as int ==> ph_shape((#[trigger] ps@[t]).1),
                                    forall|t: int|
                                        0 <= t < j as int ==> (
                                        #[trigger] placeholders@[t]).name@ == ps@[t].0@
                                            && placeholders@[t].ptype@ == ph_type_of(ps@[t].1),
                                decreases ps@.len() - j,
                            {
                                match &ps[j].1 {
                                    JsonNode::Obj(tv) => {
                                        if tv.len() == 1 && str_eq(tv[0].0.as_str(), "type") {
                                            match &tv[0].1 {
                                                JsonNode::Str(ty) => {
                                                    placeholders.push(
                                                        Placeholder {
                                                            name: ps[j].0.clone(),
                                                            ptype: ty.clone(),
                                                        },
                                                    );
                                                },
                                                _ => {
                                                    proof {
                                                        assert(nodes@[i as int].1->Obj_0@
                                                            == fields@);
                                                        assert(fields@[0].1->Obj_0@ == ps@);
                                                        assert(!ph_shape(ps@[j as int].1));
                                                        assert(!node_valid(nodes@[i as int].1));
                                                    }
                                                    return Err(
                                                        String::from_str(
                                                            "placeholder type is not a string",
                                                        ),
                                                    );
                                                },
                                            }
                                        } else {
                                            proof {
                                                assert(nodes@[i as int].1->Obj_0@ == fields@);
                                                assert(fields@[0].1->Obj_0@ == ps@);
                                                assert(!ph_shape(ps@[j as int].1));
                                                assert(!node_valid(nodes@[i as int].1));
                                            }
                                            return Err(
                                                String::from_str(
                                                    "placeholder descriptor is not a type object",
                                                ),
                                            );
                                        }
                                    },
                                    _ => {
                                        proof {
                                            assert(nodes@[i as int].1->Obj_0@ == fields@);
                                            assert(fields@[0].1->Obj_0@ == ps@);
                                            assert(!ph_shape(ps@[j as int].1));
                                            assert(!node_valid(nodes@[i as int].1));
                                        }
                                        return Err(
                                            String::from_str(
                                                "placeholder descriptor is not an object",
                                            ),
                                        );
                                    },
                                }
                                j = j + 1;
                            }
                            ArbValue::Meta(Metadata { placeholders })
                        },
                        _ => {
                            return Err(
                                String::from_str("metadata placeholders is not an object"),
                            );
                        },
                    }
                } else {
                    return Err(
                        String::from_str("metadata object holds more than placeholders"),
                    );
                }
            },
            JsonNode::Other => {
                return Err(
                    String::from_str("catalog value is neither a string nor a metadata object"),
                );
            },
        };
        let owned_key = key.clone();
        proof {
            assert(node_valid(nodes@[i as int].1));
        }
        cat.insert_absent(owned_key.as_str(), value);
        i = i + 1;
        proof {
            assert(forall|t: int|
                0 <= t < i as int - 1 ==> cat.entries@[t] == prev.entries@[t]);
        }
    }
    Ok(cat)
}

} // verus!
