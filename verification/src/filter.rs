//! Conditions on nodes.
//!
//! What a condition says of a node is for whoever evaluates it. The engine
//! asks for verdicts, and uses what a condition pins down to look at fewer
//! nodes.

use vstd::prelude::*;

use crate::bytes::has_prefix;
use crate::json::{field_of, Json, JsonView};
use crate::keys::indexed_text_of;
use crate::order::order_code;
use crate::text::utf8;
use crate::types::{Node, NodeView};

verus! {

/// A condition, with what it pins down of every node it holds of.
#[derive(Debug)]
pub struct Filter {
    /// The condition itself.
    pub source: String,
    /// Members of the data and the values they have.
    pub equals: Vec<(String, Json)>,
    /// Members of the data and what their texts begin with.
    pub prefixes: Vec<(String, String)>,
    /// Members of the data and texts that their texts contain.
    pub contains: Vec<(String, String)>,
}

pub open spec fn verdict_view(r: Result<bool, String>) -> Result<bool, Seq<char>> {
    match r {
        Ok(b) => Ok(b),
        Err(e) => Err(e@),
    }
}

/// An evaluation of conditions: it answers for every node, and by what the
/// node is alone.
pub open spec fn evaluates<F: Fn(&Filter, &Node) -> Result<bool, String>>(eval: F) -> bool {
    &&& forall|f: &Filter, n: &Node| #[trigger] eval.requires((f, n))
    &&& forall|f: &Filter, m: &Node, n: &Node, r: Result<bool, String>, s: Result<bool, String>|
        #[trigger] eval.ensures((f, m), r) && #[trigger] eval.ensures((f, n), s) && m@ == n@ ==> verdict_view(r)
            == verdict_view(s)
}

/// The evaluation says this of the node.
pub open spec fn says<F: Fn(&Filter, &Node) -> Result<bool, String>>(
    eval: F,
    f: Filter,
    n: NodeView,
    v: Result<bool, Seq<char>>,
) -> bool {
    exists|node: Node, out: Result<bool, String>|
        node@ == n && #[trigger] eval.ensures((&f, &node), out) && verdict_view(out) == v
}

/// What the evaluation says of a node.
pub open spec fn verdict<F: Fn(&Filter, &Node) -> Result<bool, String>>(
    eval: F,
    f: Filter,
    n: NodeView,
) -> Result<bool, Seq<char>> {
    choose|v: Result<bool, Seq<char>>| says(eval, f, n, v)
}

pub proof fn lemma_verdict<F: Fn(&Filter, &Node) -> Result<bool, String>>(
    eval: F,
    f: &Filter,
    node: &Node,
    out: Result<bool, String>,
)
    requires
        evaluates(eval),
        eval.ensures((f, node), out),
    ensures
        verdict(eval, *f, node@) == verdict_view(out),
{
    assert(says(eval, *f, node@, verdict_view(out)));
    let v = verdict(eval, *f, node@);
    assert(says(eval, *f, node@, v));
    let (other, r) = choose|other: Node, r: Result<bool, String>|
        other@ == node@ && #[trigger] eval.ensures((f, &other), r) && verdict_view(r) == v;
    assert(eval.ensures((f, node), out));
}

/// Asks for a verdict.
pub fn judge<F: Fn(&Filter, &Node) -> Result<bool, String>>(eval: &F, filter: &Filter, node: &Node) -> (r: Result<
    bool,
    String,
>)
    requires
        evaluates(*eval),
    ensures
        verdict_view(r) == verdict(*eval, *filter, node@),
{
    let r = eval(filter, node);
    proof {
        lemma_verdict(*eval, filter, node, r);
    }
    r
}

// ---------------------------------------------------------------------
// What a condition pins down
// ---------------------------------------------------------------------

/// The member has the value, up to what the order of values tells apart.
pub open spec fn has_value(n: NodeView, name: Seq<char>, v: JsonView) -> bool {
    order_code(field_of(n.data, name)) == order_code(Some(v))
}

/// The member is a text that begins so.
pub open spec fn begins(n: NodeView, name: Seq<char>, literal: Seq<char>) -> bool {
    indexed_text_of(n.data, name) matches Some(s) && has_prefix(utf8(s), utf8(literal))
}

/// The member is a text that contains the other.
pub open spec fn contains_text(n: NodeView, name: Seq<char>, literal: Seq<char>) -> bool {
    indexed_text_of(n.data, name) matches Some(s) && exists|at: int|
        0 <= at && at + utf8(literal).len() <= utf8(s).len() && #[trigger] utf8(s).subrange(
            at,
            at + utf8(literal).len(),
        ) == utf8(literal)
}

/// What the condition pins down is true of the node.
pub open spec fn pins_hold(f: Filter, n: NodeView) -> bool {
    &&& forall|i: int|
        0 <= i < f.equals@.len() ==> has_value(n, (#[trigger] f.equals@[i]).0@, f.equals@[i].1@)
    &&& forall|i: int|
        0 <= i < f.prefixes@.len() ==> begins(n, (#[trigger] f.prefixes@[i]).0@, f.prefixes@[i].1@)
    &&& forall|i: int|
        0 <= i < f.contains@.len() ==> contains_text(n, (#[trigger] f.contains@[i]).0@, f.contains@[i].1@)
}

/// What the condition pins down is true of every node it holds of.
pub open spec fn pins_sound<F: Fn(&Filter, &Node) -> Result<bool, String>>(eval: F, f: Filter) -> bool {
    forall|n: NodeView| #[trigger] verdict(eval, f, n) == Ok::<bool, Seq<char>>(true) ==> pins_hold(f, n)
}

impl Filter {
    /// A condition that pins nothing down.
    pub fn new(source: String) -> (r: Filter)
        ensures
            r.source@ == source@,
            r.equals@.len() == 0,
            r.prefixes@.len() == 0,
            r.contains@.len() == 0,
    {
        Filter { source, equals: Vec::new(), prefixes: Vec::new(), contains: Vec::new() }
    }
}

} // verus!
