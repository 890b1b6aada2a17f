//! GraphViz rendering of compiled protocols.
use vstd::prelude::*;

use crate::compile::{ProtocolFileStateMachines, ProtocolStateMachine};
use crate::parser::Span;
use crate::state_machine::TransitionModel;
use crate::text::{decimal, push_decimal, push_str, push_string};

verus! {

/// An edge per transition, labelled with its message's label.
pub open spec fn edges_text(ts: Seq<TransitionModel>) -> Seq<char>
    decreases ts.len(),
{
    if ts.len() == 0 {
        Seq::empty()
    } else {
        let t = ts.last();
        edges_text(ts.drop_last()) + "  "@ + decimal(t.0) + " -> "@ + decimal(t.1) + "[label=\""@ + t.3.label
            + "\"];\n"@
    }
}

/// A `digraph` per protocol.
pub open spec fn graphs_text(ps: Seq<Span<ProtocolStateMachine>>) -> Seq<char>
    decreases ps.len(),
{
    if ps.len() == 0 {
        Seq::empty()
    } else {
        let p = ps.last().inner;
        graphs_text(ps.drop_last()) + "digraph {\n"@ + "  label=\""@ + p.name@ + "\"\n"@ + edges_text(
            p.state_machine.trans(),
        ) + "}\n"@
    }
}

/// The GraphViz view of the state machines of a file.
pub struct GraphViz<'a>(pub &'a ProtocolFileStateMachines);

impl ProtocolFileStateMachines {
    pub fn graph_viz(&self) -> (r: GraphViz)
        ensures
            r.0 == self,
    {
        GraphViz(self)
    }
}

impl<'a> GraphViz<'a> {
    /// The `digraph`s, one per protocol.
    pub fn to_string(&self) -> (r: String)
        ensures
            r@ == graphs_text(self.0.protocols@),
    {
        let mut out = String::new();
        let ps = &self.0.protocols;
        let mut i: usize = 0;
        while i < ps.len()
            invariant
                i <= ps@.len(),
                out@ == graphs_text(ps@.take(i as int)),
            decreases ps@.len() - i,
        {
            let p = &ps[i].inner;
            push_str(&mut out, "digraph {\n");
            push_str(&mut out, "  label=\"");
            push_string(&mut out, &p.name);
            push_str(&mut out, "\"\n");
            let ghost p1 = out@;
            let ts = p.state_machine.iter_transitions();
            let ghost tv = ts@.map_values(|t: crate::state_machine::Transition| crate::state_machine::transition_view(t));
            let mut j: usize = 0;
            while j < ts.len()
                invariant
                    j <= ts@.len(),
                    tv == ts@.map_values(|t: crate::state_machine::Transition| crate::state_machine::transition_view(t)),
                    out@ == p1 + edges_text(tv.take(j as int)),
                decreases ts@.len() - j,
            {
                let t = &ts[j];
                push_str(&mut out, "  ");
                push_decimal(&mut out, t.start.0 as u64);
                push_str(&mut out, " -> ");
                push_decimal(&mut out, t.end.0 as u64);
                push_str(&mut out, "[label=\"");
                push_string(&mut out, &t.msg.inner.label);
                push_str(&mut out, "\"];\n");
                assert(tv.take(j + 1).drop_last() =~= tv.take(j as int));
                j = j + 1;
            }
            assert(tv.take(ts@.len() as int) =~= tv);
            push_str(&mut out, "}\n");
            assert(ps@.take(i + 1).drop_last() =~= ps@.take(i as int));
            assert(out@ =~= graphs_text(ps@.take(i + 1)));
            i = i + 1;
        }
        assert(ps@.take(ps@.len() as int) =~= ps@);
        out
    }
}

} // verus!
