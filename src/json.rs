use vstd::prelude::*;
use std::collections::BTreeMap;
use crate::graph::{
    edges_distinct, labels_distinct, neighbours_known, valid_entries, Entry, EntriesView, Graph,
    GraphError,
};

verus! {

/// The JSON text that serde_json writes for a map from labels to maps from
/// labels to weights.
pub uninterp spec fn json_text(e: EntriesView) -> Seq<char>;

/// What serde_json reads from a text as a map from labels to maps from labels
/// to weights, in key order; `None` where the text is not such a map.
pub uninterp spec fn json_entries(text: Seq<char>) -> Option<EntriesView>;

/// Relies on `serde_json::to_string_pretty` over a map of maps with string
/// keys, which cannot fail; the text depends on the entries alone.
#[verifier::external_body]
fn encode(e: &Vec<Entry>) -> (r: String)
    ensures
        r@ == json_text(e.deep_view()),
{
    let m: BTreeMap<&String, BTreeMap<&String, usize>> = e.iter().map(
        |(l, es)| (l, es.iter().map(|(t, w)| (t, *w)).collect()),
    ).collect();
    serde_json::to_string_pretty(&m).unwrap_or_default()
}

/// Relies on `serde_json::from_str` reading a `BTreeMap` of `BTreeMap`s:
/// what it reads depends on the text alone, and a `BTreeMap` holds each key
/// once.
#[verifier::external_body]
fn decode(text: &str) -> (r: Option<Vec<Entry>>)
    ensures
        r.deep_view() == json_entries(text@),
        r matches Some(e) ==> labels_distinct(e.deep_view()) && edges_distinct(e.deep_view()),
{
    match serde_json::from_str::<BTreeMap<String, BTreeMap<String, usize>>>(text) {
        Ok(m) => Some(m.into_iter().map(|(l, es)| (l, es.into_iter().collect())).collect()),
        Err(_) => None,
    }
}

/// The graph as JSON text: a map from each label to a map from neighbour
/// label to weight.
pub fn export_json(graph: &Graph) -> (r: String)
    requires
        graph.wf(),
    ensures
        r@ == json_text(graph.entries_view()),
{
    let e = graph.entries();
    encode(&e)
}

/// Reads a graph from JSON text as `export_json` writes it.
pub fn import_json(text: &str) -> (r: Result<Graph, GraphError>)
    ensures
        json_entries(text@) is None <==> r == Err::<Graph, GraphError>(GraphError::Malformed),
        json_entries(text@) matches Some(e) ==> {
            &&& r.is_ok() <==> neighbours_known(e)
            &&& r matches Ok(g) ==> g.wf() && g.entries_view() == e && valid_entries(e)
            &&& r matches Err(x) ==> x == GraphError::UnknownNeighbour
        },
{
    match decode(text) {
        None => Err(GraphError::Malformed),
        Some(e) => Graph::from_entries(&e),
    }
}

} // verus!
