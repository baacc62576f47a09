//! The knowledge graph of the language's features: formal semantics of a
//! feature, and a graph of features, types, rules and proofs joined by
//! typed relations, from which a feature's proof obligations are read.
use vstd::prelude::*;
use crate::index::FeatureID;
use crate::text::str_eq;

verus! {

/// Formal semantic definition of a feature.
#[derive(Debug)]
pub struct FormalSemantics {
    pub formula: String,
    pub axioms: Vec<String>,
    pub inference_rules: Vec<InferenceRule>,
}

/// Inference rule: premises ⊢ conclusion, with its name.
#[derive(Debug)]
pub struct InferenceRule {
    pub name: String,
    pub premises: Vec<String>,
    pub conclusion: String,
}

/// A node of the knowledge graph.
#[derive(Debug, PartialEq, Eq, Hash)]
pub enum KBNode {
    Feature(FeatureID),
    Type(String),
    Rule(String),
    Proof(String),
}

/// A relation between two nodes.
#[derive(Debug, Clone, Copy, PartialEq, Eq, Hash, Structural)]
pub enum KBRelation {
    DerivesFrom,
    Requires,
    EquivalentTo,
    Generalizes,
    Specializes,
    Proves,
    Implements,
}

/// A node as a value: names by their characters.
pub enum KNode {
    Feature(FeatureID),
    Type(Seq<char>),
    Rule(Seq<char>),
    Proof(Seq<char>),
}

/// The value of a node.
pub open spec fn knode(n: KBNode) -> KNode {
    match n {
        KBNode::Feature(f) => KNode::Feature(f),
        KBNode::Type(s) => KNode::Type(s@),
        KBNode::Rule(s) => KNode::Rule(s@),
        KBNode::Proof(s) => KNode::Proof(s@),
    }
}

/// The values of a list of nodes.
pub open spec fn knodes(s: Seq<KBNode>) -> Seq<KNode> {
    s.map_values(|n: KBNode| knode(n))
}

/// An edge as a value.
pub open spec fn kedge(e: (KBNode, KBNode, KBRelation)) -> (KNode, KNode, KBRelation) {
    (knode(e.0), knode(e.1), e.2)
}

/// The targets of the edges of `es` that leave `from` by `rel`, in order.
pub open spec fn related(es: Seq<(KNode, KNode, KBRelation)>, from: KNode, rel: KBRelation) -> Seq<KNode>
    decreases es.len(),
{
    if es.len() == 0 {
        Seq::empty()
    } else {
        let rest = related(es.drop_last(), from, rel);
        let e = es.last();
        if e.0 == from && e.2 == rel {
            rest.push(e.1)
        } else {
            rest
        }
    }
}

/// The rule names among nodes, in order.
pub open spec fn rule_names(ns: Seq<KNode>) -> Seq<Seq<char>>
    decreases ns.len(),
{
    if ns.len() == 0 {
        Seq::empty()
    } else {
        let rest = rule_names(ns.drop_last());
        match ns.last() {
            KNode::Rule(name) => rest.push(name),
            _ => rest,
        }
    }
}

impl KBNode {
    /// A copy of the node.
    pub fn copy(&self) -> (r: KBNode)
        ensures
            knode(r) == knode(*self),
    {
        match self {
            KBNode::Feature(f) => KBNode::Feature(*f),
            KBNode::Type(s) => KBNode::Type(s.clone()),
            KBNode::Rule(s) => KBNode::Rule(s.clone()),
            KBNode::Proof(s) => KBNode::Proof(s.clone()),
        }
    }
}

impl Clone for KBNode {
    fn clone(&self) -> (r: Self)
        ensures
            knode(r) == knode(*self),
    {
        self.copy()
    }
}

/// Whether two nodes are the same node.
pub fn node_eq(a: &KBNode, b: &KBNode) -> (r: bool)
    ensures
        r == (knode(*a) == knode(*b)),
{
    match (a, b) {
        (KBNode::Feature(x), KBNode::Feature(y)) => x.0 == y.0,
        (KBNode::Type(x), KBNode::Type(y)) => str_eq(x.as_str(), y.as_str()),
        (KBNode::Rule(x), KBNode::Rule(y)) => str_eq(x.as_str(), y.as_str()),
        (KBNode::Proof(x), KBNode::Proof(y)) => str_eq(x.as_str(), y.as_str()),
        _ => false,
    }
}

/// The knowledge graph: its nodes, each once, and its edges.
pub struct KnowledgeGraph {
    nodes: Vec<KBNode>,
    edges: Vec<(KBNode, KBNode, KBRelation)>,
}

impl KnowledgeGraph {
    /// The nodes, in the order they were added.
    pub closed spec fn node_seq(&self) -> Seq<KNode> {
        knodes(self.nodes@)
    }

    /// The edges, in the order they were added.
    pub closed spec fn edge_seq(&self) -> Seq<(KNode, KNode, KBRelation)> {
        self.edges@.map_values(|e: (KBNode, KBNode, KBRelation)| kedge(e))
    }

    /// The empty graph.
    pub fn new() -> (g: Self)
        ensures
            g.node_seq().len() == 0,
            g.edge_seq().len() == 0,
    {
        let g = KnowledgeGraph { nodes: Vec::new(), edges: Vec::new() };
        assert(g.node_seq() =~= Seq::<KNode>::empty());
        assert(g.edge_seq() =~= Seq::<(KNode, KNode, KBRelation)>::empty());
        g
    }

    /// Adds `node` unless it is already a node.
    pub fn add_node(&mut self, node: KBNode)
        ensures
            old(self).node_seq().contains(knode(node)) ==> final(self).node_seq() == old(self).node_seq(),
            !old(self).node_seq().contains(knode(node)) ==> final(self).node_seq() == old(self).node_seq().push(
                knode(node),
            ),
            final(self).edge_seq() == old(self).edge_seq(),
    {
        let mut i: usize = 0;
        while i < self.nodes.len()
            invariant
                i <= self.nodes@.len(),
                forall|k: int| 0 <= k < i ==> knode(self.nodes@[k]) != knode(node),
            decreases self.nodes@.len() - i,
        {
            if node_eq(&self.nodes[i], &node) {
                assert(self.node_seq()[i as int] == knode(node));
                return;
            }
            i = i + 1;
        }
        proof {
            if self.node_seq().contains(knode(node)) {
                let k = choose|k: int| 0 <= k < self.node_seq().len() && self.node_seq()[k] == knode(node);
                assert(knode(self.nodes@[k]) == knode(node));
            }
        }
        let ghost before = self.nodes@;
        self.nodes.push(node);
        assert(knodes(self.nodes@) =~= knodes(before).push(knode(node)));
    }

    /// Adds the edge `from → to` labelled `relation`.
    pub fn add_edge(&mut self, from: KBNode, to: KBNode, relation: KBRelation)
        ensures
            final(self).node_seq() == old(self).node_seq(),
            final(self).edge_seq() == old(self).edge_seq().push((knode(from), knode(to), relation)),
    {
        let ghost before = self.edges@;
        self.edges.push((from, to, relation));
        assert(self.edge_seq() =~= before.map_values(|e: (KBNode, KBNode, KBRelation)| kedge(e)).push(
            (knode(from), knode(to), relation),
        ));
    }

    /// The targets of the edges that leave `node` by `relation`, in order.
    pub fn find_related(&self, node: KBNode, relation: KBRelation) -> (r: Vec<KBNode>)
        ensures
            knodes(r@) == related(self.edge_seq(), knode(node), relation),
    {
        let ghost es = self.edge_seq();
        let mut out: Vec<KBNode> = Vec::new();
        let mut i: usize = 0;
        while i < self.edges.len()
            invariant
                es == self.edge_seq(),
                i <= self.edges@.len(),
                knodes(out@) == related(es.take(i as int), knode(node), relation),
            decreases self.edges@.len() - i,
        {
            assert(es.take(i as int + 1).drop_last() =~= es.take(i as int));
            assert(es[i as int] == kedge(self.edges@[i as int]));
            let e = &self.edges[i];
            if node_eq(&e.0, &node) && e.2 == relation {
                let ghost before = out@;
                out.push(e.1.copy());
                assert(knodes(out@) =~= knodes(before).push(knode(e.1)));
            }
            i = i + 1;
        }
        assert(es.take(i as int) =~= es);
        out
    }

    /// The names of the rules that `feature` requires, in order.
    pub fn proof_obligations(&self, feature: FeatureID) -> (r: Vec<String>)
        ensures
            r@.map_values(|s: String| s@) == rule_names(
                related(self.edge_seq(), KNode::Feature(feature), KBRelation::Requires),
            ),
    {
        let ghost es = self.edge_seq();
        let feature_node = KBNode::Feature(feature);
        let mut out: Vec<String> = Vec::new();
        let mut i: usize = 0;
        while i < self.edges.len()
            invariant
                es == self.edge_seq(),
                feature_node == KBNode::Feature(feature),
                i <= self.edges@.len(),
                out@.map_values(|s: String| s@) == rule_names(
                    related(es.take(i as int), KNode::Feature(feature), KBRelation::Requires),
                ),
            decreases self.edges@.len() - i,
        {
            assert(es.take(i as int + 1).drop_last() =~= es.take(i as int));
            assert(es[i as int] == kedge(self.edges@[i as int]));
            let e = &self.edges[i];
            if node_eq(&e.0, &feature_node) && e.2 == KBRelation::Requires {
                let ghost rel_before = related(es.take(i as int), KNode::Feature(feature), KBRelation::Requires);
                assert(related(es.take(i as int + 1), KNode::Feature(feature), KBRelation::Requires) == rel_before.push(
                    knode(e.1),
                ));
                assert(rel_before.push(knode(e.1)).drop_last() =~= rel_before);
                match &e.1 {
                    KBNode::Rule(name) => {
                        let ghost before = out@;
                        out.push(name.clone());
                        assert(out@.map_values(|s: String| s@) =~= before.map_values(|s: String| s@).push(name@));
                    },
                    _ => {},
                }
            }
            i = i + 1;
        }
        assert(es.take(i as int) =~= es);
        out
    }

    /// The number of nodes.
    pub fn node_count(&self) -> (n: usize)
        ensures
            n == self.node_seq().len(),
    {
        self.nodes.len()
    }

    /// The number of edges.
    pub fn edge_count(&self) -> (n: usize)
        ensures
            n == self.edge_seq().len(),
    {
        self.edges.len()
    }
}

impl Default for KnowledgeGraph {
    fn default() -> (g: Self)
        ensures
            g.node_seq().len() == 0,
            g.edge_seq().len() == 0,
    {
        KnowledgeGraph::new()
    }
}

} // verus!
