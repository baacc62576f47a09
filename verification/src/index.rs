//! The semantic feature index: feature identifiers and categories, and
//! the bridge between AST node names and features.
use vstd::prelude::*;
use crate::text::str_eq;

verus! {

/// Unique identifier of a language feature.
#[derive(Debug, Clone, Copy, PartialEq, Eq, Structural, Hash)]
pub struct FeatureID(pub u32);

/// The kind of concept a feature is.
#[derive(Debug, Clone, Copy, PartialEq, Eq, Structural, Hash)]
pub enum FeatureCategory {
    TypeSystem,
    Memory,
    Concurrency,
    Metaprogramming,
    Abstraction,
    Query,
    Effect,
    Hardware,
    Logic,
    Backend,
}

/// Binary operators seen as mathematical operators.
#[derive(Clone, Copy, Debug, PartialEq, Eq, Structural, Hash)]
pub enum MathematicalOperator {
    Add,
    Sub,
    Mul,
    Div,
    Mod,
    Eq,
    Ne,
    Lt,
    Le,
    Gt,
    Ge,
    And,
    Or,
    Xor,
}

/// The operator named by the name of a binary operator.
pub open spec fn operator_named(s: Seq<char>) -> Option<MathematicalOperator> {
    if s == "Add"@ {
        Some(MathematicalOperator::Add)
    } else if s == "Sub"@ {
        Some(MathematicalOperator::Sub)
    } else if s == "Mul"@ {
        Some(MathematicalOperator::Mul)
    } else if s == "Div"@ {
        Some(MathematicalOperator::Div)
    } else if s == "Mod"@ {
        Some(MathematicalOperator::Mod)
    } else if s == "Eq"@ {
        Some(MathematicalOperator::Eq)
    } else if s == "Ne"@ {
        Some(MathematicalOperator::Ne)
    } else if s == "Lt"@ {
        Some(MathematicalOperator::Lt)
    } else if s == "Le"@ {
        Some(MathematicalOperator::Le)
    } else if s == "Gt"@ {
        Some(MathematicalOperator::Gt)
    } else if s == "Ge"@ {
        Some(MathematicalOperator::Ge)
    } else if s == "And"@ {
        Some(MathematicalOperator::And)
    } else if s == "Or"@ {
        Some(MathematicalOperator::Or)
    } else if s == "Xor"@ {
        Some(MathematicalOperator::Xor)
    } else {
        None
    }
}

impl MathematicalOperator {
    /// The operator from the name of a binary operator.
    pub fn from_binary_op_str(op: &str) -> (r: Option<Self>)
        ensures
            r == operator_named(op@),
    {
        if str_eq(op, "Add") {
            Some(Self::Add)
        } else if str_eq(op, "Sub") {
            Some(Self::Sub)
        } else if str_eq(op, "Mul") {
            Some(Self::Mul)
        } else if str_eq(op, "Div") {
            Some(Self::Div)
        } else if str_eq(op, "Mod") {
            Some(Self::Mod)
        } else if str_eq(op, "Eq") {
            Some(Self::Eq)
        } else if str_eq(op, "Ne") {
            Some(Self::Ne)
        } else if str_eq(op, "Lt") {
            Some(Self::Lt)
        } else if str_eq(op, "Le") {
            Some(Self::Le)
        } else if str_eq(op, "Gt") {
            Some(Self::Gt)
        } else if str_eq(op, "Ge") {
            Some(Self::Ge)
        } else if str_eq(op, "And") {
            Some(Self::And)
        } else if str_eq(op, "Or") {
            Some(Self::Or)
        } else if str_eq(op, "Xor") {
            Some(Self::Xor)
        } else {
            None
        }
    }

    /// Every binary operator is the one binary-operation feature.
    pub fn feature_id(&self) -> (r: FeatureID)
        ensures
            r == FeatureID(100),
    {
        FeatureID(100)
    }
}

/// The AST node names and the features they express, in order.
pub open spec fn feature_table() -> Seq<(Seq<char>, FeatureID)> {
    seq![
        ("LinearLet"@, FeatureID(1)),
        ("Lambda"@, FeatureID(2)),
        ("Match"@, FeatureID(3)),
        ("MatchArm"@, FeatureID(3)),
        ("TypeDecl"@, FeatureID(4)),
        ("Constructor"@, FeatureID(4)),
        ("ForAll"@, FeatureID(200)),
        ("Exists"@, FeatureID(201)),
        ("Mu"@, FeatureID(202)),
        ("Set"@, FeatureID(203)),
        ("SetMembership"@, FeatureID(204)),
    ]
}

/// The AST node names of each category, in order.
pub open spec fn category_table() -> Seq<(FeatureCategory, Seq<Seq<char>>)> {
    seq![
        (FeatureCategory::Memory, seq!["LinearLet"@]),
        (FeatureCategory::TypeSystem, seq!["Lambda"@, "TypeDecl"@, "Constructor"@]),
        (FeatureCategory::Abstraction, seq!["Match"@, "MatchArm"@]),
        (FeatureCategory::Query, seq!["ForAll"@, "Exists"@, "Mu"@, "Set"@, "SetMembership"@]),
    ]
}

/// The feature of the first entry named `name`.
pub open spec fn lookup_feature(t: Seq<(Seq<char>, FeatureID)>, name: Seq<char>) -> Option<FeatureID>
    decreases t.len(),
{
    if t.len() == 0 {
        None
    } else if t[0].0 == name {
        Some(t[0].1)
    } else {
        lookup_feature(t.drop_first(), name)
    }
}

/// The names of the entries with feature `id`, in order.
pub open spec fn names_of(t: Seq<(Seq<char>, FeatureID)>, id: FeatureID) -> Seq<Seq<char>>
    decreases t.len(),
{
    if t.len() == 0 {
        Seq::empty()
    } else if t.last().1 == id {
        names_of(t.drop_last(), id).push(t.last().0)
    } else {
        names_of(t.drop_last(), id)
    }
}

/// The names of the first entry for `c`, or none.
pub open spec fn tags_of(t: Seq<(FeatureCategory, Seq<Seq<char>>)>, c: FeatureCategory) -> Seq<Seq<char>>
    decreases t.len(),
{
    if t.len() == 0 {
        Seq::empty()
    } else if t[0].0 == c {
        t[0].1
    } else {
        tags_of(t.drop_first(), c)
    }
}

/// No two entries of the table share a node name.
pub open spec fn names_unique(t: Seq<(Seq<char>, FeatureID)>) -> bool {
    forall|i: int, j: int| 0 <= i < j < t.len() ==> (#[trigger] t[i]).0 != (#[trigger] t[j]).0
}

proof fn lemma_lookup_feature(t: Seq<(Seq<char>, FeatureID)>, n: Seq<char>, id: FeatureID)
    requires
        names_unique(t),
    ensures
        lookup_feature(t, n) == Some(id) <==> exists|k: int| 0 <= k < t.len() && #[trigger] t[k] == (n, id),
    decreases t.len(),
{
    if t.len() > 0 {
        let r = t.drop_first();
        assert forall|i: int, j: int| 0 <= i < j < r.len() implies (#[trigger] r[i]).0 != (#[trigger] r[j]).0 by {
            assert(r[i] == t[i + 1] && r[j] == t[j + 1]);
        }
        lemma_lookup_feature(r, n, id);
        if exists|k: int| 0 <= k < t.len() && #[trigger] t[k] == (n, id) {
            let k = choose|k: int| 0 <= k < t.len() && #[trigger] t[k] == (n, id);
            if k > 0 {
                assert(r[k - 1] == (n, id));
            }
        }
        if exists|k: int| 0 <= k < r.len() && #[trigger] r[k] == (n, id) {
            let k = choose|k: int| 0 <= k < r.len() && #[trigger] r[k] == (n, id);
            assert(t[k + 1] == (n, id));
        }
        if t[0].0 == n {
            assert(t[0] == (n, t[0].1));
        }
    }
}

proof fn lemma_names_of(t: Seq<(Seq<char>, FeatureID)>, id: FeatureID, n: Seq<char>)
    ensures
        names_of(t, id).contains(n) <==> exists|k: int| 0 <= k < t.len() && #[trigger] t[k] == (n, id),
    decreases t.len(),
{
    if t.len() > 0 {
        let r = t.drop_last();
        lemma_names_of(r, id, n);
        if exists|k: int| 0 <= k < t.len() && #[trigger] t[k] == (n, id) {
            let k = choose|k: int| 0 <= k < t.len() && #[trigger] t[k] == (n, id);
            if k < r.len() {
                assert(r[k] == (n, id));
            } else {
                assert(names_of(t, id) == names_of(r, id).push(n));
                assert(names_of(t, id)[names_of(r, id).len() as int] == n);
            }
        }
        if exists|k: int| 0 <= k < r.len() && #[trigger] r[k] == (n, id) {
            let k = choose|k: int| 0 <= k < r.len() && #[trigger] r[k] == (n, id);
            assert(t[k] == (n, id));
        }
        if t.last().1 == id {
            let p = names_of(r, id);
            if p.push(t.last().0).contains(n) {
                let m = choose|m: int| 0 <= m < p.push(t.last().0).len() && p.push(t.last().0)[m] == n;
                if m < p.len() {
                    assert(p[m] == n);
                } else {
                    assert(t[t.len() - 1] == (n, id));
                }
            }
            if p.contains(n) {
                let m = choose|m: int| 0 <= m < p.len() && p[m] == n;
                assert(p.push(t.last().0)[m] == n);
            }
        }
    }
}

/// Bidirectional map between AST node names and semantic features.
pub struct SemanticBridge {
    ast_node_to_feature: Vec<(&'static str, FeatureID)>,
    category_to_ast_tags: Vec<(FeatureCategory, Vec<&'static str>)>,
}

impl SemanticBridge {
    /// The node-name table as values.
    pub closed spec fn features(&self) -> Seq<(Seq<char>, FeatureID)> {
        self.ast_node_to_feature@.map_values(|e: (&'static str, FeatureID)| (e.0@, e.1))
    }

    /// The category table as values.
    pub closed spec fn categories(&self) -> Seq<(FeatureCategory, Seq<Seq<char>>)> {
        self.category_to_ast_tags@.map_values(
            |e: (FeatureCategory, Vec<&'static str>)| (e.0, e.1@.map_values(|s: &'static str| s@)),
        )
    }

    /// The bridge with the fixed tables.
    pub fn new() -> (r: Self)
        ensures
            r.features() == feature_table(),
            r.categories() == category_table(),
    {
        let mut f: Vec<(&'static str, FeatureID)> = Vec::new();
        f.push(("LinearLet", FeatureID(1)));
        f.push(("Lambda", FeatureID(2)));
        f.push(("Match", FeatureID(3)));
        f.push(("MatchArm", FeatureID(3)));
        f.push(("TypeDecl", FeatureID(4)));
        f.push(("Constructor", FeatureID(4)));
        f.push(("ForAll", FeatureID(200)));
        f.push(("Exists", FeatureID(201)));
        f.push(("Mu", FeatureID(202)));
        f.push(("Set", FeatureID(203)));
        f.push(("SetMembership", FeatureID(204)));
        let mut memory: Vec<&'static str> = Vec::new();
        memory.push("LinearLet");
        let mut types: Vec<&'static str> = Vec::new();
        types.push("Lambda");
        types.push("TypeDecl");
        types.push("Constructor");
        let mut abstraction: Vec<&'static str> = Vec::new();
        abstraction.push("Match");
        abstraction.push("MatchArm");
        let mut query: Vec<&'static str> = Vec::new();
        query.push("ForAll");
        query.push("Exists");
        query.push("Mu");
        query.push("Set");
        query.push("SetMembership");
        let ghost vm = memory@.map_values(|s: &'static str| s@);
        let ghost vt = types@.map_values(|s: &'static str| s@);
        let ghost va = abstraction@.map_values(|s: &'static str| s@);
        let ghost vq = query@.map_values(|s: &'static str| s@);
        let mut c: Vec<(FeatureCategory, Vec<&'static str>)> = Vec::new();
        c.push((FeatureCategory::Memory, memory));
        c.push((FeatureCategory::TypeSystem, types));
        c.push((FeatureCategory::Abstraction, abstraction));
        c.push((FeatureCategory::Query, query));
        let r = SemanticBridge { ast_node_to_feature: f, category_to_ast_tags: c };
        proof {
            assert(r.features() =~= feature_table());
            assert(vm =~= seq!["LinearLet"@]);
            assert(vt =~= seq!["Lambda"@, "TypeDecl"@, "Constructor"@]);
            assert(va =~= seq!["Match"@, "MatchArm"@]);
            assert(vq =~= seq!["ForAll"@, "Exists"@, "Mu"@, "Set"@, "SetMembership"@]);
            assert(r.categories() =~= category_table());
        }
        r
    }

    /// The feature of the first entry with this node name.
    pub fn ast_to_feature(&self, node_name: &str) -> (r: Option<FeatureID>)
        ensures
            r == lookup_feature(self.features(), node_name@),
    {
        let ghost t = self.features();
        let mut i: usize = 0;
        assert(t.skip(0) =~= t);
        while i < self.ast_node_to_feature.len()
            invariant
                i <= t.len(),
                t == self.features(),
                lookup_feature(t, node_name@) == lookup_feature(t.skip(i as int), node_name@),
            decreases t.len() - i,
        {
            proof {
                assert(t.skip(i as int).drop_first() =~= t.skip(i as int + 1));
            }
            let (name, id) = self.ast_node_to_feature[i];
            if str_eq(name, node_name) {
                return Some(id);
            }
            i = i + 1;
        }
        proof {
            assert(t.skip(i as int) =~= Seq::<(Seq<char>, FeatureID)>::empty());
        }
        None
    }

    /// The node names of the entries with this feature, in order.
    pub fn feature_to_ast(&self, id: FeatureID) -> (r: Vec<&'static str>)
        ensures
            r@.map_values(|s: &'static str| s@) == names_of(self.features(), id),
    {
        let ghost t = self.features();
        let mut out: Vec<&'static str> = Vec::new();
        let mut i: usize = 0;
        while i < self.ast_node_to_feature.len()
            invariant
                i <= t.len(),
                t == self.features(),
                out@.map_values(|s: &'static str| s@) =~= names_of(t.take(i as int), id),
            decreases t.len() - i,
        {
            proof {
                assert(t.take(i as int + 1).drop_last() =~= t.take(i as int));
            }
            let (name, fid) = self.ast_node_to_feature[i];
            if fid == id {
                out.push(name);
            }
            i = i + 1;
        }
        proof {
            assert(t.take(i as int) =~= t);
        }
        out
    }

    /// The node names of the category, or none.
    pub fn category_tags(&self, category: FeatureCategory) -> (r: Vec<&'static str>)
        ensures
            r@.map_values(|s: &'static str| s@) == tags_of(self.categories(), category),
    {
        let ghost t = self.categories();
        let mut i: usize = 0;
        assert(t.skip(0) =~= t);
        while i < self.category_to_ast_tags.len()
            invariant
                i <= t.len(),
                t == self.categories(),
                tags_of(t, category) == tags_of(t.skip(i as int), category),
            decreases t.len() - i,
        {
            proof {
                assert(t.skip(i as int).drop_first() =~= t.skip(i as int + 1));
            }
            let entry = &self.category_to_ast_tags[i];
            if entry.0 == category {
                let mut out: Vec<&'static str> = Vec::new();
                let mut k: usize = 0;
                while k < entry.1.len()
                    invariant
                        k <= entry.1@.len(),
                        out@.len() == k,
                        forall|q: int| 0 <= q < k ==> #[trigger] out@[q]@ == entry.1@[q]@,
                    decreases entry.1@.len() - k,
                {
                    out.push(entry.1[k]);
                    k = k + 1;
                }
                proof {
                    assert(t[i as int] == (entry.0, entry.1@.map_values(|s: &'static str| s@)));
                    assert(out@.map_values(|s: &'static str| s@) =~= entry.1@.map_values(|s: &'static str| s@));
                }
                return out;
            }
            i = i + 1;
        }
        proof {
            assert(t.skip(i as int) =~= Seq::<(FeatureCategory, Seq<Seq<char>>)>::empty());
        }
        Vec::new()
    }

    /// The core constructs (linear let, lambda, match) have features.
    pub fn verify_completeness(&self) -> (r: bool)
        ensures
            r == (lookup_feature(self.features(), "LinearLet"@) is Some && lookup_feature(
                self.features(),
                "Lambda"@,
            ) is Some && lookup_feature(self.features(), "Match"@) is Some),
    {
        self.ast_to_feature("LinearLet").is_some() && self.ast_to_feature("Lambda").is_some()
            && self.ast_to_feature("Match").is_some()
    }
}

/// The two directions of the bridge are inverse: a node name maps to a
/// feature exactly when it is among the node names of that feature.
pub proof fn law_bridge_inverse(b: SemanticBridge, n: Seq<char>, id: FeatureID)
    requires
        b.features() == feature_table(),
    ensures
        lookup_feature(b.features(), n) == Some(id) <==> names_of(b.features(), id).contains(n),
{
    reveal_strlit("LinearLet");
    reveal_strlit("Lambda");
    reveal_strlit("Match");
    reveal_strlit("MatchArm");
    reveal_strlit("TypeDecl");
    reveal_strlit("Constructor");
    reveal_strlit("ForAll");
    reveal_strlit("Exists");
    reveal_strlit("Mu");
    reveal_strlit("Set");
    reveal_strlit("SetMembership");
    let t = feature_table();
    assert forall|i: int, j: int| 0 <= i < j < t.len() implies (#[trigger] t[i]).0 != (#[trigger] t[j]).0 by {
        assert(t[i].0.len() != t[j].0.len() || t[i].0[0] != t[j].0[0]);
    }
    lemma_lookup_feature(t, n, id);
    lemma_names_of(t, id, n);
}

impl Default for SemanticBridge {
    fn default() -> (r: Self)
        ensures
            r.features() == feature_table(),
            r.categories() == category_table(),
    {
        Self::new()
    }
}

} // verus!
