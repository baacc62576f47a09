//! Linear ownership checking: a variable moved into a linear `let` is
//! consumed, and may be used again only after it is reassigned.
use vstd::prelude::*;
use vstd::string::*;
use crate::arena::{acyclic, lemma_rank_child, node_children, rank_of, ASTNode, Arena, NodeID, INVALID_RAW, OP_ASSIGN};
use crate::text::str_eq;

verus! {

/// A byte range of the source text.
#[derive(Debug, Clone, Copy, PartialEq, Eq)]
pub struct SourceSpan {
    pub start: u32,
    pub end: u32,
}

/// Ownership violations.
#[derive(Debug, PartialEq, Eq)]
pub enum OwnershipError {
    /// A variable used after it was moved.
    UsedAfterMove { var: String, span: Option<SourceSpan> },
    /// A variable moved twice.
    DoubleMove { var: String, span: Option<SourceSpan> },
    /// A variable not in scope.
    UndefinedVariable { var: String, span: Option<SourceSpan> },
}

impl OwnershipError {
    /// The error as a message.
    pub fn message(&self) -> (s: String)
        ensures
            s@ == match self {
                OwnershipError::UsedAfterMove { var, .. } => "خطأ ملكية ⊸: '"@ + var@
                    + "' مستهلك — نُقلت ملكيته ولا يمكن استخدامه"@,
                OwnershipError::DoubleMove { var, .. } => "خطأ ملكية ⊸: '"@ + var@
                    + "' مستهلك بالفعل — لا يمكن نقله مرتين"@,
                OwnershipError::UndefinedVariable { var, .. } => "خطأ: المتغير '"@ + var@ + "' غير معرف"@,
            },
    {
        match self {
            OwnershipError::UsedAfterMove { var, .. } => {
                let mut s = String::from_str("خطأ ملكية ⊸: '");
                s.append(var.as_str());
                s.append("' مستهلك — نُقلت ملكيته ولا يمكن استخدامه");
                s
            },
            OwnershipError::DoubleMove { var, .. } => {
                let mut s = String::from_str("خطأ ملكية ⊸: '");
                s.append(var.as_str());
                s.append("' مستهلك بالفعل — لا يمكن نقله مرتين");
                s
            },
            OwnershipError::UndefinedVariable { var, .. } => {
                let mut s = String::from_str("خطأ: المتغير '");
                s.append(var.as_str());
                s.append("' غير معرف");
                s
            },
        }
    }
}

/// Identifier names by index.
pub struct StringTable {
    strings: Vec<String>,
}

impl View for StringTable {
    type V = Seq<Seq<char>>;

    closed spec fn view(&self) -> Seq<Seq<char>> {
        self.strings@.map_values(|s: String| s@)
    }
}

impl StringTable {
    pub fn new() -> (r: Self)
        ensures
            r@ == Seq::<Seq<char>>::empty(),
    {
        let r = StringTable { strings: Vec::new() };
        assert(r@ =~= Seq::<Seq<char>>::empty());
        r
    }

    /// The index of `s`, added at the end when absent.
    pub fn intern(&mut self, s: &str) -> (r: u32)
        requires
            old(self)@.len() <= u32::MAX,
        ensures
            old(self)@.contains(s@) ==> final(self)@ == old(self)@ && r < old(self)@.len() && old(self)@[r as int]
                == s@ && forall|k: int| 0 <= k < r ==> old(self)@[k] != s@,
            !old(self)@.contains(s@) ==> final(self)@ == old(self)@.push(s@) && r == old(self)@.len(),
    {
        let mut i: usize = 0;
        while i < self.strings.len()
            invariant
                i <= self@.len(),
                self@.len() <= u32::MAX,
                forall|k: int| 0 <= k < i ==> self@[k] != s@,
            decreases self@.len() - i,
        {
            if str_eq(self.strings[i].as_str(), s) {
                assert(self@[i as int] == s@);
                return i as u32;
            }
            i = i + 1;
        }
        let idx = self.strings.len() as u32;
        let ghost before = self@;
        self.strings.push(s.to_owned());
        proof {
            assert(self@ =~= before.push(s@));
        }
        idx
    }

    /// The string at `idx`.
    pub fn get(&self, idx: u32) -> (r: Option<&str>)
        ensures
            r.is_some() == ((idx as int) < self@.len()),
            r matches Some(x) ==> x@ == self@[idx as int],
    {
        if (idx as usize) < self.strings.len() {
            Some(self.strings[idx as usize].as_str())
        } else {
            None
        }
    }
}

impl Default for StringTable {
    fn default() -> (r: Self)
        ensures
            r@ == Seq::<Seq<char>>::empty(),
    {
        Self::new()
    }
}

/// A set of variable names, each held once.
#[derive(Debug)]
pub struct NameSet {
    names: Vec<String>,
}

impl View for NameSet {
    type V = Set<Seq<char>>;

    closed spec fn view(&self) -> Set<Seq<char>> {
        self.names@.map_values(|s: String| s@).to_set()
    }
}

impl NameSet {
    /// Each name is held once.
    pub closed spec fn wf(&self) -> bool {
        self.names@.map_values(|s: String| s@).no_duplicates()
    }

    /// The names in the set's order.
    pub closed spec fn order(&self) -> Seq<Seq<char>> {
        self.names@.map_values(|s: String| s@)
    }

    pub fn new() -> (r: Self)
        ensures
            r.wf(),
            r@ == Set::<Seq<char>>::empty(),
    {
        let r = NameSet { names: Vec::new() };
        assert(r.order() =~= Seq::<Seq<char>>::empty());
        assert(r@ =~= Set::<Seq<char>>::empty());
        r
    }

    pub fn contains(&self, name: &str) -> (r: bool)
        ensures
            r == self@.contains(name@),
    {
        let mut i: usize = 0;
        while i < self.names.len()
            invariant
                i <= self.order().len(),
                forall|k: int| 0 <= k < i ==> self.order()[k] != name@,
            decreases self.order().len() - i,
        {
            if str_eq(self.names[i].as_str(), name) {
                assert(self.order()[i as int] == name@);
                return true;
            }
            i = i + 1;
        }
        false
    }

    pub fn insert(&mut self, name: String)
        requires
            old(self).wf(),
        ensures
            final(self).wf(),
            final(self)@ == old(self)@.insert(name@),
    {
        if !self.contains(name.as_str()) {
            let ghost before = self.order();
            self.names.push(name);
            proof {
                assert(self.order() =~= before.push(name@));
                assert(self@ =~= old(self)@.insert(name@)) by {
                    vstd::seq_lib::lemma_seq_contains_after_push(before, name@, name@);
                    assert forall|x: Seq<char>| self@.contains(x) <==> old(self)@.insert(name@).contains(x) by {
                        vstd::seq_lib::lemma_seq_contains_after_push(before, name@, x);
                    }
                }
            }
        } else {
            assert(self@ =~= old(self)@.insert(name@));
        }
    }

    pub fn remove(&mut self, name: &str)
        requires
            old(self).wf(),
        ensures
            final(self).wf(),
            final(self)@ == old(self)@.remove(name@),
    {
        let ghost before = self.order();
        let mut i: usize = 0;
        while i < self.names.len()
            invariant
                self.order() == before,
                old(self).order() == before,
                before.no_duplicates(),
                i <= before.len(),
                forall|k: int| 0 <= k < i ==> before[k] != name@,
            decreases before.len() - i,
        {
            if str_eq(self.names[i].as_str(), name) {
                self.names.remove(i);
                proof {
                    assert(self.order() =~= before.remove(i as int));
                    assert forall|x: Seq<char>| self@.contains(x) <==> old(self)@.remove(name@).contains(x) by {
                        if self@.contains(x) {
                            let k = choose|k: int| 0 <= k < self.order().len() && self.order()[k] == x;
                            assert(before[i as int] == name@);
                            if k < i {
                                assert(before[k] == x);
                                assert(before.contains(x));
                            } else {
                                assert(before[k + 1] == x);
                                assert(before.contains(x));
                                assert(before[k + 1] != before[i as int]);
                            }
                            assert(old(self).order() == before);
                            assert(old(self)@.contains(x));
                        }
                        if old(self)@.remove(name@).contains(x) {
                            assert(old(self)@.contains(x));
                            assert(old(self).order() == before);
                            assert(before.contains(x));
                            let k = choose|k: int| 0 <= k < before.len() && before[k] == x;
                            if k < i {
                                assert(self.order()[k] == x);
                            } else if k > i {
                                assert(self.order()[k - 1] == x);
                            }
                        }
                    }
                    assert(self@ =~= old(self)@.remove(name@));
                }
                return;
            }
            i = i + 1;
        }
        proof {
            assert(!old(self)@.contains(name@));
            assert(self@ =~= old(self)@.remove(name@));
        }
    }

    pub fn len(&self) -> (r: usize)
        requires
            self.wf(),
        ensures
            r == self@.len(),
    {
        proof {
            self.order().unique_seq_to_set();
        }
        self.names.len()
    }

    /// The name at position `i` of the set's order.
    pub fn name_at(&self, i: usize) -> (r: &str)
        requires
            i < self.order().len(),
        ensures
            r@ == self.order()[i as int],
            self@.contains(r@),
    {
        assert(self.order().contains(self.order()[i as int]));
        self.names[i].as_str()
    }

    /// Number of names in the set's order.
    pub fn count(&self) -> (r: usize)
        ensures
            r == self.order().len(),
            forall|x: Seq<char>| self@.contains(x) <==> self.order().contains(x),
    {
        self.names.len()
    }
}

// ─── Variables used by an expression ──────────────────────────────────

/// The subterm `c` names a node of the arena.
pub open spec fn inside(a: Seq<ASTNode>, c: NodeID) -> bool {
    (c.0 as int) < a.len()
}

/// Names of the parameters of a lambda.
pub open spec fn param_names(a: Seq<ASTNode>, t: Seq<Seq<char>>, nid: int) -> Set<Seq<char>>
    decreases rank_of(a)[nid],
    when acyclic(a)
{
    if 0 <= nid < a.len() {
        match a[nid] {
            ASTNode::Ident(idx) => if (idx as int) < t.len() {
                set![t[idx as int]]
            } else {
                Set::empty()
            },
            ASTNode::List { head, tail } => (if inside(a, head) {
                proof {
                    lemma_rank_child(a, nid, 0);
                }
                param_names(a, t, head.0 as int)
            } else {
                Set::empty()
            }).union(
                if tail.0 != INVALID_RAW && inside(a, tail) {
                    proof {
                        lemma_rank_child(a, nid, 1);
                    }
                    param_names(a, t, tail.0 as int)
                } else {
                    Set::empty()
                },
            ),
            _ => Set::empty(),
        }
    } else {
        Set::empty()
    }
}

/// The names of the variables an expression uses (free in lambdas).
pub open spec fn names_in(a: Seq<ASTNode>, t: Seq<Seq<char>>, nid: int) -> Set<Seq<char>>
    decreases rank_of(a)[nid],
    when acyclic(a)
{
    if 0 <= nid < a.len() {
        match a[nid] {
            ASTNode::Ident(idx) => if (idx as int) < t.len() {
                set![t[idx as int]]
            } else {
                Set::empty()
            },
            ASTNode::BinOp { left, right, .. } => (if inside(a, left) {
                proof {
                    lemma_rank_child(a, nid, 0);
                }
                names_in(a, t, left.0 as int)
            } else {
                Set::empty()
            }).union(if inside(a, right) {
                proof {
                    lemma_rank_child(a, nid, 1);
                }
                names_in(a, t, right.0 as int)
            } else {
                Set::empty()
            }),
            ASTNode::UnaryOp { expr, .. } => if inside(a, expr) {
                proof {
                    lemma_rank_child(a, nid, 0);
                }
                names_in(a, t, expr.0 as int)
            } else {
                Set::empty()
            },
            ASTNode::Call { func, args } => (if inside(a, func) {
                proof {
                    lemma_rank_child(a, nid, 0);
                }
                names_in(a, t, func.0 as int)
            } else {
                Set::empty()
            }).union(if inside(a, args) {
                proof {
                    lemma_rank_child(a, nid, 1);
                }
                names_in(a, t, args.0 as int)
            } else {
                Set::empty()
            }),
            ASTNode::List { head, tail } => (if inside(a, head) {
                proof {
                    lemma_rank_child(a, nid, 0);
                }
                names_in(a, t, head.0 as int)
            } else {
                Set::empty()
            }).union(
                if tail.0 != INVALID_RAW && inside(a, tail) {
                    proof {
                        lemma_rank_child(a, nid, 1);
                    }
                    names_in(a, t, tail.0 as int)
                } else {
                    Set::empty()
                },
            ),
            ASTNode::Lambda { params, body } => (if inside(a, body) {
                proof {
                    lemma_rank_child(a, nid, 1);
                }
                names_in(a, t, body.0 as int)
            } else {
                Set::empty()
            }).difference(param_names(a, t, params.0 as int)),
            ASTNode::ForAll { set, body, .. } => (if inside(a, set) {
                proof {
                    lemma_rank_child(a, nid, 1);
                }
                names_in(a, t, set.0 as int)
            } else {
                Set::empty()
            }).union(if inside(a, body) {
                proof {
                    lemma_rank_child(a, nid, 2);
                }
                names_in(a, t, body.0 as int)
            } else {
                Set::empty()
            }),
            ASTNode::SetMembership { elem, set } => (if inside(a, elem) {
                proof {
                    lemma_rank_child(a, nid, 0);
                }
                names_in(a, t, elem.0 as int)
            } else {
                Set::empty()
            }).union(if inside(a, set) {
                proof {
                    lemma_rank_child(a, nid, 1);
                }
                names_in(a, t, set.0 as int)
            } else {
                Set::empty()
            }),
            ASTNode::Mu { body, .. } => if inside(a, body) {
                proof {
                    lemma_rank_child(a, nid, 1);
                }
                names_in(a, t, body.0 as int)
            } else {
                Set::empty()
            },
            ASTNode::Exists { set, body, .. } => (if inside(a, set) {
                proof {
                    lemma_rank_child(a, nid, 1);
                }
                names_in(a, t, set.0 as int)
            } else {
                Set::empty()
            }).union(if inside(a, body) {
                proof {
                    lemma_rank_child(a, nid, 2);
                }
                names_in(a, t, body.0 as int)
            } else {
                Set::empty()
            }),
            ASTNode::SetLiteral { elems } => if elems.0 != INVALID_RAW && inside(a, elems) {
                proof {
                    lemma_rank_child(a, nid, 0);
                }
                names_in(a, t, elems.0 as int)
            } else {
                Set::empty()
            },
            _ => Set::empty(),
        }
    } else {
        Set::empty()
    }
}

/// Termination measure: a node counts one more than its rank, other
/// identifiers count 0.
pub open spec fn depth(arena: &Arena, id: NodeID) -> int {
    if (id.0 as int) < arena@.len() {
        rank_of(arena@)[id.0 as int] + 1int
    } else {
        0
    }
}

proof fn lemma_child(a: Seq<ASTNode>, k: int, i: int)
    requires
        acyclic(a),
        0 <= k < a.len(),
        0 <= i < node_children(a[k]).len(),
    ensures
        node_children(a[k])[i] >= a.len() || rank_of(a)[node_children(a[k])[i] as int] < rank_of(a)[k],
{
    if node_children(a[k])[i] < a.len() {
        lemma_rank_child(a, k, i);
    }
}

fn collect_param_names(node_id: NodeID, arena: &Arena, string_table: &StringTable, params: &mut NameSet)
    requires
        acyclic(arena@),
        old(params).wf(),
    ensures
        final(params).wf(),
        final(params)@ == old(params)@.union(param_names(arena@, string_table@, node_id.0 as int)),
    decreases depth(arena, node_id),
{
    if let Ok(node) = arena.get(node_id) {
        let ghost k = node_id.0 as int;
        match node {
            ASTNode::Ident(idx) => {
                match string_table.get(*idx) {
                    Some(name) => {
                        params.insert(name.to_owned());
                    },
                    None => {
                        assert(old(params)@.union(Set::empty()) =~= old(params)@);
                    },
                }
                assert(final(params)@ =~= old(params)@.union(param_names(arena@, string_table@, k)));
            },
            ASTNode::List { head, tail } => {
                proof {
                    lemma_child(arena@, k, 0);
                    lemma_child(arena@, k, 1);
                }
                collect_param_names(*head, arena, string_table, params);
                if tail.0 != INVALID_RAW {
                    collect_param_names(*tail, arena, string_table, params);
                }
                assert(final(params)@ =~= old(params)@.union(param_names(arena@, string_table@, k)));
            },
            _ => {
                assert(old(params)@.union(param_names(arena@, string_table@, k)) =~= old(params)@);
            },
        }
    } else {
        assert(old(params)@.union(param_names(arena@, string_table@, node_id.0 as int)) =~= old(params)@);
    }
}

fn collect_used_vars(node_id: NodeID, arena: &Arena, string_table: &StringTable, used: &mut NameSet)
    requires
        acyclic(arena@),
        old(used).wf(),
    ensures
        final(used).wf(),
        final(used)@ == old(used)@.union(names_in(arena@, string_table@, node_id.0 as int)),
    decreases depth(arena, node_id),
{
    if let Ok(node) = arena.get(node_id) {
        let ghost k = node_id.0 as int;
        let ghost a = arena@;
        let ghost t = string_table@;
        match node {
            ASTNode::Ident(idx) => {
                match string_table.get(*idx) {
                    Some(name) => {
                        used.insert(name.to_owned());
                    },
                    None => {},
                }
            },
            ASTNode::BinOp { left, right, .. } => {
                proof {
                    lemma_child(a, k, 0);
                    lemma_child(a, k, 1);
                }
                collect_used_vars(*left, arena, string_table, used);
                collect_used_vars(*right, arena, string_table, used);
            },
            ASTNode::UnaryOp { expr, .. } => {
                proof {
                    lemma_child(a, k, 0);
                }
                collect_used_vars(*expr, arena, string_table, used);
            },
            ASTNode::Call { func, args } => {
                proof {
                    lemma_child(a, k, 0);
                    lemma_child(a, k, 1);
                }
                collect_used_vars(*func, arena, string_table, used);
                collect_used_vars(*args, arena, string_table, used);
            },
            ASTNode::List { head, tail } => {
                proof {
                    lemma_child(a, k, 0);
                    lemma_child(a, k, 1);
                }
                collect_used_vars(*head, arena, string_table, used);
                if tail.0 != INVALID_RAW {
                    collect_used_vars(*tail, arena, string_table, used);
                }
            },
            ASTNode::Lambda { params, body } => {
                proof {
                    lemma_child(a, k, 1);
                }
                let mut body_used = NameSet::new();
                collect_used_vars(*body, arena, string_table, &mut body_used);
                let mut names = NameSet::new();
                collect_param_names(*params, arena, string_table, &mut names);
                let ghost start = used@;
                let n = body_used.count();
                let mut i: usize = 0;
                while i < n
                    invariant
                        n == body_used.order().len(),
                        i <= n,
                        used.wf(),
                        forall|x: Seq<char>| body_used@.contains(x) <==> body_used.order().contains(x),
                        used@ == start.union(
                            body_used.order().take(i as int).to_set().difference(names@),
                        ),
                    decreases n - i,
                {
                    let var = body_used.name_at(i);
                    let ghost before = used@;
                    if !names.contains(var) {
                        used.insert(var.to_owned());
                    }
                    proof {
                        let o = body_used.order();
                        assert(o.take(i as int + 1) =~= o.take(i as int).push(o[i as int]));
                        o.take(i as int).lemma_push_to_set_commute(o[i as int]);
                        assert(used@ =~= start.union(o.take(i as int + 1).to_set().difference(names@)));
                    }
                    i = i + 1;
                }
                proof {
                    assert(body_used.order().take(i as int) =~= body_used.order());
                    assert(body_used.order().to_set() =~= body_used@);
                }
            },
            ASTNode::ForAll { set, body, .. } => {
                proof {
                    lemma_child(a, k, 1);
                    lemma_child(a, k, 2);
                }
                collect_used_vars(*set, arena, string_table, used);
                collect_used_vars(*body, arena, string_table, used);
            },
            ASTNode::SetMembership { elem, set } => {
                proof {
                    lemma_child(a, k, 0);
                    lemma_child(a, k, 1);
                }
                collect_used_vars(*elem, arena, string_table, used);
                collect_used_vars(*set, arena, string_table, used);
            },
            ASTNode::Mu { body, .. } => {
                proof {
                    lemma_child(a, k, 1);
                }
                collect_used_vars(*body, arena, string_table, used);
            },
            ASTNode::Exists { set, body, .. } => {
                proof {
                    lemma_child(a, k, 1);
                    lemma_child(a, k, 2);
                }
                collect_used_vars(*set, arena, string_table, used);
                collect_used_vars(*body, arena, string_table, used);
            },
            ASTNode::SetLiteral { elems } => {
                proof {
                    lemma_child(a, k, 0);
                }
                if elems.0 != INVALID_RAW {
                    collect_used_vars(*elems, arena, string_table, used);
                }
            },
            _ => {},
        }
        assert(final(used)@ =~= old(used)@.union(names_in(a, t, k)));
    } else {
        assert(old(used)@.union(names_in(arena@, string_table@, node_id.0 as int)) =~= old(used)@);
    }
}

/// The names of the variables used by an expression; a lambda's
/// parameters are not counted as used in its body.
pub fn get_used_vars(node_id: NodeID, arena: &Arena, string_table: &StringTable) -> (r: NameSet)
    requires
        acyclic(arena@),
    ensures
        r.wf(),
        r@ == names_in(arena@, string_table@, node_id.0 as int),
{
    let mut used = NameSet::new();
    collect_used_vars(node_id, arena, string_table, &mut used);
    assert(used@ =~= names_in(arena@, string_table@, node_id.0 as int));
    used
}

// ─── The checker ──────────────────────────────────────────────────────

/// The kinds of violation the checker reports.
#[derive(Debug, Clone, Copy, PartialEq, Eq, Structural)]
pub enum Violation {
    UsedAfterMove,
    DoubleMove,
}

/// No name lies in both sets.
pub open spec fn disjoint(u: Set<Seq<char>>, c: Set<Seq<char>>) -> bool {
    forall|x: Seq<char>| !(#[trigger] u.contains(x) && c.contains(x))
}

/// A use of the names `u` while `c` are consumed.
pub open spec fn use_check(u: Set<Seq<char>>, c: Set<Seq<char>>) -> Result<Set<Seq<char>>, (Violation, Set<Seq<char>>)> {
    if disjoint(u, c) {
        Ok(c)
    } else {
        Err((Violation::UsedAfterMove, u.intersect(c)))
    }
}

/// The outcome of checking statement `nid` with the consumed names `c`:
/// the consumed names after it, or the violation and the names it
/// concerns.
pub open spec fn stmt_outcome(a: Seq<ASTNode>, t: Seq<Seq<char>>, nid: int, c: Set<Seq<char>>) -> Result<
    Set<Seq<char>>,
    (Violation, Set<Seq<char>>),
>
    decreases rank_of(a)[nid],
    when acyclic(a)
{
    if 0 <= nid < a.len() {
        match a[nid] {
            ASTNode::LinearLet { value, body, .. } => {
                let u = names_in(a, t, value.0 as int);
                if !disjoint(u, c) {
                    Err((Violation::DoubleMove, u.intersect(c)))
                } else if inside(a, body) {
                    proof {
                        lemma_rank_child(a, nid, 2);
                    }
                    stmt_outcome(a, t, body.0 as int, c.union(u))
                } else {
                    Ok(c.union(u))
                }
            },
            ASTNode::BinOp { op, left, right } => if op == OP_ASSIGN {
                let c1 = if (left.0 as int) < a.len() {
                    match a[left.0 as int] {
                        ASTNode::Ident(idx) => if (idx as int) < t.len() {
                            c.remove(t[idx as int])
                        } else {
                            c
                        },
                        _ => c,
                    }
                } else {
                    c
                };
                use_check(names_in(a, t, right.0 as int), c1)
            } else {
                use_check(names_in(a, t, nid), c)
            },
            ASTNode::ForAll { set, body, .. } => {
                let u = names_in(a, t, set.0 as int);
                if !disjoint(u, c) {
                    Err((Violation::UsedAfterMove, u.intersect(c)))
                } else if inside(a, body) {
                    proof {
                        lemma_rank_child(a, nid, 2);
                    }
                    stmt_outcome(a, t, body.0 as int, c)
                } else {
                    Ok(c)
                }
            },
            ASTNode::Mu { body, .. } => if inside(a, body) {
                proof {
                    lemma_rank_child(a, nid, 1);
                }
                stmt_outcome(a, t, body.0 as int, c)
            } else {
                Ok(c)
            },
            _ => use_check(names_in(a, t, nid), c),
        }
    } else {
        Ok(c)
    }
}

/// The outcome of checking the statements from index `i` on.
pub open spec fn program_outcome(
    a: Seq<ASTNode>,
    t: Seq<Seq<char>>,
    stmts: Seq<NodeID>,
    i: int,
    c: Set<Seq<char>>,
) -> Result<Set<Seq<char>>, (Violation, Set<Seq<char>>)>
    decreases stmts.len() - i,
{
    if i >= stmts.len() || i < 0 {
        Ok(c)
    } else {
        match stmt_outcome(a, t, stmts[i].0 as int, c) {
            Ok(c2) => program_outcome(a, t, stmts, i + 1, c2),
            Err(e) => Err(e),
        }
    }
}

/// The error reports violation `v` on a name of `names`.
pub open spec fn reports(e: OwnershipError, v: Violation, names: Set<Seq<char>>) -> bool {
    match e {
        OwnershipError::UsedAfterMove { var, span } => v == Violation::UsedAfterMove && names.contains(var@)
            && span is None,
        OwnershipError::DoubleMove { var, span } => v == Violation::DoubleMove && names.contains(var@)
            && span is None,
        OwnershipError::UndefinedVariable { .. } => false,
    }
}

/// The first name of `used` that is consumed, if any.
fn find_consumed(used: &NameSet, consumed: &NameSet) -> (r: Option<String>)
    ensures
        r is None ==> disjoint(used@, consumed@),
        r matches Some(v) ==> used@.contains(v@) && consumed@.contains(v@),
{
    let n = used.count();
    let mut i: usize = 0;
    while i < n
        invariant
            n == used.order().len(),
            i <= n,
            forall|x: Seq<char>| used@.contains(x) <==> used.order().contains(x),
            forall|k: int| 0 <= k < i ==> !consumed@.contains(#[trigger] used.order()[k]),
        decreases n - i,
    {
        let var = used.name_at(i);
        if consumed.contains(var) {
            return Some(var.to_owned());
        }
        i = i + 1;
    }
    proof {
        assert forall|x: Seq<char>| !(#[trigger] used@.contains(x) && consumed@.contains(x)) by {
            if used@.contains(x) {
                let k = choose|k: int| 0 <= k < used.order().len() && used.order()[k] == x;
            }
        }
    }
    None
}

/// Add every name of `from` to `to`.
fn add_all(from: &NameSet, to: &mut NameSet)
    requires
        old(to).wf(),
    ensures
        final(to).wf(),
        final(to)@ == old(to)@.union(from@),
{
    let n = from.count();
    let ghost start = to@;
    let mut i: usize = 0;
    while i < n
        invariant
            n == from.order().len(),
            i <= n,
            to.wf(),
            forall|x: Seq<char>| from@.contains(x) <==> from.order().contains(x),
            to@ == start.union(from.order().take(i as int).to_set()),
        decreases n - i,
    {
        let var = from.name_at(i);
        to.insert(var.to_owned());
        proof {
            let o = from.order();
            assert(o.take(i as int + 1) =~= o.take(i as int).push(o[i as int]));
            o.take(i as int).lemma_push_to_set_commute(o[i as int]);
            assert(to@ =~= start.union(o.take(i as int + 1).to_set()));
        }
        i = i + 1;
    }
    proof {
        assert(from.order().take(i as int) =~= from.order());
        assert(from.order().to_set() =~= from@);
        assert(to@ =~= start.union(from@));
    }
}

/// Check `used` against the consumed names: a use after move when one
/// is consumed.
fn check_use(used: &NameSet, consumed: &NameSet) -> (r: Result<(), OwnershipError>)
    ensures
        r is Ok <==> disjoint(used@, consumed@),
        r matches Err(e) ==> reports(e, Violation::UsedAfterMove, used@.intersect(consumed@)),
{
    match find_consumed(used, consumed) {
        Some(var) => Err(OwnershipError::UsedAfterMove { var, span: None }),
        None => Ok(()),
    }
}

fn check_stmt(stmt_id: NodeID, arena: &Arena, string_table: &StringTable, consumed: &mut NameSet) -> (r: Result<
    (),
    OwnershipError,
>)
    requires
        acyclic(arena@),
        old(consumed).wf(),
    ensures
        final(consumed).wf(),
        match stmt_outcome(arena@, string_table@, stmt_id.0 as int, old(consumed)@) {
            Ok(c) => r is Ok && final(consumed)@ == c,
            Err((v, names)) => r matches Err(e) && reports(e, v, names),
        },
    decreases depth(arena, stmt_id),
{
    let ghost a = arena@;
    let ghost t = string_table@;
    let ghost k = stmt_id.0 as int;
    if let Ok(node) = arena.get(stmt_id) {
        match node {
            ASTNode::LinearLet { value, body, .. } => {
                proof {
                    lemma_child(a, k, 2);
                }
                let value_used = get_used_vars(*value, arena, string_table);
                match find_consumed(&value_used, consumed) {
                    Some(var) => {
                        return Err(OwnershipError::DoubleMove { var, span: None });
                    },
                    None => {},
                }
                add_all(&value_used, consumed);
                check_stmt(*body, arena, string_table, consumed)
            },
            ASTNode::BinOp { op, left, right } => {
                if *op == OP_ASSIGN {
                    if let Ok(ASTNode::Ident(idx)) = arena.get(*left) {
                        if let Some(name) = string_table.get(*idx) {
                            consumed.remove(name);
                        }
                    }
                    let rhs_used = get_used_vars(*right, arena, string_table);
                    check_use(&rhs_used, consumed)
                } else {
                    let used = get_used_vars(stmt_id, arena, string_table);
                    check_use(&used, consumed)
                }
            },
            ASTNode::Call { .. } => {
                let used = get_used_vars(stmt_id, arena, string_table);
                check_use(&used, consumed)
            },
            ASTNode::ForAll { set, body, .. } => {
                proof {
                    lemma_child(a, k, 2);
                }
                let set_used = get_used_vars(*set, arena, string_table);
                match check_use(&set_used, consumed) {
                    Err(e) => {
                        return Err(e);
                    },
                    Ok(()) => {},
                }
                check_stmt(*body, arena, string_table, consumed)
            },
            ASTNode::Mu { body, .. } => {
                proof {
                    lemma_child(a, k, 1);
                }
                check_stmt(*body, arena, string_table, consumed)
            },
            _ => {
                let used = get_used_vars(stmt_id, arena, string_table);
                check_use(&used, consumed)
            },
        }
    } else {
        Ok(())
    }
}

/// Check the statements in order against the linear ownership rules: a
/// linear `let` consumes the variables its value uses (moving a consumed
/// one again is a double move), any other use of a consumed variable is
/// a use after move, and assigning to a variable makes it usable again.
pub fn check_ownership(statements: &[NodeID], arena: &Arena, string_table: &StringTable) -> (r: Result<
    (),
    OwnershipError,
>)
    requires
        acyclic(arena@),
    ensures
        match program_outcome(arena@, string_table@, statements@, 0, Set::empty()) {
            Ok(_) => r is Ok,
            Err((v, names)) => r matches Err(e) && reports(e, v, names),
        },
{
    let mut consumed = NameSet::new();
    let mut i: usize = 0;
    while i < statements.len()
        invariant
            acyclic(arena@),
            i <= statements@.len(),
            consumed.wf(),
            program_outcome(arena@, string_table@, statements@, 0, Set::empty()) == program_outcome(
                arena@,
                string_table@,
                statements@,
                i as int,
                consumed@,
            ),
        decreases statements@.len() - i,
    {
        let stmt_id = statements[i];
        match check_stmt(stmt_id, arena, string_table, &mut consumed) {
            Err(e) => {
                return Err(e);
            },
            Ok(()) => {},
        }
        i = i + 1;
    }
    Ok(())
}

} // verus!
