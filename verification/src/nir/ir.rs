//! Values, instructions, basic blocks and functions of the SSA form.
use vstd::prelude::*;

verus! {

/// An SSA value.
#[derive(Debug, Clone, Copy, PartialEq, Eq, Hash, Structural)]
pub struct ValueID(pub u32);

/// A basic block.
#[derive(Debug, Clone, Copy, PartialEq, Eq, Hash, Structural)]
pub struct BlockID(pub u32);

/// What defines a value. A floating-point constant is held by the bits
/// of its IEEE-754 binary64 encoding.
#[derive(Debug, Clone, PartialEq)]
pub enum NIRValue {
    IntConst(i64),
    FloatConst(u64),
    BoolConst(bool),
    StrConst(u32),
    FunctionResult(ValueID),
    Phi(Vec<(BlockID, ValueID)>),
    Undef,
}

#[derive(Debug, Clone, Copy, PartialEq, Eq, Hash, Structural)]
pub enum NIROp {
    Add,
    Sub,
    Mul,
    Div,
    Mod,
    Shl,
    Shr,
    And,
    Or,
    Xor,
    Eq,
    Ne,
    Lt,
    Le,
    Gt,
    Ge,
}

/// What an NIR operator computes on integer operands (truth values as 1
/// and 0, any non-zero operand counting as true). Division and remainder
/// by zero give 0; the shifts and exclusive or are not given a meaning
/// here.
pub open spec fn nir_meaning(op: NIROp, x: int, y: int) -> Option<int> {
    let t = |b: bool| if b { 1int } else { 0int };
    match op {
        NIROp::Add => Some(x + y),
        NIROp::Sub => Some(x - y),
        NIROp::Mul => Some(x * y),
        NIROp::Div => Some(if y == 0 { 0 } else { x / y }),
        NIROp::Mod => Some(if y == 0 { 0 } else { x % y }),
        NIROp::Eq => Some(t(x == y)),
        NIROp::Ne => Some(t(x != y)),
        NIROp::Lt => Some(t(x < y)),
        NIROp::Le => Some(t(x <= y)),
        NIROp::Gt => Some(t(x > y)),
        NIROp::Ge => Some(t(x >= y)),
        NIROp::And => Some(t(x != 0 && y != 0)),
        NIROp::Or => Some(t(x != 0 || y != 0)),
        NIROp::Shl | NIROp::Shr | NIROp::Xor => None,
    }
}

/// What an NIR unary operator computes on an integer operand: negation,
/// and logical not (1 for a zero operand, else 0).
pub open spec fn nir_unop_meaning(op: NIRUnOp, x: int) -> int {
    match op {
        NIRUnOp::Neg => -x,
        NIRUnOp::Not => if x == 0 {
            1
        } else {
            0
        },
    }
}

#[derive(Debug, Clone, Copy, PartialEq, Eq, Hash, Structural)]
pub enum NIRUnOp {
    Neg,
    Not,
}

#[derive(Debug, Clone, PartialEq)]
pub enum NIRInstruction {
    BinOp { op: NIROp, lhs: ValueID, rhs: ValueID, result: ValueID },
    UnOp { op: NIRUnOp, operand: ValueID, result: ValueID },
    Call { callee: ValueID, args: Vec<ValueID>, result: ValueID },
    Load { ptr: ValueID, result: ValueID },
    Store { ptr: ValueID, value: ValueID },
    Alloc { size: ValueID, result: ValueID },
    Free { ptr: ValueID },
    Move { value: ValueID, result: ValueID },
    Borrow { value: ValueID, mutable: bool, result: ValueID },
    CondBranch { cond: ValueID, then_bb: BlockID, else_bb: BlockID },
    Branch { target: BlockID },
    Return { value: Option<ValueID> },
}

/// An instruction as a value: call arguments as a sequence.
pub enum Instr {
    BinOp { op: NIROp, lhs: u32, rhs: u32, result: u32 },
    UnOp { op: NIRUnOp, operand: u32, result: u32 },
    Call { callee: u32, args: Seq<u32>, result: u32 },
    Load { ptr: u32, result: u32 },
    Store { ptr: u32, value: u32 },
    Alloc { size: u32, result: u32 },
    Free { ptr: u32 },
    Move { value: u32, result: u32 },
    Borrow { value: u32, mutable: bool, result: u32 },
    CondBranch { cond: u32, then_bb: u32, else_bb: u32 },
    Branch { target: u32 },
    Return { value: Option<u32> },
}

impl View for NIRInstruction {
    type V = Instr;

    open spec fn view(&self) -> Instr {
        match *self {
            NIRInstruction::BinOp { op, lhs, rhs, result } => Instr::BinOp { op, lhs: lhs.0, rhs: rhs.0, result: result.0 },
            NIRInstruction::UnOp { op, operand, result } => Instr::UnOp { op, operand: operand.0, result: result.0 },
            NIRInstruction::Call { callee, args, result } => Instr::Call {
                callee: callee.0,
                args: args@.map_values(|v: ValueID| v.0),
                result: result.0,
            },
            NIRInstruction::Load { ptr, result } => Instr::Load { ptr: ptr.0, result: result.0 },
            NIRInstruction::Store { ptr, value } => Instr::Store { ptr: ptr.0, value: value.0 },
            NIRInstruction::Alloc { size, result } => Instr::Alloc { size: size.0, result: result.0 },
            NIRInstruction::Free { ptr } => Instr::Free { ptr: ptr.0 },
            NIRInstruction::Move { value, result } => Instr::Move { value: value.0, result: result.0 },
            NIRInstruction::Borrow { value, mutable, result } => Instr::Borrow {
                value: value.0,
                mutable,
                result: result.0,
            },
            NIRInstruction::CondBranch { cond, then_bb, else_bb } => Instr::CondBranch {
                cond: cond.0,
                then_bb: then_bb.0,
                else_bb: else_bb.0,
            },
            NIRInstruction::Branch { target } => Instr::Branch { target: target.0 },
            NIRInstruction::Return { value } => Instr::Return {
                value: match value {
                    Some(v) => Some(v.0),
                    None => None,
                },
            },
        }
    }
}

/// The value an instruction defines, if any.
pub open spec fn defined_value(i: Instr) -> Option<u32> {
    match i {
        Instr::BinOp { result, .. } => Some(result),
        Instr::UnOp { result, .. } => Some(result),
        Instr::Call { result, .. } => Some(result),
        Instr::Load { result, .. } => Some(result),
        Instr::Alloc { result, .. } => Some(result),
        Instr::Move { result, .. } => Some(result),
        Instr::Borrow { result, .. } => Some(result),
        _ => None,
    }
}

/// A straight-line sequence of instructions.
#[derive(Debug, Clone)]
pub struct BasicBlock {
    pub id: BlockID,
    pub instructions: Vec<NIRInstruction>,
    pub predecessors: Vec<BlockID>,
    pub successors: Vec<BlockID>,
}

/// The instructions of a block, as values.
pub open spec fn block_instrs(b: BasicBlock) -> Seq<Instr> {
    b.instructions@.map_values(|i: NIRInstruction| i@)
}

/// A function in SSA form. The definition of value `k` is `values[k]`.
#[derive(Debug)]
pub struct NIRFunction {
    pub name: String,
    pub params: Vec<ValueID>,
    pub entry_block: BlockID,
    pub blocks: Vec<BasicBlock>,
    pub values: Vec<NIRValue>,
    pub next_value_id: u32,
    pub next_block_id: u32,
}

/// The values defined by the instructions of `bs`, block by block.
pub open spec fn defined_values(bs: Seq<Seq<Instr>>) -> Seq<u32>
    decreases bs.len(),
{
    if bs.len() == 0 {
        Seq::empty()
    } else {
        defined_values(bs.drop_last()) + defined_in(bs.last())
    }
}

/// The values defined by a sequence of instructions, in order.
pub open spec fn defined_in(is: Seq<Instr>) -> Seq<u32>
    decreases is.len(),
{
    if is.len() == 0 {
        Seq::empty()
    } else {
        match defined_value(is.last()) {
            Some(v) => defined_in(is.drop_last()).push(v),
            None => defined_in(is.drop_last()),
        }
    }
}

/// Total number of instructions.
pub open spec fn count_instrs(bs: Seq<Seq<Instr>>) -> nat
    decreases bs.len(),
{
    if bs.len() == 0 {
        0
    } else {
        count_instrs(bs.drop_last()) + bs.last().len()
    }
}

impl NIRFunction {
    /// The instructions of each block.
    pub open spec fn block_view(&self) -> Seq<Seq<Instr>> {
        self.blocks@.map_values(|b: BasicBlock| block_instrs(b))
    }

    /// Value ids are handed out densely: value `k` is defined by
    /// `values[k]`.
    pub open spec fn wf(&self) -> bool {
        self.values@.len() == self.next_value_id
    }

    /// An empty function.
    pub fn new(name: String) -> (r: Self)
        ensures
            r.name@ == name@,
            r.params@.len() == 0,
            r.entry_block == BlockID(0),
            r.blocks@.len() == 0,
            r.values@.len() == 0,
            r.next_value_id == 0,
            r.next_block_id == 0,
            r.wf(),
    {
        NIRFunction {
            name,
            params: Vec::new(),
            entry_block: BlockID(0),
            blocks: Vec::new(),
            values: Vec::new(),
            next_value_id: 0,
            next_block_id: 0,
        }
    }

    /// A new value defined by `val`.
    pub fn fresh_value(&mut self, val: NIRValue) -> (id: ValueID)
        requires
            old(self).next_value_id < u32::MAX,
        ensures
            id.0 == old(self).next_value_id,
            final(self).next_value_id == old(self).next_value_id + 1,
            final(self).values@ == old(self).values@.push(val),
            final(self).blocks == old(self).blocks,
            final(self).next_block_id == old(self).next_block_id,
            final(self).entry_block == old(self).entry_block,
            final(self).name == old(self).name,
            final(self).params == old(self).params,
    {
        let id = ValueID(self.next_value_id);
        self.next_value_id = self.next_value_id + 1;
        self.values.push(val);
        id
    }

    /// A new empty block.
    pub fn fresh_block(&mut self) -> (id: BlockID)
        requires
            old(self).next_block_id < u32::MAX,
        ensures
            id.0 == old(self).next_block_id,
            final(self).next_block_id == old(self).next_block_id + 1,
            final(self).blocks@.len() == old(self).blocks@.len() + 1,
            final(self).blocks@.drop_last() == old(self).blocks@,
            final(self).blocks@.last().id == id,
            final(self).blocks@.last().instructions@.len() == 0,
            final(self).block_view() == old(self).block_view().push(Seq::empty()),
            final(self).values == old(self).values,
            final(self).next_value_id == old(self).next_value_id,
            final(self).entry_block == old(self).entry_block,
            final(self).name == old(self).name,
            final(self).params == old(self).params,
    {
        let id = BlockID(self.next_block_id);
        self.next_block_id = self.next_block_id + 1;
        self.blocks.push(
            BasicBlock { id, instructions: Vec::new(), predecessors: Vec::new(), successors: Vec::new() },
        );
        proof {
            assert(self.blocks@.drop_last() =~= old(self).blocks@);
            assert(block_instrs(self.blocks@.last()) =~= Seq::<Instr>::empty());
            assert(self.block_view() =~= old(self).block_view().push(Seq::empty()));
        }
        id
    }

    /// Append `inst` to the first block with id `block_id`, if there is one.
    pub fn add_instruction(&mut self, block_id: BlockID, inst: NIRInstruction)
        ensures
            final(self).values == old(self).values,
            final(self).next_value_id == old(self).next_value_id,
            final(self).next_block_id == old(self).next_block_id,
            final(self).entry_block == old(self).entry_block,
            final(self).name == old(self).name,
            final(self).params == old(self).params,
            final(self).blocks@.len() == old(self).blocks@.len(),
            forall|k: int| 0 <= k < old(self).blocks@.len() ==> (#[trigger] final(self).blocks@[k]).id == old(self).blocks@[k].id,
            (forall|k: int| 0 <= k < old(self).blocks@.len() ==> (#[trigger] old(self).blocks@[k]).id != block_id)
                ==> final(self).block_view() == old(self).block_view(),
            forall|k: int|
                0 <= k < old(self).blocks@.len() && (#[trigger] old(self).blocks@[k]).id == block_id && (forall|j: int|
                    0 <= j < k ==> old(self).blocks@[j].id != block_id) ==> final(self).block_view() == old(
                    self,
                ).block_view().update(k, old(self).block_view()[k].push(inst@)),
    {
        let n = self.blocks.len();
        let mut k: usize = 0;
        while k < n
            invariant
                n == self.blocks@.len(),
                *self == *old(self),
                k <= n,
                forall|j: int| 0 <= j < k ==> old(self).blocks@[j].id != block_id,
            decreases n - k,
        {
            if self.blocks[k].id == block_id {
                let ghost ob = old(self).blocks@[k as int];
                let mut b = self.blocks.remove(k);
                b.instructions.push(inst);
                let ghost nb = b;
                self.blocks.insert(k, b);
                proof {
                    assert(self.blocks@ =~= old(self).blocks@.update(k as int, nb));
                    assert(block_instrs(nb) =~= block_instrs(ob).push(inst@));
                    assert(self.block_view() =~= old(self).block_view().update(
                        k as int,
                        old(self).block_view()[k as int].push(inst@),
                    ));
                    assert forall|k2: int| 0 <= k2 < old(self).blocks@.len() implies (#[trigger] self.blocks@[k2]).id
                        == old(self).blocks@[k2].id by {
                        if k2 != k {
                            assert(self.blocks@[k2] == old(self).blocks@[k2]);
                        }
                    }
                }
                return;
            }
            k = k + 1;
        }
    }

    /// No value is defined by two instructions.
    pub fn verify_ssa(&self) -> (r: bool)
        ensures
            r == defined_values(self.block_view()).no_duplicates(),
    {
        let mut seen: Vec<u32> = Vec::new();
        let mut b: usize = 0;
        let ghost bv = self.block_view();
        while b < self.blocks.len()
            invariant
                b <= self.blocks@.len(),
                bv == self.block_view(),
                seen@ == defined_values(bv.take(b as int)),
                seen@.no_duplicates(),
            decreases self.blocks@.len() - b,
        {
            let block = &self.blocks[b];
            let ghost before = seen@;
            let mut i: usize = 0;
            while i < block.instructions.len()
                invariant
                    b < self.blocks@.len(),
                    bv == self.block_view(),
                    *block == self.blocks@[b as int],
                    i <= block.instructions@.len(),
                    seen@ == before + defined_in(block_instrs(*block).take(i as int)),
                    seen@.no_duplicates(),
                    before == defined_values(bv.take(b as int)),
                decreases block.instructions@.len() - i,
            {
                let r = match &block.instructions[i] {
                    NIRInstruction::BinOp { result, .. } => Some(result.0),
                    NIRInstruction::UnOp { result, .. } => Some(result.0),
                    NIRInstruction::Call { result, .. } => Some(result.0),
                    NIRInstruction::Load { result, .. } => Some(result.0),
                    NIRInstruction::Alloc { result, .. } => Some(result.0),
                    NIRInstruction::Move { result, .. } => Some(result.0),
                    NIRInstruction::Borrow { result, .. } => Some(result.0),
                    _ => None,
                };
                proof {
                    let is = block_instrs(*block);
                    assert(is.take(i as int + 1).drop_last() =~= is.take(i as int));
                    assert(is.take(i as int + 1).last() == block.instructions@[i as int]@);
                    assert(r == defined_value(block.instructions@[i as int]@));
                }
                match r {
                    Some(v) => {
                        if contains_u32(&seen, v) {
                            proof {
                                let is = block_instrs(*block);
                                assert(defined_in(is.take(i as int + 1)) == defined_in(is.take(i as int)).push(v));
                                assert(before + defined_in(is.take(i as int + 1)) =~= seen@.push(v));
                                let j = choose|j: int| 0 <= j < seen@.len() && seen@[j] == v;
                                assert(seen@.push(v)[j] == seen@.push(v)[seen@.len() as int]);
                                lemma_defined_prefix(bv, b as int, i as int);
                            }
                            return false;
                        }
                        let ghost old_seen = seen@;
                        seen.push(v);
                        proof {
                            assert(seen@ =~= old_seen.push(v));
                            let is = block_instrs(*block);
                            assert(defined_in(is.take(i as int + 1)) == defined_in(is.take(i as int)).push(v));
                            assert(seen@ =~= before + defined_in(is.take(i as int + 1)));
                        }
                    },
                    None => {
                        proof {
                            let is = block_instrs(*block);
                            assert(seen@ =~= before + defined_in(is.take(i as int + 1)));
                        }
                    },
                }
                i = i + 1;
            }
            proof {
                let is = block_instrs(*block);
                assert(is.take(i as int) =~= is);
                assert(bv.take(b as int + 1).drop_last() =~= bv.take(b as int));
                assert(bv[b as int] == is);
            }
            b = b + 1;
        }
        proof {
            assert(bv.take(b as int) =~= bv);
        }
        true
    }

    /// Number of instructions over all blocks.
    pub fn instruction_count(&self) -> (r: usize)
        requires
            count_instrs(self.block_view()) <= usize::MAX,
        ensures
            r == count_instrs(self.block_view()),
    {
        let ghost bv = self.block_view();
        let mut total: usize = 0;
        let mut b: usize = 0;
        while b < self.blocks.len()
            invariant
                b <= self.blocks@.len(),
                bv == self.block_view(),
                count_instrs(bv) <= usize::MAX,
                total == count_instrs(bv.take(b as int)),
            decreases self.blocks@.len() - b,
        {
            proof {
                assert(bv.take(b as int + 1).drop_last() =~= bv.take(b as int));
                lemma_count_prefix(bv, b as int + 1);
            }
            total = total + self.blocks[b].instructions.len();
            b = b + 1;
        }
        proof {
            assert(bv.take(b as int) =~= bv);
        }
        total
    }

    /// The definition of value `id`.
    pub fn value(&self, id: ValueID) -> (r: Option<&NIRValue>)
        ensures
            r.is_some() == ((id.0 as int) < self.values@.len()),
            r matches Some(v) ==> *v == self.values@[id.0 as int],
    {
        if (id.0 as usize) < self.values.len() {
            Some(&self.values[id.0 as usize])
        } else {
            None
        }
    }
}

proof fn lemma_count_prefix(bs: Seq<Seq<Instr>>, k: int)
    requires
        0 <= k <= bs.len(),
    ensures
        count_instrs(bs.take(k)) <= count_instrs(bs),
    decreases bs.len() - k,
{
    if k < bs.len() {
        lemma_count_prefix(bs, k + 1);
        assert(bs.take(k + 1).drop_last() =~= bs.take(k));
    } else {
        assert(bs.take(k) =~= bs);
    }
}

/// A duplicate in a prefix of the definitions is a duplicate of all.
proof fn lemma_defined_prefix(bs: Seq<Seq<Instr>>, b: int, i: int)
    requires
        0 <= b < bs.len(),
        0 <= i < bs[b].len(),
    ensures
        !(defined_values(bs.take(b)) + defined_in(bs[b].take(i + 1))).no_duplicates() ==> !defined_values(
            bs,
        ).no_duplicates(),
{
    lemma_defined_is_prefix(bs, b, i);
    let s = defined_values(bs.take(b)) + defined_in(bs[b].take(i + 1));
    let all = defined_values(bs);
    if !s.no_duplicates() {
        let (x, y) = choose|x: int, y: int| 0 <= x < s.len() && 0 <= y < s.len() && x != y && s[x] == s[y];
        assert(all.take(s.len() as int)[x] == all[x]);
        assert(all.take(s.len() as int)[y] == all[y]);
        assert(all[x] == all[y]);
    }
}

/// Whether `x` occurs in `v`.
fn contains_u32(v: &Vec<u32>, x: u32) -> (r: bool)
    ensures
        r == v@.contains(x),
{
    let mut j: usize = 0;
    while j < v.len()
        invariant
            j <= v@.len(),
            forall|q: int| 0 <= q < j ==> v@[q] != x,
        decreases v@.len() - j,
    {
        if v[j] == x {
            assert(v@[j as int] == x);
            return true;
        }
        j = j + 1;
    }
    false
}

proof fn lemma_defined_in_prefix(is: Seq<Instr>, k: int)
    requires
        0 <= k <= is.len(),
    ensures
        defined_in(is).take(defined_in(is.take(k)).len() as int) == defined_in(is.take(k)),
        defined_in(is.take(k)).len() <= defined_in(is).len(),
    decreases is.len() - k,
{
    if k < is.len() {
        lemma_defined_in_prefix(is, k + 1);
        assert(is.take(k + 1).drop_last() =~= is.take(k));
        let p = defined_in(is.take(k));
        let q = defined_in(is.take(k + 1));
        assert(q.take(p.len() as int) =~= p);
        assert(defined_in(is).take(p.len() as int) =~= defined_in(is).take(q.len() as int).take(p.len() as int));
    } else {
        assert(is.take(k) =~= is);
        assert(defined_in(is).take(defined_in(is).len() as int) =~= defined_in(is));
    }
}

proof fn lemma_defined_values_prefix(bs: Seq<Seq<Instr>>, b: int)
    requires
        0 <= b <= bs.len(),
    ensures
        defined_values(bs).take(defined_values(bs.take(b)).len() as int) == defined_values(bs.take(b)),
        defined_values(bs.take(b)).len() <= defined_values(bs).len(),
    decreases bs.len() - b,
{
    if b < bs.len() {
        lemma_defined_values_prefix(bs, b + 1);
        assert(bs.take(b + 1).drop_last() =~= bs.take(b));
        let p = defined_values(bs.take(b));
        let q = defined_values(bs.take(b + 1));
        assert(q.take(p.len() as int) =~= p);
        assert(defined_values(bs).take(p.len() as int) =~= defined_values(bs).take(q.len() as int).take(
            p.len() as int,
        ));
    } else {
        assert(bs.take(b) =~= bs);
        assert(defined_values(bs).take(defined_values(bs).len() as int) =~= defined_values(bs));
    }
}

proof fn lemma_defined_is_prefix(bs: Seq<Seq<Instr>>, b: int, i: int)
    requires
        0 <= b < bs.len(),
        0 <= i < bs[b].len(),
    ensures
        ({
            let s = defined_values(bs.take(b)) + defined_in(bs[b].take(i + 1));
            defined_values(bs).take(s.len() as int) == s && s.len() <= defined_values(bs).len()
        }),
{
    let s = defined_values(bs.take(b)) + defined_in(bs[b].take(i + 1));
    lemma_defined_values_prefix(bs, b + 1);
    assert(bs.take(b + 1).drop_last() =~= bs.take(b));
    assert(bs.take(b + 1).last() == bs[b]);
    lemma_defined_in_prefix(bs[b], i + 1);
    let whole = defined_values(bs.take(b + 1));
    assert(whole == defined_values(bs.take(b)) + defined_in(bs[b]));
    assert(whole.take(s.len() as int) =~= s);
    assert(defined_values(bs).take(s.len() as int) =~= defined_values(bs).take(whole.len() as int).take(
        s.len() as int,
    ));
}

} // verus!
