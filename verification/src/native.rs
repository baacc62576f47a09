//! Code generation from NIR to x86-64 assembly text (NASM syntax) for a
//! program without libc: every value lives in a slot of `vars`, built-in
//! calls go to helper routines emitted with the program, and the entry
//! block's return value becomes the exit status.
use vstd::prelude::*;
use vstd::string::StringExecFns;
use crate::nir::ir::{block_instrs, BlockID, Instr, NIRFunction, NIRInstruction, NIROp, NIRUnOp, NIRValue, ValueID};
use crate::text::{decimal, int_text, push_i64, push_u64, str_eq};

verus! {

/// `std::io::Error`, carried by `CompileError::IoError`.
#[verifier::external_type_specification]
#[verifier::external_body]
pub struct ExIoError(std::io::Error);

/// Why a function could not be compiled.
#[derive(Debug)]
pub enum CompileError {
    /// A construct the code generator does not handle.
    Unsupported(String),
    /// The assembler failed, with its diagnostics.
    NasmFailed(String),
    /// The linker failed, with its diagnostics.
    LinkFailed(String),
    /// Reading or writing a file failed.
    IoError(std::io::Error),
}

impl From<std::io::Error> for CompileError {
    fn from(e: std::io::Error) -> (r: Self) {
        CompileError::IoError(e)
    }
}

impl vstd::std_specs::convert::FromSpecImpl<std::io::Error> for CompileError {
    open spec fn obeys_from_spec() -> bool {
        true
    }

    open spec fn from_spec(e: std::io::Error) -> Self {
        CompileError::IoError(e)
    }
}

/// The names of the built-in functions that map to helper routines.
pub open spec fn builtin_names() -> Seq<Seq<char>> {
    seq!["sqrt"@, "abs"@, "floor"@, "power"@, "exp"@, "channel_create"@, "channel_send"@, "channel_recv"@, "thread_spawn"@, "thread_join"@, "print_int"@, "print_str"@, "str_eq"@, "num_to_str"@, "list_len"@, "list_sum"@, "list_head"@, "list_tail"@, "list_append"@, "file_open"@, "file_close"@, "file_write"@, "file_read"@, "stdin_read"@]
}

/// Whether `name` is a built-in function.
pub fn is_builtin(name: &str) -> (b: bool)
    ensures
        b == builtin_names().contains(name@),
{
    let r = str_eq(name, "sqrt") || str_eq(name, "abs") || str_eq(name, "floor") || str_eq(name, "power") || str_eq(name, "exp") || str_eq(name, "channel_create") || str_eq(name, "channel_send") || str_eq(name, "channel_recv") || str_eq(name, "thread_spawn") || str_eq(name, "thread_join") || str_eq(name, "print_int") || str_eq(name, "print_str") || str_eq(name, "str_eq") || str_eq(name, "num_to_str") || str_eq(name, "list_len") || str_eq(name, "list_sum") || str_eq(name, "list_head") || str_eq(name, "list_tail") || str_eq(name, "list_append") || str_eq(name, "file_open") || str_eq(name, "file_close") || str_eq(name, "file_write") || str_eq(name, "file_read") || str_eq(name, "stdin_read");
    proof {
        let ns = builtin_names();
        assert(ns[0] == "sqrt"@);
        assert(ns[1] == "abs"@);
        assert(ns[2] == "floor"@);
        assert(ns[3] == "power"@);
        assert(ns[4] == "exp"@);
        assert(ns[5] == "channel_create"@);
        assert(ns[6] == "channel_send"@);
        assert(ns[7] == "channel_recv"@);
        assert(ns[8] == "thread_spawn"@);
        assert(ns[9] == "thread_join"@);
        assert(ns[10] == "print_int"@);
        assert(ns[11] == "print_str"@);
        assert(ns[12] == "str_eq"@);
        assert(ns[13] == "num_to_str"@);
        assert(ns[14] == "list_len"@);
        assert(ns[15] == "list_sum"@);
        assert(ns[16] == "list_head"@);
        assert(ns[17] == "list_tail"@);
        assert(ns[18] == "list_append"@);
        assert(ns[19] == "file_open"@);
        assert(ns[20] == "file_close"@);
        assert(ns[21] == "file_write"@);
        assert(ns[22] == "file_read"@);
        assert(ns[23] == "stdin_read"@);
        if ns.contains(name@) {
            let k = choose|k: int| 0 <= k < ns.len() && ns[k] == name@;
        }
    }
    r
}

// ─── Slots and labels ─────────────────────────────────────────────────

/// The index of the first occurrence of `v` in `s`.
pub open spec fn index_of(s: Seq<u32>, v: u32) -> Option<int>
    decreases s.len(),
{
    if s.len() == 0 {
        None
    } else {
        match index_of(s.drop_last(), v) {
            Some(i) => Some(i),
            None => if s.last() == v {
                Some(s.len() - 1)
            } else {
                None
            },
        }
    }
}

/// `v` given a slot after those of `s`, unless it has one.
pub open spec fn with_slot(s: Seq<u32>, v: u32) -> Seq<u32> {
    if index_of(s, v) is Some {
        s
    } else {
        s.push(v)
    }
}

/// The state of code generation: the values that have slots, in slot
/// order, and the number of labels made so far.
pub struct CodeGenContext {
    slots: Vec<u32>,
    label_counter: u32,
}

impl CodeGenContext {
    /// The values that have slots; value `slots[k]` has slot `k`.
    pub closed spec fn slot_list(&self) -> Seq<u32> {
        self.slots@
    }

    /// The number of labels made so far.
    pub closed spec fn labels(&self) -> u32 {
        self.label_counter
    }

    fn new() -> (r: Self)
        ensures
            r.slot_list() == Seq::<u32>::empty(),
            r.labels() == 0,
    {
        CodeGenContext { slots: Vec::new(), label_counter: 0 }
    }

    /// The slot of `vid`, if it has one.
    fn slot(&self, vid: ValueID) -> (r: Option<usize>)
        ensures
            r matches Some(k) ==> index_of(self.slot_list(), vid.0) == Some(k as int),
            r is None ==> index_of(self.slot_list(), vid.0) is None,
    {
        let mut i: usize = 0;
        while i < self.slots.len()
            invariant
                i <= self.slots@.len(),
                index_of(self.slots@.take(i as int), vid.0) is None,
            decreases self.slots@.len() - i,
        {
            proof {
                assert(self.slots@.take(i as int + 1).drop_last() =~= self.slots@.take(i as int));
            }
            if self.slots[i] == vid.0 {
                proof {
                    lemma_index_of_prefix(self.slots@, i as int + 1, vid.0);
                }
                return Some(i);
            }
            i = i + 1;
        }
        proof {
            assert(self.slots@.take(i as int) =~= self.slots@);
        }
        None
    }

    /// Gives `vid` a slot unless it has one; returns its slot.
    fn alloc_slot(&mut self, vid: ValueID) -> (k: usize)
        ensures
            final(self).slot_list() == with_slot(old(self).slot_list(), vid.0),
            final(self).labels() == old(self).labels(),
            index_of(final(self).slot_list(), vid.0) == Some(k as int),
    {
        match self.slot(vid) {
            Some(k) => k,
            None => {
                let k = self.slots.len();
                self.slots.push(vid.0);
                proof {
                    assert(self.slots@.drop_last() =~= old(self).slots@);
                }
                k
            },
        }
    }

    /// A new label `.prefix_n`.
    fn fresh_label(&mut self, prefix: &str) -> (l: String)
        requires
            old(self).labels() < u32::MAX,
        ensures
            l@ == "."@ + prefix@ + "_"@ + decimal(old(self).labels() as nat),
            final(self).labels() == old(self).labels() + 1,
            final(self).slot_list() == old(self).slot_list(),
    {
        let mut l = String::from_str(".");
        l.append(prefix);
        l.append("_");
        push_u64(&mut l, self.label_counter as u64);
        self.label_counter = self.label_counter + 1;
        l
    }
}

/// The index of an occurrence is an index of the list.
proof fn lemma_index_of_bound(s: Seq<u32>, v: u32)
    ensures
        index_of(s, v) matches Some(i) ==> 0 <= i < s.len() && s[i] == v,
    decreases s.len(),
{
    if s.len() > 0 {
        lemma_index_of_bound(s.drop_last(), v);
    }
}

/// The first occurrence in a prefix is the first occurrence.
proof fn lemma_index_of_prefix(s: Seq<u32>, n: int, v: u32)
    requires
        0 <= n <= s.len(),
        index_of(s.take(n), v) is Some,
    ensures
        index_of(s, v) == index_of(s.take(n), v),
    decreases s.len() - n,
{
    if n < s.len() {
        assert(s.take(n + 1).drop_last() =~= s.take(n));
        lemma_index_of_prefix(s, n + 1, v);
    } else {
        assert(s.take(n) =~= s);
    }
}

// ─── Loading and storing values ───────────────────────────────────────

/// The code that loads value `vid` into register `reg`: a constant as an
/// immediate (a 64-bit one past the `i32` range), else from its slot,
/// else zero.
pub open spec fn load_text(vid: u32, values: Seq<NIRValue>, slots: Seq<u32>, reg: Seq<char>) -> Seq<char> {
    let slot_code = match index_of(slots, vid) {
        Some(k) => "    mov "@ + reg + ", [vars + "@ + int_text(k * 8) + "]\n"@,
        None => "    xor "@ + reg + ", "@ + reg + "\n"@,
    };
    if (vid as int) < values.len() {
        match values[vid as int] {
            NIRValue::IntConst(n) => if n > i32::MAX || n < i32::MIN {
                "    mov "@ + reg + ", qword "@ + int_text(n as int) + "\n"@
            } else {
                "    mov "@ + reg + ", "@ + int_text(n as int) + "\n"@
            },
            NIRValue::BoolConst(b) => "    mov "@ + reg + ", "@ + (if b {
                "1"@
            } else {
                "0"@
            }) + "\n"@,
            _ => slot_code,
        }
    } else {
        slot_code
    }
}

/// The code that stores `rax` into the slot of `vid`, or a warning
/// comment when it has none.
pub open spec fn store_text(vid: u32, slots: Seq<u32>) -> Seq<char> {
    match index_of(slots, vid) {
        Some(k) => "    ; store_result: vid="@ + decimal(vid as nat) + " -> slot="@ + int_text(k) + ", rax\n"@
            + "    mov [vars + "@ + int_text(k * 8) + "], rax\n"@,
        None => "    ; WARNING: store_result: vid="@ + decimal(vid as nat) + " has NO slot!\n"@,
    }
}

/// Slots are few enough that their byte offsets fit in an `i64`.
pub open spec fn slots_bounded(slots: Seq<u32>) -> bool {
    slots.len() < 0xffff_ffff
}

/// Appends the load of `vid` into `reg`.
fn load(a: &mut String, vid: ValueID, values: &Vec<NIRValue>, ctx: &CodeGenContext, reg: &str)
    requires
        slots_bounded(ctx.slot_list()),
    ensures
        final(a)@ == old(a)@ + load_text(vid.0, values@, ctx.slot_list(), reg@),
{
    let ghost start = a@;
    let ghost want = load_text(vid.0, values@, ctx.slot_list(), reg@);
    if (vid.0 as usize) < values.len() {
        match &values[vid.0 as usize] {
            NIRValue::IntConst(n) => {
                a.append("    mov ");
                a.append(reg);
                if *n > 2147483647i64 || *n < -2147483648i64 {
                    a.append(", qword ");
                } else {
                    a.append(", ");
                }
                push_i64(a, *n);
                a.append("\n");
                assert(a@ =~= start + want);
                return;
            },
            NIRValue::BoolConst(b) => {
                a.append("    mov ");
                a.append(reg);
                a.append(", ");
                if *b {
                    a.append("1");
                } else {
                    a.append("0");
                }
                a.append("\n");
                assert(a@ =~= start + want);
                return;
            },
            _ => {},
        }
    }
    proof {
        lemma_index_of_bound(ctx.slot_list(), vid.0);
    }
    match ctx.slot(vid) {
        Some(k) => {
            a.append("    mov ");
            a.append(reg);
            a.append(", [vars + ");
            push_i64(a, (k as i64) * 8);
            a.append("]\n");
        },
        None => {
            a.append("    xor ");
            a.append(reg);
            a.append(", ");
            a.append(reg);
            a.append("\n");
        },
    }
    assert(a@ =~= start + want);
}

/// Appends the store of `rax` into the slot of `vid`.
fn store_result(a: &mut String, vid: ValueID, ctx: &CodeGenContext)
    requires
        slots_bounded(ctx.slot_list()),
    ensures
        final(a)@ == old(a)@ + store_text(vid.0, ctx.slot_list()),
{
    let ghost start = a@;
    proof {
        lemma_index_of_bound(ctx.slot_list(), vid.0);
    }
    match ctx.slot(vid) {
        Some(k) => {
            a.append("    ; store_result: vid=");
            push_u64(a, vid.0 as u64);
            a.append(" -> slot=");
            push_i64(a, k as i64);
            a.append(", rax\n");
            a.append("    mov [vars + ");
            push_i64(a, (k as i64) * 8);
            a.append("], rax\n");
        },
        None => {
            a.append("    ; WARNING: store_result: vid=");
            push_u64(a, vid.0 as u64);
            a.append(" has NO slot!\n");
        },
    }
    assert(a@ =~= start + store_text(vid.0, ctx.slot_list()));
}

/// The built-in function of a callee tag.
pub open spec fn builtin_name(tag: i64) -> Option<Seq<char>> {
    if tag == 100 {
        Some("sqrt"@)
    } else if tag == 101 {
        Some("abs"@)
    } else if tag == 102 {
        Some("floor"@)
    } else if tag == 103 {
        Some("power"@)
    } else if tag == 104 {
        Some("exp"@)
    } else if tag == 105 {
        Some("print_int"@)
    } else if tag == 106 {
        Some("print_str"@)
    } else if tag == 107 {
        Some("num_to_str"@)
    } else if tag == 108 {
        Some("channel_create"@)
    } else if tag == 109 {
        Some("channel_send"@)
    } else if tag == 110 {
        Some("channel_recv"@)
    } else if tag == 111 {
        Some("thread_spawn"@)
    } else if tag == 112 {
        Some("thread_join"@)
    } else if tag == 113 {
        Some("list_len"@)
    } else if tag == 114 {
        Some("list_sum"@)
    } else if tag == 115 {
        Some("list_head"@)
    } else if tag == 116 {
        Some("list_tail"@)
    } else if tag == 117 {
        Some("list_append"@)
    } else if tag == 118 {
        Some("file_open"@)
    } else if tag == 119 {
        Some("file_close"@)
    } else if tag == 120 {
        Some("file_write"@)
    } else if tag == 121 {
        Some("file_read"@)
    } else if tag == 122 {
        Some("stdin_read"@)
    } else if tag == 123 {
        Some("str_eq"@)
    } else {
        None
    }
}

/// The built-in function called through `callee`, by its tag.
pub open spec fn builtin_of(callee: u32, values: Seq<NIRValue>) -> Option<Seq<char>> {
    if (callee as int) < values.len() {
        match values[callee as int] {
            NIRValue::IntConst(t) => builtin_name(t),
            _ => None,
        }
    } else {
        None
    }
}

/// The loads of the arguments into the registers, in order.
pub open spec fn loads_text(args: Seq<u32>, regs: Seq<Seq<char>>, values: Seq<NIRValue>, slots: Seq<u32>) -> Seq<char>
    decreases regs.len(),
{
    if regs.len() == 0 {
        Seq::empty()
    } else {
        loads_text(args, regs.drop_last(), values, slots) + load_text(
            args[regs.len() - 1],
            values,
            slots,
            regs.last(),
        )
    }
}

/// The message for a built-in given the wrong number of arguments.
pub open spec fn needs_text(name: Seq<char>, n: nat) -> Seq<char> {
    name + " needs "@ + decimal(n) + (if n == 1 {
        " arg"@
    } else {
        " args"@
    })
}

/// Label `.prefix_n`.
pub open spec fn label_text(prefix: Seq<char>, n: nat) -> Seq<char> {
    "."@ + prefix + "_"@ + decimal(n)
}

/// The code of a call of built-in `name` with `args`, storing into
/// `result`, with `lc` labels made before: the code and the new label
/// count, or the reason it is unsupported.
pub open spec fn builtin_text(
    name: Seq<char>,
    args: Seq<u32>,
    values: Seq<NIRValue>,
    slots: Seq<u32>,
    result: u32,
    lc: nat,
) -> Result<(Seq<char>, nat), Seq<char>> {
    match regular_builtin(name) {
        Some((check, n, regs, body)) => if check && args.len() != n {
            Err(needs_text(name, n))
        } else {
            Ok((loads_text(args, regs, values, slots) + body + store_text(result, slots), lc))
        },
        None => if name == "list_head"@ {
            if args.len() != 1 {
                Err(needs_text(name, 1))
            } else {
                Ok((list_head_text(args, values, slots, result, lc), lc + 1))
            }
        } else if name == "file_open"@ {
            if args.len() != 1 {
                Err(needs_text(name, 1))
            } else {
                Ok((file_open_text(args, values, slots, result, lc), lc + 1))
            }
        } else if name == "file_read"@ {
            if args.len() != 2 {
                Err(needs_text(name, 2))
            } else {
                Ok((file_read_text(args, values, slots, result, lc), lc + 1))
            }
        } else {
            Err("Unknown builtin: "@ + name)
        },
    }
}

/// The code of `list_head`: the first element, or exit status 1 for an
/// empty list.
pub open spec fn list_head_text(args: Seq<u32>, values: Seq<NIRValue>, slots: Seq<u32>, result: u32, lc: nat) -> Seq<char> {
    let lbl = label_text("hemp"@, lc);
    load_text(args[0], values, slots, "rax"@) + "    mov rbx, [rax]\n    test rbx, rbx\n"@ + "    jz "@ + lbl + "\n"@
        + "    mov rax, [rax + 8]\n"@ + "    jmp .hdne_"@ + decimal(lc + 1) + "\n"@ + lbl
        + ":\n    mov rax, 60\n    mov rdi, 1\n    syscall\n"@ + ".hdne_"@ + decimal(lc + 1) + ":\n"@ + store_text(result, slots)
}

/// The code of `file_open`: copies the path, then opens it.
pub open spec fn file_open_text(args: Seq<u32>, values: Seq<NIRValue>, slots: Seq<u32>, result: u32, lc: nat) -> Seq<char> {
    let lbl = label_text("fpc"@, lc);
    load_text(args[0], values, slots, "rax"@) + "    mov rcx, [rax]\n    lea rsi, [rax + 8]\n    lea rdi, [file_path_buf]\n"@ + lbl
        + ":\n    test rcx, rcx\n    jz .fpd_"@ + decimal(lc + 1) + "\n"@
        + "    mov al, [rsi]\n    mov [rdi], al\n    inc rsi\n    inc rdi\n    dec rcx\n"@ + "    jmp "@ + lbl + "\n.fpd_"@
        + decimal(lc + 1) + ":\n    mov byte [rdi], 0\n"@
        + "    lea rdi, [file_path_buf]\n    mov rsi, 66\n    mov rdx, 420\n    mov rax, 2\n    syscall\n"@ + store_text(
        result,
        slots,
    )
}

/// The code of `file_read`: reads into the buffer, then copies it into a
/// new string.
pub open spec fn file_read_text(args: Seq<u32>, values: Seq<NIRValue>, slots: Seq<u32>, result: u32, lc: nat) -> Seq<char> {
    let lbl = label_text("frc"@, lc);
    load_text(args[0], values, slots, "rdi"@) + load_text(args[1], values, slots, "rdx"@)
        + "    lea rsi, [file_buf]\n    mov rax, 0\n    syscall\n"@
        + "    mov rcx, rax\n    mov rdi, rcx\n    add rdi, 8\n    call arena_alloc\n"@
        + "    mov [rax], rcx\n    push rax\n    lea rsi, [file_buf]\n    lea rdi, [rax + 8]\n"@ + lbl
        + ":\n    test rcx, rcx\n    jz .frd_"@ + decimal(lc + 1) + "\n"@
        + "    mov cl, [rsi]\n    mov [rdi], cl\n    inc rsi\n    inc rdi\n    dec rcx\n"@ + "    jmp "@ + lbl + "\n.frd_"@
        + decimal(lc + 1) + ":\n    pop rax\n"@ + store_text(result, slots)
}

/// Appends `needs_text`.
fn needs_message(name: &str, n: usize) -> (m: String)
    ensures
        m@ == needs_text(name@, n as nat),
{
    let mut m = String::from_str(name);
    m.append(" needs ");
    push_u64(&mut m, n as u64);
    if n == 1 {
        m.append(" arg");
    } else {
        m.append(" args");
    }
    m
}

/// Appends the loads of the arguments into `regs`, `body`, and the store
/// of the result.
fn emit_regular(
    a: &mut String,
    args: &Vec<ValueID>,
    values: &Vec<NIRValue>,
    ctx: &CodeGenContext,
    result: ValueID,
    regs: &Vec<&str>,
    body: &str,
)
    requires
        slots_bounded(ctx.slot_list()),
        regs@.len() <= args@.len(),
    ensures
        final(a)@ == old(a)@ + loads_text(args@.map_values(|v: ValueID| v.0), regs@.map_values(|x: &str| x@), values@, ctx.slot_list())
            + body@ + store_text(result.0, ctx.slot_list()),
{
    let ghost start = a@;
    let ghost ids = args@.map_values(|v: ValueID| v.0);
    let ghost rv = regs@.map_values(|x: &str| x@);
    let mut i: usize = 0;
    while i < regs.len()
        invariant
            i <= regs@.len(),
            regs@.len() <= args@.len(),
            rv == regs@.map_values(|x: &str| x@),
            ids == args@.map_values(|v: ValueID| v.0),
            slots_bounded(ctx.slot_list()),
            a@ == start + loads_text(ids, rv.take(i as int), values@, ctx.slot_list()),
        decreases regs@.len() - i,
    {
        load(a, args[i], values, ctx, regs[i]);
        proof {
            assert(rv.take(i as int + 1).drop_last() =~= rv.take(i as int));
            assert(rv.take(i as int + 1).last() == regs@[i as int]@);
        }
        i = i + 1;
    }
    proof {
        assert(rv.take(i as int) =~= rv);
    }
    a.append(body);
    store_result(a, result, ctx);
    assert(a@ =~= start + loads_text(ids, rv, values@, ctx.slot_list()) + body@ + store_text(result.0, ctx.slot_list()));
}

/// Appends `list_head_text`.
fn emit_list_head(a: &mut String, args: &Vec<ValueID>, values: &Vec<NIRValue>, ctx: &mut CodeGenContext, result: ValueID)
    requires
        slots_bounded(old(ctx).slot_list()),
        old(ctx).labels() < u32::MAX,
        args@.len() == 1,
    ensures
        final(ctx).slot_list() == old(ctx).slot_list(),
        final(ctx).labels() == old(ctx).labels() + 1,
        final(a)@ == old(a)@ + list_head_text(args@.map_values(|v: ValueID| v.0), values@, old(ctx).slot_list(), result.0, old(ctx).labels() as nat),
{
    let ghost start = a@;
    load(a, args[0], values, ctx, "rax");
    a.append("    mov rbx, [rax]\n    test rbx, rbx\n");
    let lbl = ctx.fresh_label("hemp");
    a.append("    jz ");
    a.append(lbl.as_str());
    a.append("\n");
    a.append("    mov rax, [rax + 8]\n");
    a.append("    jmp .hdne_");
    push_u64(a, ctx.label_counter as u64);
    a.append("\n");
    a.append(lbl.as_str());
    a.append(":\n    mov rax, 60\n    mov rdi, 1\n    syscall\n");
    a.append(".hdne_");
    push_u64(a, ctx.label_counter as u64);
    a.append(":\n");
    store_result(a, result, ctx);
    assert(a@ =~= start + list_head_text(args@.map_values(|v: ValueID| v.0), values@, old(ctx).slot_list(), result.0, old(ctx).labels() as nat));
}

/// Appends `file_open_text`.
fn emit_file_open(a: &mut String, args: &Vec<ValueID>, values: &Vec<NIRValue>, ctx: &mut CodeGenContext, result: ValueID)
    requires
        slots_bounded(old(ctx).slot_list()),
        old(ctx).labels() < u32::MAX,
        args@.len() == 1,
    ensures
        final(ctx).slot_list() == old(ctx).slot_list(),
        final(ctx).labels() == old(ctx).labels() + 1,
        final(a)@ == old(a)@ + file_open_text(args@.map_values(|v: ValueID| v.0), values@, old(ctx).slot_list(), result.0, old(ctx).labels() as nat),
{
    let ghost start = a@;
    load(a, args[0], values, ctx, "rax");
    a.append("    mov rcx, [rax]\n    lea rsi, [rax + 8]\n    lea rdi, [file_path_buf]\n");
    let lbl = ctx.fresh_label("fpc");
    a.append(lbl.as_str());
    a.append(":\n    test rcx, rcx\n    jz .fpd_");
    push_u64(a, ctx.label_counter as u64);
    a.append("\n");
    a.append("    mov al, [rsi]\n    mov [rdi], al\n    inc rsi\n    inc rdi\n    dec rcx\n");
    a.append("    jmp ");
    a.append(lbl.as_str());
    a.append("\n.fpd_");
    push_u64(a, ctx.label_counter as u64);
    a.append(":\n    mov byte [rdi], 0\n");
    a.append("    lea rdi, [file_path_buf]\n    mov rsi, 66\n    mov rdx, 420\n    mov rax, 2\n    syscall\n");
    store_result(a, result, ctx);
    assert(a@ =~= start + file_open_text(args@.map_values(|v: ValueID| v.0), values@, old(ctx).slot_list(), result.0, old(ctx).labels() as nat));
}

/// Appends `file_read_text`.
fn emit_file_read(a: &mut String, args: &Vec<ValueID>, values: &Vec<NIRValue>, ctx: &mut CodeGenContext, result: ValueID)
    requires
        slots_bounded(old(ctx).slot_list()),
        old(ctx).labels() < u32::MAX,
        args@.len() == 2,
    ensures
        final(ctx).slot_list() == old(ctx).slot_list(),
        final(ctx).labels() == old(ctx).labels() + 1,
        final(a)@ == old(a)@ + file_read_text(args@.map_values(|v: ValueID| v.0), values@, old(ctx).slot_list(), result.0, old(ctx).labels() as nat),
{
    let ghost start = a@;
    load(a, args[0], values, ctx, "rdi");
    load(a, args[1], values, ctx, "rdx");
    a.append("    lea rsi, [file_buf]\n    mov rax, 0\n    syscall\n");
    a.append("    mov rcx, rax\n    mov rdi, rcx\n    add rdi, 8\n    call arena_alloc\n");
    a.append("    mov [rax], rcx\n    push rax\n    lea rsi, [file_buf]\n    lea rdi, [rax + 8]\n");
    let lbl = ctx.fresh_label("frc");
    a.append(lbl.as_str());
    a.append(":\n    test rcx, rcx\n    jz .frd_");
    push_u64(a, ctx.label_counter as u64);
    a.append("\n");
    a.append("    mov cl, [rsi]\n    mov [rdi], cl\n    inc rsi\n    inc rdi\n    dec rcx\n");
    a.append("    jmp ");
    a.append(lbl.as_str());
    a.append("\n.frd_");
    push_u64(a, ctx.label_counter as u64);
    a.append(":\n    pop rax\n");
    store_result(a, result, ctx);
    assert(a@ =~= start + file_read_text(args@.map_values(|v: ValueID| v.0), values@, old(ctx).slot_list(), result.0, old(ctx).labels() as nat));
}

/// Appends the code of a call of built-in `name` (see `builtin_text`).
fn emit_builtin_call(
    a: &mut String,
    name: &str,
    args: &Vec<ValueID>,
    values: &Vec<NIRValue>,
    ctx: &mut CodeGenContext,
    result: ValueID,
) -> (r: Result<(), CompileError>)
    requires
        slots_bounded(old(ctx).slot_list()),
        old(ctx).labels() < u32::MAX,
    ensures
        final(ctx).slot_list() == old(ctx).slot_list(),
        match builtin_text(name@, args@.map_values(|v: ValueID| v.0), values@, old(ctx).slot_list(), result.0, old(ctx).labels() as nat) {
            Ok((t, lc)) => r is Ok && final(a)@ == old(a)@ + t && final(ctx).labels() == lc,
            Err(msg) => r matches Err(CompileError::Unsupported(m)) && m@ == msg,
        },
{
    match regular_builtin_exec(name) {
        Some((check, n, regs, body)) => {
            if check && args.len() != n {
                return Err(CompileError::Unsupported(needs_message(name, n)));
            }
            emit_regular(a, args, values, ctx, result, &regs, body);
            Ok(())
        },
        None => {
            if str_eq(name, "list_head") {
                if args.len() != 1 {
                    return Err(CompileError::Unsupported(needs_message(name, 1)));
                }
                emit_list_head(a, args, values, ctx, result);
                Ok(())
            } else if str_eq(name, "file_open") {
                if args.len() != 1 {
                    return Err(CompileError::Unsupported(needs_message(name, 1)));
                }
                emit_file_open(a, args, values, ctx, result);
                Ok(())
            } else if str_eq(name, "file_read") {
                if args.len() != 2 {
                    return Err(CompileError::Unsupported(needs_message(name, 2)));
                }
                emit_file_read(a, args, values, ctx, result);
                Ok(())
            } else {
                let mut m = String::from_str("Unknown builtin: ");
                m.append(name);
                Err(CompileError::Unsupported(m))
            }
        },
    }
}

/// The built-in function called through `callee`: an integer constant
/// that is a built-in tag.
fn get_builtin_name(callee: ValueID, values: &Vec<NIRValue>) -> (r: Option<String>)
    ensures
        match r {
            Some(n) => builtin_of(callee.0, values@) == Some(n@),
            None => builtin_of(callee.0, values@) is None,
        },
{
    if (callee.0 as usize) >= values.len() {
        return None;
    }
    let tag = match &values[callee.0 as usize] {
        NIRValue::IntConst(t) => *t,
        _ => {
            return None;
        },
    };
    let name: &str = if tag == 100 {
        "sqrt"
    } else if tag == 101 {
        "abs"
    } else if tag == 102 {
        "floor"
    } else if tag == 103 {
        "power"
    } else if tag == 104 {
        "exp"
    } else if tag == 105 {
        "print_int"
    } else if tag == 106 {
        "print_str"
    } else if tag == 107 {
        "num_to_str"
    } else if tag == 108 {
        "channel_create"
    } else if tag == 109 {
        "channel_send"
    } else if tag == 110 {
        "channel_recv"
    } else if tag == 111 {
        "thread_spawn"
    } else if tag == 112 {
        "thread_join"
    } else if tag == 113 {
        "list_len"
    } else if tag == 114 {
        "list_sum"
    } else if tag == 115 {
        "list_head"
    } else if tag == 116 {
        "list_tail"
    } else if tag == 117 {
        "list_append"
    } else if tag == 118 {
        "file_open"
    } else if tag == 119 {
        "file_close"
    } else if tag == 120 {
        "file_write"
    } else if tag == 121 {
        "file_read"
    } else if tag == 122 {
        "stdin_read"
    } else if tag == 123 {
        "str_eq"
    } else {
        return None;
    };
    Some(String::from_str(name))
}

/// The built-ins that load their arguments into registers and run a
/// fixed body: whether the number of arguments is checked, that number,
/// the registers, and the body.
pub open spec fn regular_builtin(name: Seq<char>) -> Option<(bool, nat, Seq<Seq<char>>, Seq<char>)> {
    if name == "sqrt"@ {
        Some((true, 1nat, seq!["rax"@], "    call sqrt_fixed\n"@))
    } else if name == "abs"@ {
        Some((true, 1nat, seq!["rax"@], "    call abs_fixed\n"@))
    } else if name == "floor"@ {
        Some((true, 1nat, seq!["rax"@], "    call floor_fixed\n"@))
    } else if name == "power"@ {
        Some((true, 2nat, seq!["rdi"@, "rsi"@], "    call power_fixed\n"@))
    } else if name == "exp"@ {
        Some((true, 1nat, seq!["rbx"@], "    call exp_fixed\n"@))
    } else if name == "print_int"@ {
        Some((true, 1nat, seq!["rax"@], "    call print_int\n"@))
    } else if name == "print_str"@ {
        Some((true, 1nat, seq!["rax"@], "    call print_str\n"@))
    } else if name == "num_to_str"@ {
        Some((true, 1nat, seq!["rax"@], "    call num_to_str\n"@))
    } else if name == "channel_create"@ {
        Some((false, 0nat, Seq::<Seq<char>>::empty(), "    call channel_create\n"@))
    } else if name == "channel_send"@ {
        Some((true, 2nat, seq!["rdi"@, "rsi"@], "    call channel_send\n"@))
    } else if name == "channel_recv"@ {
        Some((true, 1nat, seq!["rdi"@], "    call channel_recv\n"@))
    } else if name == "thread_spawn"@ {
        Some((true, 2nat, seq!["rdi"@, "rsi"@], "    call thread_spawn\n"@))
    } else if name == "thread_join"@ {
        Some((true, 1nat, seq!["rdi"@], "    call thread_join\n"@))
    } else if name == "list_len"@ {
        Some((true, 1nat, seq!["rax"@], "    mov rax, [rax]\n"@))
    } else if name == "list_sum"@ {
        Some((true, 1nat, seq!["rax"@], "    call list_sum_helper\n"@))
    } else if name == "list_tail"@ {
        Some((true, 1nat, seq!["rax"@], "    call list_tail_helper\n"@))
    } else if name == "list_append"@ {
        Some((true, 2nat, seq!["rdi"@, "rsi"@], "    call list_append_helper\n"@))
    } else if name == "file_close"@ {
        Some((true, 1nat, seq!["rdi"@], "    mov rax, 3\n    syscall\n"@))
    } else if name == "file_write"@ {
        Some((true, 2nat, seq!["rdi"@, "rax"@], "    mov rdx, [rax]\n    lea rsi, [rax + 8]\n    mov rax, 1\n    syscall\n"@))
    } else if name == "stdin_read"@ {
        Some((false, 0nat, Seq::<Seq<char>>::empty(), "    call stdin_read_helper\n"@))
    } else if name == "str_eq"@ {
        Some((true, 2nat, seq!["rdi"@, "rsi"@], "    call str_eq\n"@))
    } else {
        None
    }
}

/// The table of `regular_builtin`.
fn regular_builtin_exec(name: &str) -> (r: Option<(bool, usize, Vec<&'static str>, &'static str)>)
    ensures
        match r {
            Some((c, n, regs, body)) => regular_builtin(name@) == Some((c, n as nat, regs@.map_values(|x: &str| x@), body@)),
            None => regular_builtin(name@) is None,
        },
{
    if str_eq(name, "sqrt") {
        let mut regs: Vec<&'static str> = Vec::new();
        regs.push("rax");
        proof {
            assert(regs@.map_values(|x: &str| x@) =~= seq!["rax"@]);
        }
        Some((true, 1, regs, "    call sqrt_fixed\n"))
    } else if str_eq(name, "abs") {
        let mut regs: Vec<&'static str> = Vec::new();
        regs.push("rax");
        proof {
            assert(regs@.map_values(|x: &str| x@) =~= seq!["rax"@]);
        }
        Some((true, 1, regs, "    call abs_fixed\n"))
    } else if str_eq(name, "floor") {
        let mut regs: Vec<&'static str> = Vec::new();
        regs.push("rax");
        proof {
            assert(regs@.map_values(|x: &str| x@) =~= seq!["rax"@]);
        }
        Some((true, 1, regs, "    call floor_fixed\n"))
    } else if str_eq(name, "power") {
        let mut regs: Vec<&'static str> = Vec::new();
        regs.push("rdi");
        regs.push("rsi");
        proof {
            assert(regs@.map_values(|x: &str| x@) =~= seq!["rdi"@, "rsi"@]);
        }
        Some((true, 2, regs, "    call power_fixed\n"))
    } else if str_eq(name, "exp") {
        let mut regs: Vec<&'static str> = Vec::new();
        regs.push("rbx");
        proof {
            assert(regs@.map_values(|x: &str| x@) =~= seq!["rbx"@]);
        }
        Some((true, 1, regs, "    call exp_fixed\n"))
    } else if str_eq(name, "print_int") {
        let mut regs: Vec<&'static str> = Vec::new();
        regs.push("rax");
        proof {
            assert(regs@.map_values(|x: &str| x@) =~= seq!["rax"@]);
        }
        Some((true, 1, regs, "    call print_int\n"))
    } else if str_eq(name, "print_str") {
        let mut regs: Vec<&'static str> = Vec::new();
        regs.push("rax");
        proof {
            assert(regs@.map_values(|x: &str| x@) =~= seq!["rax"@]);
        }
        Some((true, 1, regs, "    call print_str\n"))
    } else if str_eq(name, "num_to_str") {
        let mut regs: Vec<&'static str> = Vec::new();
        regs.push("rax");
        proof {
            assert(regs@.map_values(|x: &str| x@) =~= seq!["rax"@]);
        }
        Some((true, 1, regs, "    call num_to_str\n"))
    } else if str_eq(name, "channel_create") {
        let mut regs: Vec<&'static str> = Vec::new();
        proof {
            assert(regs@.map_values(|x: &str| x@) =~= Seq::<Seq<char>>::empty());
        }
        Some((false, 0, regs, "    call channel_create\n"))
    } else if str_eq(name, "channel_send") {
        let mut regs: Vec<&'static str> = Vec::new();
        regs.push("rdi");
        regs.push("rsi");
        proof {
            assert(regs@.map_values(|x: &str| x@) =~= seq!["rdi"@, "rsi"@]);
        }
        Some((true, 2, regs, "    call channel_send\n"))
    } else if str_eq(name, "channel_recv") {
        let mut regs: Vec<&'static str> = Vec::new();
        regs.push("rdi");
        proof {
            assert(regs@.map_values(|x: &str| x@) =~= seq!["rdi"@]);
        }
        Some((true, 1, regs, "    call channel_recv\n"))
    } else if str_eq(name, "thread_spawn") {
        let mut regs: Vec<&'static str> = Vec::new();
        regs.push("rdi");
        regs.push("rsi");
        proof {
            assert(regs@.map_values(|x: &str| x@) =~= seq!["rdi"@, "rsi"@]);
        }
        Some((true, 2, regs, "    call thread_spawn\n"))
    } else if str_eq(name, "thread_join") {
        let mut regs: Vec<&'static str> = Vec::new();
        regs.push("rdi");
        proof {
            assert(regs@.map_values(|x: &str| x@) =~= seq!["rdi"@]);
        }
        Some((true, 1, regs, "    call thread_join\n"))
    } else if str_eq(name, "list_len") {
        let mut regs: Vec<&'static str> = Vec::new();
        regs.push("rax");
        proof {
            assert(regs@.map_values(|x: &str| x@) =~= seq!["rax"@]);
        }
        Some((true, 1, regs, "    mov rax, [rax]\n"))
    } else if str_eq(name, "list_sum") {
        let mut regs: Vec<&'static str> = Vec::new();
        regs.push("rax");
        proof {
            assert(regs@.map_values(|x: &str| x@) =~= seq!["rax"@]);
        }
        Some((true, 1, regs, "    call list_sum_helper\n"))
    } else if str_eq(name, "list_tail") {
        let mut regs: Vec<&'static str> = Vec::new();
        regs.push("rax");
        proof {
            assert(regs@.map_values(|x: &str| x@) =~= seq!["rax"@]);
        }
        Some((true, 1, regs, "    call list_tail_helper\n"))
    } else if str_eq(name, "list_append") {
        let mut regs: Vec<&'static str> = Vec::new();
        regs.push("rdi");
        regs.push("rsi");
        proof {
            assert(regs@.map_values(|x: &str| x@) =~= seq!["rdi"@, "rsi"@]);
        }
        Some((true, 2, regs, "    call list_append_helper\n"))
    } else if str_eq(name, "file_close") {
        let mut regs: Vec<&'static str> = Vec::new();
        regs.push("rdi");
        proof {
            assert(regs@.map_values(|x: &str| x@) =~= seq!["rdi"@]);
        }
        Some((true, 1, regs, "    mov rax, 3\n    syscall\n"))
    } else if str_eq(name, "file_write") {
        let mut regs: Vec<&'static str> = Vec::new();
        regs.push("rdi");
        regs.push("rax");
        proof {
            assert(regs@.map_values(|x: &str| x@) =~= seq!["rdi"@, "rax"@]);
        }
        Some((true, 2, regs, "    mov rdx, [rax]\n    lea rsi, [rax + 8]\n    mov rax, 1\n    syscall\n"))
    } else if str_eq(name, "stdin_read") {
        let mut regs: Vec<&'static str> = Vec::new();
        proof {
            assert(regs@.map_values(|x: &str| x@) =~= Seq::<Seq<char>>::empty());
        }
        Some((false, 0, regs, "    call stdin_read_helper\n"))
    } else if str_eq(name, "str_eq") {
        let mut regs: Vec<&'static str> = Vec::new();
        regs.push("rdi");
        regs.push("rsi");
        proof {
            assert(regs@.map_values(|x: &str| x@) =~= seq!["rdi"@, "rsi"@]);
        }
        Some((true, 2, regs, "    call str_eq\n"))
    } else {
        None
    }
}

// ─── Instructions ─────────────────────────────────────────────────────

/// The code of a binary operation on `rax`, `rbx`, leaving the result in
/// `rax`.
pub open spec fn binop_text(op: NIROp) -> Seq<char> {
    match op {
        NIROp::Add => "    add rax, rbx\n"@,
        NIROp::Sub => "    sub rax, rbx\n"@,
        NIROp::Mul => "    imul rax, rbx\n"@,
        NIROp::Div => "    xor rdx, rdx\n    div rbx\n"@,
        NIROp::Mod => "    xor rdx, rdx\n    div rbx\n    mov rax, rdx\n"@,
        NIROp::Shl => "    mov rcx, rbx\n    shl rax, cl\n"@,
        NIROp::Shr => "    mov rcx, rbx\n    shr rax, cl\n"@,
        NIROp::And => "    and rax, rbx\n"@,
        NIROp::Or => "    or rax, rbx\n"@,
        NIROp::Xor => "    xor rax, rbx\n"@,
        NIROp::Eq => "    cmp rax, rbx\n    sete al\n    movzx rax, al\n"@,
        NIROp::Ne => "    cmp rax, rbx\n    setne al\n    movzx rax, al\n"@,
        NIROp::Lt => "    cmp rax, rbx\n    setl al\n    movzx rax, al\n"@,
        NIROp::Le => "    cmp rax, rbx\n    setle al\n    movzx rax, al\n"@,
        NIROp::Gt => "    cmp rax, rbx\n    setg al\n    movzx rax, al\n"@,
        NIROp::Ge => "    cmp rax, rbx\n    setge al\n    movzx rax, al\n"@,
    }
}

/// `binop_text` in code.
fn binop_code(op: NIROp) -> (r: &'static str)
    ensures
        r@ == binop_text(op),
{
    match op {
        NIROp::Add => "    add rax, rbx\n",
        NIROp::Sub => "    sub rax, rbx\n",
        NIROp::Mul => "    imul rax, rbx\n",
        NIROp::Div => "    xor rdx, rdx\n    div rbx\n",
        NIROp::Mod => "    xor rdx, rdx\n    div rbx\n    mov rax, rdx\n",
        NIROp::Shl => "    mov rcx, rbx\n    shl rax, cl\n",
        NIROp::Shr => "    mov rcx, rbx\n    shr rax, cl\n",
        NIROp::And => "    and rax, rbx\n",
        NIROp::Or => "    or rax, rbx\n",
        NIROp::Xor => "    xor rax, rbx\n",
        NIROp::Eq => "    cmp rax, rbx\n    sete al\n    movzx rax, al\n",
        NIROp::Ne => "    cmp rax, rbx\n    setne al\n    movzx rax, al\n",
        NIROp::Lt => "    cmp rax, rbx\n    setl al\n    movzx rax, al\n",
        NIROp::Le => "    cmp rax, rbx\n    setle al\n    movzx rax, al\n",
        NIROp::Gt => "    cmp rax, rbx\n    setg al\n    movzx rax, al\n",
        NIROp::Ge => "    cmp rax, rbx\n    setge al\n    movzx rax, al\n",
    }
}

/// The register of the `i`-th argument of a call (below six).
pub open spec fn arg_reg(i: int) -> Seq<char> {
    if i == 0 {
        "rdi"@
    } else if i == 1 {
        "rsi"@
    } else if i == 2 {
        "rdx"@
    } else if i == 3 {
        "rcx"@
    } else if i == 4 {
        "r8"@
    } else {
        "r9"@
    }
}

/// `arg_reg` in code.
fn arg_reg_code(i: usize) -> (r: &'static str)
    ensures
        r@ == arg_reg(i as int),
{
    if i == 0 {
        "rdi"
    } else if i == 1 {
        "rsi"
    } else if i == 2 {
        "rdx"
    } else if i == 3 {
        "rcx"
    } else if i == 4 {
        "r8"
    } else {
        "r9"
    }
}

/// The code passing the arguments of a call through a function value: the
/// first six in registers, the rest pushed.
pub open spec fn call_args_text(args: Seq<u32>, values: Seq<NIRValue>, slots: Seq<u32>) -> Seq<char>
    decreases args.len(),
{
    if args.len() == 0 {
        Seq::empty()
    } else {
        let i = args.len() - 1;
        call_args_text(args.drop_last(), values, slots) + (if i < 6 {
            load_text(args[i], values, slots, arg_reg(i))
        } else {
            load_text(args[i], values, slots, "rax"@) + "    push rax\n"@
        })
    }
}

/// The code of an instruction, with `lc` labels made before: the code and
/// the new label count, or the reason it is unsupported.
#[verifier::opaque]
pub open spec fn instr_text(i: Instr, values: Seq<NIRValue>, slots: Seq<u32>, lc: nat) -> Result<(Seq<char>, nat), Seq<char>> {
    match i {
        Instr::BinOp { op, lhs, rhs, result } => Ok((
            load_text(lhs, values, slots, "rax"@) + load_text(rhs, values, slots, "rbx"@) + binop_text(op) + store_text(
                result,
                slots,
            ),
            lc,
        )),
        Instr::UnOp { op, operand, result } => Ok((
            load_text(operand, values, slots, "rax"@) + (match op {
                NIRUnOp::Neg => "    neg rax\n"@,
                NIRUnOp::Not => "    not rax\n"@,
            }) + store_text(result, slots),
            lc,
        )),
        Instr::CondBranch { cond, then_bb, else_bb } => Ok((
            load_text(cond, values, slots, "rax"@) + "    test rax, rax\n"@ + "    jnz .bb_"@ + decimal(then_bb as nat) + "\n"@
                + "    jmp .bb_"@ + decimal(else_bb as nat) + "\n"@,
            lc,
        )),
        Instr::Branch { target } => Ok(("    jmp .bb_"@ + decimal(target as nat) + "\n"@, lc)),
        Instr::Call { callee, args, result } => match builtin_of(callee, values) {
            Some(name) => builtin_text(name, args, values, slots, result, lc),
            None => Ok((
                call_args_text(args, values, slots) + load_text(callee, values, slots, "r10"@)
                    + "    push r15\n    mov r15, r10\n    mov r10, [r10]\n    call r10\n    pop r15\n"@ + store_text(result, slots),
                lc,
            )),
        },
        Instr::Alloc { size, result } => Ok((
            load_text(size, values, slots, "rdi"@) + "    call arena_alloc\n"@ + store_text(result, slots),
            lc,
        )),
        Instr::Store { ptr, value } => Ok((
            load_text(ptr, values, slots, "rbx"@) + load_text(value, values, slots, "rax"@) + "    mov [rbx], rax\n"@,
            lc,
        )),
        Instr::Load { ptr, result } => Ok((
            load_text(ptr, values, slots, "rbx"@) + "    mov rax, [rbx]\n"@ + store_text(result, slots),
            lc,
        )),
        Instr::Move { value, result } => Ok((load_text(value, values, slots, "rax"@) + store_text(result, slots), lc)),
        Instr::Borrow { value, result, .. } => Ok((load_text(value, values, slots, "rax"@) + store_text(result, slots), lc)),
        Instr::Free { .. } => Ok((Seq::empty(), lc)),
        Instr::Return { value } => Ok((
            match value {
                Some(v) => load_text(v, values, slots, "rdi"@),
                None => Seq::empty(),
            },
            lc,
        )),
    }
}

/// An instruction makes at most one label.
pub proof fn lemma_instr_labels(i: Instr, values: Seq<NIRValue>, slots: Seq<u32>, lc: nat)
    ensures
        instr_text(i, values, slots, lc) matches Ok((_, lc2)) ==> lc <= lc2 <= lc + 1,
{
    reveal(instr_text);
}

/// Appends the code of a call through a function value.
fn emit_indirect_call(
    a: &mut String,
    callee: ValueID,
    args: &Vec<ValueID>,
    values: &Vec<NIRValue>,
    ctx: &CodeGenContext,
    result: ValueID,
)
    requires
        slots_bounded(ctx.slot_list()),
    ensures
        final(a)@ == old(a)@ + call_args_text(args@.map_values(|v: ValueID| v.0), values@, ctx.slot_list()) + load_text(
            callee.0,
            values@,
            ctx.slot_list(),
            "r10"@,
        ) + "    push r15\n    mov r15, r10\n    mov r10, [r10]\n    call r10\n    pop r15\n"@ + store_text(result.0, ctx.slot_list()),
{
    let ghost start = a@;
    let ghost ids = args@.map_values(|v: ValueID| v.0);
    let mut i: usize = 0;
    while i < args.len()
        invariant
            i <= args@.len(),
            ids == args@.map_values(|v: ValueID| v.0),
            slots_bounded(ctx.slot_list()),
            a@ == start + call_args_text(ids.take(i as int), values@, ctx.slot_list()),
        decreases args@.len() - i,
    {
        proof {
            assert(ids.take(i as int + 1).drop_last() =~= ids.take(i as int));
            assert(ids.take(i as int + 1).last() == args@[i as int].0);
        }
        if i < 6 {
            load(a, args[i], values, ctx, arg_reg_code(i));
        } else {
            load(a, args[i], values, ctx, "rax");
            a.append("    push rax\n");
        }
        proof {
            assert(a@ =~= start + call_args_text(ids.take(i as int + 1), values@, ctx.slot_list()));
        }
        i = i + 1;
    }
    proof {
        assert(ids.take(i as int) =~= ids);
    }
    load(a, callee, values, ctx, "r10");
    a.append("    push r15\n    mov r15, r10\n    mov r10, [r10]\n    call r10\n    pop r15\n");
    store_result(a, result, ctx);
    assert(a@ =~= start + call_args_text(ids, values@, ctx.slot_list()) + load_text(callee.0, values@, ctx.slot_list(), "r10"@)
        + "    push r15\n    mov r15, r10\n    mov r10, [r10]\n    call r10\n    pop r15\n"@ + store_text(result.0, ctx.slot_list()));
}

/// The code of an instruction (see `instr_text`).
fn emit_instr(instr: &NIRInstruction, values: &Vec<NIRValue>, ctx: &mut CodeGenContext) -> (r: Result<String, CompileError>)
    requires
        slots_bounded(old(ctx).slot_list()),
        old(ctx).labels() < u32::MAX,
    ensures
        final(ctx).slot_list() == old(ctx).slot_list(),
        match instr_text(instr@, values@, old(ctx).slot_list(), old(ctx).labels() as nat) {
            Ok((t, lc)) => r matches Ok(s) && s@ == t && final(ctx).labels() == lc,
            Err(msg) => r matches Err(CompileError::Unsupported(m)) && m@ == msg,
        },
{
    reveal(instr_text);
    let mut a = String::new();
    let ghost slots = ctx.slot_list();
    match instr {
        NIRInstruction::BinOp { op, lhs, rhs, result } => {
            load(&mut a, *lhs, values, ctx, "rax");
            load(&mut a, *rhs, values, ctx, "rbx");
            a.append(binop_code(*op));
            store_result(&mut a, *result, ctx);
        },
        NIRInstruction::UnOp { op, operand, result } => {
            load(&mut a, *operand, values, ctx, "rax");
            match op {
                NIRUnOp::Neg => a.append("    neg rax\n"),
                NIRUnOp::Not => a.append("    not rax\n"),
            }
            store_result(&mut a, *result, ctx);
        },
        NIRInstruction::CondBranch { cond, then_bb, else_bb } => {
            load(&mut a, *cond, values, ctx, "rax");
            a.append("    test rax, rax\n");
            a.append("    jnz .bb_");
            push_u64(&mut a, then_bb.0 as u64);
            a.append("\n");
            a.append("    jmp .bb_");
            push_u64(&mut a, else_bb.0 as u64);
            a.append("\n");
        },
        NIRInstruction::Branch { target } => {
            a.append("    jmp .bb_");
            push_u64(&mut a, target.0 as u64);
            a.append("\n");
        },
        NIRInstruction::Call { callee, args, result } => {
            let builtin_name = get_builtin_name(*callee, values);
            match builtin_name {
                Some(name) => {
                    match emit_builtin_call(&mut a, name.as_str(), args, values, ctx, *result) {
                        Ok(()) => {},
                        Err(e) => {
                            return Err(e);
                        },
                    }
                },
                None => {
                    emit_indirect_call(&mut a, *callee, args, values, ctx, *result);
                },
            }
        },
        NIRInstruction::Alloc { size, result } => {
            load(&mut a, *size, values, ctx, "rdi");
            a.append("    call arena_alloc\n");
            store_result(&mut a, *result, ctx);
        },
        NIRInstruction::Store { ptr, value } => {
            load(&mut a, *ptr, values, ctx, "rbx");
            load(&mut a, *value, values, ctx, "rax");
            a.append("    mov [rbx], rax\n");
        },
        NIRInstruction::Load { ptr, result } => {
            load(&mut a, *ptr, values, ctx, "rbx");
            a.append("    mov rax, [rbx]\n");
            store_result(&mut a, *result, ctx);
        },
        NIRInstruction::Move { value, result } => {
            load(&mut a, *value, values, ctx, "rax");
            store_result(&mut a, *result, ctx);
        },
        NIRInstruction::Borrow { value, result, .. } => {
            load(&mut a, *value, values, ctx, "rax");
            store_result(&mut a, *result, ctx);
        },
        NIRInstruction::Free { .. } => {},
        NIRInstruction::Return { value } => {
            if let Some(v) = value {
                load(&mut a, *v, values, ctx, "rdi");
            }
        },
    }
    proof {
        assert(a@ =~= instr_text(instr@, values@, slots, old(ctx).labels() as nat)->Ok_0.0);
    }
    Ok(a)
}

/// The slots after the pre-scan of an instruction: each defined value,
/// and a returned one, gets a slot.
pub open spec fn prescan_one(slots: Seq<u32>, i: Instr) -> Seq<u32> {
    match i {
        Instr::BinOp { result, .. } => with_slot(slots, result),
        Instr::UnOp { result, .. } => with_slot(slots, result),
        Instr::Call { result, .. } => with_slot(slots, result),
        Instr::Load { result, .. } => with_slot(slots, result),
        Instr::Alloc { result, .. } => with_slot(slots, result),
        Instr::Move { result, .. } => with_slot(slots, result),
        Instr::Borrow { result, .. } => with_slot(slots, result),
        Instr::Return { value: Some(v) } => with_slot(slots, v),
        _ => slots,
    }
}

/// Gives the values defined or returned by `instr` slots.
fn pre_scan(instr: &NIRInstruction, ctx: &mut CodeGenContext)
    ensures
        final(ctx).slot_list() == prescan_one(old(ctx).slot_list(), instr@),
        final(ctx).labels() == old(ctx).labels(),
{
    match instr {
        NIRInstruction::BinOp { result, .. } | NIRInstruction::UnOp { result, .. } | NIRInstruction::Call { result, .. }
        | NIRInstruction::Load { result, .. } | NIRInstruction::Alloc { result, .. } | NIRInstruction::Move {
            result,
            ..
        } | NIRInstruction::Borrow { result, .. } => {
            ctx.alloc_slot(*result);
        },
        NIRInstruction::Return { value } => {
            if let Some(v) = value {
                ctx.alloc_slot(*v);
            }
        },
        _ => {},
    }
}

/// The helper routines linked into every program: allocation, printing,
/// string comparison, fixed-point arithmetic, channels, threads, lists,
/// and reading standard input.
pub const HELPER_ROUTINES: &'static str = "mmfail:\n    mov rax, 60\n    mov rdi, 2\n    syscall\n\narena_alloc:\n    mov rax, [arena_ptr]\n    add rdi, 15\n    and rdi, -16\n    add [arena_ptr], rdi\n    ret\n\n\
print_int:\n    push rax\n    push rbx\n    push rcx\n    push rdx\n    push rsi\n    push rdi\n    test rax, rax\n    jns .pi_pos\n    neg rax\n    mov byte [negflag], 1\n\
.pi_pos:\n    mov rbx, 10\n    mov rcx, 0\n    lea rdi, [num_buf + 31]\n\
.piloop:\n    xor rdx, rdx\n    div rbx\n    add dl, '0'\n    dec rdi\n    mov [rdi], dl\n    inc rcx\n    test rax, rax\n    jnz .piloop\n    cmp byte [negflag], 1\n    jne .pi_skip_neg\n    dec rdi\n    mov byte [rdi], 45\n    inc rcx\n\
.pi_skip_neg:\n    mov byte [negflag], 0\n    mov rsi, rdi\n    mov byte [rsi + rcx], 10\n    inc rcx\n    mov rdi, 1\n    mov rax, 1\n    mov rdx, rcx\n    syscall\n    pop rdi\n    pop rsi\n    pop rdx\n    pop rcx\n    pop rbx\n    pop rax\n    ret\n\n\
str_eq:\n    mov rcx, [rdi]\n    mov rdx, [rsi]\n    cmp rcx, rdx\n    jne .str_eq_ne\n    add rdi, 8\n    add rsi, 8\n\
.str_eq_loop:\n    test rcx, rcx\n    jz .str_eq_eq\n    mov al, [rdi]\n    cmp al, [rsi]\n    jne .str_eq_ne\n    inc rdi\n    inc rsi\n    dec rcx\n    jmp .str_eq_loop\n\
.str_eq_eq:\n    mov rax, 1\n    ret\n.str_eq_ne:\n    mov rax, 0\n    ret\n\n\
print_str:\n    push rax\n    push rdx\n    push rsi\n    push rdi\n    mov rsi, rax\n    add rsi, 8\n    mov rdx, [rax]\n    mov rdi, 1\n    mov rax, 1\n    syscall\n    mov rsi, nl_ptr\n    mov rdx, 1\n    mov rdi, 1\n    mov rax, 1\n    syscall\n    pop rdi\n    pop rsi\n    pop rdx\n    pop rax\n    ret\n\n\
num_to_str:\n    push rbx\n    push rcx\n    push rdx\n    push rsi\n    push rdi\n    test rax, rax\n    jns .nts_pos\n    neg rax\n    mov byte [negflag], 1\n\
.nts_pos:\n    mov rbx, 10\n    mov rcx, 0\n    mov byte [negflag], 0\n    lea rdi, [num_buf + 31]\n\
.nts_loop:\n    xor rdx, rdx\n    div rbx\n    add dl, '0'\n    dec rdi\n    mov [rdi], dl\n    inc rcx\n    test rax, rax\n    jnz .nts_loop\n    cmp byte [negflag], 1\n    jne .nts_skip\n    dec rdi\n    mov byte [rdi], 45\n    inc rcx\n\
.nts_skip:\n    push rdi\n    push rcx\n    mov rax, rcx\n    add rax, 8\n    mov rdi, rax\n    call arena_alloc\n    pop rcx\n    mov [rax], rcx\n    pop rsi\n    push rax\n    lea rdi, [rax + 8]\n\
.nts_copy:\n    test rcx, rcx\n    jz .nts_done\n    mov al, [rsi]\n    mov [rdi], al\n    inc rsi\n    inc rdi\n    dec rcx\n    jmp .nts_copy\n\
.nts_done:\n    mov byte [negflag], 0\n    pop rax\n    pop rdi\n    pop rsi\n    pop rdx\n    pop rcx\n    pop rbx\n    ret\n\n\
sqrt_fixed:\n    test rax, rax\n    jz .sq_done\n    push r11\n    mov r11, rax\n    mov r10, 0\n    mov r8, 1\n    shl r8, 30\n\
.sq_loop:\n    mov r9, r10\n    or r9, r8\n    mov rax, r9\n    imul rax\n    test rdx, rdx\n    jnz .sq_skip\n    cmp rax, r11\n    ja .sq_skip\n    mov r10, r9\n\
.sq_skip:\n    shr r8, 1\n    test r8, r8\n    jnz .sq_loop\n    mov rax, r10\n    pop r11\n\
.sq_done:\n    ret\n\nabs_fixed:\n    test rax, rax\n    jns .abs_done\n    neg rax\n\
.abs_done:\n    ret\n\nfloor_fixed:\n    sar rax, 32\n    ret\n\n\
power_fixed:\n    push rbx\n    push rcx\n    mov rbx, rdi\n    mov rcx, rsi\n    mov rax, 1\n\
.pw_loop:\n    test rcx, rcx\n    jz .pw_done\n    imul rax, rbx\n    dec rcx\n    jmp .pw_loop\n\
.pw_done:\n    pop rcx\n    pop rbx\n    ret\n\nexp_fixed:\n    push r8\n    push rdi\n    push rcx\n    push rdx\n    mov rax, rbx\n    mov rdx, 6196328019\n    imul rdx\n    mov r8, 2147483648\n    add rax, r8\n    adc rdx, 0\n    mov rdi, rdx\n    mov rax, rdi\n    mov rdx, 2977044472\n    imul rdx\n    sub rbx, rax\n    mov rax, 9\n    mov rdx, rbx\n    imul rdx\n    mov rcx, rax\n    shr rcx, 32\n    shl rdx, 32\n    or rdx, rcx\n    mov rax, rdx\n    add rax, 108\n    mov rdx, rbx\n    imul rdx\n    mov rcx, rax\n    shr rcx, 32\n    shl rdx, 32\n    or rdx, rcx\n    mov rax, rdx\n    add rax, 1184\n    mov rdx, rbx\n    imul rdx\n    mov rcx, rax\n    shr rcx, 32\n    shl rdx, 32\n    or rdx, rcx\n    mov rax, rdx\n    add rax, 11836\n    mov rdx, rbx\n    imul rdx\n    mov rcx, rax\n    shr rcx, 32\n    shl rdx, 32\n    or rdx, rcx\n    mov rax, rdx\n    add rax, 106522\n    mov rdx, rbx\n    imul rdx\n    mov rcx, rax\n    shr rcx, 32\n    shl rdx, 32\n    or rdx, rcx\n    mov rax, rdx\n    add rax, 852176\n    mov rdx, rbx\n    imul rdx\n    mov rcx, rax\n    shr rcx, 32\n    shl rdx, 32\n    or rdx, rcx\n    mov rax, rdx\n    add rax, 5965232\n    mov rdx, rbx\n    imul rdx\n    mov rcx, rax\n    shr rcx, 32\n    shl rdx, 32\n    or rdx, rcx\n    mov rax, rdx\n    add rax, 35791394\n    mov rdx, rbx\n    imul rdx\n    mov rcx, rax\n    shr rcx, 32\n    shl rdx, 32\n    or rdx, rcx\n    mov rax, rdx\n    add rax, 178956971\n    mov rdx, rbx\n    imul rdx\n    mov rcx, rax\n    shr rcx, 32\n    shl rdx, 32\n    or rdx, rcx\n    mov rax, rdx\n    add rax, 715827883\n    mov rdx, rbx\n    imul rdx\n    mov rcx, rax\n    shr rcx, 32\n    shl rdx, 32\n    or rdx, rcx\n    mov rax, rdx\n    mov r8, 4294967296\n    add rax, r8\n    mov rdx, rbx\n    imul rdx\n    mov rcx, rax\n    shr rcx, 32\n    shl rdx, 32\n    or rdx, rcx\n    mov rax, rdx\n    mov r8, 4294967296\n    add rax, r8\n    mov rcx, rdi\n    test rcx, rcx\n    jns .uexp_pos\n    neg rcx\n    sar rax, cl\n    jmp .uexp_done\n\
.uexp_pos:\n    shl rax, cl\n.uexp_done:\n    pop rdx\n    pop rcx\n    pop rdi\n    pop r8\n    ret\n\n\
channel_create:\n    push rbx\n    push rcx\n    mov rdi, 16\n    call arena_alloc\n    mov rbx, rax\n    lea rdi, [rel fds_tmp]\n    xor rsi, rsi\n    mov rax, 293\n    syscall\n    movsxd rax, dword [rel fds_tmp]\n    movsxd rcx, dword [rel fds_tmp + 4]\n    mov [rbx], rax\n    mov [rbx + 8], rcx\n    mov rax, rbx\n    pop rcx\n    pop rbx\n    ret\n\n\
channel_send:\n    push rbx\n    push rcx\n    mov rbx, rdi\n    mov [rel chan_tmp], rsi\n    mov edi, [rbx + 8]\n    lea rsi, [rel chan_tmp]\n    mov rdx, 8\n    mov rax, 1\n    syscall\n    mov rax, 8\n    pop rcx\n    pop rbx\n    ret\n\n\
channel_recv:\n    push rbx\n    push rcx\n    mov rbx, rdi\n    mov edi, [rbx]\n    lea rsi, [rel chan_tmp]\n    mov rdx, 8\n    xor rax, rax\n    syscall\n    mov rax, [rel chan_tmp]\n    pop rcx\n    pop rbx\n    ret\n\n\
thread_spawn:\n    push rbx\n    push rcx\n    mov [t_task], rdi\n    mov [t_task + 8], rsi\n    xor rdi, rdi\n    mov rsi, 65536\n    mov rdx, 3\n    mov r10, 34\n    xor r8, r8\n    xor r9, r9\n    mov rax, 9\n    syscall\n    test rax, rax\n    js mmfail\n    mov [t_task + 24], rax\n    add rax, 65536\n    sub rax, 16\n    mov rsi, rax\n    mov rdi, 1809\n    xor rdx, rdx\n    xor r10, r10\n    xor r8, r8\n    xor r9, r9\n    mov rax, 56\n    syscall\n    test rax, rax\n    jnz .t_parent\n    mov r10, [t_task]\n    mov rdi, [t_task + 8]\n    call r10\n    mov [t_task + 16], rax\n    mov rax, 231\n    xor rdi, rdi\n    syscall\n\
.t_parent:\n    mov [t_task + 24], rax\n    pop rcx\n    pop rbx\n    ret\n\n\
thread_join:\n    push rbx\n    push rcx\n    mov rbx, rdi\n    lea rsi, [rel t_status]\n    xor rdx, rdx\n    xor r10, r10\n    mov rax, 61\n    syscall\n    mov rax, [t_task + 16]\n    pop rcx\n    pop rbx\n    ret\n\n\
list_sum_helper:\n    mov rcx, [rax]\n    xor rbx, rbx\n.sl_loop:\n    test rcx, rcx\n    jz .sl_done\n    mov rdx, rcx\n    dec rdx\n    add rbx, [rax + rdx * 8 + 8]\n    dec rcx\n    jmp .sl_loop\n\
.sl_done:\n    mov rax, rbx\n    ret\n\nlist_tail_helper:\n    mov rcx, [rax]\n    test rcx, rcx\n    jz .tl_empty\n    push rax\n    dec rcx\n    mov rdi, rcx\n    shl rdi, 3\n    add rdi, 8\n    call arena_alloc\n    mov r12, rax\n    mov [rax], rcx\n    pop rsi\n    add rsi, 16\n    lea rdi, [r12 + 8]\n\
.tl_copy:\n    test rcx, rcx\n    jz .tl_done\n    mov rdx, [rsi]\n    mov [rdi], rdx\n    add rsi, 8\n    add rdi, 8\n    dec rcx\n    jmp .tl_copy\n\
.tl_done:\n    mov rax, r12\n    ret\n.tl_empty:\n    mov rax, 60\n    mov rdi, 1\n    syscall\n\n\
list_append_helper:\n    push r10\n    push r11\n    mov r10, rdi\n    mov r11, rsi\n    mov rax, [r10]\n    add rax, 1\n    mov rdi, rax\n    shl rdi, 3\n    add rdi, 8\n    call arena_alloc\n    mov r12, rax\n    mov rax, [r10]\n    add rax, 1\n    mov [r12], rax\n    mov rax, [r10]\n    lea rsi, [r10 + 8]\n    lea rdi, [r12 + 8]\n\
.la_copy:\n    test rax, rax\n    jz .la_done\n    mov rcx, [rsi]\n    mov [rdi], rcx\n    add rsi, 8\n    add rdi, 8\n    dec rax\n    jmp .la_copy\n\
.la_done:\n    mov [rdi], r11\n    mov rax, r12\n    pop r11\n    pop r10\n    ret\n\n\
stdin_read_helper:\n    push rbx\n    push rcx\n    xor rcx, rcx\n\
.rd_loop:\n    lea rsi, [read_buf + rcx]\n    xor rdi, rdi\n    mov rdx, 1\n    xor rax, rax\n    push rcx\n    syscall\n    pop rcx\n    test rax, rax\n    jz .rd_end\n    mov al, [read_buf + rcx]\n    cmp al, 10\n    je .rd_end\n    inc rcx\n    jmp .rd_loop\n\
.rd_end:\n    mov rax, rcx\n    add rax, 8\n    mov rdi, rax\n    call arena_alloc\n    mov [rax], rcx\n    push rax\n    push rcx\n    lea rsi, [read_buf]\n    lea rdi, [rax + 8]\n\
.rd_copy:\n    test rcx, rcx\n    jz .rd_cdone\n    mov al, [rsi]\n    mov [rdi], al\n    inc rsi\n    inc rdi\n    dec rcx\n    jmp .rd_copy\n\
.rd_cdone:\n    pop rcx\n    pop rax\n    pop rcx\n    pop rbx\n    ret\n\n";

/// The helper routines (see `HELPER_ROUTINES`).
fn emit_all_helpers() -> (h: String)
    ensures
        h@ == HELPER_ROUTINES@,
{
    String::from_str(HELPER_ROUTINES)
}

// ─── Whole programs ───────────────────────────────────────────────────

/// The start of the program: the entry symbol and the data sections.
pub const ASM_HEADER: &'static str = "global _start\nsection .bss\n    vars resq 256\n    num_buf resb 32\n    negflag resb 1\n\
    read_buf resb 256\n    file_path_buf resb 256\n    file_buf resb 4096\n    arena_ptr resq 1\n    arena_mem resb 262144\n\
    fds_tmp resq 2\n    chan_tmp resq 1\n    t_stack resb 65536\n    t_task resq 4\n    t_status resq 1\n\
\nsection .data\n    nl_ptr: db 10\n\nsection .text\n";

/// The entry point: sets up the arena.
pub const ASM_START: &'static str = "_start:\n    lea rax, [arena_mem]\n    mov [arena_ptr], rax\n    xor rdi, rdi\n\n";

/// The exit with status 0 after the last block.
pub const ASM_EXIT: &'static str = "    mov rax, 60\n    xor rdi, rdi\n    syscall\n";

/// The slots after the pre-scan of `is`, in order.
pub open spec fn prescan_instrs(slots: Seq<u32>, is: Seq<Instr>) -> Seq<u32>
    decreases is.len(),
{
    if is.len() == 0 {
        slots
    } else {
        prescan_one(prescan_instrs(slots, is.drop_last()), is.last())
    }
}

/// The slots after the pre-scan of the blocks `bs`, in order.
pub open spec fn prescan_blocks(slots: Seq<u32>, bs: Seq<Seq<Instr>>) -> Seq<u32>
    decreases bs.len(),
{
    if bs.len() == 0 {
        slots
    } else {
        prescan_instrs(prescan_blocks(slots, bs.drop_last()), bs.last())
    }
}

/// The code of the instructions `is`, threading the label count.
pub open spec fn instrs_code(is: Seq<Instr>, values: Seq<NIRValue>, slots: Seq<u32>, lc: nat) -> Result<(Seq<char>, nat), Seq<char>>
    decreases is.len(),
{
    if is.len() == 0 {
        Ok((Seq::empty(), lc))
    } else {
        match instrs_code(is.drop_last(), values, slots, lc) {
            Err(e) => Err(e),
            Ok((t, lc1)) => match instr_text(is.last(), values, slots, lc1) {
                Err(e) => Err(e),
                Ok((t2, lc2)) => Ok((t + t2, lc2)),
            },
        }
    }
}

/// After a block that ends in a return: the exit with the returned value
/// as status.
pub open spec fn tail_code(is: Seq<Instr>, values: Seq<NIRValue>, slots: Seq<u32>) -> Seq<char> {
    if is.len() > 0 && is.last() is Return {
        (match is.last() {
            Instr::Return { value: Some(v) } => load_text(v, values, slots, "rdi"@),
            _ => "    xor rdi, rdi\n"@,
        }) + "    mov rax, 60\n"@ + "    syscall\n"@
    } else {
        Seq::empty()
    }
}

/// The code of a block: its label (but for the entry block), its
/// instructions, and the exit after a return.
#[verifier::opaque]
pub open spec fn block_code(
    id: u32,
    is: Seq<Instr>,
    entry: u32,
    values: Seq<NIRValue>,
    slots: Seq<u32>,
    lc: nat,
) -> Result<(Seq<char>, nat), Seq<char>> {
    let head = if id != entry {
        ".bb_"@ + decimal(id as nat) + ":\n"@
    } else {
        Seq::empty()
    };
    match instrs_code(is, values, slots, lc) {
        Err(e) => Err(e),
        Ok((t, lc2)) => Ok((head + t + tail_code(is, values, slots), lc2)),
    }
}

/// The code of the blocks, in order, threading the label count.
pub open spec fn blocks_code(
    ids: Seq<u32>,
    bs: Seq<Seq<Instr>>,
    entry: u32,
    values: Seq<NIRValue>,
    slots: Seq<u32>,
    lc: nat,
) -> Result<(Seq<char>, nat), Seq<char>>
    decreases bs.len(),
{
    if bs.len() == 0 || ids.len() != bs.len() {
        Ok((Seq::empty(), lc))
    } else {
        match blocks_code(ids.drop_last(), bs.drop_last(), entry, values, slots, lc) {
            Err(e) => Err(e),
            Ok((t, lc1)) => match block_code(ids.last(), bs.last(), entry, values, slots, lc1) {
                Err(e) => Err(e),
                Ok((t2, lc2)) => Ok((t + t2, lc2)),
            },
        }
    }
}

/// The block ids of a function.
pub open spec fn block_ids(f: NIRFunction) -> Seq<u32> {
    f.blocks@.map_values(|b: crate::nir::ir::BasicBlock| b.id.0)
}

/// The assembly text of a function: the data sections, the helper
/// routines, the entry point, each block, and a final exit; or the reason
/// it cannot be compiled.
pub open spec fn asm_text(f: NIRFunction) -> Result<Seq<char>, Seq<char>> {
    let bs = f.block_view();
    let slots = prescan_blocks(Seq::empty(), bs);
    match blocks_code(block_ids(f), bs, f.entry_block.0, f.values@, slots, 0) {
        Err(e) => Err(e),
        Ok((t, _)) => Ok(ASM_HEADER@ + HELPER_ROUTINES@ + ASM_START@ + t + ASM_EXIT@),
    }
}

proof fn lemma_prescan_instrs_len(slots: Seq<u32>, is: Seq<Instr>)
    ensures
        prescan_instrs(slots, is).len() <= slots.len() + is.len(),
    decreases is.len(),
{
    if is.len() > 0 {
        lemma_prescan_instrs_len(slots, is.drop_last());
    }
}

proof fn lemma_prescan_blocks_len(slots: Seq<u32>, bs: Seq<Seq<Instr>>)
    ensures
        prescan_blocks(slots, bs).len() <= slots.len() + crate::nir::ir::count_instrs(bs),
    decreases bs.len(),
{
    if bs.len() > 0 {
        lemma_prescan_blocks_len(slots, bs.drop_last());
        lemma_prescan_instrs_len(prescan_blocks(slots, bs.drop_last()), bs.last());
    }
}

proof fn lemma_instrs_labels(is: Seq<Instr>, values: Seq<NIRValue>, slots: Seq<u32>, lc: nat)
    ensures
        instrs_code(is, values, slots, lc) matches Ok((_, lc2)) ==> lc <= lc2 <= lc + is.len(),
    decreases is.len(),
{
    if is.len() > 0 {
        lemma_instrs_labels(is.drop_last(), values, slots, lc);
        match instrs_code(is.drop_last(), values, slots, lc) {
            Ok((_, lc1)) => lemma_instr_labels(is.last(), values, slots, lc1),
            Err(_) => {},
        }
    }
}

proof fn lemma_count_prefix(bs: Seq<Seq<Instr>>, k: int)
    requires
        0 <= k < bs.len(),
    ensures
        crate::nir::ir::count_instrs(bs.take(k)) + bs[k].len() <= crate::nir::ir::count_instrs(bs),
    decreases bs.len(),
{
    if k < bs.len() - 1 {
        lemma_count_prefix(bs.drop_last(), k);
        assert(bs.drop_last().take(k) =~= bs.take(k));
    } else {
        assert(bs.drop_last() =~= bs.take(k));
    }
}

/// Appends the code of the instructions of `block` (see `instrs_code`).
fn emit_block_instrs(
    out: &mut String,
    block: &crate::nir::ir::BasicBlock,
    values: &Vec<NIRValue>,
    ctx: &mut CodeGenContext,
) -> (r: Result<(), CompileError>)
    requires
        slots_bounded(old(ctx).slot_list()),
        old(ctx).labels() + block_instrs(*block).len() < 0xffff_ffff,
    ensures
        final(ctx).slot_list() == old(ctx).slot_list(),
        match instrs_code(block_instrs(*block), values@, old(ctx).slot_list(), old(ctx).labels() as nat) {
            Ok((t, lc)) => r is Ok && final(out)@ == old(out)@ + t && final(ctx).labels() == lc,
            Err(msg) => r matches Err(CompileError::Unsupported(m)) && m@ == msg,
        },
{
    let ghost is = block_instrs(*block);
    let ghost slots = ctx.slot_list();
    let ghost lc0 = ctx.labels() as nat;
    let ghost start = out@;
    let mut i: usize = 0;
    proof {
        assert(is.take(0) =~= Seq::<Instr>::empty());
    }
    while i < block.instructions.len()
        invariant
            i <= block.instructions@.len(),
            is == block_instrs(*block),
            ctx.slot_list() == slots,
            slots_bounded(slots),
            lc0 + is.len() < 0xffff_ffff,
            instrs_code(is.take(i as int), values@, slots, lc0) matches Ok((t, lc)) && out@ == start + t && ctx.labels() == lc
                && lc <= lc0 + i,
            slots == old(ctx).slot_list(),
            lc0 == old(ctx).labels(),
            start == old(out)@,
        decreases block.instructions@.len() - i,
    {
        let ghost lc1 = ctx.labels() as nat;
        let ghost t1 = out@;
        proof {
            assert(is.take(i as int + 1).drop_last() =~= is.take(i as int));
            assert(is.take(i as int + 1).last() == block.instructions@[i as int]@);
            lemma_instr_labels(is[i as int], values@, slots, lc1);
        }
        match emit_instr(&block.instructions[i], values, ctx) {
            Ok(s) => {
                out.append(s.as_str());
            },
            Err(e) => {
                proof {
                    lemma_instrs_err_extends(is, i as int + 1, values@, slots, lc0);
                }
                return Err(e);
            },
        }
        i = i + 1;
    }
    proof {
        assert(is.take(i as int) =~= is);
    }
    Ok(())
}

/// Appends the code of `block` (see `block_code`).
fn emit_block(
    out: &mut String,
    block: &crate::nir::ir::BasicBlock,
    entry: BlockID,
    values: &Vec<NIRValue>,
    ctx: &mut CodeGenContext,
) -> (r: Result<(), CompileError>)
    requires
        slots_bounded(old(ctx).slot_list()),
        old(ctx).labels() + block_instrs(*block).len() < 0xffff_ffff,
    ensures
        final(ctx).slot_list() == old(ctx).slot_list(),
        match block_code(block.id.0, block_instrs(*block), entry.0, values@, old(ctx).slot_list(), old(ctx).labels() as nat) {
            Ok((t, lc)) => r is Ok && final(out)@ == old(out)@ + t && final(ctx).labels() == lc,
            Err(msg) => r matches Err(CompileError::Unsupported(m)) && m@ == msg,
        },
{
    reveal(block_code);
    let ghost start = out@;
    let ghost is = block_instrs(*block);
    if block.id != entry {
        out.append(".bb_");
        push_u64(out, block.id.0 as u64);
        out.append(":\n");
    }
    let ghost head_end = out@;
    match emit_block_instrs(out, block, values, ctx) {
        Ok(()) => {},
        Err(e) => {
            return Err(e);
        },
    }
    let ghost body_end = out@;
    let n = block.instructions.len();
    if n > 0 {
        match &block.instructions[n - 1] {
            NIRInstruction::Return { value } => {
                match value {
                    Some(ret_val) => {
                        let mut tmp = String::new();
                        load(&mut tmp, *ret_val, values, ctx, "rdi");
                        out.append(tmp.as_str());
                    },
                    None => {
                        out.append("    xor rdi, rdi\n");
                    },
                }
                out.append("    mov rax, 60\n");
                out.append("    syscall\n");
            },
            _ => {},
        }
    }
    proof {
        if n > 0 {
            assert(is.last() == block.instructions@[n - 1]@);
        }
        assert(out@ =~= body_end + tail_code(is, values@, ctx.slot_list()));
    }
    Ok(())
}

/// The assembly text of `func` (see `asm_text`).
pub fn generate_assembly(func: &NIRFunction) -> (r: Result<String, CompileError>)
    requires
        crate::nir::ir::count_instrs(func.block_view()) < 0xffff_ffff,
    ensures
        match asm_text(*func) {
            Ok(t) => r matches Ok(s) && s@ == t,
            Err(msg) => r matches Err(CompileError::Unsupported(m)) && m@ == msg,
        },
{
    let ghost bs = func.block_view();
    let ghost ids = block_ids(*func);
    let mut out = String::from_str(ASM_HEADER);
    let helpers = emit_all_helpers();
    out.append(helpers.as_str());
    let mut ctx = CodeGenContext::new();
    let mut b: usize = 0;
    while b < func.blocks.len()
        invariant
            b <= func.blocks@.len(),
            bs == func.block_view(),
            ctx.slot_list() == prescan_blocks(Seq::empty(), bs.take(b as int)),
            ctx.labels() == 0,
        decreases func.blocks@.len() - b,
    {
        let block = &func.blocks[b];
        let ghost is = block_instrs(*block);
        let ghost before = ctx.slot_list();
        let mut i: usize = 0;
        while i < block.instructions.len()
            invariant
                i <= block.instructions@.len(),
                is == block_instrs(*block),
                ctx.slot_list() == prescan_instrs(before, is.take(i as int)),
                ctx.labels() == 0,
            decreases block.instructions@.len() - i,
        {
            pre_scan(&block.instructions[i], &mut ctx);
            proof {
                assert(is.take(i as int + 1).drop_last() =~= is.take(i as int));
            }
            i = i + 1;
        }
        proof {
            assert(is.take(i as int) =~= is);
            assert(bs.take(b as int + 1).drop_last() =~= bs.take(b as int));
            assert(bs[b as int] == is);
        }
        b = b + 1;
    }
    let ghost slots = ctx.slot_list();
    proof {
        assert(bs.take(b as int) =~= bs);
        lemma_prescan_blocks_len(Seq::empty(), bs);
    }
    out.append(ASM_START);
    let ghost prefix = out@;
    let mut b: usize = 0;
    proof {
        assert(ids.take(0) =~= Seq::<u32>::empty());
        assert(bs.take(0) =~= Seq::<Seq<Instr>>::empty());
    }
    while b < func.blocks.len()
        invariant
            b <= func.blocks@.len(),
            bs == func.block_view(),
            ids == block_ids(*func),
            ids.len() == bs.len(),
            crate::nir::ir::count_instrs(bs) < 0xffff_ffff,
            ctx.slot_list() == slots,
            slots == prescan_blocks(Seq::empty(), bs),
            slots_bounded(slots),
            blocks_code(ids.take(b as int), bs.take(b as int), func.entry_block.0, func.values@, slots, 0) matches Ok((t, lc))
                && out@ == prefix + t && ctx.labels() == lc && lc <= crate::nir::ir::count_instrs(bs.take(b as int)),
        decreases func.blocks@.len() - b,
    {
        let block = &func.blocks[b];
        let ghost is = block_instrs(*block);
        let ghost lc0 = ctx.labels() as nat;
        proof {
            lemma_count_prefix(bs, b as int);
            assert(bs[b as int] == is);
            assert(ids[b as int] == block.id.0);
            assert(ids.take(b as int + 1).drop_last() =~= ids.take(b as int));
            assert(bs.take(b as int + 1).drop_last() =~= bs.take(b as int));
            assert(ids.take(b as int + 1).last() == block.id.0);
            assert(bs.take(b as int + 1).last() == is);
            lemma_block_labels(block.id.0, is, func.entry_block.0, func.values@, slots, lc0);
            assert(crate::nir::ir::count_instrs(bs.take(b as int + 1)) == crate::nir::ir::count_instrs(bs.take(b as int)) + is.len());
        }
        match emit_block(&mut out, block, func.entry_block, &func.values, &mut ctx) {
            Ok(()) => {},
            Err(e) => {
                proof {
                    let pre = blocks_code(ids.take(b as int), bs.take(b as int), func.entry_block.0, func.values@, slots, 0);
                    assert(pre matches Ok((_, lc)) && lc == lc0);
                    assert(ids.take(b as int + 1).len() == bs.take(b as int + 1).len());
                    assert(blocks_code(ids.take(b as int + 1), bs.take(b as int + 1), func.entry_block.0, func.values@, slots, 0)
                        == block_code(block.id.0, is, func.entry_block.0, func.values@, slots, lc0));
                    lemma_blocks_err_from(ids, bs, b as int + 1, func.entry_block.0, func.values@, slots);
                }
                return Err(e);
            },
        }
        b = b + 1;
    }
    proof {
        assert(ids.take(b as int) =~= ids);
        assert(bs.take(b as int) =~= bs);
    }
    out.append(ASM_EXIT);
    Ok(out)
}

/// A block makes at most one label per instruction.
proof fn lemma_block_labels(id: u32, is: Seq<Instr>, entry: u32, values: Seq<NIRValue>, slots: Seq<u32>, lc: nat)
    ensures
        block_code(id, is, entry, values, slots, lc) matches Ok((_, lc2)) ==> lc <= lc2 <= lc + is.len(),
{
    reveal(block_code);
    lemma_instrs_labels(is, values, slots, lc);
}

/// An error in a prefix of the instructions is the error of all of them.
proof fn lemma_instrs_err_extends(is: Seq<Instr>, k: int, values: Seq<NIRValue>, slots: Seq<u32>, lc: nat)
    requires
        0 <= k <= is.len(),
        instrs_code(is.take(k), values, slots, lc) is Err,
    ensures
        instrs_code(is, values, slots, lc) == instrs_code(is.take(k), values, slots, lc),
    decreases is.len() - k,
{
    if k < is.len() {
        assert(is.take(k + 1).drop_last() =~= is.take(k));
        lemma_instrs_err_extends(is, k + 1, values, slots, lc);
    } else {
        assert(is.take(k) =~= is);
    }
}

proof fn lemma_blocks_err_from(ids: Seq<u32>, bs: Seq<Seq<Instr>>, k: int, entry: u32, values: Seq<NIRValue>, slots: Seq<u32>)
    requires
        0 < k <= bs.len(),
        ids.len() == bs.len(),
        blocks_code(ids.take(k), bs.take(k), entry, values, slots, 0) is Err,
    ensures
        blocks_code(ids, bs, entry, values, slots, 0) == blocks_code(ids.take(k), bs.take(k), entry, values, slots, 0),
    decreases bs.len() - k,
{
    if k < bs.len() {
        assert(ids.take(k + 1).drop_last() =~= ids.take(k));
        assert(bs.take(k + 1).drop_last() =~= bs.take(k));
        lemma_blocks_err_from(ids, bs, k + 1, entry, values, slots);
    } else {
        assert(ids.take(k) =~= ids);
        assert(bs.take(k) =~= bs);
    }
}

} // verus!
