use vstd::prelude::*;

use crate::passes::make_hir::find_last;
use crate::shared::definitions::{BinaryOperator, BlockId, CellId, FuncId};
use crate::shared::text::{dec, digit, int_text, push_char, push_dec, push_int, push_text};
use crate::stages::lir::{
    frame_offset, prefix_size, stmts_view, LIRBlock, LIRFunction, LIRPlace, LIRProgram, LIRStatement, LIRStmtV,
    LIRTerminator, LIRValue, StackFrame,
};

verus! {

// ---------------------------------------------------------------------------------------------
// The assembly text.

/// A line of output: its text, then a line break.
pub open spec fn ln(s: Seq<char>) -> Seq<char> {
    s.push('\n')
}

/// Lines of output, one per string.
pub open spec fn lines_text(ls: Seq<&str>) -> Seq<char>
    decreases ls.len(),
{
    if ls.len() == 0 {
        Seq::empty()
    } else {
        lines_text(ls.drop_last()) + ln(ls.last()@)
    }
}

/// A line made of `pre`, the decimal notation of `n`, and `post`.
pub open spec fn num_line(pre: &str, n: nat, post: &str) -> Seq<char> {
    ln(pre@ + dec(n) + post@)
}

/// Where the arguments of a function are found: the `i`-th argument from the last is `8 * (i + 1)`
/// bytes above the frame pointer.
pub open spec fn arg_offsets(args: Seq<CellId>) -> Seq<(CellId, usize)> {
    Seq::new(args.len(), |i: int| (args[args.len() - 1 - i], (8 * (i + 1)) as usize))
}

/// Chunk `c` can be addressed: it is an argument, or a chunk of the frame.
pub open spec fn chunk_ok(frame: Seq<(CellId, nat)>, offs: Seq<(CellId, usize)>, c: CellId) -> bool {
    find_last(offs, c) is Some || frame_offset(frame, c) is Some
}

/// Puts the address of chunk `c` in `r1`: an argument lies above the frame pointer, any other
/// chunk below it.
pub open spec fn chunk_text(frame: Seq<(CellId, nat)>, offs: Seq<(CellId, usize)>, c: CellId) -> Seq<char> {
    match find_last(offs, c) {
        Some(o) => num_line("    add r1, fp, #", o as nat, ""),
        None => num_line("    sub r1, fp, #", frame_offset(frame, c)->Some_0, ""),
    }
}

pub open spec fn place_ok(frame: Seq<(CellId, nat)>, offs: Seq<(CellId, usize)>, p: LIRPlace) -> bool {
    match p {
        LIRPlace::Local { base, .. } => chunk_ok(frame, offs, base),
        LIRPlace::Deref { pointer, .. } => chunk_ok(frame, offs, pointer),
    }
}

/// Puts the base address of place `p` in `r1`; for a place behind a pointer, the pointer's value.
pub open spec fn address_text(frame: Seq<(CellId, nat)>, offs: Seq<(CellId, usize)>, p: LIRPlace) -> Seq<char> {
    match p {
        LIRPlace::Local { base, .. } => chunk_text(frame, offs, base),
        LIRPlace::Deref { pointer, .. } => chunk_text(frame, offs, pointer) + ln("    ldr r1, [r1]"@),
    }
}

pub open spec fn value_ok(frame: Seq<(CellId, nat)>, offs: Seq<(CellId, usize)>, v: LIRValue) -> bool {
    match v {
        LIRValue::Place(p) => place_ok(frame, offs, p),
        LIRValue::Reference(p) => place_ok(frame, offs, p),
        _ => true,
    }
}

/// Puts value `v` in `r0`.
pub open spec fn load_text(frame: Seq<(CellId, nat)>, offs: Seq<(CellId, usize)>, v: LIRValue) -> Seq<char> {
    match v {
        LIRValue::Place(p) => address_text(frame, offs, p) + num_line("    ldr r0, [r1, #-", p.offset_of() as nat, "]]"),
        LIRValue::IntLiteral(n) => ln("     ldr r0, ="@ + int_text(n as int)),
        LIRValue::BoolTrue => ln("    ldr r0, =1"@),
        LIRValue::BoolFalse => ln("    ldr r0, =0"@),
        LIRValue::Reference(p) => address_text(frame, offs, p) + num_line("    sub r0, r1, #", p.offset_of() as nat, ""),
    }
}

/// Stores `r0` at place `p`.
pub open spec fn store_text(frame: Seq<(CellId, nat)>, offs: Seq<(CellId, usize)>, p: LIRPlace) -> Seq<char> {
    address_text(frame, offs, p) + num_line("    str r0, [r1, #-", p.offset_of() as nat, "]]")
}

/// Computes `r1 op r0` into `r0`.
pub open spec fn binop_text(op: BinaryOperator) -> Seq<char> {
    match op {
        BinaryOperator::Add => ln("    add r0, r1, r0"@),
        BinaryOperator::Sub => ln("    sub r0, r1, r0"@),
        BinaryOperator::Mul => ln("    mul r0, r1, r0"@),
        BinaryOperator::Equals => lines_text(seq!["    cmp r1, r0", "    mov r0, #0", "    moveq r0, #1"]),
        BinaryOperator::Less => lines_text(seq!["    cmp r1, r0", "    mov r0, #0", "    movlt r0, #1"]),
        BinaryOperator::Modulo => lines_text(seq!["    sdiv r2, r1, r0", "    mul r2, r0, r2", "    sub r0, r1, r2"]),
    }
}

pub open spec fn print_lines() -> Seq<&'static str> {
    seq!["    mov r1, r0", "    ldr r0, =fmt", "    push {r12}", "    bl printf", "    pop {r12}"]
}

/// Pushes the addresses of the call's arguments, the last first.
pub open spec fn call_args_text(frame: Seq<(CellId, nat)>, offs: Seq<(CellId, usize)>, args: Seq<LIRPlace>) -> Seq<char>
    decreases args.len(),
{
    if args.len() == 0 {
        Seq::empty()
    } else {
        call_args_text(frame, offs, args.drop_first()) + load_text(frame, offs, LIRValue::Reference(args[0]))
            + ln("     push {r0}"@)
    }
}

pub open spec fn places_ok(frame: Seq<(CellId, nat)>, offs: Seq<(CellId, usize)>, ps: Seq<LIRPlace>) -> bool {
    forall|i: int| 0 <= i < ps.len() ==> place_ok(frame, offs, #[trigger] ps[i])
}

pub open spec fn stmt_ok(frame: Seq<(CellId, nat)>, offs: Seq<(CellId, usize)>, s: LIRStmtV) -> bool {
    match s {
        LIRStmtV::Store { dest, value } => place_ok(frame, offs, dest) && value_ok(frame, offs, value),
        LIRStmtV::BinOp { dest, left, right, .. } => place_ok(frame, offs, dest) && value_ok(frame, offs, left)
            && value_ok(frame, offs, right),
        LIRStmtV::Call { dest, args, .. } => place_ok(frame, offs, dest) && places_ok(frame, offs, args),
        LIRStmtV::Print(v) => value_ok(frame, offs, v),
    }
}

pub open spec fn stmt_text(frame: Seq<(CellId, nat)>, offs: Seq<(CellId, usize)>, s: LIRStmtV) -> Seq<char> {
    match s {
        LIRStmtV::Store { dest, value } => load_text(frame, offs, value) + store_text(frame, offs, dest),
        LIRStmtV::BinOp { dest, op, left, right } => load_text(frame, offs, left) + ln("    mov r1, r0"@)
            + load_text(frame, offs, right) + binop_text(op) + store_text(frame, offs, dest),
        LIRStmtV::Call { dest, func, args } => call_args_text(frame, offs, args)
            + load_text(frame, offs, LIRValue::Reference(dest)) + ln("     push {r0}"@)
            + num_line("    bl func_", func.0 as nat, ""),
        LIRStmtV::Print(v) => load_text(frame, offs, v) + lines_text(print_lines()),
    }
}

pub open spec fn stmts_text(frame: Seq<(CellId, nat)>, offs: Seq<(CellId, usize)>, ss: Seq<LIRStmtV>) -> Seq<char>
    decreases ss.len(),
{
    if ss.len() == 0 {
        Seq::empty()
    } else {
        stmts_text(frame, offs, ss.drop_last()) + stmt_text(frame, offs, ss.last())
    }
}

pub open spec fn term_ok(frame: Seq<(CellId, nat)>, offs: Seq<(CellId, usize)>, t: LIRTerminator) -> bool {
    match t {
        LIRTerminator::Goto { .. } => true,
        LIRTerminator::Branch { condition, .. } => value_ok(frame, offs, condition),
        LIRTerminator::Return(v) => match v {
            Some(v) => value_ok(frame, offs, v),
            None => true,
        },
    }
}

/// Puts the returned value, if any, in `r0`.
pub open spec fn return_load_text(frame: Seq<(CellId, nat)>, offs: Seq<(CellId, usize)>, v: Option<LIRValue>) -> Seq<char> {
    match v {
        Some(v) => load_text(frame, offs, v),
        None => Seq::empty(),
    }
}

/// Ends a block of function `func`: a jump, a branch on `r0`, or a jump to the function's exit.
pub open spec fn term_text(frame: Seq<(CellId, nat)>, offs: Seq<(CellId, usize)>, t: LIRTerminator, func: FuncId) -> Seq<char> {
    match t {
        LIRTerminator::Goto { dest } => num_line("    b block_", dest.0 as nat, ""),
        LIRTerminator::Branch { condition, then_block, else_block } => load_text(frame, offs, condition)
            + ln("    cmp r0, #1"@) + num_line("    beq block_", then_block.0 as nat, "")
            + num_line("    b block_", else_block.0 as nat, ""),
        LIRTerminator::Return(v) => return_load_text(frame, offs, v) + num_line("    b ret_", func.0 as nat, ""),
    }
}

pub open spec fn block_ok(frame: Seq<(CellId, nat)>, offs: Seq<(CellId, usize)>, b: LIRBlock) -> bool {
    &&& forall|i: int| 0 <= i < b.statements@.len() ==> stmt_ok(frame, offs, #[trigger] b.statements@[i]@)
    &&& term_ok(frame, offs, b.terminator)
}

pub open spec fn block_text(frame: Seq<(CellId, nat)>, offs: Seq<(CellId, usize)>, id: BlockId, b: LIRBlock, func: FuncId) -> Seq<char> {
    num_line("block_", id.0 as nat, ":") + stmts_text(frame, offs, stmts_view(b.statements@))
        + term_text(frame, offs, b.terminator, func)
}

pub open spec fn blocks_text(
    frame: Seq<(CellId, nat)>,
    offs: Seq<(CellId, usize)>,
    bs: Seq<(BlockId, LIRBlock)>,
    func: FuncId,
) -> Seq<char>
    decreases bs.len(),
{
    if bs.len() == 0 {
        Seq::empty()
    } else {
        blocks_text(frame, offs, bs.drop_last(), func) + block_text(frame, offs, bs.last().0, bs.last().1, func)
    }
}

/// The function can be compiled: its frame and arguments fit the machine's offsets, and every
/// place it reads or writes is in an argument or a chunk of its frame.
pub open spec fn function_ok(f: LIRFunction) -> bool {
    let frame = f.chunks@;
    let offs = arg_offsets(f.args@);
    &&& 8 + prefix_size(frame, frame.len() as int) <= usize::MAX
    &&& 8 * f.args@.len() <= usize::MAX
    &&& forall|i: int| 0 <= i < f.blocks@.len() ==> block_ok(frame, offs, #[trigger] f.blocks@[i].1)
}

/// A function: its label, the frame set up, a jump to its entry block, its blocks, and the exit
/// that stores the result and restores the caller's frame.
pub open spec fn function_text(id: FuncId, f: LIRFunction) -> Seq<char> {
    let frame = f.chunks@;
    let offs = arg_offsets(f.args@);
    let size = prefix_size(frame, frame.len() as int);
    num_line("func_", id.0 as nat, ":") + ln("    push {fp, lr}"@) + ln("    mov fp, sp"@)
        + num_line("    sub sp, sp, #", size, "") + num_line("    b block_", f.entry.0 as nat, "")
        + blocks_text(frame, offs, f.blocks@, id) + num_line("ret_", id.0 as nat, ":")
        + ln("    str r0, [r12]"@) + num_line("    add sp, sp, #", size, "") + ln("    pop {fp, lr}"@)
        + ln("    bx lr"@)
}

pub open spec fn functions_text(fs: Seq<(FuncId, LIRFunction)>) -> Seq<char>
    decreases fs.len(),
{
    if fs.len() == 0 {
        Seq::empty()
    } else {
        functions_text(fs.drop_last()) + function_text(fs.last().0, fs.last().1)
    }
}

pub open spec fn prologue_lines() -> Seq<&'static str> {
    seq![".global main", ".extern printf", ".align 8", ".data", "fmt: .asciz \"%d\\n\"", ".text"]
}

pub open spec fn main_head_lines() -> Seq<&'static str> {
    seq!["main:", "    push {fp, lr}", "    mov fp, sp", "    sub sp, sp, #16", "    sub r12, fp, #8"]
}

pub open spec fn main_tail_lines() -> Seq<&'static str> {
    seq!["    ldr r0, [r12]", "    add sp, sp, #16", "    pop {fp, lr}", "    bx lr"]
}

pub open spec fn program_ok(p: LIRProgram) -> bool {
    forall|i: int| 0 <= i < p.functions@.len() ==> function_ok(#[trigger] p.functions@[i].1)
}

/// The assembly of a program: the data section, its functions in order, and `main`, which calls
/// the entry function.
pub open spec fn program_text(p: LIRProgram) -> Seq<char> {
    lines_text(prologue_lines()) + functions_text(p.functions@) + lines_text(main_head_lines())
        + num_line("    bl func_", p.entry.0 as nat, "") + lines_text(main_tail_lines())
}

// ---------------------------------------------------------------------------------------------
// The compiler.

/// Writes ARM assembly for a program in the low intermediate form.
pub struct LIRCompiler {
    output: String,
    arg_offsets: Vec<(CellId, usize)>,
}

impl LIRCompiler {
    pub closed spec fn text(&self) -> Seq<char> {
        self.output@
    }

    pub closed spec fn offs(&self) -> Seq<(CellId, usize)> {
        self.arg_offsets@
    }

    fn new() -> (r: Self)
        ensures
            r.text() == Seq::<char>::empty(),
            r.offs() == Seq::<(CellId, usize)>::empty(),
    {
        Self { output: String::new(), arg_offsets: Vec::new() }
    }

    fn emit(&mut self, line: &str)
        ensures
            final(self).text() == old(self).text() + ln(line@),
            final(self).offs() == old(self).offs(),
    {
        push_text(&mut self.output, line);
        push_char(&mut self.output, '\n');
    }

    fn emit_mult(&mut self, lines: &[&str])
        ensures
            final(self).text() == old(self).text() + lines_text(lines@),
            final(self).offs() == old(self).offs(),
    {
        let ghost start = self.text();
        let mut i: usize = 0;
        while i < lines.len()
            invariant
                i <= lines@.len(),
                self.text() == start + lines_text(lines@.subrange(0, i as int)),
                self.offs() == old(self).offs(),
            decreases lines.len() - i,
        {
            self.emit(lines[i]);
            assert(lines@.subrange(0, i + 1).drop_last() =~= lines@.subrange(0, i as int));
            i = i + 1;
        }
        assert(lines@.subrange(0, lines@.len() as int) =~= lines@);
    }

    /// Emits `pre`, the decimal notation of `n`, and `post`, as one line.
    fn emit_num(&mut self, pre: &str, n: usize, post: &str)
        ensures
            final(self).text() == old(self).text() + num_line(pre, n as nat, post),
            final(self).offs() == old(self).offs(),
    {
        let ghost start = self.text();
        push_text(&mut self.output, pre);
        push_dec(&mut self.output, n as u64);
        push_text(&mut self.output, post);
        push_char(&mut self.output, '\n');
        assert(self.text() =~= start + num_line(pre, n as nat, post));
    }
}

impl LIRCompiler {
    /// Where argument chunk `c` lies above the frame pointer, if it is an argument.
    fn arg_offset(&self, c: CellId) -> (r: Option<usize>)
        ensures
            r == find_last(self.offs(), c),
    {
        let mut i: usize = self.arg_offsets.len();
        assert(self.offs().subrange(0, i as int) =~= self.offs());
        while i > 0
            invariant
                i <= self.arg_offsets@.len(),
                find_last(self.offs(), c) == find_last(self.offs().subrange(0, i as int), c),
            decreases i,
        {
            assert(self.offs().subrange(0, i as int).drop_last() =~= self.offs().subrange(0, i - 1));
            if self.arg_offsets[i - 1].0 == c {
                return Some(self.arg_offsets[i - 1].1);
            }
            i = i - 1;
        }
        None
    }

    /// Records where the arguments lie: the last `8` bytes above the frame pointer, the one
    /// before it `16`, and so on.
    fn set_args(&mut self, args: &Vec<CellId>)
        requires
            8 * args@.len() <= usize::MAX,
        ensures
            final(self).offs() == arg_offsets(args@),
            final(self).text() == old(self).text(),
    {
        self.arg_offsets = Vec::new();
        let n = args.len();
        let mut i: usize = 0;
        while i < n
            invariant
                n == args@.len(),
                8 * n <= usize::MAX,
                i <= n,
                self.offs() == arg_offsets(args@).subrange(0, i as int),
                self.text() == old(self).text(),
            decreases n - i,
        {
            assert(8 * (i + 1) <= 8 * n);
            let off: usize = 8 * (i + 1);
            self.arg_offsets.push((args[n - 1 - i], off));
            assert(self.offs() =~= arg_offsets(args@).subrange(0, i + 1));
            i = i + 1;
        }
        assert(arg_offsets(args@).subrange(0, n as int) =~= arg_offsets(args@));
    }

    fn emit_memory_chunk_calc(&mut self, c: CellId, frame: &StackFrame)
        requires
            chunk_ok(frame@, old(self).offs(), c),
            8 + prefix_size(frame@, frame@.len() as int) <= usize::MAX,
        ensures
            final(self).text() == old(self).text() + chunk_text(frame@, old(self).offs(), c),
            final(self).offs() == old(self).offs(),
    {
        match self.arg_offset(c) {
            Some(o) => {
                self.emit_num("    add r1, fp, #", o, "");
            },
            None => {
                match frame.get_offset(&c) {
                    Some(o) => {
                        self.emit_num("    sub r1, fp, #", o, "");
                    },
                    None => {},
                }
            },
        }
    }

    fn emit_address_calc(&mut self, p: LIRPlace, frame: &StackFrame)
        requires
            place_ok(frame@, old(self).offs(), p),
            8 + prefix_size(frame@, frame@.len() as int) <= usize::MAX,
        ensures
            final(self).text() == old(self).text() + address_text(frame@, old(self).offs(), p),
            final(self).offs() == old(self).offs(),
    {
        match p {
            LIRPlace::Local { base, .. } => {
                self.emit_memory_chunk_calc(base, frame);
            },
            LIRPlace::Deref { pointer, .. } => {
                let ghost start = self.text();
                self.emit_memory_chunk_calc(pointer, frame);
                self.emit("    ldr r1, [r1]");
                assert(self.text() =~= start + address_text(frame@, old(self).offs(), p));
            },
        }
    }

    fn emit_operand_load(&mut self, operand: LIRValue, frame: &StackFrame)
        requires
            value_ok(frame@, old(self).offs(), operand),
            8 + prefix_size(frame@, frame@.len() as int) <= usize::MAX,
        ensures
            final(self).text() == old(self).text() + load_text(frame@, old(self).offs(), operand),
            final(self).offs() == old(self).offs(),
    {
        let ghost start = self.text();
        match operand {
            LIRValue::Place(place) => {
                self.emit_address_calc(place, frame);
                self.emit_num("    ldr r0, [r1, #-", place_offset(place), "]]");
            },
            LIRValue::IntLiteral(num) => {
                push_text(&mut self.output, "     ldr r0, =");
                push_int(&mut self.output, num);
                push_char(&mut self.output, '\n');
            },
            LIRValue::BoolTrue => {
                self.emit("    ldr r0, =1");
            },
            LIRValue::BoolFalse => {
                self.emit("    ldr r0, =0");
            },
            LIRValue::Reference(ref_place) => {
                self.emit_address_calc(ref_place, frame);
                self.emit_num("    sub r0, r1, #", place_offset(ref_place), "");
            },
        }
        assert(self.text() =~= start + load_text(frame@, old(self).offs(), operand));
    }

    fn emit_place_store(&mut self, place: LIRPlace, frame: &StackFrame)
        requires
            place_ok(frame@, old(self).offs(), place),
            8 + prefix_size(frame@, frame@.len() as int) <= usize::MAX,
        ensures
            final(self).text() == old(self).text() + store_text(frame@, old(self).offs(), place),
            final(self).offs() == old(self).offs(),
    {
        let ghost start = self.text();
        self.emit_address_calc(place, frame);
        self.emit_num("    str r0, [r1, #-", place_offset(place), "]]");
        assert(self.text() =~= start + store_text(frame@, old(self).offs(), place));
    }

    fn compile_binop(&mut self, op: BinaryOperator)
        ensures
            final(self).text() == old(self).text() + binop_text(op),
            final(self).offs() == old(self).offs(),
    {
        match op {
            BinaryOperator::Add => {
                self.emit("    add r0, r1, r0");
            },
            BinaryOperator::Sub => {
                self.emit("    sub r0, r1, r0");
            },
            BinaryOperator::Mul => {
                self.emit("    mul r0, r1, r0");
            },
            BinaryOperator::Equals => {
                let ls = ["    cmp r1, r0", "    mov r0, #0", "    moveq r0, #1"];
                assert(ls@ =~= seq!["    cmp r1, r0", "    mov r0, #0", "    moveq r0, #1"]);
                self.emit_mult(&ls);
            },
            BinaryOperator::Less => {
                let ls = ["    cmp r1, r0", "    mov r0, #0", "    movlt r0, #1"];
                assert(ls@ =~= seq!["    cmp r1, r0", "    mov r0, #0", "    movlt r0, #1"]);
                self.emit_mult(&ls);
            },
            BinaryOperator::Modulo => {
                let ls = ["    sdiv r2, r1, r0", "    mul r2, r0, r2", "    sub r0, r1, r2"];
                assert(ls@ =~= seq!["    sdiv r2, r1, r0", "    mul r2, r0, r2", "    sub r0, r1, r2"]);
                self.emit_mult(&ls);
            },
        }
    }
}

impl LIRCompiler {
    fn compile_stmt(&mut self, stmt: &LIRStatement, frame: &StackFrame)
        requires
            stmt_ok(frame@, old(self).offs(), stmt@),
            8 + prefix_size(frame@, frame@.len() as int) <= usize::MAX,
        ensures
            final(self).text() == old(self).text() + stmt_text(frame@, old(self).offs(), stmt@),
            final(self).offs() == old(self).offs(),
    {
        let ghost start = self.text();
        let ghost offs = self.offs();
        match stmt {
            LIRStatement::Store { dest, value } => {
                self.emit_operand_load(*value, frame);
                self.emit_place_store(*dest, frame);
            },
            LIRStatement::BinOp { dest, op, left, right } => {
                self.emit_operand_load(*left, frame);
                self.emit("    mov r1, r0");
                self.emit_operand_load(*right, frame);
                self.compile_binop(*op);
                self.emit_place_store(*dest, frame);
            },
            LIRStatement::Call { dest, func, args } => {
                self.compile_call(*dest, *func, args, frame);
            },
            LIRStatement::Print(operand) => {
                self.emit_operand_load(*operand, frame);
                let ls = ["    mov r1, r0", "    ldr r0, =fmt", "    push {r12}", "    bl printf", "    pop {r12}"];
                assert(ls@ =~= print_lines());
                self.emit_mult(&ls);
            },
        }
        assert(self.text() =~= start + stmt_text(frame@, offs, stmt@));
    }

    /// Pushes the addresses of the arguments, the last first, then that of the destination, and
    /// calls the function.
    fn compile_call(&mut self, dest: LIRPlace, func: FuncId, args: &Vec<LIRPlace>, frame: &StackFrame)
        requires
            place_ok(frame@, old(self).offs(), dest),
            forall|j: int| 0 <= j < args@.len() ==> place_ok(frame@, old(self).offs(), #[trigger] args@[j]),
            8 + prefix_size(frame@, frame@.len() as int) <= usize::MAX,
        ensures
            final(self).text() == old(self).text() + stmt_text(
                frame@,
                old(self).offs(),
                LIRStmtV::Call { dest, func, args: args@ },
            ),
            final(self).offs() == old(self).offs(),
    {
        let ghost start = self.text();
        let ghost offs = self.offs();
        let n = args.len();
        let mut i: usize = n;
        assert(args@.subrange(n as int, n as int) =~= Seq::<LIRPlace>::empty());
        while i > 0
            invariant
                n == args@.len(),
                i <= n,
                self.offs() == offs,
                forall|j: int| 0 <= j < n ==> place_ok(frame@, offs, #[trigger] args@[j]),
                8 + prefix_size(frame@, frame@.len() as int) <= usize::MAX,
                self.text() == start + call_args_text(frame@, offs, args@.subrange(i as int, n as int)),
            decreases i,
        {
            assert(place_ok(frame@, offs, args@[i - 1]));
            self.emit_operand_load(LIRValue::Reference(args[i - 1]), frame);
            self.emit("     push {r0}");
            proof {
                let t = args@.subrange(i - 1, n as int);
                assert(t.drop_first() =~= args@.subrange(i as int, n as int));
                assert(t[0] == args@[i - 1]);
            }
            i = i - 1;
        }
        assert(args@.subrange(0, n as int) =~= args@);
        self.emit_operand_load(LIRValue::Reference(dest), frame);
        self.emit("     push {r0}");
        self.emit_num("    bl func_", func.0, "");
        assert(self.text() =~= start + stmt_text(frame@, offs, LIRStmtV::Call { dest, func, args: args@ }));
    }

    fn compile_terminator(&mut self, term: &LIRTerminator, frame: &StackFrame, func_id: FuncId)
        requires
            term_ok(frame@, old(self).offs(), *term),
            8 + prefix_size(frame@, frame@.len() as int) <= usize::MAX,
        ensures
            final(self).text() == old(self).text() + term_text(frame@, old(self).offs(), *term, func_id),
            final(self).offs() == old(self).offs(),
    {
        let ghost start = self.text();
        match term {
            LIRTerminator::Goto { dest } => {
                self.emit_num("    b block_", dest.0, "");
            },
            LIRTerminator::Branch { condition, then_block, else_block } => {
                self.emit_operand_load(*condition, frame);
                self.emit("    cmp r0, #1");
                self.emit_num("    beq block_", then_block.0, "");
                self.emit_num("    b block_", else_block.0, "");
            },
            LIRTerminator::Return(operand_opt) => {
                match operand_opt {
                    Some(operand) => {
                        self.emit_operand_load(*operand, frame);
                    },
                    None => {},
                }
                self.emit_num("    b ret_", func_id.0, "");
            },
        }
        assert(self.text() =~= start + term_text(frame@, old(self).offs(), *term, func_id));
    }

    fn compile_block(&mut self, id: BlockId, block: &LIRBlock, frame: &StackFrame, func: FuncId)
        requires
            block_ok(frame@, old(self).offs(), *block),
            8 + prefix_size(frame@, frame@.len() as int) <= usize::MAX,
        ensures
            final(self).text() == old(self).text() + block_text(frame@, old(self).offs(), id, *block, func),
            final(self).offs() == old(self).offs(),
    {
        let ghost offs = self.offs();
        self.emit_num("block_", id.0, ":");
        let ghost start = self.text();
        let mut i: usize = 0;
        assert(stmts_view(block.statements@.subrange(0, 0)) =~= Seq::<LIRStmtV>::empty());
        while i < block.statements.len()
            invariant
                i <= block.statements@.len(),
                self.offs() == offs,
                block_ok(frame@, offs, *block),
                8 + prefix_size(frame@, frame@.len() as int) <= usize::MAX,
                self.text() == start + stmts_text(frame@, offs, stmts_view(block.statements@.subrange(0, i as int))),
            decreases block.statements.len() - i,
        {
            assert(stmt_ok(frame@, offs, block.statements@[i as int]@));
            self.compile_stmt(&block.statements[i], frame);
            proof {
                let v = stmts_view(block.statements@.subrange(0, i + 1));
                assert(v.drop_last() =~= stmts_view(block.statements@.subrange(0, i as int)));
                assert(v.last() == block.statements@[i as int]@);
            }
            i = i + 1;
        }
        assert(block.statements@.subrange(0, block.statements@.len() as int) =~= block.statements@);
        self.compile_terminator(&block.terminator, frame, func);
        assert(self.text() =~= old(self).text() + block_text(frame@, offs, id, *block, func));
    }

    fn compile_function(&mut self, func_id: FuncId, lir_func: &LIRFunction)
        requires
            function_ok(*lir_func),
        ensures
            final(self).text() == old(self).text() + function_text(func_id, *lir_func),
            final(self).offs() == arg_offsets(lir_func.args@),
    {
        let ghost start = self.text();
        let ghost frame = lir_func.chunks@;
        let ghost offs = arg_offsets(lir_func.args@);
        self.set_args(&lir_func.args);
        let frame_size = lir_func.chunks.size();
        self.emit_num("func_", func_id.0, ":");
        self.emit("    push {fp, lr}");
        self.emit("    mov fp, sp");
        self.emit_num("    sub sp, sp, #", frame_size, "");
        self.emit_num("    b block_", lir_func.entry.0, "");
        let ghost mid = self.text();
        let mut i: usize = 0;
        assert(lir_func.blocks@.subrange(0, 0) =~= Seq::<(BlockId, LIRBlock)>::empty());
        while i < lir_func.blocks.len()
            invariant
                i <= lir_func.blocks@.len(),
                self.offs() == offs,
                frame == lir_func.chunks@,
                offs == arg_offsets(lir_func.args@),
                function_ok(*lir_func),
                self.text() == mid + blocks_text(frame, offs, lir_func.blocks@.subrange(0, i as int), func_id),
            decreases lir_func.blocks.len() - i,
        {
            assert(block_ok(frame, offs, lir_func.blocks@[i as int].1));
            self.compile_block(lir_func.blocks[i].0, &lir_func.blocks[i].1, &lir_func.chunks, func_id);
            proof {
                let bs = lir_func.blocks@.subrange(0, i + 1);
                assert(bs.drop_last() =~= lir_func.blocks@.subrange(0, i as int));
                assert(bs.last() == lir_func.blocks@[i as int]);
            }
            i = i + 1;
        }
        assert(lir_func.blocks@.subrange(0, lir_func.blocks@.len() as int) =~= lir_func.blocks@);
        self.emit_num("ret_", func_id.0, ":");
        self.emit("    str r0, [r12]");
        self.emit_num("    add sp, sp, #", frame_size, "");
        self.emit("    pop {fp, lr}");
        self.emit("    bx lr");
        assert(self.text() =~= start + function_text(func_id, *lir_func));
    }
}

/// Compiles a program to ARM assembly text.
pub fn compile_lir(lir_program: LIRProgram) -> (r: String)
    requires
        program_ok(lir_program),
    ensures
        r@ == program_text(lir_program),
{
    let mut comp = LIRCompiler::new();
    let pro = [".global main", ".extern printf", ".align 8", ".data", "fmt: .asciz \"%d\\n\"", ".text"];
    assert(pro@ =~= prologue_lines());
    comp.emit_mult(&pro);
    let ghost mid = comp.text();
    let mut i: usize = 0;
    assert(lir_program.functions@.subrange(0, 0) =~= Seq::<(FuncId, LIRFunction)>::empty());
    while i < lir_program.functions.len()
        invariant
            i <= lir_program.functions@.len(),
            program_ok(lir_program),
            comp.text() == mid + functions_text(lir_program.functions@.subrange(0, i as int)),
        decreases lir_program.functions.len() - i,
    {
        assert(function_ok(lir_program.functions@[i as int].1));
        comp.compile_function(lir_program.functions[i].0, &lir_program.functions[i].1);
        proof {
            let fs = lir_program.functions@.subrange(0, i + 1);
            assert(fs.drop_last() =~= lir_program.functions@.subrange(0, i as int));
            assert(fs.last() == lir_program.functions@[i as int]);
        }
        i = i + 1;
    }
    assert(lir_program.functions@.subrange(0, lir_program.functions@.len() as int) =~= lir_program.functions@);
    let head = ["main:", "    push {fp, lr}", "    mov fp, sp", "    sub sp, sp, #16", "    sub r12, fp, #8"];
    assert(head@ =~= main_head_lines());
    comp.emit_mult(&head);
    comp.emit_num("    bl func_", lir_program.entry.0, "");
    let tail = ["    ldr r0, [r12]", "    add sp, sp, #16", "    pop {fp, lr}", "    bx lr"];
    assert(tail@ =~= main_tail_lines());
    comp.emit_mult(&tail);
    assert(comp.text() =~= program_text(lir_program));
    comp.output
}

impl LIRCompiler {
    fn check_chunk(&self, c: CellId, frame: &StackFrame) -> (r: bool)
        requires
            8 + prefix_size(frame@, frame@.len() as int) <= usize::MAX,
        ensures
            r == chunk_ok(frame@, self.offs(), c),
    {
        let a = self.arg_offset(c);
        let f = frame.get_offset(&c);
        a.is_some() || f.is_some()
    }

    fn check_place(&self, p: LIRPlace, frame: &StackFrame) -> (r: bool)
        requires
            8 + prefix_size(frame@, frame@.len() as int) <= usize::MAX,
        ensures
            r == place_ok(frame@, self.offs(), p),
    {
        match p {
            LIRPlace::Local { base, .. } => self.check_chunk(base, frame),
            LIRPlace::Deref { pointer, .. } => self.check_chunk(pointer, frame),
        }
    }

    fn check_value(&self, v: LIRValue, frame: &StackFrame) -> (r: bool)
        requires
            8 + prefix_size(frame@, frame@.len() as int) <= usize::MAX,
        ensures
            r == value_ok(frame@, self.offs(), v),
    {
        match v {
            LIRValue::Place(p) => self.check_place(p, frame),
            LIRValue::Reference(p) => self.check_place(p, frame),
            _ => true,
        }
    }

    fn check_stmt(&self, stmt: &LIRStatement, frame: &StackFrame) -> (r: bool)
        requires
            8 + prefix_size(frame@, frame@.len() as int) <= usize::MAX,
        ensures
            r == stmt_ok(frame@, self.offs(), stmt@),
    {
        match stmt {
            LIRStatement::Store { dest, value } => self.check_place(*dest, frame) && self.check_value(*value, frame),
            LIRStatement::BinOp { dest, left, right, .. } => self.check_place(*dest, frame) && self.check_value(
                *left,
                frame,
            ) && self.check_value(*right, frame),
            LIRStatement::Call { dest, func, args } => {
                if !self.check_place(*dest, frame) {
                    return false;
                }
                let mut i: usize = 0;
                while i < args.len()
                    invariant
                        stmt@ == (LIRStmtV::Call { dest: *dest, func: *func, args: args@ }),
                        i <= args@.len(),
                        8 + prefix_size(frame@, frame@.len() as int) <= usize::MAX,
                        forall|j: int| 0 <= j < i ==> place_ok(frame@, self.offs(), #[trigger] args@[j]),
                    decreases args.len() - i,
                {
                    if !self.check_place(args[i], frame) {
                        return false;
                    }
                    i = i + 1;
                }
                true
            },
            LIRStatement::Print(v) => self.check_value(*v, frame),
        }
    }

    fn check_block(&self, block: &LIRBlock, frame: &StackFrame) -> (r: bool)
        requires
            8 + prefix_size(frame@, frame@.len() as int) <= usize::MAX,
        ensures
            r == block_ok(frame@, self.offs(), *block),
    {
        let mut i: usize = 0;
        while i < block.statements.len()
            invariant
                i <= block.statements@.len(),
                8 + prefix_size(frame@, frame@.len() as int) <= usize::MAX,
                forall|j: int| 0 <= j < i ==> stmt_ok(frame@, self.offs(), #[trigger] block.statements@[j]@),
            decreases block.statements.len() - i,
        {
            if !self.check_stmt(&block.statements[i], frame) {
                return false;
            }
            i = i + 1;
        }
        match &block.terminator {
            LIRTerminator::Goto { .. } => true,
            LIRTerminator::Branch { condition, .. } => self.check_value(*condition, frame),
            LIRTerminator::Return(v) => match v {
                Some(v) => self.check_value(*v, frame),
                None => true,
            },
        }
    }

    /// Whether the function can be compiled; records where its arguments lie.
    fn check_function(&mut self, lir_func: &LIRFunction) -> (r: bool)
        ensures
            r == function_ok(*lir_func),
            r ==> final(self).offs() == arg_offsets(lir_func.args@),
            final(self).text() == old(self).text(),
    {
        if !lir_func.chunks.fits() {
            return false;
        }
        let n = lir_func.args.len();
        let limit: usize = usize::MAX / 8;
        assert(8 * n <= usize::MAX <==> n <= limit) by (nonlinear_arith)
            requires
                limit == usize::MAX / 8,
        ;
        if n > limit {
            return false;
        }
        self.set_args(&lir_func.args);
        let ghost frame = lir_func.chunks@;
        let ghost offs = arg_offsets(lir_func.args@);
        let mut i: usize = 0;
        while i < lir_func.blocks.len()
            invariant
                i <= lir_func.blocks@.len(),
                frame == lir_func.chunks@,
                offs == arg_offsets(lir_func.args@),
                self.offs() == offs,
                self.text() == old(self).text(),
                8 + prefix_size(frame, frame.len() as int) <= usize::MAX,
                8 * lir_func.args@.len() <= usize::MAX,
                forall|j: int| 0 <= j < i ==> block_ok(frame, offs, #[trigger] lir_func.blocks@[j].1),
            decreases lir_func.blocks.len() - i,
        {
            if !self.check_block(&lir_func.blocks[i].1, &lir_func.chunks) {
                return false;
            }
            i = i + 1;
        }
        true
    }
}

/// Compiles a program to ARM assembly text, or `None` where a function's frame is too large for
/// the machine or a place is in no chunk of its function.
pub fn try_compile_lir(lir_program: LIRProgram) -> (r: Option<String>)
    ensures
        r is Some <==> program_ok(lir_program),
        r is Some ==> r->Some_0@ == program_text(lir_program),
{
    let mut checker = LIRCompiler::new();
    let mut i: usize = 0;
    while i < lir_program.functions.len()
        invariant
            i <= lir_program.functions@.len(),
            forall|j: int| 0 <= j < i ==> function_ok(#[trigger] lir_program.functions@[j].1),
        decreases lir_program.functions.len() - i,
    {
        if !checker.check_function(&lir_program.functions[i].1) {
            return None;
        }
        i = i + 1;
    }
    Some(compile_lir(lir_program))
}

/// The offset of a place within its chunk, or within the memory its pointer points to.
fn place_offset(p: LIRPlace) -> (r: usize)
    ensures
        r == p.offset_of(),
{
    match p {
        LIRPlace::Local { offset, .. } => offset,
        LIRPlace::Deref { offset, .. } => offset,
    }
}

// ---------------------------------------------------------------------------------------------
// What the code for a binary operation computes.

/// The registers that the code of a binary operation reads and writes, and the two values the
/// last `cmp` compared.
pub struct ArmState {
    pub r0: int,
    pub r1: int,
    pub r2: int,
    pub cmp_left: int,
    pub cmp_right: int,
}

/// Division rounding toward zero, as `sdiv` computes it (0 for a zero divisor).
pub open spec fn trunc_div(a: int, b: int) -> int {
    if b == 0 {
        0
    } else {
        let q = (if a < 0 { -a } else { a }) / (if b < 0 { -b } else { b });
        if (a < 0) != (b < 0) { -q } else { q }
    }
}

/// The value of `a op b` in the language: comparisons give 1 or 0, `%` is the remainder of the
/// division rounding toward zero.
pub open spec fn binop_value(op: BinaryOperator, a: int, b: int) -> int {
    match op {
        BinaryOperator::Add => a + b,
        BinaryOperator::Sub => a - b,
        BinaryOperator::Mul => a * b,
        BinaryOperator::Equals => if a == b { 1 } else { 0 },
        BinaryOperator::Less => if a < b { 1 } else { 0 },
        BinaryOperator::Modulo => a - trunc_div(a, b) * b,
    }
}

/// Sets `r0` to 1 where the condition holds of the last comparison.
pub open spec fn set_if(st: ArmState, holds: bool) -> ArmState {
    if holds { ArmState { r0: 1, ..st } } else { st }
}

/// Text with no line break in it.
pub open spec fn no_line_break(s: Seq<char>) -> bool {
    forall|k: int| 0 <= k < s.len() ==> s[k] != '\n'
}

/// The value of a decimal digit.
pub open spec fn digit_value(c: char) -> int {
    if c == '0' { 0 }
    else if c == '1' { 1 }
    else if c == '2' { 2 }
    else if c == '3' { 3 }
    else if c == '4' { 4 }
    else if c == '5' { 5 }
    else if c == '6' { 6 }
    else if c == '7' { 7 }
    else if c == '8' { 8 }
    else { 9 }
}

/// The value of a string of decimal digits.
pub open spec fn dec_value(s: Seq<char>) -> int
    decreases s.len(),
{
    if s.len() == 0 {
        0
    } else {
        dec_value(s.drop_last()) * 10 + digit_value(s.last())
    }
}

/// The value of a decimal integer, with a minus sign where it is negative.
pub open spec fn int_value(s: Seq<char>) -> int {
    if s.len() > 0 && s[0] == '-' {
        -dec_value(s.drop_first())
    } else {
        dec_value(s)
    }
}

proof fn lemma_digit_value(d: nat)
    requires
        d < 10,
    ensures
        digit_value(digit(d)) == d,
        digit(d) != '-',
        digit(d) != '\n',
{
}

/// Reading back the decimal notation of `n` gives `n`, and the notation holds no minus sign.
proof fn lemma_dec_value(n: nat)
    ensures
        dec_value(dec(n)) == n,
        dec(n).len() > 0,
        forall|k: int| 0 <= k < dec(n).len() ==> dec(n)[k] != '-' && dec(n)[k] != '\n',
    decreases n,
{
    if n < 10 {
        lemma_digit_value(n);
        assert(seq![digit(n)].drop_last() =~= Seq::<char>::empty());
        assert(dec_value(Seq::<char>::empty()) == 0);
    } else {
        lemma_dec_value(n / 10);
        lemma_digit_value(n % 10);
        let s = dec(n / 10).push(digit(n % 10));
        assert(s.drop_last() =~= dec(n / 10));
        assert forall|k: int| 0 <= k < s.len() implies s[k] != '-' && s[k] != '\n' by {
            if k < dec(n / 10).len() {
                assert(s[k] == dec(n / 10)[k]);
            }
        }
    }
}

/// Reading back the decimal notation of `i` gives `i`.
proof fn lemma_int_value(i: int)
    ensures
        int_value(int_text(i)) == i,
{
    if i < 0 {
        lemma_dec_value((-i) as nat);
        let s = seq!['-'] + dec((-i) as nat);
        assert(s[0] == '-');
        assert(s.drop_first() =~= dec((-i) as nat));
    } else {
        lemma_dec_value(i as nat);
        assert(dec(i as nat)[0] != '-');
    }
}

/// One line of ARM code, on the registers as signed integers; `None` for a line this model does
/// not know.
pub open spec fn arm_step(line: Seq<char>, st: ArmState) -> Option<ArmState> {
    if line == "    add r0, r1, r0"@ {
        Some(ArmState { r0: st.r1 + st.r0, ..st })
    } else if line == "    sub r0, r1, r0"@ {
        Some(ArmState { r0: st.r1 - st.r0, ..st })
    } else if line == "    mul r0, r1, r0"@ {
        Some(ArmState { r0: st.r1 * st.r0, ..st })
    } else if line == "    cmp r1, r0"@ {
        Some(ArmState { cmp_left: st.r1, cmp_right: st.r0, ..st })
    } else if line == "    mov r0, #0"@ {
        Some(ArmState { r0: 0, ..st })
    } else if line == "    moveq r0, #1"@ {
        Some(set_if(st, st.cmp_left == st.cmp_right))
    } else if line == "    movne r0, #1"@ {
        Some(set_if(st, st.cmp_left != st.cmp_right))
    } else if line == "    movlt r0, #1"@ {
        Some(set_if(st, st.cmp_left < st.cmp_right))
    } else if line == "    movle r0, #1"@ {
        Some(set_if(st, st.cmp_left <= st.cmp_right))
    } else if line == "    movgt r0, #1"@ {
        Some(set_if(st, st.cmp_left > st.cmp_right))
    } else if line == "    movge r0, #1"@ {
        Some(set_if(st, st.cmp_left >= st.cmp_right))
    } else if line == "    sdiv r2, r1, r0"@ {
        Some(ArmState { r2: trunc_div(st.r1, st.r0), ..st })
    } else if line == "    mul r2, r0, r2"@ {
        Some(ArmState { r2: st.r0 * st.r2, ..st })
    } else if line == "    sub r0, r1, r2"@ {
        Some(ArmState { r0: st.r1 - st.r2, ..st })
    } else if line == "    mov r1, r0"@ {
        Some(ArmState { r1: st.r0, ..st })
    } else if line.len() > 14 && line.subrange(0, 14) == "     ldr r0, ="@ && no_line_break(line) {
        Some(ArmState { r0: int_value(line.skip(14)), ..st })
    } else {
        None
    }
}

/// Runs lines of ARM code one after the other.
pub open spec fn arm_run(ls: Seq<Seq<char>>, st: ArmState) -> Option<ArmState>
    decreases ls.len(),
{
    if ls.len() == 0 {
        Some(st)
    } else {
        match arm_step(ls[0], st) {
            Some(s1) => arm_run(ls.drop_first(), s1),
            None => None,
        }
    }
}

/// The text of lines, each followed by a line break.
pub open spec fn text_of_lines(ls: Seq<Seq<char>>) -> Seq<char>
    decreases ls.len(),
{
    if ls.len() == 0 {
        Seq::empty()
    } else {
        text_of_lines(ls.drop_last()) + ln(ls.last())
    }
}

/// Running one line of code.
proof fn lemma_run_one(l1: Seq<char>, st: ArmState)
    ensures
        arm_run(seq![l1], st) == arm_step(l1, st),
        text_of_lines(seq![l1]) == ln(l1),
{
    reveal_with_fuel(arm_run, 2);
    reveal_with_fuel(text_of_lines, 2);
    assert(seq![l1].drop_first() =~= Seq::<Seq<char>>::empty());
    assert(seq![l1].drop_last() =~= Seq::<Seq<char>>::empty());
    assert(Seq::<char>::empty() + ln(l1) =~= ln(l1));
}

/// Running three lines of code.
proof fn lemma_run_three(l1: Seq<char>, l2: Seq<char>, l3: Seq<char>, st: ArmState)
    ensures
        arm_run(seq![l1, l2, l3], st) == (match arm_step(l1, st) {
            Some(s1) => match arm_step(l2, s1) {
                Some(s2) => arm_step(l3, s2),
                None => None,
            },
            None => None,
        }),
        text_of_lines(seq![l1, l2, l3]) == ln(l1) + ln(l2) + ln(l3),
{
    reveal_with_fuel(arm_run, 4);
    reveal_with_fuel(text_of_lines, 4);
    let ls = seq![l1, l2, l3];
    assert(ls.drop_first() =~= seq![l2, l3]);
    assert(seq![l2, l3].drop_first() =~= seq![l3]);
    lemma_run_one(l3, st);
    assert(ls.drop_last() =~= seq![l1, l2]);
    assert(seq![l1, l2].drop_last() =~= seq![l1]);
    assert forall|s: ArmState| arm_run(seq![l3], s) == arm_step(l3, s) by {
        lemma_run_one(l3, s);
    }
    lemma_run_one(l1, st);
    assert(Seq::<char>::empty() + ln(l1) =~= ln(l1));
}

/// Three lines of code as the text that the code generator writes.
proof fn lemma_lines_text_three(a: &str, b: &str, c: &str)
    ensures
        lines_text(seq![a, b, c]) == ln(a@) + ln(b@) + ln(c@),
{
    reveal_with_fuel(lines_text, 4);
    let ls = seq![a, b, c];
    assert(ls.drop_last() =~= seq![a, b]);
    assert(seq![a, b].drop_last() =~= seq![a]);
    assert(seq![a].drop_last() =~= Seq::<&str>::empty());
    assert(Seq::<char>::empty() + ln(a@) =~= ln(a@));
}

/// The lines that the model knows, told apart by their lengths and a few of their characters.
proof fn lemma_known_lines()
    ensures
        "    add r0, r1, r0"@.len() == 18,
        "    add r0, r1, r0"@[4] == 'a',
        "    add r0, r1, r0"@[17] == '0',
        "    sub r0, r1, r0"@.len() == 18,
        "    sub r0, r1, r0"@[4] == 's',
        "    sub r0, r1, r0"@[17] == '0',
        "    mul r0, r1, r0"@.len() == 18,
        "    mul r0, r1, r0"@[4] == 'm',
        "    mul r0, r1, r0"@[17] == '0',
        "    cmp r1, r0"@.len() == 14,
        "    cmp r1, r0"@[4] == 'c',
        "    mov r0, #0"@.len() == 14,
        "    mov r0, #0"@[4] == 'm',
        "    mov r0, #0"@[9] == '0',
        "    mov r1, r0"@.len() == 14,
        "    mov r1, r0"@[4] == 'm',
        "    mov r1, r0"@[9] == '1',
        "     ldr r0, ="@.len() == 14,
        "     ldr r0, ="@[4] == ' ',
        no_line_break("     ldr r0, ="@),
        "    moveq r0, #1"@.len() == 16,
        "    moveq r0, #1"@[4] == 'm',
        "    moveq r0, #1"@[7] == 'e',
        "    moveq r0, #1"@[8] == 'q',
        "    movne r0, #1"@.len() == 16,
        "    movne r0, #1"@[4] == 'm',
        "    movne r0, #1"@[7] == 'n',
        "    movne r0, #1"@[8] == 'e',
        "    movlt r0, #1"@.len() == 16,
        "    movlt r0, #1"@[4] == 'm',
        "    movlt r0, #1"@[7] == 'l',
        "    movlt r0, #1"@[8] == 't',
        "    movle r0, #1"@.len() == 16,
        "    movle r0, #1"@[4] == 'm',
        "    movle r0, #1"@[7] == 'l',
        "    movle r0, #1"@[8] == 'e',
        "    movgt r0, #1"@.len() == 16,
        "    movgt r0, #1"@[4] == 'm',
        "    movgt r0, #1"@[7] == 'g',
        "    movgt r0, #1"@[8] == 't',
        "    movge r0, #1"@.len() == 16,
        "    movge r0, #1"@[4] == 'm',
        "    movge r0, #1"@[7] == 'g',
        "    movge r0, #1"@[8] == 'e',
        "    sdiv r2, r1, r0"@.len() == 19,
        "    sdiv r2, r1, r0"@[4] == 's',
        "    mul r2, r0, r2"@.len() == 18,
        "    mul r2, r0, r2"@[4] == 'm',
        "    mul r2, r0, r2"@[17] == '2',
        "    sub r0, r1, r2"@.len() == 18,
        "    sub r0, r1, r2"@[4] == 's',
        "    sub r0, r1, r2"@[17] == '2',
{
    reveal_strlit("    add r0, r1, r0");
    reveal_strlit("    sub r0, r1, r0");
    reveal_strlit("    mul r0, r1, r0");
    reveal_strlit("    cmp r1, r0");
    reveal_strlit("    mov r0, #0");
    reveal_strlit("    moveq r0, #1");
    reveal_strlit("    movne r0, #1");
    reveal_strlit("    movlt r0, #1");
    reveal_strlit("    movle r0, #1");
    reveal_strlit("    movgt r0, #1");
    reveal_strlit("    movge r0, #1");
    reveal_strlit("    sdiv r2, r1, r0");
    reveal_strlit("    mul r2, r0, r2");
    reveal_strlit("    sub r0, r1, r2");
    reveal_strlit("    mov r1, r0");
    reveal_strlit("     ldr r0, =");
}

proof fn lemma_code_add(st: ArmState)
    ensures
        text_of_lines(seq!["    add r0, r1, r0"@]) == binop_text(BinaryOperator::Add),
        arm_run(seq!["    add r0, r1, r0"@], st) == Some(ArmState { r0: st.r1 + st.r0, ..st }),
{
    lemma_run_one("    add r0, r1, r0"@, st);
}

proof fn lemma_code_sub(st: ArmState)
    ensures
        text_of_lines(seq!["    sub r0, r1, r0"@]) == binop_text(BinaryOperator::Sub),
        arm_run(seq!["    sub r0, r1, r0"@], st) == Some(ArmState { r0: st.r1 - st.r0, ..st }),
{
    lemma_known_lines();
    lemma_run_one("    sub r0, r1, r0"@, st);
}

proof fn lemma_code_mul(st: ArmState)
    ensures
        text_of_lines(seq!["    mul r0, r1, r0"@]) == binop_text(BinaryOperator::Mul),
        arm_run(seq!["    mul r0, r1, r0"@], st) == Some(ArmState { r0: st.r1 * st.r0, ..st }),
{
    lemma_known_lines();
    lemma_run_one("    mul r0, r1, r0"@, st);
}

/// `cmp r1, r0` then `mov r0, #0`.
proof fn lemma_code_compare(st: ArmState)
    ensures
        arm_step("    cmp r1, r0"@, st) == Some(ArmState { cmp_left: st.r1, cmp_right: st.r0, ..st }),
        arm_step("    mov r0, #0"@, ArmState { cmp_left: st.r1, cmp_right: st.r0, ..st })
            == Some(ArmState { r0: 0, cmp_left: st.r1, cmp_right: st.r0, ..st }),
{
    lemma_known_lines();
}

proof fn lemma_code_equals(st: ArmState)
    ensures
        text_of_lines(seq!["    cmp r1, r0"@, "    mov r0, #0"@, "    moveq r0, #1"@]) == binop_text(BinaryOperator::Equals),
        arm_run(seq!["    cmp r1, r0"@, "    mov r0, #0"@, "    moveq r0, #1"@], st) is Some,
        arm_run(seq!["    cmp r1, r0"@, "    mov r0, #0"@, "    moveq r0, #1"@], st)->Some_0.r0 == if st.r1 == st.r0 { 1int } else { 0int },
{
    lemma_run_three("    cmp r1, r0"@, "    mov r0, #0"@, "    moveq r0, #1"@, st);
    lemma_lines_text_three("    cmp r1, r0", "    mov r0, #0", "    moveq r0, #1");
    lemma_code_compare(st);
    lemma_known_lines();
    let s2 = ArmState { r0: 0, cmp_left: st.r1, cmp_right: st.r0, ..st };
    assert(arm_step("    moveq r0, #1"@, s2) == Some(set_if(s2, s2.cmp_left == s2.cmp_right)));
}

proof fn lemma_code_less(st: ArmState)
    ensures
        text_of_lines(seq!["    cmp r1, r0"@, "    mov r0, #0"@, "    movlt r0, #1"@]) == binop_text(BinaryOperator::Less),
        arm_run(seq!["    cmp r1, r0"@, "    mov r0, #0"@, "    movlt r0, #1"@], st) is Some,
        arm_run(seq!["    cmp r1, r0"@, "    mov r0, #0"@, "    movlt r0, #1"@], st)->Some_0.r0 == if st.r1 < st.r0 { 1int } else { 0int },
{
    lemma_run_three("    cmp r1, r0"@, "    mov r0, #0"@, "    movlt r0, #1"@, st);
    lemma_lines_text_three("    cmp r1, r0", "    mov r0, #0", "    movlt r0, #1");
    lemma_code_compare(st);
    lemma_known_lines();
    let s2 = ArmState { r0: 0, cmp_left: st.r1, cmp_right: st.r0, ..st };
    assert(arm_step("    movlt r0, #1"@, s2) == Some(set_if(s2, s2.cmp_left < s2.cmp_right)));
}

proof fn lemma_code_modulo(st: ArmState)
    ensures
        text_of_lines(seq!["    sdiv r2, r1, r0"@, "    mul r2, r0, r2"@, "    sub r0, r1, r2"@]) == binop_text(BinaryOperator::Modulo),
        arm_run(seq!["    sdiv r2, r1, r0"@, "    mul r2, r0, r2"@, "    sub r0, r1, r2"@], st) is Some,
        arm_run(seq!["    sdiv r2, r1, r0"@, "    mul r2, r0, r2"@, "    sub r0, r1, r2"@], st)->Some_0.r0
            == st.r1 - trunc_div(st.r1, st.r0) * st.r0,
{
    lemma_run_three("    sdiv r2, r1, r0"@, "    mul r2, r0, r2"@, "    sub r0, r1, r2"@, st);
    lemma_lines_text_three("    sdiv r2, r1, r0", "    mul r2, r0, r2", "    sub r0, r1, r2");
    lemma_known_lines();
    let s1 = ArmState { r2: trunc_div(st.r1, st.r0), ..st };
    let s2 = ArmState { r2: s1.r0 * s1.r2, ..s1 };
    let s3 = ArmState { r0: s2.r1 - s2.r2, ..s2 };
    assert(arm_step("    sdiv r2, r1, r0"@, st) == Some(s1));
    assert(arm_step("    mul r2, r0, r2"@, s1) == Some(s2));
    assert(arm_step("    sub r0, r1, r2"@, s2) == Some(s3));
    assert(s3.r0 == st.r1 - trunc_div(st.r1, st.r0) * st.r0) by (nonlinear_arith)
        requires
            s3.r0 == s2.r1 - s2.r2,
            s2.r2 == s1.r0 * s1.r2,
            s1.r2 == trunc_div(st.r1, st.r0),
            s1.r0 == st.r0,
            s2.r1 == st.r1,
    ;
}

/// The code emitted for `left op right`, with `left` in `r1` and `right` in `r0`, leaves the value
/// of `left op right` in `r0`: sums, differences and products with their operands in order, 1 or 0
/// for `==` and `<` (1 exactly when `left < right`), and the remainder of `left / right` for `%`.
pub proof fn law_binop_code_computes(op: BinaryOperator, st: ArmState)
    ensures
        exists|ls: Seq<Seq<char>>| #[trigger] text_of_lines(ls) == binop_text(op) && arm_run(ls, st) is Some
            && arm_run(ls, st)->Some_0.r0 == binop_value(op, st.r1, st.r0),
{
    match op {
        BinaryOperator::Add => {
            lemma_code_add(st);
            let ls = seq!["    add r0, r1, r0"@];
            assert(text_of_lines(ls) == binop_text(op));
        },
        BinaryOperator::Sub => {
            lemma_code_sub(st);
            let ls = seq!["    sub r0, r1, r0"@];
            assert(text_of_lines(ls) == binop_text(op));
        },
        BinaryOperator::Mul => {
            lemma_code_mul(st);
            let ls = seq!["    mul r0, r1, r0"@];
            assert(text_of_lines(ls) == binop_text(op));
        },
        BinaryOperator::Equals => {
            lemma_code_equals(st);
            let ls = seq!["    cmp r1, r0"@, "    mov r0, #0"@, "    moveq r0, #1"@];
            assert(text_of_lines(ls) == binop_text(op));
        },
        BinaryOperator::Less => {
            lemma_code_less(st);
            let ls = seq!["    cmp r1, r0"@, "    mov r0, #0"@, "    movlt r0, #1"@];
            assert(text_of_lines(ls) == binop_text(op));
        },
        BinaryOperator::Modulo => {
            lemma_code_modulo(st);
            let ls = seq!["    sdiv r2, r1, r0"@, "    mul r2, r0, r2"@, "    sub r0, r1, r2"@];
            assert(text_of_lines(ls) == binop_text(op));
        },
    }
}

/// The text of two runs of lines, one after the other.
proof fn lemma_text_append(ls1: Seq<Seq<char>>, ls2: Seq<Seq<char>>)
    ensures
        text_of_lines(ls1 + ls2) == text_of_lines(ls1) + text_of_lines(ls2),
    decreases ls2.len(),
{
    if ls2.len() == 0 {
        assert(ls1 + ls2 =~= ls1);
        assert(text_of_lines(ls1) + Seq::<char>::empty() =~= text_of_lines(ls1));
    } else {
        lemma_text_append(ls1, ls2.drop_last());
        assert((ls1 + ls2).drop_last() =~= ls1 + ls2.drop_last());
        assert((ls1 + ls2).last() == ls2.last());
        assert(text_of_lines(ls1) + text_of_lines(ls2.drop_last()) + ln(ls2.last())
            =~= text_of_lines(ls1) + (text_of_lines(ls2.drop_last()) + ln(ls2.last())));
    }
}

/// Running two runs of lines, one after the other.
proof fn lemma_run_append(ls1: Seq<Seq<char>>, ls2: Seq<Seq<char>>, st: ArmState)
    ensures
        arm_run(ls1 + ls2, st) == (match arm_run(ls1, st) {
            Some(s1) => arm_run(ls2, s1),
            None => None,
        }),
    decreases ls1.len(),
{
    if ls1.len() == 0 {
        assert(ls1 + ls2 =~= ls2);
    } else {
        assert((ls1 + ls2).drop_first() =~= ls1.drop_first() + ls2);
        assert((ls1 + ls2)[0] == ls1[0]);
        match arm_step(ls1[0], st) {
            Some(s1) => lemma_run_append(ls1.drop_first(), ls2, s1),
            None => {},
        }
    }
}

/// The line that loads the literal `n` into `r0`.
proof fn lemma_code_load_literal(n: int, st: ArmState)
    ensures
        arm_step("     ldr r0, ="@ + int_text(n), st) == Some(ArmState { r0: n, ..st }),
{
    lemma_known_lines();
    lemma_int_value(n);
    let pre = "     ldr r0, ="@;
    let line = pre + int_text(n);
    if n < 0 {
        lemma_dec_value((-n) as nat);
    } else {
        lemma_dec_value(n as nat);
    }
    assert(int_text(n).len() > 0);
    assert(line[4] == ' ');
    assert(line.subrange(0, 14) =~= pre);
    assert(line.skip(14) =~= int_text(n));
    assert forall|k: int| 0 <= k < line.len() implies line[k] != '\n' by {
        if k >= 14 {
            assert(line[k] == int_text(n)[k - 14]);
            if n < 0 {
                if k > 14 {
                    assert(int_text(n)[k - 14] == dec((-n) as nat)[k - 15]);
                }
            }
        } else {
            assert(line[k] == pre[k]);
        }
    }
}

/// The line that copies `r0` into `r1`.
proof fn lemma_code_copy(st: ArmState)
    ensures
        arm_step("    mov r1, r0"@, st) == Some(ArmState { r1: st.r0, ..st }),
{
    lemma_known_lines();
}

/// The code emitted for a binary operation on two integer literals `a` and `b`, up to the store of
/// its result, leaves the value of `a op b` in `r0`, whatever the registers held before: the left
/// literal reaches the left side of the operation and the right literal the right side.
pub proof fn law_binop_stmt_computes(
    frame: Seq<(CellId, nat)>,
    offs: Seq<(CellId, usize)>,
    dest: LIRPlace,
    op: BinaryOperator,
    a: i32,
    b: i32,
    st: ArmState,
)
    ensures
        exists|ls: Seq<Seq<char>>| {
            &&& #[trigger] text_of_lines(ls) + store_text(frame, offs, dest)
                == stmt_text(frame, offs, LIRStmtV::BinOp { dest, op, left: LIRValue::IntLiteral(a), right: LIRValue::IntLiteral(b) })
            &&& arm_run(ls, st) is Some
            &&& arm_run(ls, st)->Some_0.r0 == binop_value(op, a as int, b as int)
        },
{
    let la = "     ldr r0, ="@ + int_text(a as int);
    let lb = "     ldr r0, ="@ + int_text(b as int);
    let mv = "    mov r1, r0"@;
    let loads = seq![la, mv, lb];
    lemma_code_load_literal(a as int, st);
    let s1 = ArmState { r0: a as int, ..st };
    lemma_code_copy(s1);
    let s2 = ArmState { r1: a as int, ..s1 };
    lemma_code_load_literal(b as int, s2);
    let s3 = ArmState { r0: b as int, ..s2 };
    lemma_run_three(la, mv, lb, st);
    assert(arm_run(loads, st) == Some(s3));
    law_binop_code_computes(op, s3);
    let ops = choose|ls: Seq<Seq<char>>| #[trigger] text_of_lines(ls) == binop_text(op) && arm_run(ls, s3) is Some
        && arm_run(ls, s3)->Some_0.r0 == binop_value(op, s3.r1, s3.r0);
    lemma_run_append(loads, ops, st);
    lemma_text_append(loads, ops);
    let ls = loads + ops;
    assert(text_of_lines(ls) + store_text(frame, offs, dest)
        =~= stmt_text(frame, offs, LIRStmtV::BinOp { dest, op, left: LIRValue::IntLiteral(a), right: LIRValue::IntLiteral(b) }));
}

} // verus!
