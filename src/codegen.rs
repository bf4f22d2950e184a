//! Assembly generation: stack layout of locals, lowering of statements and
//! the assembly text of a module.
use vstd::prelude::*;

use crate::parse::{
    env_model, find_binding, last_index, lemma_last_index_bounds, lemma_stmts_model_index,
    same_text, stmts_model, type_of, Binding, BinaryOperationTy, ControlFlow, Env, ExprModel,
    Expression, Function, FunctionModel, Module, ModuleModel, Operation, Statement, StmtModel,
    TypeError, TypeFault,
};
use crate::PrimitiveTy;

verus! {

/// The character of a decimal digit.
pub open spec fn digit_char(d: nat) -> char {
    if d == 0 {
        '0'
    } else if d == 1 {
        '1'
    } else if d == 2 {
        '2'
    } else if d == 3 {
        '3'
    } else if d == 4 {
        '4'
    } else if d == 5 {
        '5'
    } else if d == 6 {
        '6'
    } else if d == 7 {
        '7'
    } else if d == 8 {
        '8'
    } else {
        '9'
    }
}

/// The decimal notation of `n`, without leading zeros.
pub open spec fn decimal(n: nat) -> Seq<char>
    decreases n,
{
    if n < 10 {
        seq![digit_char(n)]
    } else {
        decimal(n / 10).push(digit_char(n % 10))
    }
}

fn digit_str(d: u64) -> (r: &'static str)
    requires
        d < 10,
    ensures
        r@ == seq![digit_char(d as nat)],
{
    proof {
        reveal_strlit("0");
        reveal_strlit("1");
        reveal_strlit("2");
        reveal_strlit("3");
        reveal_strlit("4");
        reveal_strlit("5");
        reveal_strlit("6");
        reveal_strlit("7");
        reveal_strlit("8");
        reveal_strlit("9");
    }
    if d == 0 {
        assert("0"@ =~= seq!['0']);
        "0"
    } else if d == 1 {
        assert("1"@ =~= seq!['1']);
        "1"
    } else if d == 2 {
        assert("2"@ =~= seq!['2']);
        "2"
    } else if d == 3 {
        assert("3"@ =~= seq!['3']);
        "3"
    } else if d == 4 {
        assert("4"@ =~= seq!['4']);
        "4"
    } else if d == 5 {
        assert("5"@ =~= seq!['5']);
        "5"
    } else if d == 6 {
        assert("6"@ =~= seq!['6']);
        "6"
    } else if d == 7 {
        assert("7"@ =~= seq!['7']);
        "7"
    } else if d == 8 {
        assert("8"@ =~= seq!['8']);
        "8"
    } else {
        assert("9"@ =~= seq!['9']);
        "9"
    }
}

/// Appends the decimal notation of `n`.
pub fn append_decimal(s: &mut String, n: u64)
    ensures
        final(s)@ == old(s)@ + decimal(n as nat),
    decreases n,
{
    let ghost start = s@;
    if n >= 10 {
        append_decimal(s, n / 10);
    }
    s.append(digit_str(n % 10));
    proof {
        if n >= 10 {
            assert(start + decimal(n as nat) =~= start + decimal((n / 10) as nat) + seq![
                digit_char((n % 10) as nat),
            ]);
        } else {
            assert(start + decimal(n as nat) =~= start + seq![digit_char(n as nat)]);
        }
    }
}

/// The text of a sequence of lines: each line followed by a newline.
pub open spec fn lines_text(lines: Seq<Seq<char>>) -> Seq<char>
    decreases lines.len(),
{
    if lines.len() == 0 {
        seq![]
    } else {
        lines_text(lines.drop_last()) + lines.last() + "\n"@
    }
}

/// The text of an assembly listing: its lines joined by newlines, with a
/// final newline.
pub open spec fn listing_text(lines: Seq<Seq<char>>) -> Seq<char> {
    if lines.len() == 0 {
        "\n"@
    } else {
        lines_text(lines)
    }
}

/// An assembly listing under construction, one line at a time.
pub struct Generator {
    listing: Vec<String>,
}

impl Generator {
    /// The lines emitted so far.
    pub closed spec fn lines(&self) -> Seq<Seq<char>> {
        self.listing@.map_values(|l: String| l@)
    }

    pub fn new() -> (r: Self)
        ensures
            r.lines() == Seq::<Seq<char>>::empty(),
    {
        let r = Generator { listing: Vec::new() };
        assert(r.lines() =~= Seq::<Seq<char>>::empty());
        r
    }

    fn push_line(&mut self, line: String)
        ensures
            final(self).lines() == old(self).lines().push(line@),
            final(self).lines() == old(self).lines() + seq![line@],
    {
        self.listing.push(line);
        assert(self.lines() =~= old(self).lines().push(line@));
        assert(self.lines() =~= old(self).lines() + seq![line@]);
    }

    /// Emits one line as given.
    pub fn raw(&mut self, line: &str)
        ensures
            final(self).lines() == old(self).lines().push(line@),
    {
        self.push_line(String::from_str(line));
    }

    /// Emits the label line `name:`.
    pub fn label(&mut self, name: &str)
        ensures
            final(self).lines() == old(self).lines().push(name@ + ":"@),
    {
        let mut line = String::from_str(name);
        line.append(":");
        self.push_line(line);
    }

    /// Emits the data line `name: value`.
    pub fn label_with_value(&mut self, name: &str, value: &str)
        ensures
            final(self).lines() == old(self).lines().push(name@ + ": "@ + value@),
    {
        let mut line = String::from_str(name);
        line.append(": ");
        line.append(value);
        self.push_line(line);
    }

    /// Emits the call that ends the process with status `code`.
    pub fn exit(&mut self, code: u32)
        ensures
            final(self).lines() == old(self).lines().push(
                "mov $"@ + decimal(code as nat) + ", %rdi"@,
            ).push("call exit"@),
    {
        let mut line = String::from_str("mov $");
        append_decimal(&mut line, code as u64);
        line.append(", %rdi");
        self.push_line(line);
        self.raw("call exit");
    }

    /// The whole listing as one text.
    pub fn full_raw(&self) -> (r: String)
        ensures
            r@ == listing_text(self.lines()),
    {
        let mut s = String::new();
        let mut k: usize = 0;
        while k < self.listing.len()
            invariant
                k <= self.listing@.len(),
                s@ == lines_text(self.lines().take(k as int)),
            decreases self.listing@.len() - k,
        {
            assert(self.lines().take(k + 1).drop_last() =~= self.lines().take(k as int));
            s.append(self.listing[k].as_str());
            s.append("\n");
            k += 1;
        }
        assert(self.lines().take(k as int) =~= self.lines());
        if self.listing.len() == 0 {
            s.append("\n");
            assert(s@ =~= "\n"@);
        }
        s
    }
}

/// A construct that the grammar accepts and the generator does not lower.
#[derive(Debug, Clone, Copy, PartialEq, Eq, Structural)]
pub enum Construct {
    /// An operation where only a variable or a literal may stand.
    NestedOperation,
    /// An addition or comparison used as a statement.
    UnusedValue,
    /// An assignment to something other than a variable.
    AssignmentTarget,
    /// A condition that is not a comparison.
    ConditionShape,
    /// A condition whose operator is not `>`.
    ConditionOperator,
    /// A declaration or a nested `if` inside an `if` body.
    StatementInIf,
    /// A value of type `Void`.
    VoidValue,
}

/// Why no assembly was generated.
#[derive(Debug, PartialEq, Eq)]
pub enum CodegenError {
    Type(TypeError),
    InvalidDeclarationType,
    InvalidLiteral,
    FrameTooLarge,
    Unsupported(Construct),
}

/// The model of a `CodegenError`.
pub enum CodegenFault {
    Type(TypeFault),
    InvalidDeclarationType,
    InvalidLiteral,
    FrameTooLarge,
    Unsupported(Construct),
}

impl View for CodegenError {
    type V = CodegenFault;

    open spec fn view(&self) -> CodegenFault {
        match self {
            CodegenError::Type(e) => CodegenFault::Type(e@),
            CodegenError::InvalidDeclarationType => CodegenFault::InvalidDeclarationType,
            CodegenError::InvalidLiteral => CodegenFault::InvalidLiteral,
            CodegenError::FrameTooLarge => CodegenFault::FrameTooLarge,
            CodegenError::Unsupported(c) => CodegenFault::Unsupported(*c),
        }
    }
}

/// Bytes below the stack pointer kept for the return value; the first
/// local comes after them.
pub const RETURN_SLOT: u64 = 8;

/// The stack alignment that every frame size is rounded up to.
pub const STACK_ALIGN: u64 = 16;

/// The largest frame whose size fits a 32-bit signed displacement.
pub const FRAME_LIMIT: u64 = 0x7fff_fff0;

/// Bytes that a local of type `t` occupies.
pub open spec fn width(t: PrimitiveTy) -> nat {
    match t {
        PrimitiveTy::Number => 4,
        PrimitiveTy::Boolean => 1,
        PrimitiveTy::Void => 0,
    }
}

/// `n` rounded up to the stack alignment.
pub open spec fn align_up(n: nat) -> nat {
    let a = STACK_ALIGN as int;
    (((n + a - 1) / a) * a) as nat
}

/// The locals of a function: their names and types (as a type
/// environment), the offset of each below the stack pointer, and the first
/// free offset.
pub struct Layout {
    pub env: Env,
    pub offsets: Seq<nat>,
    pub top: nat,
}

/// The layout of the declarations among the first `n` statements of a
/// body: each declared local gets the next offset, at the width of its
/// expression's type in the locals declared before it.
pub open spec fn layout_upto(body: Seq<StmtModel>, n: int) -> Result<Layout, CodegenFault>
    decreases n,
{
    if n <= 0 || n > body.len() {
        Ok(Layout { env: seq![], offsets: seq![], top: RETURN_SLOT as nat })
    } else {
        match layout_upto(body, n - 1) {
            Err(f) => Err(f),
            Ok(l) => match body[n - 1] {
                StmtModel::Declaration(name, e) => match type_of(e, l.env) {
                    Err(f) => Err(CodegenFault::Type(f)),
                    Ok(t) => if t == PrimitiveTy::Void {
                        Err(CodegenFault::InvalidDeclarationType)
                    } else if l.top + width(t) > FRAME_LIMIT {
                        Err(CodegenFault::FrameTooLarge)
                    } else {
                        Ok(
                            Layout {
                                env: l.env.push((name, t)),
                                offsets: l.offsets.push(l.top),
                                top: l.top + width(t),
                            },
                        )
                    },
                },
                _ => Ok(l),
            },
        }
    }
}

pub open spec fn layout(body: Seq<StmtModel>) -> Result<Layout, CodegenFault> {
    layout_upto(body, body.len() as int)
}

/// The offset and type of the local `name`.
pub open spec fn slot_of(l: Layout, name: Seq<char>) -> Option<(nat, PrimitiveTy)> {
    match last_index(l.env, name) {
        Some(k) => Some((l.offsets[k], l.env[k].1)),
        None => None,
    }
}

/// The operand that addresses the local at `off`.
pub open spec fn slot_ref(off: nat) -> Seq<char> {
    "-"@ + decimal(off) + "(%rsp)"@
}

pub open spec fn is_digit_char(c: char) -> bool {
    '0' <= c && c <= '9'
}

/// The value of a string of decimal digits.
pub open spec fn digits_value(s: Seq<char>) -> nat
    decreases s.len(),
{
    if s.len() == 0 {
        0
    } else {
        digits_value(s.drop_last()) * 10 + ((s.last() as u32 - '0' as u32) as nat)
    }
}

/// The value of a number literal's text: nonempty decimal digits whose
/// value fits in 32 bits.
pub open spec fn number_value(s: Seq<char>) -> Option<nat> {
    if 0 < s.len() && (forall|k: int| 0 <= k < s.len() ==> is_digit_char(#[trigger] s[k]))
        && digits_value(s) <= u32::MAX {
        Some(digits_value(s))
    } else {
        None
    }
}

/// The instruction that moves a value of type `t`.
pub open spec fn move_op(t: PrimitiveTy) -> Seq<char> {
    if t == PrimitiveTy::Boolean {
        "movb"@
    } else {
        "movl"@
    }
}

/// Lines that store the value of `e` into the local at `off`, of type `ty`.
pub open spec fn store_lines(e: ExprModel, l: Layout, off: nat, ty: PrimitiveTy) -> Result<
    Seq<Seq<char>>,
    CodegenFault,
> {
    match e {
        ExprModel::Variable(v) => match slot_of(l, v) {
            None => Err(CodegenFault::Type(TypeFault::UnknownVariable(v))),
            Some((src, st)) => if st != ty {
                Err(CodegenFault::Type(TypeFault::TypeMismatch(ty, st)))
            } else {
                Ok(seq![move_op(ty) + " "@ + slot_ref(src) + ", "@ + slot_ref(off)])
            },
        },
        ExprModel::Literal(text, lt) => if lt != ty {
            Err(CodegenFault::Type(TypeFault::TypeMismatch(ty, lt)))
        } else {
            match lt {
                PrimitiveTy::Number => match number_value(text) {
                    None => Err(CodegenFault::InvalidLiteral),
                    Some(v) => Ok(seq!["movl $"@ + decimal(v) + ", "@ + slot_ref(off)]),
                },
                PrimitiveTy::Boolean => if text == "true"@ {
                    Ok(seq!["movb $"@ + decimal(1) + ", "@ + slot_ref(off)])
                } else if text == "false"@ {
                    Ok(seq!["movb $"@ + decimal(0) + ", "@ + slot_ref(off)])
                } else {
                    Err(CodegenFault::InvalidLiteral)
                },
                PrimitiveTy::Void => Err(CodegenFault::Unsupported(Construct::VoidValue)),
            }
        },
        ExprModel::Binary(..) => Err(CodegenFault::Unsupported(Construct::NestedOperation)),
    }
}

/// Lines for an expression used as a statement: an assignment to a local
/// stores into it; a lone variable or literal emits nothing.
pub open spec fn effect_lines(e: ExprModel, l: Layout) -> Result<Seq<Seq<char>>, CodegenFault> {
    match e {
        ExprModel::Binary(left, op, right) => if op != BinaryOperationTy::Assignment {
            Err(CodegenFault::Unsupported(Construct::UnusedValue))
        } else {
            match *left {
                ExprModel::Variable(v) => match slot_of(l, v) {
                    None => Err(CodegenFault::Type(TypeFault::UnknownVariable(v))),
                    Some((off, t)) => store_lines(*right, l, off, t),
                },
                _ => Err(CodegenFault::Unsupported(Construct::AssignmentTarget)),
            }
        },
        _ => Ok(seq![]),
    }
}

/// The operand text of one side of a comparison.
pub open spec fn operand_text(e: ExprModel, l: Layout) -> Result<Seq<char>, CodegenFault> {
    match e {
        ExprModel::Variable(v) => match slot_of(l, v) {
            Some((off, _)) => Ok(slot_ref(off)),
            None => Err(CodegenFault::Type(TypeFault::UnknownVariable(v))),
        },
        ExprModel::Literal(text, t) => if t == PrimitiveTy::Number {
            Ok("$"@ + text)
        } else {
            Err(CodegenFault::Type(TypeFault::TypeMismatch(PrimitiveTy::Number, t)))
        },
        ExprModel::Binary(..) => Err(CodegenFault::Unsupported(Construct::NestedOperation)),
    }
}

/// Lines for the first `n` statements of an `if` body, which may only be
/// expression statements.
pub open spec fn if_body_lines(body: Seq<StmtModel>, n: int, l: Layout) -> Result<
    Seq<Seq<char>>,
    CodegenFault,
>
    decreases n,
{
    if n <= 0 || n > body.len() {
        Ok(seq![])
    } else {
        match if_body_lines(body, n - 1, l) {
            Err(f) => Err(f),
            Ok(ls) => match body[n - 1] {
                StmtModel::Expression(e) => match effect_lines(e, l) {
                    Err(f) => Err(f),
                    Ok(more) => Ok(ls + more),
                },
                _ => Err(CodegenFault::Unsupported(Construct::StatementInIf)),
            },
        }
    }
}

/// The label after the body of the `n`-th `if` of the function labelled
/// `fname`.
pub open spec fn branch_label(fname: Seq<char>, n: nat) -> Seq<char> {
    fname + "_"@ + decimal(n)
}

/// Lines for `if left > right { body }`: compare, skip the body unless
/// greater, the body, the label that the skip goes to.
pub open spec fn if_lines(
    cond: ExprModel,
    body: Seq<StmtModel>,
    l: Layout,
    fname: Seq<char>,
    n: nat,
) -> Result<Seq<Seq<char>>, CodegenFault> {
    match type_of(cond, l.env) {
        Err(f) => Err(CodegenFault::Type(f)),
        Ok(ct) => if ct != PrimitiveTy::Boolean {
            Err(CodegenFault::Type(TypeFault::TypeMismatch(PrimitiveTy::Boolean, ct)))
        } else {
            match cond {
                ExprModel::Binary(left, op, right) => match type_of(*left, l.env) {
                    Err(f) => Err(CodegenFault::Type(f)),
                    Ok(lt) => match type_of(*right, l.env) {
                        Err(f) => Err(CodegenFault::Type(f)),
                        Ok(rt) => if lt != rt {
                            Err(CodegenFault::Type(TypeFault::TypeMismatch(lt, rt)))
                        } else if lt != PrimitiveTy::Number {
                            Err(CodegenFault::Type(TypeFault::TypeMismatch(PrimitiveTy::Number, lt)))
                        } else {
                            match operand_text(*left, l) {
                                Err(f) => Err(f),
                                Ok(lr) => match operand_text(*right, l) {
                                    Err(f) => Err(f),
                                    Ok(rr) => if op != BinaryOperationTy::Greater {
                                        Err(CodegenFault::Unsupported(Construct::ConditionOperator))
                                    } else {
                                        match if_body_lines(body, body.len() as int, l) {
                                            Err(f) => Err(f),
                                            Ok(bl) => Ok(
                                                seq![
                                                    "cmpl "@ + rr + ", "@ + lr,
                                                    "jle "@ + branch_label(fname, n),
                                                ] + bl + seq![branch_label(fname, n) + ":"@],
                                            ),
                                        }
                                    },
                                },
                            }
                        },
                    },
                },
                _ => Err(CodegenFault::Unsupported(Construct::ConditionShape)),
            }
        },
    }
}

/// Lines for one statement of a function body; `n` is the number of `if`
/// statements before it.
pub open spec fn stmt_lines(s: StmtModel, l: Layout, fname: Seq<char>, n: nat) -> Result<
    Seq<Seq<char>>,
    CodegenFault,
> {
    match s {
        StmtModel::Declaration(name, e) => match slot_of(l, name) {
            None => Err(CodegenFault::Type(TypeFault::UnknownVariable(name))),
            Some((off, t)) => store_lines(e, l, off, t),
        },
        StmtModel::Expression(e) => effect_lines(e, l),
        StmtModel::If(cond, body) => if_lines(cond, body, l, fname, n),
    }
}

/// The number of declarations among the first `k` statements of a body.
pub open spec fn declared_upto(body: Seq<StmtModel>, k: int) -> nat
    decreases k,
{
    if k <= 0 || k > body.len() {
        0
    } else {
        declared_upto(body, k - 1) + if body[k - 1] is Declaration {
            1nat
        } else {
            0nat
        }
    }
}

/// The locals of a layout that are in scope after its first `m`
/// declarations.
pub open spec fn scope(l: Layout, m: nat) -> Layout {
    Layout { env: l.env.take(m as int), offsets: l.offsets.take(m as int), top: l.top }
}

/// Lines for the first `k` statements of a function body, and the number
/// of `if` statements among them. Each statement sees only the locals
/// declared before it (and, for a declaration, the one it declares).
pub open spec fn body_lines_upto(body: Seq<StmtModel>, k: int, l: Layout, fname: Seq<char>) -> Result<
    (Seq<Seq<char>>, nat),
    CodegenFault,
>
    decreases k,
{
    if k <= 0 || k > body.len() {
        Ok((seq![], 0))
    } else {
        match body_lines_upto(body, k - 1, l, fname) {
            Err(f) => Err(f),
            Ok((ls, n)) => match stmt_lines(
                body[k - 1],
                scope(l, declared_upto(body, k)),
                fname,
                n,
            ) {
                Err(f) => Err(f),
                Ok(more) => Ok((ls + more, if body[k - 1] is If { n + 1 } else { n })),
            },
        }
    }
}

/// The label of a function: `main` stays `main`, any other name is prefixed.
pub open spec fn function_label(name: Seq<char>) -> Seq<char> {
    if name == "main"@ {
        "main"@
    } else {
        "deltafunc_"@ + name
    }
}

/// The name of the local whose value a function prints before it returns,
/// when it declares one.
pub open spec fn printed_local() -> Seq<char> {
    "a"@
}

/// The print of the local `a` through the format string, when the layout
/// holds such a local; nothing otherwise.
pub open spec fn print_lines(l: Layout) -> Seq<Seq<char>> {
    match slot_of(l, printed_local()) {
        Some((off, _)) => seq![
            "mov $format, %rdi"@,
            "mov "@ + slot_ref(off) + ", %rsi"@,
            "xor %rax, %rax"@,
            "call printf"@,
        ],
        None => seq![],
    }
}

/// The exit of the process with status 0, for the function `main` only.
pub open spec fn exit_lines(name: Seq<char>) -> Seq<Seq<char>> {
    if name == "main"@ {
        seq!["mov $"@ + decimal(0) + ", %rdi"@, "call exit"@]
    } else {
        seq![]
    }
}

/// Lines for a function: its label, the reservation of its aligned frame,
/// its statements, the print of its local `a` if it has one, and for `main`
/// the exit.
pub open spec fn function_lines(f: FunctionModel) -> Result<Seq<Seq<char>>, CodegenFault> {
    let label = function_label(f.name);
    match layout(f.body) {
        Err(e) => Err(e),
        Ok(l) => match body_lines_upto(f.body, f.body.len() as int, l, label) {
            Err(e) => Err(e),
            Ok((bl, _)) => Ok(
                seq![label + ":"@, "sub $"@ + decimal(align_up(l.top)) + ", %rsp"@] + bl
                    + print_lines(l) + exit_lines(f.name),
            ),
        },
    }
}

/// Lines for the first `n` functions, one after the other.
pub open spec fn functions_lines(fs: Seq<FunctionModel>, n: int) -> Result<Seq<Seq<char>>, CodegenFault>
    decreases n,
{
    if n <= 0 || n > fs.len() {
        Ok(seq![])
    } else {
        match functions_lines(fs, n - 1) {
            Err(e) => Err(e),
            Ok(ls) => match function_lines(fs[n - 1]) {
                Err(e) => Err(e),
                Ok(more) => Ok(ls + more),
            },
        }
    }
}

/// The text of the format string that the print uses.
pub open spec fn format_data() -> Seq<char> {
    ".asciz \"Value: %d\\n\""@
}

/// The lines of a module's listing: the header, each function, the data of
/// the format string.
pub open spec fn module_lines(m: ModuleModel) -> Result<Seq<Seq<char>>, CodegenFault> {
    match functions_lines(m.functions, m.functions.len() as int) {
        Err(e) => Err(e),
        Ok(ls) => Ok(
            seq![".global main"@, ".text"@] + ls + seq!["format"@ + ": "@ + format_data()],
        ),
    }
}

/// The assembly text of a module, or why there is none.
pub open spec fn assembly(m: ModuleModel) -> Result<Seq<char>, CodegenFault> {
    match module_lines(m) {
        Err(e) => Err(e),
        Ok(ls) => Ok(listing_text(ls)),
    }
}

/// Appends the operand that addresses the local at `off`.
fn append_slot(s: &mut String, off: u64)
    ensures
        final(s)@ == old(s)@ + slot_ref(off as nat),
{
    let ghost start = s@;
    s.append("-");
    append_decimal(s, off);
    s.append("(%rsp)");
    assert(s@ =~= start + slot_ref(off as nat));
}

fn move_instruction(t: PrimitiveTy) -> (r: &'static str)
    ensures
        r@ == move_op(t),
{
    if t == PrimitiveTy::Boolean {
        "movb"
    } else {
        "movl"
    }
}

fn width_of(t: PrimitiveTy) -> (r: u64)
    ensures
        r == width(t),
{
    match t {
        PrimitiveTy::Number => 4,
        PrimitiveTy::Boolean => 1,
        PrimitiveTy::Void => 0,
    }
}

proof fn lemma_digits_value_monotone(s: Seq<char>, i: int, j: int)
    requires
        0 <= i <= j <= s.len(),
    ensures
        digits_value(s.take(i)) <= digits_value(s.take(j)),
    decreases j - i,
{
    if i < j {
        lemma_digits_value_monotone(s, i, j - 1);
        assert(s.take(j).drop_last() =~= s.take(j - 1));
    }
}

/// The value of a number literal's text.
fn parse_number(text: &str) -> (r: Option<u64>)
    ensures
        match number_value(text@) {
            Some(v) => r == Some(v as u64),
            None => r is None,
        },
{
    let n = text.unicode_len();
    if n == 0 {
        return None;
    }
    let mut k: usize = 0;
    while k < n
        invariant
            k <= n,
            n == text@.len(),
            forall|m: int| 0 <= m < k ==> is_digit_char(#[trigger] text@[m]),
        decreases n - k,
    {
        let c = text.get_char(k);
        if !('0' <= c && c <= '9') {
            return None;
        }
        k += 1;
    }
    let mut value: u64 = 0;
    let mut k: usize = 0;
    assert(text@.take(0) =~= Seq::<char>::empty());
    while k < n
        invariant
            k <= n,
            n == text@.len(),
            forall|m: int| 0 <= m < n ==> is_digit_char(#[trigger] text@[m]),
            value == digits_value(text@.take(k as int)),
            value <= u32::MAX,
        decreases n - k,
    {
        let c = text.get_char(k);
        let d = (c as u32 - '0' as u32) as u64;
        assert(text@.take(k + 1).drop_last() =~= text@.take(k as int));
        value = value * 10 + d;
        k += 1;
        if value > 0xffff_ffff {
            proof {
                lemma_digits_value_monotone(text@, k as int, n as int);
                assert(text@.take(n as int) =~= text@);
            }
            return None;
        }
    }
    assert(text@.take(n as int) =~= text@);
    Some(value)
}

/// The stack locations of a function's locals.
pub struct StackLayout<'a> {
    pub bindings: Vec<Binding<'a>>,
    pub offsets: Vec<u64>,
    pub top: u64,
}

impl<'a> StackLayout<'a> {
    pub open spec fn wf(&self) -> bool {
        &&& self.bindings@.len() == self.offsets@.len()
        &&& self.top <= FRAME_LIMIT
        &&& forall|k: int| 0 <= k < self.offsets@.len() ==> #[trigger] self.offsets@[k] <= FRAME_LIMIT
    }

    pub open spec fn model(&self) -> Layout {
        Layout {
            env: env_model(self.bindings@),
            offsets: self.offsets@.map_values(|o: u64| o as nat),
            top: self.top as nat,
        }
    }

    /// The offset and type of the local `name`.
    pub fn slot(&self, name: &str) -> (r: Option<(u64, PrimitiveTy)>)
        requires
            self.wf(),
        ensures
            match r {
                Some((off, t)) => slot_of(self.model(), name@) == Some((off as nat, t)) && off
                    <= FRAME_LIMIT,
                None => slot_of(self.model(), name@) is None,
            },
    {
        match find_binding(self.bindings.as_slice(), name) {
            Some(k) => {
                proof {
                    lemma_last_index_bounds(env_model(self.bindings@), name@);
                }
                Some((self.offsets[k], self.bindings[k].ty))
            },
            None => None,
        }
    }
}

proof fn lemma_layout_error_stays(body: Seq<StmtModel>, j: int, n: int)
    requires
        0 <= j <= n <= body.len(),
        layout_upto(body, j) is Err,
    ensures
        layout_upto(body, n) == layout_upto(body, j),
    decreases n - j,
{
    if j < n {
        lemma_layout_error_stays(body, j, n - 1);
    }
}

proof fn lemma_layout_counts(body: Seq<StmtModel>, k: int)
    requires
        0 <= k <= body.len(),
        layout_upto(body, k) is Ok,
    ensures
        layout_upto(body, k)->Ok_0.env.len() == declared_upto(body, k),
        layout_upto(body, k)->Ok_0.offsets.len() == declared_upto(body, k),
    decreases k,
{
    if k > 0 {
        if layout_upto(body, k - 1) is Err {
            lemma_layout_error_stays(body, k - 1, k);
        } else {
            lemma_layout_counts(body, k - 1);
        }
    }
}

proof fn lemma_declared_monotone(body: Seq<StmtModel>, j: int, k: int)
    requires
        0 <= j <= k <= body.len(),
    ensures
        declared_upto(body, j) <= declared_upto(body, k),
    decreases k - j,
{
    if j < k {
        lemma_declared_monotone(body, j, k - 1);
    }
}

/// The stack layout of a function body's locals.
pub fn layout_function<'a>(body: &Vec<Statement<'a>>) -> (r: Result<StackLayout<'a>, CodegenError>)
    ensures
        match layout(stmts_model(body@)) {
            Ok(l) => r is Ok && r->Ok_0.wf() && r->Ok_0.model() == l,
            Err(f) => r is Err && r->Err_0@ == f,
        },
{
    let ghost m = stmts_model(body@);
    proof {
        lemma_stmts_model_index(body@);
    }
    let mut frame = StackLayout { bindings: Vec::new(), offsets: Vec::new(), top: RETURN_SLOT };
    assert(frame.model().env =~= Seq::<(Seq<char>, PrimitiveTy)>::empty());
    assert(frame.model().offsets =~= Seq::<nat>::empty());
    let mut k: usize = 0;
    while k < body.len()
        invariant
            k <= body@.len(),
            m == stmts_model(body@),
            m.len() == body@.len(),
            forall|j: int| 0 <= j < body@.len() ==> m[j] == #[trigger] body@[j]@,
            frame.wf(),
            frame.top >= RETURN_SLOT,
            layout_upto(m, k as int) == Ok::<Layout, CodegenFault>(frame.model()),
        decreases body@.len() - k,
    {
        assert(m[k as int] == body@[k as int]@);
        match &body[k] {
            Statement::Declaration { name, expression } => {
                let t = match expression.get_type(frame.bindings.as_slice()) {
                    Ok(t) => t,
                    Err(e) => {
                        proof {
                            lemma_layout_error_stays(m, k + 1, m.len() as int);
                        }
                        return Err(CodegenError::Type(e));
                    },
                };
                if t == PrimitiveTy::Void {
                    proof {
                        lemma_layout_error_stays(m, k + 1, m.len() as int);
                    }
                    return Err(CodegenError::InvalidDeclarationType);
                }
                let w = width_of(t);
                if frame.top + w > FRAME_LIMIT {
                    proof {
                        lemma_layout_error_stays(m, k + 1, m.len() as int);
                    }
                    return Err(CodegenError::FrameTooLarge);
                }
                let ghost before = frame.model();
                frame.bindings.push(Binding { name: *name, ty: t });
                frame.offsets.push(frame.top);
                frame.top = frame.top + w;
                proof {
                    assert(frame.model().env =~= before.env.push((name@, t)));
                    assert(frame.model().offsets =~= before.offsets.push(before.top));
                }
            },
            _ => {},
        }
        k += 1;
    }
    Ok(frame)
}

/// `r` reports what the spec outcome `s` says: on success the lines went
/// from `before` to `before + s`, on failure the same error.
pub open spec fn emitted(
    r: Result<(), CodegenError>,
    s: Result<Seq<Seq<char>>, CodegenFault>,
    before: Seq<Seq<char>>,
    after: Seq<Seq<char>>,
) -> bool {
    match s {
        Ok(ls) => r is Ok && after == before + ls,
        Err(f) => r is Err && r->Err_0@ == f,
    }
}

proof fn lemma_if_body_error_stays(body: Seq<StmtModel>, j: int, n: int, l: Layout)
    requires
        0 <= j <= n <= body.len(),
        if_body_lines(body, j, l) is Err,
    ensures
        if_body_lines(body, n, l) == if_body_lines(body, j, l),
    decreases n - j,
{
    if j < n {
        lemma_if_body_error_stays(body, j, n - 1, l);
    }
}

proof fn lemma_body_error_stays(body: Seq<StmtModel>, j: int, n: int, l: Layout, fname: Seq<char>)
    requires
        0 <= j <= n <= body.len(),
        body_lines_upto(body, j, l, fname) is Err,
    ensures
        body_lines_upto(body, n, l, fname) == body_lines_upto(body, j, l, fname),
    decreases n - j,
{
    if j < n {
        lemma_body_error_stays(body, j, n - 1, l, fname);
    }
}

proof fn lemma_functions_error_stays(fs: Seq<FunctionModel>, j: int, n: int)
    requires
        0 <= j <= n <= fs.len(),
        functions_lines(fs, j) is Err,
    ensures
        functions_lines(fs, n) == functions_lines(fs, j),
    decreases n - j,
{
    if j < n {
        lemma_functions_error_stays(fs, j, n - 1);
    }
}

/// Emits the store of `e` into the local at `off`, of type `ty`.
fn store(gen: &mut Generator, frame: &StackLayout, e: &Expression, off: u64, ty: PrimitiveTy) -> (r:
    Result<(), CodegenError>)
    requires
        frame.wf(),
    ensures
        emitted(r, store_lines(e@, frame.model(), off as nat, ty), old(gen).lines(), final(gen).lines()),
{
    match e {
        Expression::Variable(v) => match frame.slot(v) {
            None => Err(CodegenError::Type(TypeError::UnknownVariable(String::from_str(v)))),
            Some((src, st)) => {
                if st != ty {
                    return Err(CodegenError::Type(TypeError::TypeMismatch { expected: ty, found: st }));
                }
                let mut line = String::from_str(move_instruction(ty));
                line.append(" ");
                append_slot(&mut line, src);
                line.append(", ");
                append_slot(&mut line, off);
                gen.push_line(line);
                Ok(())
            },
        },
        Expression::Literal(lit) => {
            if lit.ty != ty {
                return Err(CodegenError::Type(TypeError::TypeMismatch { expected: ty, found: lit.ty }));
            }
            match lit.ty {
                PrimitiveTy::Number => match parse_number(lit.value) {
                    None => Err(CodegenError::InvalidLiteral),
                    Some(v) => {
                        let mut line = String::from_str("movl $");
                        append_decimal(&mut line, v);
                        line.append(", ");
                        append_slot(&mut line, off);
                        gen.push_line(line);
                        Ok(())
                    },
                },
                PrimitiveTy::Boolean => {
                    let bit: u64 = if same_text(lit.value, "true") {
                        1
                    } else if same_text(lit.value, "false") {
                        0
                    } else {
                        return Err(CodegenError::InvalidLiteral);
                    };
                    let mut line = String::from_str("movb $");
                    append_decimal(&mut line, bit);
                    line.append(", ");
                    append_slot(&mut line, off);
                    gen.push_line(line);
                    Ok(())
                },
                PrimitiveTy::Void => Err(CodegenError::Unsupported(Construct::VoidValue)),
            }
        },
        Expression::Operation(_) => Err(CodegenError::Unsupported(Construct::NestedOperation)),
    }
}

/// Emits an expression used as a statement.
fn effect(gen: &mut Generator, frame: &StackLayout, e: &Expression) -> (r: Result<(), CodegenError>)
    requires
        frame.wf(),
    ensures
        emitted(r, effect_lines(e@, frame.model()), old(gen).lines(), final(gen).lines()),
{
    match e {
        Expression::Operation(op) => match &**op {
            Operation::Binary { left, ty, right } => {
                assert(e@ == ExprModel::Binary(Box::new(left@), *ty, Box::new(right@)));
                if *ty != BinaryOperationTy::Assignment {
                    return Err(CodegenError::Unsupported(Construct::UnusedValue));
                }
                match left {
                    Expression::Variable(v) => match frame.slot(v) {
                        None => Err(
                            CodegenError::Type(TypeError::UnknownVariable(String::from_str(v))),
                        ),
                        Some((off, t)) => store(gen, frame, right, off, t),
                    },
                    _ => Err(CodegenError::Unsupported(Construct::AssignmentTarget)),
                }
            },
        },
        _ => {
            assert(gen.lines() =~= gen.lines() + Seq::<Seq<char>>::empty());
            Ok(())
        },
    }
}

/// The operand text of one side of a comparison.
fn operand(frame: &StackLayout, e: &Expression) -> (r: Result<String, CodegenError>)
    requires
        frame.wf(),
    ensures
        match operand_text(e@, frame.model()) {
            Ok(s) => r is Ok && r->Ok_0@ == s,
            Err(f) => r is Err && r->Err_0@ == f,
        },
{
    match e {
        Expression::Variable(v) => match frame.slot(v) {
            Some((off, _)) => {
                let mut s = String::new();
                append_slot(&mut s, off);
                assert(s@ =~= slot_ref(off as nat));
                Ok(s)
            },
            None => Err(CodegenError::Type(TypeError::UnknownVariable(String::from_str(v)))),
        },
        Expression::Literal(lit) => if lit.ty == PrimitiveTy::Number {
            let mut s = String::from_str("$");
            s.append(lit.value);
            Ok(s)
        } else {
            Err(
                CodegenError::Type(
                    TypeError::TypeMismatch { expected: PrimitiveTy::Number, found: lit.ty },
                ),
            )
        },
        Expression::Operation(_) => Err(CodegenError::Unsupported(Construct::NestedOperation)),
    }
}

/// The lines of a comparison-guarded body, given the lines of the body.
pub open spec fn wrap_if(
    body: Result<Seq<Seq<char>>, CodegenFault>,
    right: Seq<char>,
    left: Seq<char>,
    target: Seq<char>,
) -> Result<Seq<Seq<char>>, CodegenFault> {
    match body {
        Err(f) => Err(f),
        Ok(bl) => Ok(seq!["cmpl "@ + right + ", "@ + left, "jle "@ + target] + bl + seq![target + ":"@]),
    }
}

/// Emits `if cond { body }`; `n` counts the `if` statements before it in
/// the function labelled `label`.
fn emit_if(
    gen: &mut Generator,
    frame: &StackLayout,
    cond: &Expression,
    body: &Vec<Statement>,
    label: &str,
    n: u64,
) -> (r: Result<(), CodegenError>)
    requires
        frame.wf(),
    ensures
        emitted(
            r,
            if_lines(cond@, stmts_model(body@), frame.model(), label@, n as nat),
            old(gen).lines(),
            final(gen).lines(),
        ),
{
    let env = frame.bindings.as_slice();
    let ct = match cond.get_type(env) {
        Ok(t) => t,
        Err(e) => {
            return Err(CodegenError::Type(e));
        },
    };
    if ct != PrimitiveTy::Boolean {
        return Err(
            CodegenError::Type(TypeError::TypeMismatch { expected: PrimitiveTy::Boolean, found: ct }),
        );
    }
    match cond {
        Expression::Operation(op) => match &**op {
            Operation::Binary { left, ty, right } => {
                assert(cond@ == ExprModel::Binary(Box::new(left@), *ty, Box::new(right@)));
                let lt = match left.get_type(env) {
                    Ok(t) => t,
                    Err(e) => {
                        return Err(CodegenError::Type(e));
                    },
                };
                let rt = match right.get_type(env) {
                    Ok(t) => t,
                    Err(e) => {
                        return Err(CodegenError::Type(e));
                    },
                };
                if lt != rt {
                    return Err(
                        CodegenError::Type(TypeError::TypeMismatch { expected: lt, found: rt }),
                    );
                }
                if lt != PrimitiveTy::Number {
                    return Err(
                        CodegenError::Type(
                            TypeError::TypeMismatch { expected: PrimitiveTy::Number, found: lt },
                        ),
                    );
                }
                let lr = match operand(frame, left) {
                    Ok(s) => s,
                    Err(e) => {
                        return Err(e);
                    },
                };
                let rr = match operand(frame, right) {
                    Ok(s) => s,
                    Err(e) => {
                        return Err(e);
                    },
                };
                if *ty != BinaryOperationTy::Greater {
                    return Err(CodegenError::Unsupported(Construct::ConditionOperator));
                }
                let ghost bm = stmts_model(body@);
                let ghost l = frame.model();
                let ghost start = gen.lines();
                proof {
                    lemma_stmts_model_index(body@);
                }
                let mut target = String::from_str(label);
                target.append("_");
                append_decimal(&mut target, n);
                let mut compare = String::from_str("cmpl ");
                compare.append(rr.as_str());
                compare.append(", ");
                compare.append(lr.as_str());
                let ghost compare_line = compare@;
                gen.push_line(compare);
                let mut jump = String::from_str("jle ");
                jump.append(target.as_str());
                let ghost jump_line = jump@;
                gen.push_line(jump);
                let ghost base = gen.lines();
                let ghost right_text = rr@;
                let ghost left_text = lr@;
                let ghost target_text = target@;
                assert(base == start + seq![compare_line, jump_line]);
                assert(if_lines(cond@, bm, l, label@, n as nat) == wrap_if(
                    if_body_lines(bm, bm.len() as int, l),
                    right_text,
                    left_text,
                    target_text,
                ));
                assert(if_body_lines(bm, 0, l) == Ok::<Seq<Seq<char>>, CodegenFault>(seq![]));
                assert(base =~= base + Seq::<Seq<char>>::empty());
                let mut k: usize = 0;
                while k < body.len()
                    invariant
                        k <= body@.len(),
                        frame.wf(),
                        l == frame.model(),
                        bm == stmts_model(body@),
                        bm.len() == body@.len(),
                        forall|j: int| 0 <= j < body@.len() ==> bm[j] == #[trigger] body@[j]@,
                        if_body_lines(bm, k as int, l) is Ok,
                        gen.lines() == base + if_body_lines(bm, k as int, l)->Ok_0,
                        start == old(gen).lines(),
                        base == start + seq![compare_line, jump_line],
                        compare_line == "cmpl "@ + right_text + ", "@ + left_text,
                        jump_line == "jle "@ + target_text,
                        target@ == target_text,
                        if_lines(cond@, bm, l, label@, n as nat) == wrap_if(
                            if_body_lines(bm, bm.len() as int, l),
                            right_text,
                            left_text,
                            target_text,
                        ),
                    decreases body@.len() - k,
                {
                    assert(bm[k as int] == body@[k as int]@);
                    match &body[k] {
                        Statement::Expression(e) => {
                            let ghost before = gen.lines();
                            match effect(gen, frame, e) {
                                Ok(()) => {},
                                Err(err) => {
                                    proof {
                                        lemma_if_body_error_stays(bm, k + 1, bm.len() as int, l);
                                    }
                                    return Err(err);
                                },
                            }
                            proof {
                                let prev = if_body_lines(bm, k as int, l)->Ok_0;
                                let more = effect_lines(e@, l)->Ok_0;
                                assert(gen.lines() =~= base + (prev + more));
                            }
                        },
                        _ => {
                            proof {
                                lemma_if_body_error_stays(bm, k + 1, bm.len() as int, l);
                            }
                            return Err(CodegenError::Unsupported(Construct::StatementInIf));
                        },
                    }
                    k += 1;
                }
                let ghost bl = if_body_lines(bm, bm.len() as int, l)->Ok_0;
                let mut end = String::from_str(target.as_str());
                end.append(":");
                let ghost end_line = end@;
                gen.push_line(end);
                assert(gen.lines() =~= start + (seq![compare_line, jump_line] + bl + seq![end_line]));
                Ok(())
            },
        },
        _ => Err(CodegenError::Unsupported(Construct::ConditionShape)),
    }
}

/// Emits one statement of a function body; `n` counts the `if` statements
/// before it.
fn emit_statement(
    gen: &mut Generator,
    frame: &StackLayout,
    s: &Statement,
    label: &str,
    n: u64,
) -> (r: Result<(), CodegenError>)
    requires
        frame.wf(),
    ensures
        emitted(r, stmt_lines(s@, frame.model(), label@, n as nat), old(gen).lines(), final(gen).lines()),
{
    match s {
        Statement::Declaration { name, expression } => match frame.slot(name) {
            None => Err(CodegenError::Type(TypeError::UnknownVariable(String::from_str(name)))),
            Some((off, t)) => store(gen, frame, expression, off, t),
        },
        Statement::Expression(e) => effect(gen, frame, e),
        Statement::ControlFlow(ControlFlow::If { condition, body }) => emit_if(
            gen,
            frame,
            condition,
            body,
            label,
            n,
        ),
    }
}

/// The frame size for locals that end at `top`, rounded up to the stack
/// alignment.
fn frame_size(top: u64) -> (r: u64)
    requires
        top <= FRAME_LIMIT,
    ensures
        r == align_up(top as nat),
{
    assert((top + 15) / 16 * 16 <= top + 15) by (nonlinear_arith);
    (top + (STACK_ALIGN - 1)) / STACK_ALIGN * STACK_ALIGN
}

/// Emits a whole function.
#[verifier::rlimit(40)]
fn emit_function(gen: &mut Generator, f: &Function) -> (r: Result<(), CodegenError>)
    ensures
        emitted(r, function_lines(f@), old(gen).lines(), final(gen).lines()),
{
    let ghost bm = stmts_model(f.body@);
    proof {
        lemma_stmts_model_index(f.body@);
    }
    let frame = match layout_function(&f.body) {
        Ok(l) => l,
        Err(e) => {
            return Err(e);
        },
    };
    let ghost l = frame.model();
    let is_main = same_text(f.name, "main");
    proof {
        reveal_strlit("main");
    }
    let label = if is_main {
        String::from_str("main")
    } else {
        let mut s = String::from_str("deltafunc_");
        s.append(f.name);
        s
    };
    assert(label@ == function_label(f.name@));
    let ghost start = gen.lines();
    gen.label(label.as_str());
    let mut reserve = String::from_str("sub $");
    append_decimal(&mut reserve, frame_size(frame.top));
    reserve.append(", %rsp");
    let ghost reserve_line = reserve@;
    gen.push_line(reserve);
    let ghost base = gen.lines();
    assert(base == start + seq![label@ + ":"@, reserve_line]);
    assert(base =~= base + Seq::<Seq<char>>::empty());
    proof {
        lemma_layout_counts(bm, bm.len() as int);
    }
    let mut in_scope = StackLayout { bindings: Vec::new(), offsets: Vec::new(), top: frame.top };
    assert(in_scope.model().env =~= scope(l, 0).env);
    assert(in_scope.model().offsets =~= scope(l, 0).offsets);
    let mut declared: usize = 0;
    let mut n: usize = 0;
    let mut k: usize = 0;
    while k < f.body.len()
        invariant
            k <= f.body@.len(),
            n <= k,
            frame.wf(),
            in_scope.wf(),
            declared == declared_upto(bm, k as int),
            l.env.len() == declared_upto(bm, bm.len() as int),
            l.offsets.len() == l.env.len(),
            in_scope.model() == scope(l, declared as nat),
            l == frame.model(),
            bm == stmts_model(f.body@),
            bm.len() == f.body@.len(),
            forall|j: int| 0 <= j < f.body@.len() ==> bm[j] == #[trigger] f.body@[j]@,
            layout(bm) == Ok::<Layout, CodegenFault>(l),
            f@.body == bm,
            label@ == function_label(f.name@),
            body_lines_upto(bm, k as int, l, label@) is Ok,
            body_lines_upto(bm, k as int, l, label@)->Ok_0.1 == n,
            gen.lines() == base + body_lines_upto(bm, k as int, l, label@)->Ok_0.0,
        decreases f.body@.len() - k,
    {
        assert(bm[k as int] == f.body@[k as int]@);
        let s = &f.body[k];
        match s {
            Statement::Declaration { .. } => {
                proof {
                    lemma_declared_monotone(bm, k + 1, bm.len() as int);
                }
                let ghost before = in_scope.model();
                let b = &frame.bindings[declared];
                in_scope.bindings.push(Binding { name: b.name, ty: b.ty });
                in_scope.offsets.push(frame.offsets[declared]);
                declared += 1;
                proof {
                    assert(in_scope.model().env =~= scope(l, declared as nat).env);
                    assert(in_scope.model().offsets =~= scope(l, declared as nat).offsets);
                }
            },
            _ => {},
        }
        match emit_statement(gen, &in_scope, s, label.as_str(), n as u64) {
            Ok(()) => {},
            Err(e) => {
                proof {
                    lemma_body_error_stays(bm, k + 1, bm.len() as int, l, label@);
                }
                return Err(e);
            },
        }
        proof {
            let prev = body_lines_upto(bm, k as int, l, label@)->Ok_0.0;
            let more = stmt_lines(s@, scope(l, declared as nat), label@, n as nat)->Ok_0;
            assert(gen.lines() =~= base + (prev + more));
        }
        match s {
            Statement::ControlFlow(_) => {
                n += 1;
            },
            _ => {},
        }
        k += 1;
    }
    let ghost bl = body_lines_upto(bm, bm.len() as int, l, label@)->Ok_0.0;
    let ghost middle = gen.lines();
    match frame.slot("a") {
        Some((off, _)) => {
            gen.raw("mov $format, %rdi");
            let mut load = String::from_str("mov ");
            append_slot(&mut load, off);
            load.append(", %rsi");
            let ghost load_line = load@;
            gen.push_line(load);
            gen.raw("xor %rax, %rax");
            gen.raw("call printf");
            assert(gen.lines() =~= middle + seq![
                "mov $format, %rdi"@,
                load_line,
                "xor %rax, %rax"@,
                "call printf"@,
            ]);
        },
        None => {
            assert(gen.lines() =~= middle + Seq::<Seq<char>>::empty());
        },
    }
    let ghost printed = gen.lines();
    assert(printed == middle + print_lines(l));
    if is_main {
        gen.exit(0);
        assert(gen.lines() =~= printed + seq!["mov $"@ + decimal(0) + ", %rdi"@, "call exit"@]);
    } else {
        assert(gen.lines() =~= printed + Seq::<Seq<char>>::empty());
    }
    assert(gen.lines() == printed + exit_lines(f.name@));
    assert(function_lines(f@) is Ok);
    assert(gen.lines() =~= start + function_lines(f@)->Ok_0);
    Ok(())
}

/// `r` is what generating assembly for a module with model `m` gives: its
/// text, or the error that stops it.
pub open spec fn generated(m: ModuleModel, r: Result<String, CodegenError>) -> bool {
    match assembly(m) {
        Ok(text) => r is Ok && r->Ok_0@ == text,
        Err(f) => r is Err && r->Err_0@ == f,
    }
}

/// The assembly text of a module: the header, each function in order (its
/// frame reservation, its statements, the print of its local `a` if it has
/// one and, for `main`, the exit), and the data of the format string.
pub fn generate(module: &Module) -> (r: Result<String, CodegenError>)
    ensures
        generated(module@, r),
{
    let ghost fs = module@.functions;
    let mut gen = Generator::new();
    gen.raw(".global main");
    gen.raw(".text");
    let ghost base = gen.lines();
    assert(base =~= seq![".global main"@, ".text"@] + Seq::<Seq<char>>::empty());
    let mut k: usize = 0;
    while k < module.functions.len()
        invariant
            k <= module.functions@.len(),
            fs == module@.functions,
            fs.len() == module.functions@.len(),
            functions_lines(fs, k as int) is Ok,
            gen.lines() == seq![".global main"@, ".text"@] + functions_lines(fs, k as int)->Ok_0,
        decreases module.functions@.len() - k,
    {
        assert(fs[k as int] == module.functions@[k as int]@);
        let ghost before = functions_lines(fs, k as int)->Ok_0;
        match emit_function(&mut gen, &module.functions[k]) {
            Ok(()) => {},
            Err(e) => {
                proof {
                    lemma_functions_error_stays(fs, k + 1, fs.len() as int);
                }
                return Err(e);
            },
        }
        assert(gen.lines() =~= seq![".global main"@, ".text"@] + functions_lines(
            fs,
            k + 1,
        )->Ok_0);
        k += 1;
    }
    gen.label_with_value("format", ".asciz \"Value: %d\\n\"");
    let ghost ls = functions_lines(fs, fs.len() as int)->Ok_0;
    assert(gen.lines() =~= seq![".global main"@, ".text"@] + ls + seq![
        "format"@ + ": "@ + format_data(),
    ]);
    Ok(gen.full_raw())
}

/// Generating assembly twice from one module, with no change to it in
/// between, gives byte-identical text, or the same error both times.
pub proof fn generation_is_deterministic(
    m: Module,
    first: Result<String, CodegenError>,
    second: Result<String, CodegenError>,
)
    requires
        generated(m@, first),
        generated(m@, second),
    ensures
        first is Ok <==> second is Ok,
        first is Ok ==> first->Ok_0@ == second->Ok_0@,
        first is Err ==> first->Err_0@ == second->Err_0@,
{
}

/// The name that a statement declares (empty for other statements).
pub open spec fn decl_name(s: StmtModel) -> Seq<char> {
    match s {
        StmtModel::Declaration(name, _) => name,
        _ => seq![],
    }
}

/// The text of the literal that a statement declares its local from.
pub open spec fn decl_text(s: StmtModel) -> Seq<char> {
    match s {
        StmtModel::Declaration(_, ExprModel::Literal(text, _)) => text,
        _ => seq![],
    }
}

/// The type of the literal that a statement declares its local from.
pub open spec fn decl_ty(s: StmtModel) -> PrimitiveTy {
    match s {
        StmtModel::Declaration(_, ExprModel::Literal(_, t)) => t,
        _ => PrimitiveTy::Void,
    }
}

/// A literal that can be stored: a number that fits in 32 bits, or `true`
/// or `false`.
pub open spec fn storable_literal(text: Seq<char>, t: PrimitiveTy) -> bool {
    ||| t == PrimitiveTy::Number && number_value(text) is Some
    ||| t == PrimitiveTy::Boolean && (text == "true"@ || text == "false"@)
}

/// A body that only declares locals, each from a storable literal (names
/// may repeat).
pub open spec fn literal_declarations(body: Seq<StmtModel>) -> bool {
    forall|k: int|
        0 <= k < body.len() ==> (#[trigger] body[k]) == StmtModel::Declaration(
            decl_name(body[k]),
            ExprModel::Literal(decl_text(body[k]), decl_ty(body[k])),
        ) && storable_literal(decl_text(body[k]), decl_ty(body[k]))
}

/// The offset of the `i`-th local of such a body: the return slot and the
/// widths of the locals before it.
pub open spec fn decl_offset(body: Seq<StmtModel>, i: int) -> nat
    decreases i,
{
    if i <= 0 || i > body.len() {
        RETURN_SLOT as nat
    } else {
        decl_offset(body, i - 1) + width(decl_ty(body[i - 1]))
    }
}

/// The layout of the first `k` declarations of such a body.
pub open spec fn literal_layout(body: Seq<StmtModel>, k: int) -> Layout {
    Layout {
        env: Seq::new(k as nat, |i: int| (decl_name(body[i]), decl_ty(body[i]))),
        offsets: Seq::new(k as nat, |i: int| decl_offset(body, i)),
        top: decl_offset(body, k),
    }
}

/// The store of the `i`-th declaration of such a body.
pub open spec fn literal_store(body: Seq<StmtModel>, i: int) -> Seq<char> {
    let text = decl_text(body[i]);
    let slot = slot_ref(decl_offset(body, i));
    if decl_ty(body[i]) == PrimitiveTy::Number {
        "movl $"@ + decimal(number_value(text)->0) + ", "@ + slot
    } else {
        "movb $"@ + decimal(if text == "true"@ { 1 } else { 0 }) + ", "@ + slot
    }
}

proof fn lemma_offset_monotone(body: Seq<StmtModel>, j: int, k: int)
    requires
        0 <= j <= k <= body.len(),
    ensures
        decl_offset(body, j) <= decl_offset(body, k),
    decreases k - j,
{
    if j < k {
        lemma_offset_monotone(body, j, k - 1);
    }
}

proof fn lemma_literal_layout(body: Seq<StmtModel>, k: int)
    requires
        literal_declarations(body),
        0 <= k <= body.len(),
        decl_offset(body, body.len() as int) <= FRAME_LIMIT,
    ensures
        layout_upto(body, k) == Ok::<Layout, CodegenFault>(literal_layout(body, k)),
        declared_upto(body, k) == k,
    decreases k,
{
    if k > 0 {
        lemma_literal_layout(body, k - 1);
        lemma_offset_monotone(body, k, body.len() as int);
        let prev = literal_layout(body, k - 1);
        let s = body[k - 1];
        assert(s == StmtModel::Declaration(
            decl_name(s),
            ExprModel::Literal(decl_text(s), decl_ty(s)),
        ));
        assert(prev.env.push((decl_name(s), decl_ty(s))) =~= literal_layout(body, k).env);
        assert(prev.offsets.push(prev.top) =~= literal_layout(body, k).offsets);
    } else {
        assert(literal_layout(body, 0).env =~= Seq::<(Seq<char>, PrimitiveTy)>::empty());
        assert(literal_layout(body, 0).offsets =~= Seq::<nat>::empty());
    }
}

proof fn lemma_literal_stores(body: Seq<StmtModel>, k: int, fname: Seq<char>)
    requires
        literal_declarations(body),
        0 <= k <= body.len(),
        decl_offset(body, body.len() as int) <= FRAME_LIMIT,
    ensures
        body_lines_upto(body, k, literal_layout(body, body.len() as int), fname) == Ok::<
            (Seq<Seq<char>>, nat),
            CodegenFault,
        >((Seq::new(k as nat, |i: int| literal_store(body, i)), 0)),
    decreases k,
{
    let l = literal_layout(body, body.len() as int);
    if k > 0 {
        lemma_literal_stores(body, k - 1, fname);
        lemma_literal_layout(body, k);
        let s = body[k - 1];
        assert(s == StmtModel::Declaration(
            decl_name(s),
            ExprModel::Literal(decl_text(s), decl_ty(s)),
        ));
        let sc = scope(l, k as nat);
        assert(sc.env.last() == (decl_name(s), decl_ty(s)));
        assert(last_index(sc.env, decl_name(s)) == Some(k - 1));
        assert(slot_of(sc, decl_name(s)) == Some((decl_offset(body, k - 1), decl_ty(s))));
        assert(store_lines(ExprModel::Literal(decl_text(s), decl_ty(s)), sc, decl_offset(body, k - 1), decl_ty(s))
            == Ok::<Seq<Seq<char>>, CodegenFault>(seq![literal_store(body, k - 1)]));
        assert(Seq::new((k - 1) as nat, |i: int| literal_store(body, i)) + seq![
            literal_store(body, k - 1),
        ] =~= Seq::new(k as nat, |i: int| literal_store(body, i)));
    } else {
        assert(Seq::new(0, |i: int| literal_store(body, i)) =~= Seq::<Seq<char>>::empty());
    }
}

/// A function whose body only declares locals from literals (`Number` ones
/// 4 bytes wide, `Boolean` ones 1 byte; names may repeat) compiles to: its
/// label; the reservation of a frame that is a multiple of the stack
/// alignment and holds the return slot and every local; exactly one store
/// per declaration, in order, each into its own slot, the slots following
/// one another from the return slot on; then the print (only if a local is
/// `a`) and the exit (only for `main`).
pub proof fn literal_locals_frame(f: FunctionModel)
    requires
        literal_declarations(f.body),
        decl_offset(f.body, f.body.len() as int) <= FRAME_LIMIT,
    ensures
        ({
            let n = f.body.len() as int;
            let l = literal_layout(f.body, n);
            let size = align_up(decl_offset(f.body, n));
            &&& size % (STACK_ALIGN as nat) == 0
            &&& size >= decl_offset(f.body, n)
            &&& decl_offset(f.body, 0) == RETURN_SLOT
            &&& forall|i: int|
                0 <= i < n ==> #[trigger] decl_offset(f.body, i + 1) == decl_offset(f.body, i)
                    + width(decl_ty(f.body[i]))
            &&& function_lines(f) == Ok::<Seq<Seq<char>>, CodegenFault>(
                seq![function_label(f.name) + ":"@, "sub $"@ + decimal(size) + ", %rsp"@]
                    + Seq::new(n as nat, |i: int| literal_store(f.body, i)) + print_lines(l)
                    + exit_lines(f.name),
            )
        }),
{
    let n = f.body.len() as int;
    lemma_literal_layout(f.body, n);
    lemma_literal_stores(f.body, n, function_label(f.name));
    let top = decl_offset(f.body, n) as int;
    assert(((top + 15) / 16) * 16 >= top) by (nonlinear_arith);
    assert((((top + 15) / 16) * 16) % 16 == 0) by (nonlinear_arith);
}

} // verus!
