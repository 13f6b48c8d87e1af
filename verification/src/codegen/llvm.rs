//! The reference backend: a textual LLVM-IR emitter.
//!
//! The emitter mints globally unique synthetic registers and labels from two
//! monotonically increasing counters, and keeps a stack of open-loop labels
//! so that a loop's closing jump returns to its own condition label even
//! when loops nest. Every fragment of emitted text is pinned down, character
//! for character, by [`llvm_render`].

use vstd::prelude::*;
use vstd::string::StringExecFns;

use super::emitter::{
    EMIT_LIMIT, EmitOp, Emitter, begin_labels, open_labels, transcript_wf,
};

verus! {

/// The decimal digit character for one digit value.
pub open spec fn digit_char(d: int) -> char {
    if d == 0 {
        '0'
    } else if d == 1 {
        '1'
    } else if d == 2 {
        '2'
    } else if d == 3 {
        '3'
    } else if d == 4 {
        '4'
    } else if d == 5 {
        '5'
    } else if d == 6 {
        '6'
    } else if d == 7 {
        '7'
    } else if d == 8 {
        '8'
    } else {
        '9'
    }
}

/// The decimal digits of a nonnegative number, most significant first.
pub open spec fn dec_chars(n: int) -> Seq<char>
    decreases n,
{
    if n < 10 {
        seq![digit_char(n)]
    } else {
        dec_chars(n / 10).push(digit_char(n % 10))
    }
}

/// The decimal rendering of a signed number.
pub open spec fn int_chars(n: int) -> Seq<char> {
    if n < 0 {
        seq!['-'] + dec_chars(-n)
    } else {
        dec_chars(n)
    }
}

fn digit_str(d: u64) -> (r: &'static str)
    requires
        d < 10,
    ensures
        r@ == seq![digit_char(d as int)],
{
    proof {
        reveal_strlit("0");
        reveal_strlit("1");
        reveal_strlit("2");
        reveal_strlit("3");
        reveal_strlit("4");
        reveal_strlit("5");
        reveal_strlit("6");
        reveal_strlit("7");
        reveal_strlit("8");
        reveal_strlit("9");
    }
    if d == 0 {
        "0"
    } else if d == 1 {
        "1"
    } else if d == 2 {
        "2"
    } else if d == 3 {
        "3"
    } else if d == 4 {
        "4"
    } else if d == 5 {
        "5"
    } else if d == 6 {
        "6"
    } else if d == 7 {
        "7"
    } else if d == 8 {
        "8"
    } else {
        "9"
    }
}

/// Renders a nonnegative number in decimal.
fn dec_string(n: u64) -> (r: String)
    ensures
        r@ == dec_chars(n as int),
    decreases n,
{
    if n < 10 {
        String::from_str(digit_str(n))
    } else {
        let s = dec_string(n / 10);
        let r = s.concat(digit_str(n % 10));
        proof {
            assert(dec_chars(n as int / 10) + seq![digit_char(n as int % 10)] =~= dec_chars(
                n as int / 10,
            ).push(digit_char(n as int % 10)));
        }
        r
    }
}

/// Renders a signed number in decimal.
fn int_string(n: i32) -> (r: String)
    ensures
        r@ == int_chars(n as int),
{
    if n < 0 {
        let m: u64 = (-(n as i64)) as u64;
        proof {
            reveal_strlit("-");
            assert("-"@ =~= seq!['-']);
        }
        String::from_str("-").concat(dec_string(m).as_str())
    } else {
        dec_string(n as u64)
    }
}

/// How many synthetic registers each operation consumes.
pub open spec fn op_var_cost(op: EmitOp) -> int {
    match op {
        EmitOp::MovePtr(_) => 2,
        EmitOp::AddCell(_) => 3,
        EmitOp::CallPutchar => 3,
        EmitOp::CallGetchar => 2,
        EmitOp::LoopBegin(_) => 3,
        EmitOp::LoopEnd(_) => 0,
    }
}

/// The register counter's value after a transcript, starting from 1.
pub open spec fn llvm_var(ops: Seq<EmitOp>) -> int
    decreases ops.len(),
{
    if ops.len() == 0 {
        1
    } else {
        llvm_var(ops.drop_last()) + op_var_cost(ops.last())
    }
}

proof fn lemma_llvm_var_bound(ops: Seq<EmitOp>)
    ensures
        1 <= llvm_var(ops) <= 1 + 3 * ops.len(),
    decreases ops.len(),
{
    if ops.len() > 0 {
        lemma_llvm_var_bound(ops.drop_last());
    }
}

proof fn lemma_begin_labels_len(ops: Seq<EmitOp>)
    ensures
        begin_labels(ops).len() <= ops.len(),
    decreases ops.len(),
{
    if ops.len() > 0 {
        lemma_begin_labels_len(ops.drop_last());
    }
}

/// The text of a pointer move, with `v` the first fresh register.
pub open spec fn move_ptr_text(v: int, off: int) -> Seq<char> {
    "\n  ; emit_move_ptr("@ + int_chars(off) + ")\n  %"@ + dec_chars(v)
        + " = load i32*, i32** %ptr, align 8\n  %"@ + dec_chars(v + 1)
        + " = getelementptr inbounds i32, i32* %"@ + dec_chars(v) + ", i32 "@ + int_chars(off)
        + "\n  store i32* %"@ + dec_chars(v + 1) + ", i32** %ptr, align 8"@
}

/// The text of a cell update, with `v` the first fresh register.
pub open spec fn add_text(v: int, n: int) -> Seq<char> {
    "\n  ; emit_add("@ + int_chars(n) + ")\n  %"@ + dec_chars(v)
        + " = load i32*, i32** %ptr, align 8\n  %"@ + dec_chars(v + 1) + " = load i32, i32* %"@
        + dec_chars(v) + ", align 4\n  %"@ + dec_chars(v + 2) + " = add nsw i32 %"@ + dec_chars(
        v + 1,
    ) + ", "@ + int_chars(n) + "\n  store i32 %"@ + dec_chars(v + 2) + ", i32* %"@ + dec_chars(v)
        + ", align 4"@
}

/// The text of an output call, with `v` the first fresh register.
pub open spec fn putchar_text(v: int) -> Seq<char> {
    "\n  ; emit_call_putchar()\n  %"@ + dec_chars(v) + " = load i32*, i32** %ptr, align 8\n  %"@
        + dec_chars(v + 1) + " = load i32, i32* %"@ + dec_chars(v) + ", align 4\n  %"@
        + dec_chars(v + 2) + " = call i32 @putchar(i32 %"@ + dec_chars(v + 1) + ")"@
}

/// The text of an input call, with `v` the first fresh register.
pub open spec fn getchar_text(v: int) -> Seq<char> {
    "\n  ; emit_call_getchar()\n  %"@ + dec_chars(v) + " = load i32*, i32** %ptr, align 8\n  %"@
        + dec_chars(v + 1) + " = call i32 @getchar()\n  store i32 %"@ + dec_chars(v + 1)
        + ", i32* %"@ + dec_chars(v) + ", align 4"@
}

/// The text that opens a loop, with `v` the first fresh register and `l`
/// the loop's label.
pub open spec fn loop_begin_text(v: int, l: int) -> Seq<char> {
    "\n  ; emit_loop_begin()\n  br label %loop"@ + dec_chars(l) + "_cond\nloop"@ + dec_chars(l)
        + "_cond:\n  %"@ + dec_chars(v) + " = load i32*, i32** %ptr, align 8\n  %"@ + dec_chars(
        v + 1,
    ) + " = load i32, i32* %"@ + dec_chars(v) + ", align 4\n  %"@ + dec_chars(v + 2)
        + " = icmp ne i32 %"@ + dec_chars(v + 1) + ", 0\n  br i1 %"@ + dec_chars(v + 2)
        + ", label %loop"@ + dec_chars(l) + "_body, label %loop"@ + dec_chars(l)
        + "_end\nloop"@ + dec_chars(l) + "_body:"@
}

/// The text that closes the loop labelled `l`.
pub open spec fn loop_end_text(l: int) -> Seq<char> {
    "\n  ; emit_loop_end()\n  br label %loop"@ + dec_chars(l) + "_cond\nloop"@ + dec_chars(l)
        + "_end:"@
}

/// The fixed program header: allocate and zero the cell array and set the
/// pointer variable to its start.
pub open spec fn llvm_header_text() -> Seq<char> {
    "; emit_header()\ndefine i32 @main() {\n  %heap_i8 = call i8* @calloc(i64 30000, i64 4)\n  %heap_i32 = bitcast i8* %heap_i8 to i32*\n  %heap = alloca i32*, align 8\n  %ptr = alloca i32*, align 8\n  store i32* %heap_i32, i32** %heap, align 8\n  store i32* %heap_i32, i32** %ptr, align 8"@
}

/// The program footer, with `v` the first fresh register: free the cell
/// array, return, and declare the external primitives.
pub open spec fn llvm_footer_text(v: int) -> Seq<char> {
    "\n  ; emit_footer()\n  %"@ + dec_chars(v) + " = load i32*, i32** %heap, align 8\n\n  %"@
        + dec_chars(v + 1) + " = bitcast i32* %"@ + dec_chars(v)
        + " to i8*\n  call void @free(i8* %"@ + dec_chars(v + 1)
        + ")\n  ret i32 0\n}\n\ndeclare i8* @calloc(i64, i64)\ndeclare void @free(i8*)\ndeclare i32 @getchar()\ndeclare i32 @putchar(i32)"@
}

/// The text of one operation, with `v` the register counter before it.
pub open spec fn llvm_op_text(op: EmitOp, v: int) -> Seq<char> {
    match op {
        EmitOp::MovePtr(off) => move_ptr_text(v, off),
        EmitOp::AddCell(n) => add_text(v, n),
        EmitOp::CallPutchar => putchar_text(v),
        EmitOp::CallGetchar => getchar_text(v),
        EmitOp::LoopBegin(l) => loop_begin_text(v, l),
        EmitOp::LoopEnd(l) => loop_end_text(l),
    }
}

/// The text of a whole transcript: each operation's text, in order, under
/// the register counter as it stood when the operation was emitted.
pub open spec fn llvm_render(ops: Seq<EmitOp>) -> Seq<char>
    decreases ops.len(),
{
    if ops.len() == 0 {
        Seq::empty()
    } else {
        llvm_render(ops.drop_last()) + llvm_op_text(ops.last(), llvm_var(ops.drop_last()))
    }
}

/// The labels on the emitter's loop stack, as mathematical integers.
pub open spec fn stack_labels(s: Seq<u32>) -> Seq<int> {
    s.map_values(|x: u32| x as int)
}

/// The LLVM-IR emitter: a register counter, a label counter, and the stack
/// of open-loop labels.
pub struct LLVM {
    variable_idx: u32,
    label_idx: u32,
    loop_stack: Vec<u32>,
    transcript: Ghost<Seq<EmitOp>>,
    emitted: Ghost<Seq<char>>,
}

impl LLVM {
    /// Creates an emitter with both counters at 1 and no open loops.
    pub fn new() -> (e: LLVM)
        ensures
            e.inv(),
            e.ops() == Seq::<EmitOp>::empty(),
            e.out() == Seq::<char>::empty(),
            e.next_label() == 1,
            transcript_wf(e.ops(), e.next_label()),
    {
        let e = LLVM {
            variable_idx: 1,
            label_idx: 1,
            loop_stack: Vec::new(),
            transcript: Ghost(Seq::empty()),
            emitted: Ghost(Seq::empty()),
        };
        proof {
            assert(stack_labels(e.loop_stack@) =~= open_labels(e.transcript@));
        }
        e
    }

    /// Everything the emitter has produced is exactly the rendering of its
    /// transcript, and its closing text is the footer at the current
    /// register counter.
    pub proof fn lemma_out_renders(&self)
        requires
            self.inv(),
        ensures
            self.out() == llvm_render(self.ops()),
            self.footer_text() == llvm_footer_text(llvm_var(self.ops())),
    {
    }

    /// Labels are minted consecutively: the next fresh label is always one
    /// more than the number of loops opened so far. With a fresh emitter
    /// the loops are thus numbered 1, 2, 3, … in order of opening, and each
    /// loop begin advances the label counter by exactly 1.
    pub proof fn lemma_labels_consecutive(&self)
        requires
            self.inv(),
        ensures
            self.next_label() == 1 + begin_labels(self.ops()).len(),
    {
    }
}

impl Default for LLVM {
    /// The default emitter is a fresh one.
    fn default() -> (e: Self)
        ensures
            e.inv(),
            e.ops() == Seq::<EmitOp>::empty(),
            e.out() == Seq::<char>::empty(),
            e.next_label() == 1,
    {
        LLVM::new()
    }
}

impl Emitter for LLVM {
    closed spec fn ops(&self) -> Seq<EmitOp> {
        self.transcript@
    }

    closed spec fn next_label(&self) -> int {
        self.label_idx as int
    }

    closed spec fn out(&self) -> Seq<char> {
        self.emitted@
    }

    closed spec fn inv(&self) -> bool {
        &&& self.variable_idx as int == llvm_var(self.transcript@)
        &&& self.label_idx as int == 1 + begin_labels(self.transcript@).len()
        &&& stack_labels(self.loop_stack@) == open_labels(self.transcript@)
        &&& self.emitted@ == llvm_render(self.transcript@)
        &&& self.transcript@.len() <= EMIT_LIMIT
    }

    open spec fn header_text() -> Seq<char> {
        llvm_header_text()
    }

    closed spec fn footer_text(&self) -> Seq<char> {
        llvm_footer_text(self.variable_idx as int)
    }

    fn emit_move_ptr(&mut self, offset: i32) -> (s: String) {
        proof {
            lemma_llvm_var_bound(self.transcript@);
        }
        let v = self.variable_idx;
        let s = String::from_str("\n  ; emit_move_ptr(").concat(int_string(offset).as_str())
            .concat(")\n  %").concat(dec_string(v as u64).as_str()).concat(
            " = load i32*, i32** %ptr, align 8\n  %",
        ).concat(dec_string((v + 1) as u64).as_str()).concat(
            " = getelementptr inbounds i32, i32* %",
        ).concat(dec_string(v as u64).as_str()).concat(", i32 ").concat(
            int_string(offset).as_str(),
        ).concat("\n  store i32* %").concat(dec_string((v + 1) as u64).as_str()).concat(
            ", i32** %ptr, align 8",
        );
        self.variable_idx = v + 2;
        let ghost op = EmitOp::MovePtr(offset as int);
        proof {
            assert(self.transcript@.push(op).drop_last() =~= self.transcript@);
            super::emitter::lemma_wf_push_simple(self.transcript@, 0, op);
        }
        self.transcript = Ghost(self.transcript@.push(op));
        self.emitted = Ghost(self.emitted@ + s@);
        s
    }

    fn emit_add(&mut self, n: i32) -> (s: String) {
        proof {
            lemma_llvm_var_bound(self.transcript@);
        }
        let v = self.variable_idx;
        let s = String::from_str("\n  ; emit_add(").concat(int_string(n).as_str()).concat(
            ")\n  %",
        ).concat(dec_string(v as u64).as_str()).concat(
            " = load i32*, i32** %ptr, align 8\n  %",
        ).concat(dec_string((v + 1) as u64).as_str()).concat(" = load i32, i32* %").concat(
            dec_string(v as u64).as_str(),
        ).concat(", align 4\n  %").concat(dec_string((v + 2) as u64).as_str()).concat(
            " = add nsw i32 %",
        ).concat(dec_string((v + 1) as u64).as_str()).concat(", ").concat(
            int_string(n).as_str(),
        ).concat("\n  store i32 %").concat(dec_string((v + 2) as u64).as_str()).concat(
            ", i32* %",
        ).concat(dec_string(v as u64).as_str()).concat(", align 4");
        self.variable_idx = v + 3;
        let ghost op = EmitOp::AddCell(n as int);
        proof {
            assert(self.transcript@.push(op).drop_last() =~= self.transcript@);
            super::emitter::lemma_wf_push_simple(self.transcript@, 0, op);
        }
        self.transcript = Ghost(self.transcript@.push(op));
        self.emitted = Ghost(self.emitted@ + s@);
        s
    }

    fn emit_call_putchar(&mut self) -> (s: String) {
        proof {
            lemma_llvm_var_bound(self.transcript@);
        }
        let v = self.variable_idx;
        let s = String::from_str("\n  ; emit_call_putchar()\n  %").concat(
            dec_string(v as u64).as_str(),
        ).concat(" = load i32*, i32** %ptr, align 8\n  %").concat(
            dec_string((v + 1) as u64).as_str(),
        ).concat(" = load i32, i32* %").concat(dec_string(v as u64).as_str()).concat(
            ", align 4\n  %",
        ).concat(dec_string((v + 2) as u64).as_str()).concat(
            " = call i32 @putchar(i32 %",
        ).concat(dec_string((v + 1) as u64).as_str()).concat(")");
        self.variable_idx = v + 3;
        let ghost op = EmitOp::CallPutchar;
        proof {
            assert(self.transcript@.push(op).drop_last() =~= self.transcript@);
            super::emitter::lemma_wf_push_simple(self.transcript@, 0, op);
        }
        self.transcript = Ghost(self.transcript@.push(op));
        self.emitted = Ghost(self.emitted@ + s@);
        s
    }

    fn emit_call_getchar(&mut self) -> (s: String) {
        proof {
            lemma_llvm_var_bound(self.transcript@);
        }
        let v = self.variable_idx;
        let s = String::from_str("\n  ; emit_call_getchar()\n  %").concat(
            dec_string(v as u64).as_str(),
        ).concat(" = load i32*, i32** %ptr, align 8\n  %").concat(
            dec_string((v + 1) as u64).as_str(),
        ).concat(" = call i32 @getchar()\n  store i32 %").concat(
            dec_string((v + 1) as u64).as_str(),
        ).concat(", i32* %").concat(dec_string(v as u64).as_str()).concat(", align 4");
        self.variable_idx = v + 2;
        let ghost op = EmitOp::CallGetchar;
        proof {
            assert(self.transcript@.push(op).drop_last() =~= self.transcript@);
            super::emitter::lemma_wf_push_simple(self.transcript@, 0, op);
        }
        self.transcript = Ghost(self.transcript@.push(op));
        self.emitted = Ghost(self.emitted@ + s@);
        s
    }

    fn emit_loop_begin(&mut self) -> (s: String) {
        proof {
            lemma_llvm_var_bound(self.transcript@);
            lemma_begin_labels_len(self.transcript@);
        }
        let v = self.variable_idx;
        let lbl = self.label_idx;
        let s = String::from_str("\n  ; emit_loop_begin()\n  br label %loop").concat(
            dec_string(lbl as u64).as_str(),
        ).concat("_cond\nloop").concat(dec_string(lbl as u64).as_str()).concat(
            "_cond:\n  %",
        ).concat(dec_string(v as u64).as_str()).concat(
            " = load i32*, i32** %ptr, align 8\n  %",
        ).concat(dec_string((v + 1) as u64).as_str()).concat(" = load i32, i32* %").concat(
            dec_string(v as u64).as_str(),
        ).concat(", align 4\n  %").concat(dec_string((v + 2) as u64).as_str()).concat(
            " = icmp ne i32 %",
        ).concat(dec_string((v + 1) as u64).as_str()).concat(", 0\n  br i1 %").concat(
            dec_string((v + 2) as u64).as_str(),
        ).concat(", label %loop").concat(dec_string(lbl as u64).as_str()).concat(
            "_body, label %loop",
        ).concat(dec_string(lbl as u64).as_str()).concat("_end\nloop").concat(
            dec_string(lbl as u64).as_str(),
        ).concat("_body:");
        self.loop_stack.push(lbl);
        self.variable_idx = v + 3;
        self.label_idx = lbl + 1;
        let ghost op = EmitOp::LoopBegin(lbl as int);
        proof {
            assert(self.transcript@.push(op).drop_last() =~= self.transcript@);
            super::emitter::lemma_wf_push_begin(self.transcript@, lbl as int, lbl as int + 1);
            assert(self.loop_stack@.drop_last() =~= old(self).loop_stack@);
            assert(stack_labels(self.loop_stack@) =~= stack_labels(old(self).loop_stack@).push(
                lbl as int,
            ));
        }
        self.transcript = Ghost(self.transcript@.push(op));
        self.emitted = Ghost(self.emitted@ + s@);
        s
    }

    fn emit_loop_end(&mut self) -> (s: String) {
        let popped = self.loop_stack.pop();
        match popped {
            Some(n) => {
                let s = String::from_str("\n  ; emit_loop_end()\n  br label %loop").concat(
                    dec_string(n as u64).as_str(),
                ).concat("_cond\nloop").concat(dec_string(n as u64).as_str()).concat("_end:");
                let ghost op = EmitOp::LoopEnd(n as int);
                proof {
                    assert(open_labels(old(self).transcript@).len() > 0);
                    assert(open_labels(old(self).transcript@).last() == n as int);
                    assert(self.transcript@.push(op).drop_last() =~= self.transcript@);
                    super::emitter::lemma_wf_push_end(self.transcript@, 0);
                    assert(stack_labels(self.loop_stack@) =~= stack_labels(
                        old(self).loop_stack@,
                    ).drop_last());
                }
                self.transcript = Ghost(self.transcript@.push(op));
                self.emitted = Ghost(self.emitted@ + s@);
                s
            },
            None => {
                proof {
                    assert(stack_labels(old(self).loop_stack@).len() == 0);
                    assert(self.emitted@ + Seq::<char>::empty() =~= self.emitted@);
                }
                String::new()
            },
        }
    }

    fn emit_header(&self) -> (s: String) {
        String::from_str(
            "; emit_header()\ndefine i32 @main() {\n  %heap_i8 = call i8* @calloc(i64 30000, i64 4)\n  %heap_i32 = bitcast i8* %heap_i8 to i32*\n  %heap = alloca i32*, align 8\n  %ptr = alloca i32*, align 8\n  store i32* %heap_i32, i32** %heap, align 8\n  store i32* %heap_i32, i32** %ptr, align 8",
        )
    }

    fn emit_footer(&self) -> (s: String) {
        proof {
            lemma_llvm_var_bound(self.transcript@);
        }
        let v = self.variable_idx;
        String::from_str("\n  ; emit_footer()\n  %").concat(dec_string(v as u64).as_str())
            .concat(" = load i32*, i32** %heap, align 8\n\n  %").concat(
            dec_string((v + 1) as u64).as_str(),
        ).concat(" = bitcast i32* %").concat(dec_string(v as u64).as_str()).concat(
            " to i8*\n  call void @free(i8* %",
        ).concat(dec_string((v + 1) as u64).as_str()).concat(
            ")\n  ret i32 0\n}\n\ndeclare i8* @calloc(i64, i64)\ndeclare void @free(i8*)\ndeclare i32 @getchar()\ndeclare i32 @putchar(i32)",
        )
    }
}

} // verus!
