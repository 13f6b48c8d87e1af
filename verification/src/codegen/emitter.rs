//! The emitter abstraction: a capability interface of atomic
//! code-generation operations, with a ghost transcript of everything
//! emitted.

use vstd::prelude::*;

verus! {

/// The most operations any single generation run may emit. It keeps an
/// emitter's synthetic counters far away from their machine limits.
pub const EMIT_LIMIT: usize = 0x1000_0000;

/// One recorded code-generation operation. The loop operations carry the
/// synthetic label they open or close.
pub enum EmitOp {
    MovePtr(int),
    AddCell(int),
    CallPutchar,
    CallGetchar,
    LoopBegin(int),
    LoopEnd(int),
}

/// The label-free shape of an operation: what the code generator decides,
/// before an emitter picks concrete labels.
pub enum AbsOp {
    MovePtr(int),
    AddCell(int),
    CallPutchar,
    CallGetchar,
    LoopBegin,
    LoopEnd,
}

/// Erases the label of one operation.
pub open spec fn abs_op(op: EmitOp) -> AbsOp {
    match op {
        EmitOp::MovePtr(n) => AbsOp::MovePtr(n),
        EmitOp::AddCell(n) => AbsOp::AddCell(n),
        EmitOp::CallPutchar => AbsOp::CallPutchar,
        EmitOp::CallGetchar => AbsOp::CallGetchar,
        EmitOp::LoopBegin(_) => AbsOp::LoopBegin,
        EmitOp::LoopEnd(_) => AbsOp::LoopEnd,
    }
}

/// Erases the labels of a transcript.
pub open spec fn abs_ops(ops: Seq<EmitOp>) -> Seq<AbsOp> {
    ops.map_values(|o: EmitOp| abs_op(o))
}

/// The labels of the loops opened and not yet closed, innermost last.
pub open spec fn open_labels(ops: Seq<EmitOp>) -> Seq<int>
    decreases ops.len(),
{
    if ops.len() == 0 {
        Seq::empty()
    } else {
        let pre = open_labels(ops.drop_last());
        match ops.last() {
            EmitOp::LoopBegin(l) => pre.push(l),
            EmitOp::LoopEnd(_) => if pre.len() > 0 {
                pre.drop_last()
            } else {
                pre
            },
            _ => pre,
        }
    }
}

/// The labels of all `LoopBegin` operations, in order of emission.
pub open spec fn begin_labels(ops: Seq<EmitOp>) -> Seq<int>
    decreases ops.len(),
{
    if ops.len() == 0 {
        Seq::empty()
    } else {
        let pre = begin_labels(ops.drop_last());
        match ops.last() {
            EmitOp::LoopBegin(l) => pre.push(l),
            _ => pre,
        }
    }
}

/// Every `LoopEnd` in the transcript closes the loop most recently opened
/// and still open at that point.
pub open spec fn ends_matched(ops: Seq<EmitOp>) -> bool
    decreases ops.len(),
{
    if ops.len() == 0 {
        true
    } else {
        ends_matched(ops.drop_last()) && match ops.last() {
            EmitOp::LoopEnd(l) => open_labels(ops.drop_last()).len() > 0 && l == open_labels(
                ops.drop_last(),
            ).last(),
            _ => true,
        }
    }
}

/// A strictly increasing sequence of labels; in particular its entries are
/// pairwise distinct.
pub open spec fn strictly_increasing(s: Seq<int>) -> bool {
    forall|i: int, j: int| 0 <= i < j < s.len() ==> s[i] < s[j]
}

/// A well-formed transcript: loop ends pair with loop begins last-in
/// first-out, the labels of distinct loops are distinct (they are handed
/// out in increasing order), and all labels lie below the next fresh one.
pub open spec fn transcript_wf(ops: Seq<EmitOp>, next: int) -> bool {
    &&& ends_matched(ops)
    &&& strictly_increasing(begin_labels(ops))
    &&& forall|i: int| 0 <= i < begin_labels(ops).len() ==> begin_labels(ops)[i] < next
}

/// The capability interface the code generator drives. The mutating
/// operations update the emitter's internal counters, append to its
/// transcript, and return a fragment of emitted code; the header and footer
/// operations return fixed framing text without changing any state. Every
/// loop begin receives a fresh label, never seen before in the transcript,
/// and every loop end closes the most recently opened loop still open — a
/// loop end with no open loop is a no-op that emits empty text.
pub trait Emitter: Sized {
    /// The transcript of the operations emitted so far.
    spec fn ops(&self) -> Seq<EmitOp>;

    /// The next fresh loop label; every label in the transcript lies below
    /// it.
    spec fn next_label(&self) -> int;

    /// All text returned by the mutating operations so far, in order.
    spec fn out(&self) -> Seq<char>;

    /// The emitter's internal invariant.
    spec fn inv(&self) -> bool;

    /// The fixed text that opens every program.
    spec fn header_text() -> Seq<char>;

    /// The text that closes a program in the emitter's current state.
    spec fn footer_text(&self) -> Seq<char>;

    /// Emits a pointer move by `offset` cells.
    fn emit_move_ptr(&mut self, offset: i32) -> (s: String)
        requires
            old(self).inv(),
            old(self).ops().len() < EMIT_LIMIT,
        ensures
            final(self).inv(),
            final(self).ops() == old(self).ops().push(EmitOp::MovePtr(offset as int)),
            final(self).next_label() == old(self).next_label(),
            final(self).out() == old(self).out() + s@,
    ;

    /// Emits an addition of `n` to the current cell.
    fn emit_add(&mut self, n: i32) -> (s: String)
        requires
            old(self).inv(),
            old(self).ops().len() < EMIT_LIMIT,
        ensures
            final(self).inv(),
            final(self).ops() == old(self).ops().push(EmitOp::AddCell(n as int)),
            final(self).next_label() == old(self).next_label(),
            final(self).out() == old(self).out() + s@,
    ;

    /// Emits a call that writes the current cell to the output.
    fn emit_call_putchar(&mut self) -> (s: String)
        requires
            old(self).inv(),
            old(self).ops().len() < EMIT_LIMIT,
        ensures
            final(self).inv(),
            final(self).ops() == old(self).ops().push(EmitOp::CallPutchar),
            final(self).next_label() == old(self).next_label(),
            final(self).out() == old(self).out() + s@,
    ;

    /// Emits a call that reads one byte of input into the current cell.
    fn emit_call_getchar(&mut self) -> (s: String)
        requires
            old(self).inv(),
            old(self).ops().len() < EMIT_LIMIT,
        ensures
            final(self).inv(),
            final(self).ops() == old(self).ops().push(EmitOp::CallGetchar),
            final(self).next_label() == old(self).next_label(),
            final(self).out() == old(self).out() + s@,
    ;

    /// Opens a loop under a fresh label.
    fn emit_loop_begin(&mut self) -> (s: String)
        requires
            old(self).inv(),
            old(self).ops().len() < EMIT_LIMIT,
        ensures
            final(self).inv(),
            final(self).ops() == old(self).ops().push(EmitOp::LoopBegin(old(self).next_label())),
            final(self).next_label() > old(self).next_label(),
            final(self).out() == old(self).out() + s@,
    ;

    /// Closes the most recently opened loop still open; with no open loop
    /// this is a no-op that emits empty text.
    fn emit_loop_end(&mut self) -> (s: String)
        requires
            old(self).inv(),
            old(self).ops().len() < EMIT_LIMIT,
        ensures
            final(self).inv(),
            final(self).next_label() == old(self).next_label(),
            open_labels(old(self).ops()).len() > 0 ==> final(self).ops() == old(self).ops().push(
                EmitOp::LoopEnd(open_labels(old(self).ops()).last()),
            ),
            open_labels(old(self).ops()).len() == 0 ==> final(self).ops() == old(self).ops() && s@
                == Seq::<char>::empty(),
            final(self).out() == old(self).out() + s@,
    ;

    /// Returns the program's fixed opening text.
    fn emit_header(&self) -> (s: String)
        ensures
            s@ == Self::header_text(),
    ;

    /// Returns the program's closing text for the emitter's current state.
    fn emit_footer(&self) -> (s: String)
        requires
            self.inv(),
            self.ops().len() <= EMIT_LIMIT,
        ensures
            s@ == self.footer_text(),
    ;
}

/// Erasing labels commutes with appending one operation.
pub proof fn lemma_abs_ops_push(ops: Seq<EmitOp>, op: EmitOp)
    ensures
        abs_ops(ops.push(op)) == abs_ops(ops).push(abs_op(op)),
{
    assert(abs_ops(ops.push(op)) =~= abs_ops(ops).push(abs_op(op)));
}

/// Emitting an operation that is no loop begin or end leaves the open loops
/// and the begin labels alone, and keeps the transcript well formed.
pub proof fn lemma_wf_push_simple(ops: Seq<EmitOp>, next: int, op: EmitOp)
    requires
        !(op is LoopBegin),
        !(op is LoopEnd),
    ensures
        open_labels(ops.push(op)) == open_labels(ops),
        begin_labels(ops.push(op)) == begin_labels(ops),
        transcript_wf(ops, next) ==> transcript_wf(ops.push(op), next),
{
    assert(ops.push(op).drop_last() =~= ops);
}

/// Opening a loop under the next fresh label pushes that label onto the
/// open loops and keeps the transcript well formed under any later fresh
/// label.
pub proof fn lemma_wf_push_begin(ops: Seq<EmitOp>, next: int, next2: int)
    requires
        next < next2,
    ensures
        open_labels(ops.push(EmitOp::LoopBegin(next))) == open_labels(ops).push(next),
        begin_labels(ops.push(EmitOp::LoopBegin(next))) == begin_labels(ops).push(next),
        transcript_wf(ops, next) ==> transcript_wf(ops.push(EmitOp::LoopBegin(next)), next2),
{
    assert(ops.push(EmitOp::LoopBegin(next)).drop_last() =~= ops);
    if transcript_wf(ops, next) {
        let bl = begin_labels(ops).push(next);
        assert forall|i: int, j: int| 0 <= i < j < bl.len() implies bl[i] < bl[j] by {
            if j < bl.len() - 1 {
                assert(begin_labels(ops)[i] < begin_labels(ops)[j]);
            }
        }
    }
}

/// The label an operation carries; zero for operations that carry none.
pub open spec fn label_of(op: EmitOp) -> int {
    match op {
        EmitOp::LoopBegin(l) => l,
        EmitOp::LoopEnd(l) => l,
        _ => 0,
    }
}

proof fn lemma_nested_prefixes(ops: Seq<EmitOp>, body: Seq<AbsOp>, k: int)
    requires
        abs_ops(ops) == seq![AbsOp::LoopBegin, AbsOp::LoopBegin] + body + seq![
            AbsOp::LoopEnd,
            AbsOp::LoopEnd,
        ],
        forall|i: int| 0 <= i < body.len() ==> !(body[i] is LoopBegin) && !(body[i] is LoopEnd),
        2 <= k <= 2 + body.len(),
    ensures
        open_labels(ops.take(k)) == seq![label_of(ops[0]), label_of(ops[1])],
        begin_labels(ops.take(k)) == seq![label_of(ops[0]), label_of(ops[1])],
    decreases k,
{
    assert(ops.len() == body.len() + 4) by {
        assert(abs_ops(ops).len() == ops.len());
    }
    assert(forall|i: int| 0 <= i < ops.len() ==> abs_ops(ops)[i] == abs_op(#[trigger] ops[i]));
    if k == 2 {
        let one = ops.take(1);
        let two = ops.take(2);
        assert(one.drop_last() =~= Seq::<EmitOp>::empty());
        assert(one.last() == ops[0]);
        assert(two.drop_last() =~= one);
        assert(two.last() == ops[1]);
        assert(ops[0] is LoopBegin && ops[1] is LoopBegin);
        assert(ops[0] == EmitOp::LoopBegin(label_of(ops[0])));
        assert(ops[1] == EmitOp::LoopBegin(label_of(ops[1])));
        assert(open_labels(Seq::<EmitOp>::empty()) =~= Seq::<int>::empty());
        assert(begin_labels(Seq::<EmitOp>::empty()) =~= Seq::<int>::empty());
        assert(open_labels(one) =~= open_labels(one.drop_last()).push(label_of(one.last())));
        assert(begin_labels(one) =~= begin_labels(one.drop_last()).push(label_of(one.last())));
        assert(open_labels(one) =~= seq![label_of(ops[0])]);
        assert(begin_labels(one) =~= seq![label_of(ops[0])]);
        assert(open_labels(two) =~= seq![label_of(ops[0]), label_of(ops[1])]);
        assert(begin_labels(two) =~= seq![label_of(ops[0]), label_of(ops[1])]);
    } else {
        lemma_nested_prefixes(ops, body, k - 1);
        assert(ops.take(k).drop_last() =~= ops.take(k - 1));
        assert(abs_op(ops[k - 1]) == body[k - 3]);
        assert(!(ops[k - 1] is LoopBegin) && !(ops[k - 1] is LoopEnd));
    }
}

/// Loop pairing: in any well-formed transcript shaped as two nested loops
/// around a loop-free body, the two loops carry distinct labels, and the
/// inner loop is closed first: the earlier end carries the inner loop's
/// label and the final end the outer loop's.
pub proof fn lemma_nested_loop_pairing(ops: Seq<EmitOp>, next: int, body: Seq<AbsOp>)
    requires
        transcript_wf(ops, next),
        abs_ops(ops) == seq![AbsOp::LoopBegin, AbsOp::LoopBegin] + body + seq![
            AbsOp::LoopEnd,
            AbsOp::LoopEnd,
        ],
        forall|i: int| 0 <= i < body.len() ==> !(body[i] is LoopBegin) && !(body[i] is LoopEnd),
    ensures
        ops[0] is LoopBegin,
        ops[1] is LoopBegin,
        label_of(ops[0]) < label_of(ops[1]),
        ops[ops.len() - 2] == EmitOp::LoopEnd(label_of(ops[1])),
        ops[ops.len() - 1] == EmitOp::LoopEnd(label_of(ops[0])),
{
    let n = ops.len();
    assert(n == body.len() + 4) by {
        assert(abs_ops(ops).len() == ops.len());
    }
    assert(forall|i: int| 0 <= i < ops.len() ==> abs_ops(ops)[i] == abs_op(#[trigger] ops[i]));
    assert(ops[0] is LoopBegin && ops[1] is LoopBegin);
    assert(ops[n - 2] is LoopEnd && ops[n - 1] is LoopEnd);
    let l0 = label_of(ops[0]);
    let l1 = label_of(ops[1]);
    lemma_nested_prefixes(ops, body, n - 2);
    // the two ends, seen through the well-formedness walk
    assert(ops.drop_last() =~= ops.take(n - 1));
    assert(ops.take(n - 1).drop_last() =~= ops.take(n - 2));
    assert(ends_matched(ops.take(n - 1))) by {
        assert(ends_matched(ops.take(n - 1).push(ops[n - 1])) ==> ends_matched(
            ops.take(n - 1),
        )) by {
            assert(ops.take(n - 1).push(ops[n - 1]).drop_last() =~= ops.take(n - 1));
        }
        assert(ops.take(n - 1).push(ops[n - 1]) =~= ops);
    }
    assert(ops.take(n - 1).last() == ops[n - 2]);
    assert(open_labels(ops.take(n - 2)) == seq![l0, l1]);
    assert(ops[n - 2] == EmitOp::LoopEnd(l1));
    assert(open_labels(ops.take(n - 1)) =~= seq![l0]);
    assert(ops.last() == ops[n - 1]);
    assert(ops[n - 1] == EmitOp::LoopEnd(l0));
    // distinct labels: begin labels are handed out strictly increasing
    assert(begin_labels(ops.take(n - 2)) == seq![l0, l1]);
    assert(begin_labels(ops) =~= begin_labels(ops.take(n - 2))) by {
        assert(begin_labels(ops.take(n - 1)) =~= begin_labels(ops.take(n - 2))) by {
            assert(ops.take(n - 1).drop_last() =~= ops.take(n - 2));
        }
        assert(ops.drop_last() =~= ops.take(n - 1));
    }
    assert(begin_labels(ops)[0] == l0 && begin_labels(ops)[1] == l1);
    assert(l0 < l1);
}

/// Closing the innermost open loop pops it from the open loops and keeps
/// the transcript well formed.
pub proof fn lemma_wf_push_end(ops: Seq<EmitOp>, next: int)
    requires
        open_labels(ops).len() > 0,
    ensures
        open_labels(ops.push(EmitOp::LoopEnd(open_labels(ops).last()))) == open_labels(
            ops,
        ).drop_last(),
        begin_labels(ops.push(EmitOp::LoopEnd(open_labels(ops).last()))) == begin_labels(ops),
        transcript_wf(ops, next) ==> transcript_wf(
            ops.push(EmitOp::LoopEnd(open_labels(ops).last())),
            next,
        ),
{
    assert(ops.push(EmitOp::LoopEnd(open_labels(ops).last())).drop_last() =~= ops);
}

} // verus!
