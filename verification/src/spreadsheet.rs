//! A one-dimensional spreadsheet: each cell holds one operation over
//! constants or references to other cells, and a worklist pass resolves
//! references until every cell has a value or no further cell can be
//! computed.

use std::collections::VecDeque;
use vstd::prelude::*;

verus! {

/// The operation a cell performs.
#[derive(Clone, Copy, PartialEq, Eq, Structural)]
pub enum Operation {
    Val,
    Add,
    Sub,
    Mult,
}

/// One argument of an operation: a constant, a reference to another
/// cell, or nothing.
#[derive(Clone, Copy, PartialEq, Eq, Structural)]
pub enum Arg {
    Val(i32),
    Refs(usize),
    Empty,
}

impl Arg {
    /// The referenced cell, when the argument is a reference.
    pub fn get_ref(&self) -> (r: Option<usize>)
        ensures
            r == (match *self {
                Arg::Refs(i) => Some(i),
                _ => None::<usize>,
            }),
    {
        match *self {
            Arg::Refs(i) => Some(i),
            _ => None,
        }
    }

    /// The constant value, when the argument is one.
    pub fn get_val(&self) -> (r: Option<i32>)
        ensures
            r == (match *self {
                Arg::Val(v) => Some(v),
                _ => None::<i32>,
            }),
    {
        match *self {
            Arg::Val(v) => Some(v),
            _ => None,
        }
    }
}

/// The arguments an operation needs are present as constants.
pub open spec fn args_ok(operation: Operation, a1: Arg, a2: Arg) -> bool {
    match operation {
        Operation::Val => a1 is Val,
        _ => a1 is Val && a2 is Val,
    }
}

/// The exact value of an operation over two resolved argument values.
pub open spec fn spec_op_val(operation: Operation, v1: int, v2: int) -> int {
    match operation {
        Operation::Val => v1,
        Operation::Add => v1 + v2,
        Operation::Sub => v1 - v2,
        Operation::Mult => v1 * v2,
    }
}

impl Operation {
    /// Evaluate the operation over two constant arguments. The caller
    /// guarantees the arguments are present and the result fits.
    pub fn do_op(&self, arg1: &Arg, arg2: &Arg) -> (r: i32)
        requires
            args_ok(*self, *arg1, *arg2),
            i32::MIN <= spec_op_val(*self, arg1->Val_0 as int, if *self is Val { 0int } else { arg2->Val_0 as int }) <= i32::MAX,
        ensures
            r == spec_op_val(*self, arg1->Val_0 as int, if *self is Val { 0int } else { arg2->Val_0 as int }),
    {
        let v1 = match *arg1 {
            Arg::Val(v) => v,
            _ => 0,
        };
        match *self {
            Operation::Val => v1,
            Operation::Add => {
                let v2 = match *arg2 {
                    Arg::Val(v) => v,
                    _ => 0,
                };
                v1 + v2
            },
            Operation::Sub => {
                let v2 = match *arg2 {
                    Arg::Val(v) => v,
                    _ => 0,
                };
                v1 - v2
            },
            Operation::Mult => {
                let v2 = match *arg2 {
                    Arg::Val(v) => v,
                    _ => 0,
                };
                proof {
                    assert(v1 * v2 == spec_op_val(Operation::Mult, v1 as int, v2 as int));
                }
                v1 * v2
            },
        }
    }
}

/// One cell's operation, with the cell it writes to.
#[derive(Clone, Copy, PartialEq, Eq, Structural)]
pub struct Op {
    pub index: usize,
    pub operation: Operation,
    pub arg1: Arg,
    pub arg2: Arg,
}

/// The value this operation produces, if its arguments are resolved
/// constants and the result fits a 32-bit integer.
pub open spec fn op_value(op: Op) -> Option<(usize, int)> {
    if args_ok(op.operation, op.arg1, op.arg2) {
        let v1 = op.arg1->Val_0 as int;
        let v2 = if op.operation is Val {
            0int
        } else {
            op.arg2->Val_0 as int
        };
        let v = spec_op_val(op.operation, v1, v2);
        if i32::MIN <= v <= i32::MAX {
            Some((op.index, v))
        } else {
            None
        }
    } else {
        None
    }
}

impl Op {
    /// An operation from its parsed parts.
    pub fn new(index: usize, operation: Operation, arg1: Arg, arg2: Arg) -> (r: Op)
        ensures
            r == (Op { index, operation, arg1, arg2 }),
    {
        Op { index, operation, arg1, arg2 }
    }

    /// Evaluate the operation, assuming its arguments are resolved and
    /// the result fits.
    pub fn try_solve(&self) -> (r: (usize, i32))
        requires
            op_value(*self) is Some,
        ensures
            Some((r.0, r.1 as int)) == op_value(*self),
    {
        (self.index, self.operation.do_op(&self.arg1, &self.arg2))
    }

    /// Evaluate the operation if possible: its result exactly when both
    /// needed arguments are constants and the value fits, nothing
    /// otherwise.
    pub fn checked_solve(&self) -> (r: Option<(usize, i32)>)
        ensures
            r is Some ==> op_value(*self) == Some(((r->0).0, (r->0).1 as int)),
            r is None ==> op_value(*self) is None,
    {
        let v1 = match self.arg1 {
            Arg::Val(v) => v,
            _ => {
                return None;
            },
        };
        match self.operation {
            Operation::Val => Some((self.index, v1)),
            _ => {
                let v2 = match self.arg2 {
                    Arg::Val(v) => v,
                    _ => {
                        return None;
                    },
                };
                let wide: i64 = match self.operation {
                    Operation::Val => v1 as i64,
                    Operation::Add => v1 as i64 + v2 as i64,
                    Operation::Sub => v1 as i64 - v2 as i64,
                    Operation::Mult => {
                        proof {
                            assert((v1 as i64) * (v2 as i64) <= 0x4000_0000_0000_0000
                                && -0x4000_0000_0000_0000 <= (v1 as i64) * (v2 as i64))
                                by (nonlinear_arith)
                                requires
                                    -0x8000_0000 <= v1 as i64 <= 0x7FFF_FFFF,
                                    -0x8000_0000 <= v2 as i64 <= 0x7FFF_FFFF,
                            ;
                        }
                        v1 as i64 * v2 as i64
                    },
                };
                if wide < i32::MIN as i64 || wide > i32::MAX as i64 {
                    None
                } else {
                    Some((self.index, wide as i32))
                }
            },
        }
    }

    /// Both referenced cells of the operation, if any.
    pub fn get_refs(&self) -> (r: (Option<usize>, Option<usize>))
        ensures
            r.0 == (match self.arg1 {
                Arg::Refs(i) => Some(i),
                _ => None::<usize>,
            }),
            r.1 == (match self.arg2 {
                Arg::Refs(i) => Some(i),
                _ => None::<usize>,
            }),
    {
        (self.arg1.get_ref(), self.arg2.get_ref())
    }

    /// Replace the first argument.
    pub fn update_arg1(&mut self, arg: Arg)
        ensures
            *final(self) == (Op { arg1: arg, ..*old(self) }),
    {
        self.arg1 = arg;
    }

    /// Replace the second argument.
    pub fn update_arg2(&mut self, arg: Arg)
        ensures
            *final(self) == (Op { arg2: arg, ..*old(self) }),
    {
        self.arg2 = arg;
    }
}

/// One argument after substituting known cell values: a reference to a
/// computed cell becomes that cell's constant.
pub open spec fn resolve_arg(data: Seq<Option<i32>>, a: Arg) -> Arg {
    match a {
        Arg::Refs(i) => match data[i as int] {
            Some(v) => Arg::Val(v),
            None => a,
        },
        _ => a,
    }
}

/// An argument is ready when it demands no cell that is still unknown.
pub open spec fn arg_ready(data: Seq<Option<i32>>, a: Arg) -> bool {
    match a {
        Arg::Refs(i) => data[i as int] is Some,
        _ => true,
    }
}

/// A pending operation that cannot advance: either it still references
/// an unknown cell, or its resolved arguments cannot be evaluated (a
/// missing argument, or a value outside the 32-bit range).
pub open spec fn op_stuck(data: Seq<Option<i32>>, op: Op) -> bool {
    ||| !(arg_ready(data, op.arg1) && arg_ready(data, op.arg2))
    ||| op_value(op) is None
}

/// The whole spreadsheet: the pending operations and the values computed
/// so far, one slot per cell.
pub struct Spreadsheet {
    pub size: usize,
    pub queue: VecDeque<Op>,
    pub data: Vec<Option<i32>>,
}

impl Spreadsheet {
    /// Every pending operation writes to and references existing cells.
    pub open spec fn wf(&self) -> bool {
        &&& self.data@.len() == self.size
        &&& forall|j: int|
            0 <= j < self.queue@.len() ==> {
                let op = #[trigger] self.queue@[j];
                &&& op.index < self.size
                &&& (op.arg1 is Refs ==> op.arg1->Refs_0 < self.size)
                &&& (op.arg2 is Refs ==> op.arg2->Refs_0 < self.size)
            }
    }

    /// An empty spreadsheet of `n` cells, none computed yet.
    pub fn new(n: usize) -> (r: Spreadsheet)
        ensures
            r.wf(),
            r.size == n,
            r.queue@.len() == 0,
            r.data@.len() == n,
            forall|j: int| 0 <= j < n ==> (#[trigger] r.data@[j]) is None,
    {
        let mut data: Vec<Option<i32>> = Vec::new();
        let mut i: usize = 0;
        while i < n
            invariant
                i <= n,
                data@.len() == i,
                forall|j: int| 0 <= j < i ==> (#[trigger] data@[j]) is None,
            decreases n - i,
        {
            data.push(None);
            i = i + 1;
        }
        Spreadsheet { size: n, queue: VecDeque::new(), data }
    }

    /// Queue the parsed operations, one per cell.
    pub fn load(&mut self, ops: Vec<Op>)
        requires
            old(self).wf(),
            forall|j: int|
                0 <= j < ops@.len() ==> {
                    let op = #[trigger] ops@[j];
                    &&& op.index < old(self).size
                    &&& (op.arg1 is Refs ==> op.arg1->Refs_0 < old(self).size)
                    &&& (op.arg2 is Refs ==> op.arg2->Refs_0 < old(self).size)
                },
        ensures
            final(self).wf(),
            final(self).queue@ == old(self).queue@ + ops@,
            final(self).data@ == old(self).data@,
            final(self).size == old(self).size,
    {
        let mut k: usize = 0;
        while k < ops.len()
            invariant
                self.wf(),
                k <= ops@.len(),
                self.size == old(self).size,
                self.data@ == old(self).data@,
                self.queue@ == old(self).queue@ + ops@.take(k as int),
                forall|j: int|
                    0 <= j < ops@.len() ==> {
                        let op = #[trigger] ops@[j];
                        &&& op.index < self.size
                        &&& (op.arg1 is Refs ==> op.arg1->Refs_0 < self.size)
                        &&& (op.arg2 is Refs ==> op.arg2->Refs_0 < self.size)
                    },
            decreases ops@.len() - k,
        {
            let op = ops[k];
            self.queue.push_back(op);
            proof {
                assert(self.queue@ =~= old(self).queue@ + ops@.take(k + 1));
            }
            k = k + 1;
        }
        proof {
            assert(ops@.take(ops@.len() as int) =~= ops@);
        }
    }

    /// Substitute the operation's references from the computed cells.
    /// Succeeds exactly when no referenced cell is still unknown.
    pub fn resolve_refs(&mut self, op: &mut Op) -> (r: Result<(), ()>)
        requires
            old(op).arg1 is Refs ==> old(op).arg1->Refs_0 < old(self).data@.len(),
            old(op).arg2 is Refs ==> old(op).arg2->Refs_0 < old(self).data@.len(),
        ensures
            *final(self) == *old(self),
            final(op).index == old(op).index,
            final(op).operation == old(op).operation,
            final(op).arg1 == resolve_arg(old(self).data@, old(op).arg1),
            final(op).arg2 == resolve_arg(old(self).data@, old(op).arg2),
            r is Ok <==> arg_ready(old(self).data@, old(op).arg1) && arg_ready(
                old(self).data@,
                old(op).arg2,
            ),
    {
        let mut ret1 = false;
        let refs = op.get_refs();
        match refs.0 {
            Some(i) => {
                match self.data[i] {
                    Some(val) => {
                        op.update_arg1(Arg::Val(val));
                        ret1 = true;
                    },
                    None => {},
                }
            },
            None => {
                ret1 = true;
            },
        }
        let mut ret2 = false;
        match refs.1 {
            Some(i) => {
                match self.data[i] {
                    Some(val) => {
                        op.update_arg2(Arg::Val(val));
                        ret2 = true;
                    },
                    None => {},
                }
            },
            None => {
                ret2 = true;
            },
        }
        if ret1 && ret2 {
            Ok(())
        } else {
            Err(())
        }
    }

    /// Resolve the queued operations by repeated passes: each pass tries
    /// every pending operation once, storing the value of each one whose
    /// arguments are known. Returns true when every operation has been
    /// computed; returns false as soon as a full pass makes no progress,
    /// in which case every leftover operation is still unevaluable.
    pub fn solve(&mut self) -> (r: bool)
        requires
            old(self).wf(),
        ensures
            final(self).wf(),
            final(self).size == old(self).size,
            final(self).data@.len() == old(self).data@.len(),
            r == (final(self).queue@.len() == 0),
            !r ==> forall|j: int|
                0 <= j < final(self).queue@.len() ==> op_stuck(
                    final(self).data@,
                    #[trigger] final(self).queue@[j],
                ),
    {
        while self.queue.len() > 0
            invariant
                self.wf(),
                self.size == old(self).size,
                self.data@.len() == old(self).data@.len(),
            decreases self.queue@.len(),
        {
            let qlen = self.queue.len();
            let mut progressed = false;
            let mut t: usize = 0;
            while t < qlen
                invariant
                    self.wf(),
                    self.size == old(self).size,
                    self.data@.len() == old(self).data@.len(),
                    t <= qlen,
                    progressed ==> self.queue@.len() < qlen - t + t,
                    self.queue@.len() <= qlen - t + t,
                    self.queue@.len() >= qlen - t,
                    !progressed ==> {
                        &&& self.queue@.len() == qlen
                        &&& forall|j: int|
                            qlen - t <= j < qlen ==> op_stuck(
                                self.data@,
                                #[trigger] self.queue@[j],
                            )
                    },
                decreases qlen - t,
            {
                let popped = self.queue.pop_front();
                let mut current = match popped {
                    Some(op) => op,
                    None => {
                        proof {
                            assert(false);
                        }
                        return false;
                    },
                };
                let resolved = self.resolve_refs(&mut current);
                let mut stored = false;
                if resolved.is_ok() {
                    match current.checked_solve() {
                        Some(res) => {
                            self.data.set(res.0, Some(res.1));
                            stored = true;
                        },
                        None => {},
                    }
                }
                if stored {
                    progressed = true;
                } else {
                    self.queue.push_back(current);
                    proof {
                        if !progressed {
                            assert(op_stuck(self.data@, current));
                        }
                    }
                }
                t = t + 1;
            }
            if !progressed {
                return false;
            }
        }
        true
    }
}

} // verus!
