//! Call tracing for contract execution: a stack of open call spans whose
//! finished children are folded into their parents.

use vstd::prelude::*;

verus! {

/// A 20-byte account address.
pub type Address = [u8; 20];

/// A 256-bit word as four 64-bit limbs, least significant first.
pub type Word = [u64; 4];

/// How a call was made.
#[derive(Clone, Copy, Debug, PartialEq, Eq, Structural, Default)]
pub enum CallType {
    /// A plain call.
    #[default]
    Call,
    /// A read-only call.
    StaticCall,
    /// A call that runs the callee's code in the caller's context.
    DelegateCall,
}

/// One recorded call and the calls it made.
#[derive(Debug, PartialEq, Eq, Default)]
pub struct CallTrace {
    /// The caller.
    pub from: Address,
    /// The callee.
    pub to: Address,
    /// The value transferred.
    pub value: Word,
    /// How the call was made.
    pub call_type: CallType,
    /// The call's input data.
    pub input: Vec<u8>,
    /// The call's output data.
    pub output: Vec<u8>,
    /// Gas left when the call started.
    pub gas: u64,
    /// Gas the call consumed.
    pub gas_used: u64,
    /// Calls made by this call, in order.
    pub calls: Vec<CallTrace>,
}

/// Traces collected by a tracer.
#[derive(Debug, PartialEq, Eq)]
pub enum Traces {
    /// Call traces, outermost calls first.
    CallTraces(Vec<CallTrace>),
}

/// Records calls as a tree of [`CallTrace`]s.
#[derive(Debug, PartialEq, Eq, Default)]
pub struct CallTracer {
    /// All recorded traces, the open ones last.
    pub traces: Vec<CallTrace>,
    /// Indices into `traces` of the open calls, outermost first.
    pub current_stack: Vec<usize>,
}

/// A tracer that records calls, or does nothing.
#[derive(Debug, PartialEq, Eq, Default)]
pub enum Tracer {
    /// Calls are not recorded.
    #[default]
    Disabled,
    /// Calls are recorded by a call tracer.
    CallTracer(CallTracer),
}

/// The call type of a call with these flags: read-only wins over delegate.
pub open spec fn call_type_of(is_delegate_call: bool, is_read_only: bool) -> CallType {
    if is_read_only {
        CallType::StaticCall
    } else if is_delegate_call {
        CallType::DelegateCall
    } else {
        CallType::Call
    }
}

/// `b` is `a` with its output and gas used set, and nothing else changed.
pub open spec fn finished(a: CallTrace, b: CallTrace, output: Seq<u8>, gas_used: u64) -> bool {
    &&& b.from == a.from
    &&& b.to == a.to
    &&& b.value == a.value
    &&& b.call_type == a.call_type
    &&& b.input@ == a.input@
    &&& b.output@ == output
    &&& b.gas == a.gas
    &&& b.gas_used == gas_used
    &&& b.calls@ == a.calls@
}

fn copy_bytes(b: &[u8]) -> (r: Vec<u8>)
    ensures
        r@ == b@,
{
    let mut r: Vec<u8> = Vec::new();
    let mut i: usize = 0;
    while i < b.len()
        invariant
            i <= b@.len(),
            r@ == b@.subrange(0, i as int),
        decreases b@.len() - i,
    {
        r.push(b[i]);
        i += 1;
        proof {
            assert(r@ =~= b@.subrange(0, i as int));
        }
    }
    proof {
        assert(b@.subrange(0, i as int) =~= b@);
    }
    r
}

/// The entry point of a contract that a call runs.
#[derive(Clone, Copy, Debug, PartialEq, Eq, Structural)]
pub enum ExportedFunction {
    /// The constructor, run once at deployment.
    Constructor,
    /// The entry point of every other call.
    Call,
}

/// What a contract call returned.
#[derive(Debug, PartialEq, Eq)]
pub struct ExecReturnValue {
    /// Flags set by the callee.
    pub flags: u32,
    /// The output data.
    pub data: Vec<u8>,
}

/// Intercepts contract calls, to mock their results.
pub trait CallInterceptor {
    /// The mocked result of a call to `contract_address` through
    /// `entry_point` with `input_data`, or `None` to let the call run.
    fn intercept_call(
        contract_address: &Address,
        entry_point: ExportedFunction,
        input_data: &[u8],
    ) -> Option<ExecReturnValue> {
        None
    }
}

impl CallInterceptor for () {

}

/// Every interface that serves for debugging.
pub trait Debugger: CallInterceptor {

}

impl<V: CallInterceptor> Debugger for V {

}

impl CallTracer {
    /// The indices of the open calls, outermost first.
    pub closed spec fn stack(&self) -> Seq<usize> {
        self.current_stack@
    }

    /// The open calls are the last traces, one after the other.
    pub closed spec fn wf(&self) -> bool {
        &&& forall|i: int|
            0 <= i < self.current_stack@.len() ==> #[trigger] self.current_stack@[i]
                == self.traces@.len() - self.current_stack@.len() + i
        &&& self.current_stack@.len() <= self.traces@.len()
    }

    /// A tracer with nothing recorded.
    pub fn new() -> (r: CallTracer)
        ensures
            r.wf(),
            r.traces@.len() == 0,
            r.stack().len() == 0,
    {
        CallTracer { traces: Vec::new(), current_stack: Vec::new() }
    }

    /// Opens a call span: records the call and makes it the innermost open one.
    pub fn enter_child_span(
        &mut self,
        from: &Address,
        to: &Address,
        is_delegate_call: bool,
        is_read_only: bool,
        value: &Word,
        input: &[u8],
        gas_left: u64,
    )
        requires
            old(self).wf(),
            old(self).traces@.len() < usize::MAX,
        ensures
            final(self).wf(),
            final(self).stack() == old(self).stack().push(old(self).traces@.len() as usize),
            final(self).traces@.len() == old(self).traces@.len() + 1,
            final(self).traces@.drop_last() == old(self).traces@,
            ({
                let t = final(self).traces@.last();
                &&& t.from == *from
                &&& t.to == *to
                &&& t.value == *value
                &&& t.call_type == call_type_of(is_delegate_call, is_read_only)
                &&& t.input@ == input@
                &&& t.output@.len() == 0
                &&& t.gas == gas_left
                &&& t.gas_used == 0
                &&& t.calls@.len() == 0
            }),
    {
        let call_type = if is_read_only {
            CallType::StaticCall
        } else if is_delegate_call {
            CallType::DelegateCall
        } else {
            CallType::Call
        };
        self.traces.push(
            CallTrace {
                from: *from,
                to: *to,
                value: *value,
                call_type,
                input: copy_bytes(input),
                output: Vec::new(),
                gas: gas_left,
                gas_used: 0,
                calls: Vec::new(),
            },
        );
        self.current_stack.push(self.traces.len() - 1);
        proof {
            assert(final(self).traces@.drop_last() =~= old(self).traces@);
            assert forall|i: int| 0 <= i < self.current_stack@.len() implies #[trigger]
                self.current_stack@[i] == self.traces@.len() - self.current_stack@.len() + i by {
                if i < old(self).current_stack@.len() {
                    assert(self.current_stack@[i] == old(self).current_stack@[i]);
                }
            }
        }
    }

    /// Closes the innermost open span with its output and gas used. When an
    /// enclosing span is open, the closed trace moves into its calls.
    pub fn exit_child_span(&mut self, output: &[u8], gas_used: u64)
        requires
            old(self).wf(),
            old(self).stack().len() > 0,
        ensures
            final(self).wf(),
            final(self).stack() == old(self).stack().drop_last(),
            ({
                let n = old(self).traces@.len();
                let done = old(self).traces@[n - 1];
                if old(self).stack().len() == 1 {
                    &&& final(self).traces@.len() == n
                    &&& final(self).traces@.drop_last() == old(self).traces@.drop_last()
                    &&& finished(done, final(self).traces@[n - 1], output@, gas_used)
                } else {
                    let parent = old(self).traces@[n - 2];
                    let p = final(self).traces@[n - 2];
                    &&& final(self).traces@.len() == n - 1
                    &&& final(self).traces@.subrange(0, n - 2) == old(self).traces@.subrange(
                        0,
                        n - 2,
                    )
                    &&& p.from == parent.from
                    &&& p.to == parent.to
                    &&& p.value == parent.value
                    &&& p.call_type == parent.call_type
                    &&& p.input@ == parent.input@
                    &&& p.output@ == parent.output@
                    &&& p.gas == parent.gas
                    &&& p.gas_used == parent.gas_used
                    &&& p.calls@.drop_last() == parent.calls@
                    &&& p.calls@.len() == parent.calls@.len() + 1
                    &&& finished(done, p.calls@.last(), output@, gas_used)
                }
            }),
    {
        let ghost n = self.traces@.len();
        let current_index = match self.current_stack.pop() {
            Some(i) => i,
            None => 0,
        };
        proof {
            assert(old(self).current_stack@[old(self).current_stack@.len() - 1] == current_index);
            assert(self.current_stack@ == old(self).current_stack@.drop_last());
        }
        let out = copy_bytes(output);
        self.traces[current_index].output = out;
        self.traces[current_index].gas_used = gas_used;
        let depth = self.current_stack.len();
        if depth > 0 {
            let parent_index = self.current_stack[depth - 1];
            proof {
                assert(old(self).current_stack@[depth - 1] == parent_index);
            }
            let child = self.traces.remove(current_index);
            self.traces[parent_index].calls.push(child);
        }
        proof {
            assert forall|i: int| 0 <= i < self.current_stack@.len() implies #[trigger]
                self.current_stack@[i] == self.traces@.len() - self.current_stack@.len() + i by {
                assert(self.current_stack@[i] == old(self).current_stack@[i]);
            }
            if depth == 0 {
                assert(final(self).traces@.drop_last() =~= old(self).traces@.drop_last());
            } else {
                assert(final(self).traces@.subrange(0, n - 2) =~= old(self).traces@.subrange(
                    0,
                    n - 2,
                ));
            }
        }
    }
}

impl Tracer {
    /// A tracer that records calls, with nothing recorded yet.
    pub fn new_call_tracer() -> (r: Self)
        ensures
            r matches Tracer::CallTracer(t) && t.wf() && t.traces@.len() == 0 && t.stack().len()
                == 0,
    {
        Tracer::CallTracer(CallTracer::new())
    }

    /// The call tracer, when calls are recorded.
    pub fn as_call_tracer(self) -> (r: Option<CallTracer>)
        ensures
            r == (match self {
                Tracer::CallTracer(t) => Some(t),
                Tracer::Disabled => None,
            }),
    {
        match self {
            Tracer::CallTracer(tracer) => Some(tracer),
            _ => None,
        }
    }

    /// The recorded traces; none when calls are not recorded.
    pub fn traces(self) -> (r: Traces)
        ensures
            ({
                let Traces::CallTraces(v) = r;
                v@ == match self {
                    Tracer::CallTracer(t) => t.traces@,
                    Tracer::Disabled => Seq::<CallTrace>::empty(),
                }
            }),
    {
        match self {
            Tracer::CallTracer(tracer) => Traces::CallTraces(tracer.traces),
            Tracer::Disabled => Traces::CallTraces(Vec::new()),
        }
    }

    /// Whether this tracer is well formed.
    pub open spec fn wf(&self) -> bool {
        match self {
            Tracer::CallTracer(t) => t.wf(),
            Tracer::Disabled => true,
        }
    }

    /// Opens a call span; a disabled tracer records nothing.
    pub fn enter_child_span(
        &mut self,
        from: &Address,
        to: &Address,
        is_delegate_call: bool,
        is_read_only: bool,
        value: &Word,
        input: &[u8],
        gas_left: u64,
    )
        requires
            old(self).wf(),
            *old(self) matches Tracer::CallTracer(t) ==> t.traces@.len() < usize::MAX,
        ensures
            final(self).wf(),
            *old(self) is Disabled ==> *final(self) is Disabled,
            *old(self) matches Tracer::CallTracer(t) ==> *final(self) matches Tracer::CallTracer(
                u,
            ) && u.stack() == t.stack().push(t.traces@.len() as usize) && u.traces@.drop_last()
                == t.traces@ && u.traces@.last().input@ == input@,
    {
        match self {
            Tracer::CallTracer(tracer) => {
                tracer.enter_child_span(
                    from,
                    to,
                    is_delegate_call,
                    is_read_only,
                    value,
                    input,
                    gas_left,
                );
            },
            Tracer::Disabled => {},
        }
    }

    /// Closes the innermost call span; a disabled tracer records nothing.
    pub fn exit_child_span(&mut self, output: &[u8], gas_used: u64)
        requires
            old(self).wf(),
            *old(self) matches Tracer::CallTracer(t) ==> t.stack().len() > 0,
        ensures
            final(self).wf(),
            *old(self) is Disabled ==> *final(self) is Disabled,
            *old(self) matches Tracer::CallTracer(t) ==> *final(self) matches Tracer::CallTracer(
                u,
            ) && u.stack() == t.stack().drop_last(),
    {
        match self {
            Tracer::CallTracer(tracer) => {
                tracer.exit_child_span(output, gas_used);
            },
            Tracer::Disabled => {},
        }
    }
}

} // verus!
