//! The scope stack of one file.

use vstd::prelude::*;

verus! {

/// A scope as contracts see it: whether its predicate held when the scope
/// was opened, and the leading whitespace of the line that opened it.
pub type Frame = (bool, Seq<char>);

/// Whether every scope on `stack` is enabled. An empty stack is.
pub open spec fn all_enabled(stack: Seq<Frame>) -> bool {
    forall|i: int| 0 <= i < stack.len() ==> (#[trigger] stack[i]).0
}

/// The whitespace that content lines of the innermost scope begin with;
/// empty outside any scope.
pub open spec fn top_prefix(stack: Seq<Frame>) -> Seq<char> {
    if stack.len() == 0 {
        Seq::empty()
    } else {
        stack.last().1
    }
}

/// The open scopes of the file being processed, innermost last.
#[derive(Debug)]
pub struct CfgState {
    pub frames: Vec<(bool, String)>,
}

impl View for CfgState {
    type V = Seq<Frame>;

    open spec fn view(&self) -> Seq<Frame> {
        Seq::new(self.frames@.len(), |i: int| (self.frames@[i].0, self.frames@[i].1@))
    }
}

impl Default for CfgState {
    fn default() -> (s: CfgState)
        ensures
            s@ == Seq::<Frame>::empty(),
    {
        CfgState::new()
    }
}

impl CfgState {
    /// The state outside any scope.
    pub fn new() -> (s: CfgState)
        ensures
            s@ == Seq::<Frame>::empty(),
    {
        let s = CfgState { frames: Vec::new() };
        assert(s@ =~= Seq::<Frame>::empty());
        s
    }

    /// Whether every open scope is enabled.
    pub fn enabled(&self) -> (b: bool)
        ensures
            b == all_enabled(self@),
    {
        let mut i: usize = 0;
        while i < self.frames.len()
            invariant
                i <= self.frames@.len(),
                forall|j: int| 0 <= j < i ==> (#[trigger] self@[j]).0,
            decreases self.frames@.len() - i,
        {
            if !self.frames[i].0 {
                assert(!self@[i as int].0);
                return false;
            }
            i += 1;
        }
        true
    }

    /// The whitespace that content lines of the innermost scope begin with.
    pub fn prefix(&self) -> (p: String)
        ensures
            p@ == top_prefix(self@),
    {
        let n = self.frames.len();
        if n == 0 {
            String::new()
        } else {
            assert(self@.last().1 == self.frames@[n - 1].1@);
            self.frames[n - 1].1.clone()
        }
    }

    /// Opens a scope.
    pub fn push(&mut self, state: (bool, String))
        ensures
            final(self)@ == old(self)@.push((state.0, state.1@)),
    {
        self.frames.push(state);
        assert(self@ =~= old(self)@.push((state.0, state.1@)));
    }

    /// Closes the innermost scope. `None` where no scope is open; the state
    /// is then unchanged.
    pub fn pop(&mut self) -> (r: Option<()>)
        ensures
            r is Some <==> old(self)@.len() > 0,
            r is Some ==> final(self)@ == old(self)@.drop_last(),
            r is None ==> final(self)@ == old(self)@,
    {
        match self.frames.pop() {
            Some(_) => {
                assert(self@ =~= old(self)@.drop_last());
                Some(())
            },
            None => {
                assert(self@ =~= old(self)@);
                None
            },
        }
    }
}

} // verus!
