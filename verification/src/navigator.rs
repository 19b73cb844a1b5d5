//! A typed stack navigator: a never-empty stack of routes whose top is the
//! current screen.

use vstd::prelude::*;

verus! {

/// A navigation stack over routes of type `R`; the root is at the bottom
/// and the stack is never empty.
pub struct Navigator<R> {
    stack: Vec<R>,
}

impl<R> View for Navigator<R> {
    type V = Seq<R>;

    closed spec fn view(&self) -> Seq<R> {
        self.stack@
    }
}

impl<R> Navigator<R> {
    /// The stack is never empty.
    pub open spec fn wf(&self) -> bool {
        self@.len() > 0
    }
}

/// The stack after a pop: the top goes unless it is the root.
pub open spec fn nav_pop<R>(s: Seq<R>) -> Seq<R> {
    if s.len() > 1 { s.drop_last() } else { s }
}

/// Creates a navigator whose root route is `initial`.
pub fn create_navigator<R>(initial: R) -> (nav: Navigator<R>)
    ensures
        nav@ == seq![initial],
        nav.wf(),
{
    let mut stack: Vec<R> = Vec::new();
    stack.push(initial);
    assert(stack@ =~= seq![initial]);
    Navigator { stack }
}

impl<R> Navigator<R> {
    /// Pushes a new route.
    pub fn push(&mut self, route: R)
        requires
            old(self).wf(),
        ensures
            final(self).wf(),
            final(self)@ == old(self)@.push(route),
    {
        self.stack.push(route);
    }

    /// Pops the top route; no-op at the root.
    pub fn pop(&mut self)
        requires
            old(self).wf(),
        ensures
            final(self).wf(),
            final(self)@ == nav_pop(old(self)@),
    {
        if self.stack.len() > 1 {
            self.stack.pop();
        }
    }

    /// Replaces the top route.
    pub fn replace(&mut self, route: R)
        requires
            old(self).wf(),
        ensures
            final(self).wf(),
            final(self)@ == old(self)@.drop_last().push(route),
    {
        self.stack.pop();
        self.stack.push(route);
    }

    /// Resets the stack to the single route `route`.
    pub fn reset(&mut self, route: R)
        ensures
            final(self).wf(),
            final(self)@ == seq![route],
    {
        let mut stack: Vec<R> = Vec::new();
        stack.push(route);
        assert(stack@ =~= seq![route]);
        self.stack = stack;
    }

    /// Pops back to the root route.
    pub fn pop_to_root(&mut self)
        requires
            old(self).wf(),
        ensures
            final(self).wf(),
            final(self)@ == seq![old(self)@[0]],
    {
        self.stack.truncate(1);
        assert(self.stack@ =~= seq![old(self)@[0]]);
    }

    /// Number of routes on the stack.
    pub fn depth(&self) -> (n: usize)
        requires
            self.wf(),
        ensures
            n == self@.len(),
            n >= 1,
    {
        self.stack.len()
    }

    /// Whether there is a route to pop back to.
    pub fn can_pop(&self) -> (b: bool)
        requires
            self.wf(),
        ensures
            b == (self@.len() > 1),
    {
        self.depth() > 1
    }

    /// The current (top) route.
    pub fn top_ref(&self) -> (r: &R)
        requires
            self.wf(),
        ensures
            *r == self@.last(),
    {
        let n = self.stack.len();
        &self.stack[n - 1]
    }
}

impl<R: Clone> Navigator<R> {
    /// A clone of the current (top) route.
    pub fn top(&self) -> (r: R)
        requires
            self.wf(),
        ensures
            cloned(self@.last(), r),
    {
        self.top_ref().clone()
    }
}

/// Popping right after a push returns the stack to what it was.
pub proof fn law_pop_undoes_push<R>(s: Seq<R>, route: R)
    requires
        s.len() > 0,
    ensures
        nav_pop(s.push(route)) == s,
{
    assert(s.push(route).drop_last() =~= s);
}

/// Popping at the root keeps the root.
pub proof fn law_pop_keeps_root<R>(s: Seq<R>)
    requires
        s.len() == 1,
    ensures
        nav_pop(s) == s,
{
}


/// How a pushed screen enters (and a popped one leaves).
#[derive(Clone, Copy, PartialEq, Eq, Debug, Structural)]
pub enum NavigationTransition {
    /// Slide in from the right on push, out to the right on pop.
    Slide,
    /// Fade in on push, out on pop.
    Fade,
    /// No animation: an instant cut.
    Instant,
}

impl Default for NavigationTransition {
    /// Sliding is the standard transition.
    fn default() -> (t: NavigationTransition)
        ensures
            t == NavigationTransition::Slide,
    {
        NavigationTransition::Slide
    }
}

} // verus!
