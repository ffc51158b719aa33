//! Scopes and stacks of scopes, as syntect keeps them, and what their operations do.

use vstd::prelude::*;

use syntect::parsing::{ClearAmount, Scope, ScopeStack, ScopeStackOp};

use crate::text;
#[allow(unused_imports)]
use crate::text::Text;

verus! {

broadcast use vstd::seq_lib::group_seq_properties;

/// Trusted: `syntect::parsing::Scope`, a dotted name of up to eight atoms.
#[verifier::external_type_specification]
#[verifier::external_body]
pub struct ExScope(Scope);

/// Trusted: `syntect::parsing::ScopeStack`, the scopes around a place in a file.
#[verifier::external_type_specification]
#[verifier::external_body]
pub struct ExScopeStack(ScopeStack);

/// The atoms that a scope holds, outermost first.
pub uninterp spec fn scope_atoms(scope: Scope) -> Seq<Seq<char>>;

/// The scopes that a stack holds, outermost first, each by its atoms.
pub uninterp spec fn stack_scopes(stack: ScopeStack) -> Seq<Seq<Seq<char>>>;

/// The runs of scopes that were cleared from a stack and can be restored, oldest first.
pub uninterp spec fn stack_cleared(stack: ScopeStack) -> Seq<Seq<Seq<Seq<char>>>>;

/// A stack of scopes as specifications see it.
#[verifier::ext_equal]
pub struct StackView {
    pub scopes: Seq<Seq<Text>>,
    pub cleared: Seq<Seq<Seq<Text>>>,
}

/// What a stack holds.
pub open spec fn stack_view(stack: ScopeStack) -> StackView {
    StackView { scopes: stack_scopes(stack), cleared: stack_cleared(stack) }
}

/// A stack that holds nothing.
pub open spec fn empty_stack() -> StackView {
    StackView { scopes: Seq::empty(), cleared: Seq::empty() }
}

/// A change to a stack of scopes.
pub enum ScopeOp {
    /// Puts a scope on top.
    Push(Scope),
    /// Takes so many scopes off the top, or all where there are fewer.
    Pop(usize),
    /// Takes so many scopes off the top, or all where there are fewer, to be restored.
    ClearTop(usize),
    /// Takes all scopes off, to be restored.
    ClearAll,
    /// Puts back what was last taken off to be restored.
    Restore,
    /// Changes nothing.
    Noop,
}

/// A change as specifications see it.
#[verifier::ext_equal]
pub enum ScopeOpView {
    Push(Seq<Text>),
    Pop(int),
    ClearTop(int),
    ClearAll,
    Restore,
    Noop,
}

impl DeepView for ScopeOp {
    type V = ScopeOpView;

    open spec fn deep_view(&self) -> ScopeOpView {
        match self {
            ScopeOp::Push(scope) => ScopeOpView::Push(scope_atoms(*scope)),
            ScopeOp::Pop(n) => ScopeOpView::Pop(*n as int),
            ScopeOp::ClearTop(n) => ScopeOpView::ClearTop(*n as int),
            ScopeOp::ClearAll => ScopeOpView::ClearAll,
            ScopeOp::Restore => ScopeOpView::Restore,
            ScopeOp::Noop => ScopeOpView::Noop,
        }
    }
}

/// How many of `len` scopes stay when `n` are to leave.
pub open spec fn left_of(len: int, n: int) -> int {
    if n < len {
        len - n
    } else {
        0
    }
}

/// A stack with all but its lowest `k` scopes set aside.
pub open spec fn cleared_to(stack: StackView, k: int) -> StackView {
    StackView { scopes: stack.scopes.take(k), cleared: stack.cleared.push(stack.scopes.skip(k)) }
}

/// The stack behind a change; none where the change cannot be made, because there is
/// nothing to restore.
pub open spec fn changed(stack: StackView, op: ScopeOpView) -> Option<StackView> {
    match op {
        ScopeOpView::Push(scope) => Some(
            StackView { scopes: stack.scopes.push(scope), cleared: stack.cleared },
        ),
        ScopeOpView::Pop(n) => Some(
            StackView {
                scopes: stack.scopes.take(left_of(stack.scopes.len() as int, n)),
                cleared: stack.cleared,
            },
        ),
        ScopeOpView::ClearTop(n) => Some(
            cleared_to(stack, left_of(stack.scopes.len() as int, n)),
        ),
        ScopeOpView::ClearAll => Some(cleared_to(stack, 0)),
        ScopeOpView::Restore => if stack.cleared.len() == 0 {
            None
        } else {
            Some(
                StackView {
                    scopes: stack.scopes + stack.cleared.last(),
                    cleared: stack.cleared.drop_last(),
                },
            )
        },
        ScopeOpView::Noop => Some(stack),
    }
}

/// The atoms that a dotted name stands for.
pub open spec fn atoms_of(name: Text) -> Seq<Text> {
    let trimmed = text::trimmed(name);
    if trimmed.len() == 0 {
        Seq::empty()
    } else {
        text::split_on(text::without_trailing(trimmed, '.'), '.')
    }
}

/// Trusted: `Scope::new` splits the trimmed name, less any dots at its end, at its dots.
/// Whether it succeeds also rests on how many different atoms the process has used; nothing
/// is said of that.
#[verifier::external_body]
pub(crate) fn scope_named(name: &str) -> (scope: Option<Scope>)
    ensures
        scope matches Some(s) ==> scope_atoms(s) == atoms_of(name@),
{
    Scope::new(name).ok()
}

/// Trusted: `Scope::is_prefix_of` tells whether the atoms of the first scope start those of
/// the second.
pub assume_specification[ Scope::is_prefix_of ](this: Scope, s: Scope) -> (r: bool)
    ensures
        r == scope_atoms(this).is_prefix_of(scope_atoms(s)),
;

/// Trusted: `ScopeStack::new` makes an empty stack.
pub assume_specification[ ScopeStack::new ]() -> (stack: ScopeStack)
    ensures
        stack_scopes(stack) == Seq::<Seq<Seq<char>>>::empty(),
        stack_cleared(stack) == Seq::<Seq<Seq<Seq<char>>>>::empty(),
;

/// Trusted: `ScopeStack::as_slice` gives the scopes of the stack.
pub assume_specification[ ScopeStack::as_slice ](stack: &ScopeStack) -> (held: &[Scope])
    ensures
        held@.map_values(|s: Scope| scope_atoms(s)) == stack_scopes(*stack),
;

/// Trusted: `ScopeStack::apply` makes a change, or fails and leaves the stack as it is.
#[verifier::external_body]
pub(crate) fn apply(stack: &mut ScopeStack, op: &ScopeOp) -> (done: bool)
    ensures
        done == (changed(stack_view(*old(stack)), op.deep_view()) is Some),
        stack_view(*final(stack)) == match changed(stack_view(*old(stack)), op.deep_view()) {
            Some(after) => after,
            None => stack_view(*old(stack)),
        },
{
    let op = match op {
        ScopeOp::Push(scope) => ScopeStackOp::Push(*scope),
        ScopeOp::Pop(n) => ScopeStackOp::Pop(*n),
        ScopeOp::ClearTop(n) => ScopeStackOp::Clear(ClearAmount::TopN(*n)),
        ScopeOp::ClearAll => ScopeStackOp::Clear(ClearAmount::All),
        ScopeOp::Restore => ScopeStackOp::Restore,
        ScopeOp::Noop => ScopeStackOp::Noop,
    };
    stack.apply(&op).is_ok()
}

/// What was cleared can be restored: the two changes undo each other.
pub proof fn law_clear_restore(stack: StackView, n: int)
    requires
        n >= 0,
    ensures
        changed(stack, ScopeOpView::ClearTop(n)) matches Some(cleared) && changed(
            cleared,
            ScopeOpView::Restore,
        ) == Some(stack),
        changed(stack, ScopeOpView::ClearAll) matches Some(cleared) && changed(
            cleared,
            ScopeOpView::Restore,
        ) == Some(stack),
{
    let k = left_of(stack.scopes.len() as int, n);
    assert(stack.scopes.take(k) + stack.scopes.skip(k) == stack.scopes);
    assert(stack.scopes.take(0) + stack.scopes.skip(0) == stack.scopes);
    let one = stack.cleared.push(stack.scopes.skip(k));
    assert(one.drop_last() == stack.cleared);
    let all = stack.cleared.push(stack.scopes.skip(0));
    assert(all.drop_last() == stack.cleared);
}

/// A pushed scope leaves again with the next pop.
pub proof fn law_push_pop(stack: StackView, scope: Seq<Text>)
    ensures
        changed(stack, ScopeOpView::Push(scope)) matches Some(pushed) && changed(
            pushed,
            ScopeOpView::Pop(1),
        ) == Some(stack),
{
    assert(stack.scopes.push(scope).take(stack.scopes.len() as int) == stack.scopes);
}

} // verus!
