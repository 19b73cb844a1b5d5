//! The string router: history, modal stack, pending route results and the
//! current route, with the decisions of programmatic navigation.
//!
//! Guards are evaluated by the caller; their outcome is handed in as the
//! redirect target that [`check_guards`] picks.

use vstd::prelude::*;
use vstd::slice::slice_subrange;
use crate::maps::{strings_view, copy_strings, KeyOrder, compare_keys};
use crate::text::{text_of, string_from_bytes, str_bytes};
use crate::trim::{trim_ws, trim_bounds};
use crate::location::{
    RouteLocation, QueryView, parse_route_location, parsed_as, route_parts, query_all_of,
    frag_view, route_string_bytes,
};
use crate::maps::{StrMap, assoc_put, assoc_remove, first_values};
use crate::pattern::{match_path, match_route};

verus! {

/// A route opened for a typed result: the route and the result's type name.
#[derive(Debug)]
pub struct PendingRouteResult {
    pub route: String,
    pub result_type: String,
}

/// State of the string router.
#[derive(Debug)]
pub struct Router {
    history: Vec<String>,
    modals: Vec<String>,
    pending: Vec<PendingRouteResult>,
    current: Option<String>,
}

/// The router's contents: history (oldest first), modal routes (bottom
/// first), pending results as `(route, type name)` (oldest first), and the
/// current route once one was set.
pub struct RouterView {
    pub history: Seq<Seq<char>>,
    pub modals: Seq<Seq<char>>,
    pub pending: Seq<(Seq<char>, Seq<char>)>,
    pub current: Option<Seq<char>>,
}

pub open spec fn pending_view(p: Seq<PendingRouteResult>) -> Seq<(Seq<char>, Seq<char>)> {
    p.map_values(|r: PendingRouteResult| (r.route@, r.result_type@))
}

impl View for Router {
    type V = RouterView;

    closed spec fn view(&self) -> RouterView {
        RouterView {
            history: strings_view(self.history@),
            modals: strings_view(self.modals@),
            pending: pending_view(self.pending@),
            current: match self.current {
                Some(c) => Some(c@),
                None => None,
            },
        }
    }
}

/// The top of the history, or the empty route.
pub open spec fn history_top(h: Seq<Seq<char>>) -> Seq<char> {
    if h.len() > 0 { h.last() } else { Seq::empty() }
}

/// Navigation target: the guard's redirect when a guard blocked, else the
/// requested route.
pub open spec fn destination(route: Seq<char>, redirect: Option<Seq<char>>) -> Seq<char> {
    match redirect {
        Some(d) => d,
        None => route,
    }
}

pub open spec fn opt_view(o: Option<String>) -> Option<Seq<char>> {
    match o {
        Some(s) => Some(s@),
        None => None,
    }
}

/// Pushes `dest` on the history and makes it current.
pub open spec fn spec_navigate(v: RouterView, dest: Seq<char>) -> RouterView {
    RouterView { history: v.history.push(dest), current: Some(dest), ..v }
}

/// Replaces the top of the history (or pushes onto an empty one).
pub open spec fn spec_replace(v: RouterView, dest: Seq<char>) -> RouterView {
    let h = if v.history.len() == 0 { seq![dest] } else { v.history.update(v.history.len() - 1, dest) };
    RouterView { history: h, current: Some(dest), ..v }
}

/// Pops the history when there is a route to go back to; the previous
/// route becomes current.
pub open spec fn spec_go_back(v: RouterView) -> (RouterView, bool) {
    if v.history.len() <= 1 {
        (v, false)
    } else {
        let h = v.history.drop_last();
        (RouterView { history: h, current: Some(history_top(h)), ..v }, true)
    }
}

/// Adds a modal route on top.
pub open spec fn spec_present_modal(v: RouterView, route: Seq<char>) -> RouterView {
    RouterView { modals: v.modals.push(route), ..v }
}

/// Removes the top modal route.
pub open spec fn spec_dismiss_modal(v: RouterView) -> RouterView {
    RouterView { modals: v.modals.drop_last(), ..v }
}

/// Records a pending result for `route` of type `result_type`.
pub open spec fn spec_add_pending(v: RouterView, route: Seq<char>, result_type: Seq<char>) -> RouterView {
    RouterView { pending: v.pending.push((route, result_type)), ..v }
}

/// The router's own invariant: once there is history, the current route is
/// its top.
pub open spec fn router_wf(v: RouterView) -> bool {
    v.history.len() > 0 ==> v.current == Some(v.history.last())
}

impl Router {
    /// A router with no history, modal or pending result.
    pub fn new() -> (r: Router)
        ensures
            r@.history.len() == 0,
            r@.modals.len() == 0,
            r@.pending.len() == 0,
            r@.current is None,
            router_wf(r@),
    {
        Router { history: Vec::new(), modals: Vec::new(), pending: Vec::new(), current: None }
    }
}

/// The redirect of the first guard that blocks, given each guard's outcome
/// (`true` lets navigation through) and redirect target, in registration
/// order.
pub open spec fn first_redirect(outcomes: Seq<bool>, redirects: Seq<Seq<char>>) -> Option<Seq<char>>
    decreases outcomes.len(),
{
    if outcomes.len() == 0 || redirects.len() == 0 {
        None
    } else if !outcomes[0] {
        Some(redirects[0])
    } else {
        first_redirect(outcomes.drop_first(), redirects.drop_first())
    }
}

/// What the guards decide: `None` exactly when every guard lets navigation
/// through; otherwise the redirect of the first guard that blocks.
pub proof fn law_guards_pick_first_blocking(outcomes: Seq<bool>, redirects: Seq<Seq<char>>)
    ensures
        first_redirect(outcomes, redirects) is None
            <==> (forall|i: int| 0 <= i < outcomes.len() && i < redirects.len() ==> outcomes[i]),
        forall|i: int|
            0 <= i < outcomes.len() && i < redirects.len() && !outcomes[i]
                && (forall|j: int| 0 <= j < i ==> outcomes[j])
                ==> first_redirect(outcomes, redirects) == Some(redirects[i]),
    decreases outcomes.len(),
{
    if outcomes.len() > 0 && redirects.len() > 0 && outcomes[0] {
        let o = outcomes.drop_first();
        let r = redirects.drop_first();
        law_guards_pick_first_blocking(o, r);
        assert forall|i: int| 0 <= i < outcomes.len() && i < redirects.len() && !outcomes[i]
            && (forall|j: int| 0 <= j < i ==> outcomes[j])
            implies first_redirect(outcomes, redirects) == Some(redirects[i]) by {
            assert(i >= 1);
            assert(o[i - 1] == outcomes[i] && r[i - 1] == redirects[i]);
            assert forall|j: int| 0 <= j < i - 1 implies o[j] by {
                assert(o[j] == outcomes[j + 1]);
            }
        }
        if first_redirect(outcomes, redirects) is None {
            assert forall|i: int| 0 <= i < outcomes.len() && i < redirects.len() implies outcomes[i] by {
                if i >= 1 {
                    assert(o[i - 1] == outcomes[i]);
                }
            }
        } else {
            assert(!(forall|i: int| 0 <= i < o.len() && i < r.len() ==> o[i]));
            let k = choose|k: int| !(0 <= k < o.len() && k < r.len() ==> o[k]);
            assert(!(0 <= k + 1 < outcomes.len() && k + 1 < redirects.len() ==> outcomes[k + 1]));
        }
    }
}

/// Picks the redirect of the first guard whose condition failed, or `None`
/// when all guards pass.
pub fn check_guards(outcomes: &[bool], redirects: &[String]) -> (r: Option<String>)
    ensures
        opt_view(r) == first_redirect(outcomes@, strings_view(redirects@)),
        r is None <==> (forall|i: int| 0 <= i < outcomes@.len() && i < redirects@.len() ==> outcomes@[i]),
        forall|i: int|
            0 <= i < outcomes@.len() && i < redirects@.len() && !outcomes@[i]
                && (forall|j: int| 0 <= j < i ==> outcomes@[j])
                ==> opt_view(r) == Some(redirects@[i]@),
{
    proof {
        law_guards_pick_first_blocking(outcomes@, strings_view(redirects@));
        assert forall|i: int| 0 <= i < redirects@.len() implies #[trigger] strings_view(redirects@)[i] == redirects@[i]@ by {}
    }
    let n = if outcomes.len() < redirects.len() { outcomes.len() } else { redirects.len() };
    let mut i: usize = 0;
    let ghost rv = strings_view(redirects@);
    assert(outcomes@.skip(0) =~= outcomes@);
    assert(rv.skip(0) =~= rv);
    while i < n
        invariant
            n <= outcomes@.len(),
            n <= redirects@.len(),
            n == outcomes@.len() || n == redirects@.len(),
            rv == strings_view(redirects@),
            rv.len() == redirects@.len(),
            forall|k: int| 0 <= k < redirects@.len() ==> #[trigger] rv[k] == redirects@[k]@,
            first_redirect(outcomes@, rv) is None <==> (forall|k: int| 0 <= k < outcomes@.len() && k < rv.len() ==> outcomes@[k]),
            forall|k: int|
                0 <= k < outcomes@.len() && k < rv.len() && !outcomes@[k]
                    && (forall|j: int| 0 <= j < k ==> outcomes@[j])
                    ==> first_redirect(outcomes@, rv) == Some(rv[k]),
            i <= n,
            first_redirect(outcomes@, rv) == first_redirect(outcomes@.skip(i as int), rv.skip(i as int)),
        decreases n - i,
    {
        assert(outcomes@.skip(i as int).drop_first() =~= outcomes@.skip(i + 1));
        assert(rv.skip(i as int).drop_first() =~= rv.skip(i + 1));
        if !outcomes[i] {
            return Some(redirects[i].clone());
        }
        i = i + 1;
    }
    None
}

fn dest_string(route: &str, redirect: Option<String>) -> (d: String)
    ensures
        d@ == destination(route@, opt_view(redirect)),
{
    match redirect {
        Some(d) => d,
        None => route.to_owned(),
    }
}

/// The top of the history, or the empty route: where a navigation starts.
pub fn navigation_origin(router: &Router) -> (r: String)
    ensures
        r@ == history_top(router@.history),
{
    let n = router.history.len();
    if n > 0 {
        router.history[n - 1].clone()
    } else {
        String::new()
    }
}

/// Navigates to `route`, or to the guards' redirect: pushes the destination
/// on the history, makes it current, and returns it.
pub fn navigate(router: &mut Router, route: &str, redirect: Option<String>) -> (d: String)
    ensures
        router_wf(old(router)@) ==> router_wf(final(router)@),
        d@ == destination(route@, opt_view(redirect)),
        final(router)@ == spec_navigate(old(router)@, d@),
{
    let d = dest_string(route, redirect);
    let ghost old_h = router.history@;
    router.history.push(d.clone());
    assert(strings_view(router.history@) =~= strings_view(old_h).push(d@));
    router.current = Some(d.clone());
    d
}

/// Pushes `route` via the string router.
pub fn push_route(router: &mut Router, route: &str, redirect: Option<String>)
    ensures
        router_wf(old(router)@) ==> router_wf(final(router)@),
        final(router)@ == spec_navigate(old(router)@, destination(route@, opt_view(redirect))),
{
    navigate(router, route, redirect);
}

/// Navigates and reports whether the requested route was reached.
pub fn try_navigate(router: &mut Router, route: &str, redirect: Option<String>) -> (b: bool)
    ensures
        router_wf(old(router)@) ==> router_wf(final(router)@),
        b == (destination(route@, opt_view(redirect)) == route@),
        final(router)@ == spec_navigate(old(router)@, destination(route@, opt_view(redirect))),
{
    let d = navigate(router, route, redirect);
    compare_keys(d.as_str(), route) == KeyOrder::Equal
}

/// Replaces the current route without a new history entry.
pub fn replace_route(router: &mut Router, route: &str, redirect: Option<String>) -> (d: String)
    ensures
        router_wf(old(router)@) ==> router_wf(final(router)@),
        d@ == destination(route@, opt_view(redirect)),
        final(router)@ == spec_replace(old(router)@, d@),
        old(router)@.history.len() > 0 ==> final(router)@.history.len() == old(router)@.history.len(),
        final(router)@.history.len() > 0 && final(router)@.history.last() == d@,
{
    let d = dest_string(route, redirect);
    let n = router.history.len();
    let ghost old_h = router.history@;
    if n == 0 {
        router.history.push(d.clone());
        assert(strings_view(router.history@) =~= seq![d@]);
    } else {
        router.history.set(n - 1, d.clone());
        assert(strings_view(router.history@) =~= strings_view(old_h).update(n - 1, d@));
    }
    router.current = Some(d.clone());
    d
}

/// Goes back to the previous route; `false` when there is none.
pub fn go_back(router: &mut Router) -> (b: bool)
    ensures
        router_wf(old(router)@) ==> router_wf(final(router)@),
        (final(router)@, b) == spec_go_back(old(router)@),
{
    let n = router.history.len();
    if n <= 1 {
        return false;
    }
    let ghost old_h = router.history@;
    router.history.pop();
    assert(strings_view(router.history@) =~= strings_view(old_h).drop_last());
    let prev = navigation_origin(router);
    router.current = Some(prev);
    true
}

/// Goes back in the string router history.
pub fn pop_route(router: &mut Router)
    ensures
        router_wf(old(router)@) ==> router_wf(final(router)@),
        final(router)@ == spec_go_back(old(router)@).0,
{
    go_back(router);
}

/// Whether there is a route to go back to.
pub fn can_go_back(router: &Router) -> (b: bool)
    ensures
        b == (router@.history.len() > 1),
{
    router.history.len() > 1
}

/// The current route; the empty route before any navigation.
pub fn current_route(router: &Router) -> (r: String)
    ensures
        r@ == (match router@.current {
            Some(c) => c,
            None => Seq::empty(),
        }),
{
    match &router.current {
        Some(c) => c.clone(),
        None => String::new(),
    }
}

/// Handles a back event: consumed when a back handler handled it,
/// otherwise the router goes back.
pub fn handle_back(router: &mut Router, handled: bool) -> (b: bool)
    ensures
        router_wf(old(router)@) ==> router_wf(final(router)@),
        handled ==> b && final(router)@ == old(router)@,
        !handled ==> (final(router)@, b) == spec_go_back(old(router)@),
{
    if handled {
        return true;
    }
    go_back(router)
}

/// Presents a modal route on top of the page stack.
pub fn present_modal(router: &mut Router, route: &str)
    ensures
        router_wf(old(router)@) ==> router_wf(final(router)@),
        final(router)@ == spec_present_modal(old(router)@, route@),
{
    let ghost old_m = router.modals@;
    router.modals.push(route.to_owned());
    assert(strings_view(router.modals@) =~= strings_view(old_m).push(route@));
}

/// Dismisses the top-most modal; `false` when none is presented.
pub fn dismiss_modal(router: &mut Router) -> (b: bool)
    ensures
        router_wf(old(router)@) ==> router_wf(final(router)@),
        b == (old(router)@.modals.len() > 0),
        final(router)@ == (if b { spec_dismiss_modal(old(router)@) } else { old(router)@ }),
{
    if router.modals.len() == 0 {
        return false;
    }
    let ghost old_m = router.modals@;
    router.modals.pop();
    assert(strings_view(router.modals@) =~= strings_view(old_m).drop_last());
    true
}

/// The top-most modal route, if any.
pub fn current_modal(router: &Router) -> (r: Option<String>)
    ensures
        opt_view(r) == (if router@.modals.len() > 0 { Some(router@.modals.last()) } else { None }),
{
    let n = router.modals.len();
    if n > 0 {
        Some(router.modals[n - 1].clone())
    } else {
        None
    }
}

/// The modal stack, bottom to top.
pub fn modal_stack(router: &Router) -> (r: Vec<String>)
    ensures
        strings_view(r@) == router@.modals,
{
    copy_strings(&router.modals)
}

/// Navigates to `route` and, when it was reached, records a pending result
/// of the given type for it.
pub fn navigate_for_result(router: &mut Router, route: &str, redirect: Option<String>, result_type: &str) -> (d: String)
    ensures
        router_wf(old(router)@) ==> router_wf(final(router)@),
        d@ == destination(route@, opt_view(redirect)),
        final(router)@ == (if d@ == route@ {
            spec_add_pending(spec_navigate(old(router)@, d@), d@, result_type@)
        } else {
            spec_navigate(old(router)@, d@)
        }),
{
    let d = navigate(router, route, redirect);
    if compare_keys(d.as_str(), route) == KeyOrder::Equal {
        let ghost old_p = router.pending@;
        router.pending.push(PendingRouteResult { route: d.clone(), result_type: result_type.to_owned() });
        assert(pending_view(router.pending@) =~= pending_view(old_p).push((d@, result_type@)));
    }
    d
}

/// Like [`navigate_for_result`], reporting whether the result was
/// registered.
pub fn try_navigate_for_result(router: &mut Router, route: &str, redirect: Option<String>, result_type: &str) -> (b: bool)
    ensures
        router_wf(old(router)@) ==> router_wf(final(router)@),
        b == (destination(route@, opt_view(redirect)) == route@),
        final(router)@ == (if b {
            spec_add_pending(spec_navigate(old(router)@, route@), route@, result_type@)
        } else {
            spec_navigate(old(router)@, destination(route@, opt_view(redirect)))
        }),
{
    let d = navigate_for_result(router, route, redirect, result_type);
    compare_keys(d.as_str(), route) == KeyOrder::Equal
}

/// Returning a result of type `result_type`: taken when the latest pending
/// result expects that type and there is a route to go back to; the router
/// then goes back and the pending result is removed.
pub open spec fn spec_return_result(v: RouterView, result_type: Seq<char>) -> (RouterView, bool) {
    if v.pending.len() == 0 || v.pending.last().1 != result_type || v.history.len() <= 1 {
        (v, false)
    } else {
        (RouterView { pending: v.pending.drop_last(), ..spec_go_back(v).0 }, true)
    }
}

/// Cancelling: the latest pending result is dropped and the router goes
/// back, when there is a route to go back to.
pub open spec fn spec_cancel_result(v: RouterView) -> (RouterView, bool) {
    if v.pending.len() == 0 || v.history.len() <= 1 {
        (v, false)
    } else {
        (RouterView { pending: v.pending.drop_last(), ..spec_go_back(v).0 }, true)
    }
}

/// Delivers a result of type `result_type` to the latest pending result and
/// goes back; `false` (nothing changed) when none is pending, it expects
/// another type, or there is no route to go back to.
pub fn return_route_result(router: &mut Router, result_type: &str) -> (b: bool)
    ensures
        router_wf(old(router)@) ==> router_wf(final(router)@),
        (final(router)@, b) == spec_return_result(old(router)@, result_type@),
{
    let n = router.pending.len();
    if n == 0 {
        return false;
    }
    assert(pending_view(router.pending@)[n - 1] == (router.pending@[n - 1].route@, router.pending@[n - 1].result_type@));
    if compare_keys(router.pending[n - 1].result_type.as_str(), result_type) != KeyOrder::Equal {
        return false;
    }
    if router.history.len() <= 1 {
        return false;
    }
    let ghost old_p = router.pending@;
    router.pending.pop();
    assert(pending_view(router.pending@) =~= pending_view(old_p).drop_last());
    go_back(router);
    true
}

/// Drops the latest pending result and goes back; `false` (nothing
/// changed) when none is pending or there is no route to go back to.
pub fn cancel_route_result(router: &mut Router) -> (b: bool)
    ensures
        router_wf(old(router)@) ==> router_wf(final(router)@),
        (final(router)@, b) == spec_cancel_result(old(router)@),
{
    if router.pending.len() == 0 || router.history.len() <= 1 {
        return false;
    }
    let ghost old_p = router.pending@;
    router.pending.pop();
    assert(pending_view(router.pending@) =~= pending_view(old_p).drop_last());
    go_back(router);
    true
}

/// Whether a route result is pending.
pub fn has_pending_route_result(router: &Router) -> (b: bool)
    ensures
        b == (router@.pending.len() > 0),
{
    router.pending.len() > 0
}

/// The type name the latest pending result expects.
pub fn pending_route_result_type(router: &Router) -> (r: Option<String>)
    ensures
        opt_view(r) == (if router@.pending.len() > 0 { Some(router@.pending.last().1) } else { None }),
{
    let n = router.pending.len();
    if n > 0 {
        assert(pending_view(router.pending@)[n - 1] == (router.pending@[n - 1].route@, router.pending@[n - 1].result_type@));
        Some(router.pending[n - 1].result_type.clone())
    } else {
        None
    }
}

/// The route of the latest pending result.
pub fn pending_route_result_route(router: &Router) -> (r: Option<String>)
    ensures
        opt_view(r) == (if router@.pending.len() > 0 { Some(router@.pending.last().0) } else { None }),
{
    let n = router.pending.len();
    if n > 0 {
        assert(pending_view(router.pending@)[n - 1] == (router.pending@[n - 1].route@, router.pending@[n - 1].result_type@));
        Some(router.pending[n - 1].route.clone())
    } else {
        None
    }
}


/// A snapshot of the string router for relaunch and restore flows.
#[derive(Clone, Debug, PartialEq, Eq)]
pub struct NavigationState {
    /// Current route at the top of the history.
    pub current: String,
    /// History from oldest to newest route.
    pub history: Vec<String>,
    /// Modal routes from bottom to top.
    pub modals: Vec<String>,
}

/// A route value trimmed of whitespace, or `None` when nothing is left.
pub open spec fn norm_value(s: Seq<char>) -> Option<Seq<char>> {
    let t = trim_ws(str_bytes(s));
    if t.len() > 0 { Some(text_of(t)) } else { None }
}

/// The normalised non-empty values of a list, in order.
pub open spec fn norm_list(l: Seq<Seq<char>>) -> Seq<Seq<char>>
    decreases l.len(),
{
    if l.len() == 0 {
        Seq::empty()
    } else {
        match norm_value(l.last()) {
            Some(x) => norm_list(l.drop_last()).push(x),
            None => norm_list(l.drop_last()),
        }
    }
}

/// Normalised `(current, history, modals)`: values trimmed and blank ones
/// dropped; a blank current falls back to the last history entry, then to
/// `/`; the history ends with the current route.
pub open spec fn norm_state(c: Seq<char>, h: Seq<Seq<char>>, m: Seq<Seq<char>>) -> (Seq<char>, Seq<Seq<char>>, Seq<Seq<char>>) {
    let h1 = norm_list(h);
    let c1 = match norm_value(c) {
        Some(x) => x,
        None => if h1.len() > 0 { h1.last() } else { seq!['/'] },
    };
    let h2 = if h1.len() > 0 && h1.last() == c1 { h1 } else { h1.push(c1) };
    (c1, h2, norm_list(m))
}

pub open spec fn state_view(s: NavigationState) -> (Seq<char>, Seq<Seq<char>>, Seq<Seq<char>>) {
    (s.current@, strings_view(s.history@), strings_view(s.modals@))
}

/// Trims a route value; `None` when it is blank.
pub fn normalize_route_value(route: &str) -> (r: Option<String>)
    ensures
        opt_view(r) == norm_value(route@),
{
    let b = route.as_bytes();
    let (s, e) = trim_bounds(b);
    if s < e {
        Some(string_from_bytes(slice_subrange(b, s, e)))
    } else {
        None
    }
}

fn normalize_list(l: &Vec<String>) -> (r: Vec<String>)
    ensures
        strings_view(r@) == norm_list(strings_view(l@)),
{
    let mut r: Vec<String> = Vec::new();
    let mut i: usize = 0;
    let ghost lv = strings_view(l@);
    assert(lv.take(0) =~= Seq::<Seq<char>>::empty());
    while i < l.len()
        invariant
            i <= l@.len(),
            lv == strings_view(l@),
            strings_view(r@) == norm_list(lv.take(i as int)),
        decreases l@.len() - i,
    {
        assert(lv.take(i + 1).drop_last() =~= lv.take(i as int));
        assert(lv.take(i + 1).last() == l@[i as int]@);
        match normalize_route_value(l[i].as_str()) {
            Some(x) => {
                let ghost before = r@;
                r.push(x);
                assert(strings_view(r@) =~= strings_view(before).push(x@));
            },
            None => {},
        }
        i = i + 1;
    }
    assert(lv.take(l@.len() as int) =~= lv);
    r
}

fn root_route() -> (r: String)
    ensures
        r@ == seq!['/'],
{
    proof {
        reveal_strlit("/");
    }
    "/".to_owned()
}

/// Normalises a snapshot (see [`norm_state`]).
pub fn normalize_navigation_state(state: NavigationState) -> (r: NavigationState)
    ensures
        state_view(r) == norm_state(state.current@, strings_view(state.history@), strings_view(state.modals@)),
        r.history@.len() > 0,
        strings_view(r.history@).last() == r.current@,
{
    let mut history = normalize_list(&state.history);
    let modals = normalize_list(&state.modals);
    let current = match normalize_route_value(state.current.as_str()) {
        Some(x) => x,
        None => {
            let n = history.len();
            if n > 0 {
                history[n - 1].clone()
            } else {
                root_route()
            }
        },
    };
    let n = history.len();
    let same = n > 0 && compare_keys(history[n - 1].as_str(), current.as_str()) == KeyOrder::Equal;
    if !same {
        let ghost before = history@;
        history.push(current.clone());
        assert(strings_view(history@) =~= strings_view(before).push(current@));
    }
    NavigationState { current, history, modals }
}

impl NavigationState {
    /// A normalised snapshot: values trimmed, blank ones dropped, and the
    /// history ending with the current route.
    pub fn new(current: &str, history: Vec<String>, modals: Vec<String>) -> (r: NavigationState)
        ensures
            state_view(r) == norm_state(current@, strings_view(history@), strings_view(modals@)),
            r.history@.len() > 0,
            strings_view(r.history@).last() == r.current@,
    {
        normalize_navigation_state(NavigationState { current: current.to_owned(), history, modals })
    }
}

/// Captures the history and modal stack. The current route is the top of
/// the history, else the current route value, else empty.
pub fn navigation_state(router: &Router) -> (r: NavigationState)
    ensures
        state_view(r) == norm_state(
            (if router@.history.len() > 0 {
                router@.history.last()
            } else {
                match router@.current { Some(c) => c, None => Seq::empty() }
            }),
            router@.history,
            router@.modals,
        ),
{
    let history = copy_strings(&router.history);
    let n = history.len();
    let current = if n > 0 { history[n - 1].clone() } else { current_route(router) };
    let modals = copy_strings(&router.modals);
    NavigationState::new(current.as_str(), history, modals)
}

/// The snapshot restored by [`restore_navigation_state`]: normalised, and
/// with a guard redirect (if any) replacing the current route and the top
/// of the history.
pub open spec fn restored_state(s: (Seq<char>, Seq<Seq<char>>, Seq<Seq<char>>), redirect: Option<Seq<char>>) -> (Seq<char>, Seq<Seq<char>>, Seq<Seq<char>>) {
    let n = norm_state(s.0, s.1, s.2);
    match redirect {
        None => n,
        Some(d) => {
            let h = if n.1.len() > 0 { n.1.update(n.1.len() - 1, d) } else { seq![d] };
            (d, h, n.2)
        },
    }
}

/// Restores history and modal stack from a snapshot. Pending results are
/// cleared; a guard redirect replaces the restored current route.
pub fn restore_navigation_state(router: &mut Router, state: NavigationState, redirect: Option<String>) -> (r: NavigationState)
    ensures
        state_view(r) == restored_state(state_view(state), opt_view(redirect)),
        final(router)@ == (RouterView {
            history: state_view(r).1,
            modals: state_view(r).2,
            pending: Seq::empty(),
            current: Some(state_view(r).0),
        }),
        router_wf(final(router)@),
{
    let mut state = normalize_navigation_state(state);
    if let Some(d) = redirect {
        state.current = d;
        let n = state.history.len();
        let ghost before = state.history@;
        if n > 0 {
            state.history.set(n - 1, state.current.clone());
            assert(strings_view(state.history@) =~= strings_view(before).update(n - 1, state.current@));
        } else {
            state.history.push(state.current.clone());
            assert(strings_view(state.history@) =~= seq![state.current@]);
        }
    }
    router.history = copy_strings(&state.history);
    router.modals = copy_strings(&state.modals);
    router.pending = Vec::new();
    router.current = Some(state.current.clone());
    assert(pending_view(router.pending@) =~= Seq::<(Seq<char>, Seq<char>)>::empty());
    state
}


/// Going back right after a navigation returns the router to where it was.
pub proof fn law_go_back_undoes_navigate(v: RouterView, dest: Seq<char>)
    requires
        router_wf(v),
        v.history.len() > 0,
    ensures
        spec_go_back(spec_navigate(v, dest)) == (v, true),
{
    assert(spec_navigate(v, dest).history.drop_last() =~= v.history);
}

/// Replacing changes only the top of the history: a non-empty history keeps
/// its length and every entry below the top, and the top becomes the
/// destination, which is also current; an empty history gets the
/// destination as its one entry. Modal routes and pending results stay.
pub proof fn law_replace_swaps_top(v: RouterView, dest: Seq<char>)
    ensures
        spec_replace(v, dest).history.len() == (if v.history.len() == 0 { 1 } else { v.history.len() }),
        forall|i: int| 0 <= i < v.history.len() - 1 ==> spec_replace(v, dest).history[i] == v.history[i],
        spec_replace(v, dest).history.last() == dest,
        spec_replace(v, dest).current == Some(dest),
        spec_replace(v, dest).modals == v.modals,
        spec_replace(v, dest).pending == v.pending,
{
}

/// Going back after a replace lands where going back before it would have:
/// on the entry below the replaced one.
pub proof fn law_go_back_after_replace(v: RouterView, dest: Seq<char>)
    requires
        v.history.len() >= 2,
    ensures
        spec_go_back(spec_replace(v, dest)) == spec_go_back(v),
        spec_go_back(spec_replace(v, dest)).0.current == Some(v.history[v.history.len() - 2]),
        spec_go_back(spec_replace(v, dest)).0.history.len() == v.history.len() - 1,
{
    assert(spec_replace(v, dest).history.drop_last() =~= v.history.drop_last());
}

/// Dismissing a modal right after presenting it restores the modal stack.
pub proof fn law_dismiss_undoes_present(v: RouterView, route: Seq<char>)
    ensures
        spec_dismiss_modal(spec_present_modal(v, route)) == v,
{
    assert(v.modals.push(route).drop_last() =~= v.modals);
}

/// Returning a result of the expected type right after opening a route for
/// it delivers the result and returns the router to where it was.
pub proof fn law_return_result_after_navigate_for_result(v: RouterView, route: Seq<char>, result_type: Seq<char>)
    requires
        router_wf(v),
        v.history.len() > 0,
    ensures
        spec_return_result(spec_add_pending(spec_navigate(v, route), route, result_type), result_type) == (v, true),
{
    assert(spec_navigate(v, route).history.drop_last() =~= v.history);
    assert(v.pending.push((route, result_type)).drop_last() =~= v.pending);
}

/// A result of another type is refused and changes nothing.
pub proof fn law_return_result_wrong_type_changes_nothing(v: RouterView, result_type: Seq<char>)
    requires
        v.pending.len() > 0,
        v.pending.last().1 != result_type,
    ensures
        spec_return_result(v, result_type) == (v, false),
{
}

/// Cancelling right after opening a route for a result drops the pending
/// result and returns the router to where it was.
pub proof fn law_cancel_result_after_navigate_for_result(v: RouterView, route: Seq<char>, result_type: Seq<char>)
    requires
        router_wf(v),
        v.history.len() > 0,
    ensures
        spec_cancel_result(spec_add_pending(spec_navigate(v, route), route, result_type)) == (v, true),
{
    assert(spec_navigate(v, route).history.drop_last() =~= v.history);
    assert(v.pending.push((route, result_type)).drop_last() =~= v.pending);
}

/// A normalised snapshot always has a history that ends with its current
/// route.
pub proof fn law_normalized_history_ends_with_current(c: Seq<char>, h: Seq<Seq<char>>, m: Seq<Seq<char>>)
    ensures
        norm_state(c, h, m).1.len() > 0,
        norm_state(c, h, m).1.last() == norm_state(c, h, m).0,
{
}


/// The current route's text; empty before any navigation.
pub open spec fn current_text(v: RouterView) -> Seq<char> {
    match v.current {
        Some(c) => c,
        None => Seq::empty(),
    }
}

/// The current route with the values of `key` set to `values` (removed
/// when there are none), as a route string.
pub open spec fn query_rewrite(cur: Seq<char>, key: Seq<char>, values: Seq<Seq<char>>) -> Seq<char> {
    let p = route_parts(str_bytes(cur), false);
    let qa = query_all_of(p.1);
    let qa2 = if values.len() == 0 { assoc_remove(qa, key) } else { assoc_put(qa, key, values) };
    text_of(route_string_bytes(text_of(p.0), qa2, frag_view(p.2)))
}

/// The parsed current route.
pub fn current_route_location(router: &Router) -> (r: RouteLocation)
    ensures
        parsed_as(r, str_bytes(current_text(router@)), false),
{
    let c = current_route(router);
    parse_route_location(c.as_str())
}

/// The first decoded value of each query key of the current route.
pub fn use_query_params(router: &Router) -> (r: StrMap)
    ensures
        r@ == first_values(query_all_of(route_parts(str_bytes(current_text(router@)), false).1)),
{
    current_route_location(router).query
}

fn rewritten_current(router: &Router, key: &str, values: &[&str]) -> (r: String)
    ensures
        r@ == query_rewrite(current_text(router@), key@, values@.map_values(|v: &str| v@)),
{
    let loc = current_route_location(router);
    let next = loc.with_query_values(key, values);
    next.to_route_string()
}

fn one_value(value: &str) -> (r: Vec<&str>)
    ensures
        r@.map_values(|v: &str| v@) == seq![value@],
{
    let mut r: Vec<&str> = Vec::new();
    r.push(value);
    assert(r@.map_values(|v: &str| v@) =~= seq![value@]);
    r
}

fn no_values<'a>() -> (r: Vec<&'a str>)
    ensures
        r@.map_values(|v: &str| v@) == Seq::<Seq<char>>::empty(),
{
    let r: Vec<&str> = Vec::new();
    assert(r@.map_values(|v: &str| v@) =~= Seq::<Seq<char>>::empty());
    r
}

/// Navigates to the current route with `key=value` in its query.
pub fn set_query_param(router: &mut Router, key: &str, value: &str, redirect: Option<String>) -> (d: String)
    ensures
        d@ == destination(query_rewrite(current_text(old(router)@), key@, seq![value@]), opt_view(redirect)),
        final(router)@ == spec_navigate(old(router)@, d@),
{
    let vals = one_value(value);
    let route = rewritten_current(router, key, vals.as_slice());
    navigate(router, route.as_str(), redirect)
}

/// Replaces the current route with `key=value` in its query.
pub fn replace_query_param(router: &mut Router, key: &str, value: &str, redirect: Option<String>) -> (d: String)
    ensures
        d@ == destination(query_rewrite(current_text(old(router)@), key@, seq![value@]), opt_view(redirect)),
        final(router)@ == spec_replace(old(router)@, d@),
{
    let vals = one_value(value);
    let route = rewritten_current(router, key, vals.as_slice());
    replace_route(router, route.as_str(), redirect)
}

/// Navigates to the current route with the values of `key` replaced; no
/// values removes the key.
pub fn set_query_param_values(router: &mut Router, key: &str, values: &[&str], redirect: Option<String>) -> (d: String)
    ensures
        d@ == destination(query_rewrite(current_text(old(router)@), key@, values@.map_values(|v: &str| v@)), opt_view(redirect)),
        final(router)@ == spec_navigate(old(router)@, d@),
{
    let route = rewritten_current(router, key, values);
    navigate(router, route.as_str(), redirect)
}

/// Replaces the current route with the values of `key` replaced.
pub fn replace_query_param_values(router: &mut Router, key: &str, values: &[&str], redirect: Option<String>) -> (d: String)
    ensures
        d@ == destination(query_rewrite(current_text(old(router)@), key@, values@.map_values(|v: &str| v@)), opt_view(redirect)),
        final(router)@ == spec_replace(old(router)@, d@),
{
    let route = rewritten_current(router, key, values);
    replace_route(router, route.as_str(), redirect)
}

/// Navigates to the current route without `key` in its query.
pub fn remove_query_param(router: &mut Router, key: &str, redirect: Option<String>) -> (d: String)
    ensures
        d@ == destination(query_rewrite(current_text(old(router)@), key@, Seq::empty()), opt_view(redirect)),
        final(router)@ == spec_navigate(old(router)@, d@),
{
    let vals = no_values();
    let route = rewritten_current(router, key, vals.as_slice());
    navigate(router, route.as_str(), redirect)
}

/// Replaces the current route with `key` removed from its query.
pub fn replace_remove_query_param(router: &mut Router, key: &str, redirect: Option<String>) -> (d: String)
    ensures
        d@ == destination(query_rewrite(current_text(old(router)@), key@, Seq::empty()), opt_view(redirect)),
        final(router)@ == spec_replace(old(router)@, d@),
{
    let vals = no_values();
    let route = rewritten_current(router, key, vals.as_slice());
    replace_route(router, route.as_str(), redirect)
}

/// Indices of the handlers registered for `route`, in registration order.
pub open spec fn handler_indices(keys: Seq<Seq<char>>, route: Seq<char>, n: int) -> Seq<usize>
    decreases n,
{
    if n <= 0 {
        Seq::empty()
    } else if keys[n - 1] == route {
        handler_indices(keys, route, n - 1).push((n - 1) as usize)
    } else {
        handler_indices(keys, route, n - 1)
    }
}

fn matching_handlers(keys: &[String], route: &str) -> (r: Vec<usize>)
    ensures
        r@ == handler_indices(strings_view(keys@), route@, keys@.len() as int),
{
    let mut r: Vec<usize> = Vec::new();
    let mut i: usize = 0;
    while i < keys.len()
        invariant
            i <= keys@.len(),
            r@ == handler_indices(strings_view(keys@), route@, i as int),
        decreases keys@.len() - i,
    {
        assert(strings_view(keys@)[i as int] == keys@[i as int]@);
        if compare_keys(keys[i].as_str(), route) == KeyOrder::Equal {
            r.push(i);
        }
        i = i + 1;
    }
    r
}

/// Which appear handlers fire when the screen `route` appears: those
/// registered for that route key, in registration order.
pub fn fire_appear(keys: &[String], route: &str) -> (r: Vec<usize>)
    ensures
        r@ == handler_indices(strings_view(keys@), route@, keys@.len() as int),
{
    matching_handlers(keys, route)
}

/// Which disappear handlers fire when the screen `route` disappears.
pub fn fire_disappear(keys: &[String], route: &str) -> (r: Vec<usize>)
    ensures
        r@ == handler_indices(strings_view(keys@), route@, keys@.len() as int),
{
    matching_handlers(keys, route)
}


/// The parameters `pattern` captures from `route`, as `match_route` gives
/// them.
pub open spec fn route_params(pattern: Seq<char>, route: Seq<char>) -> Option<Seq<(Seq<char>, Seq<char>)>> {
    match_path(
        str_bytes(text_of(route_parts(str_bytes(pattern), true).0)),
        str_bytes(text_of(route_parts(str_bytes(route), false).0)),
    )
}

/// The parameters of the first of `patterns` that matches `route`, in
/// order; empty when none matches.
pub open spec fn first_match_params(patterns: Seq<Seq<char>>, route: Seq<char>) -> Seq<(Seq<char>, Seq<char>)>
    decreases patterns.len(),
{
    if patterns.len() == 0 {
        Seq::empty()
    } else {
        match route_params(patterns[0], route) {
            Some(m) => m,
            None => first_match_params(patterns.drop_first(), route),
        }
    }
}

/// The parameters of the current route under the registered route
/// `patterns`: those of the first pattern that matches, tried in
/// registration order; an empty map when none matches or none is
/// registered.
pub fn use_params(router: &Router, patterns: &[&str]) -> (r: StrMap)
    ensures
        r@ == first_match_params(patterns@.map_values(|p: &str| p@), current_text(router@)),
{
    let current = current_route(router);
    let ghost pv = patterns@.map_values(|p: &str| p@);
    let mut i: usize = 0;
    assert(pv.skip(0) =~= pv);
    while i < patterns.len()
        invariant
            i <= patterns@.len(),
            pv == patterns@.map_values(|p: &str| p@),
            current@ == current_text(router@),
            first_match_params(pv, current@) == first_match_params(pv.skip(i as int), current@),
        decreases patterns@.len() - i,
    {
        assert(pv.skip(i as int)[0] == patterns@[i as int]@);
        assert(pv.skip(i as int).drop_first() =~= pv.skip(i + 1));
        match match_route(patterns[i], current.as_str()) {
            Some(m) => {
                return m;
            },
            None => {},
        }
        i = i + 1;
    }
    StrMap::new()
}

} // verus!
