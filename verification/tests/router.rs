use std::cell::RefCell;
use std::rc::Rc;

use raxon::router::{
    cancel_route_result, current_route, go_back, has_pending_route_result, modal_stack,
    navigate, navigate_for_result, navigation_state, pending_route_result_route,
    pending_route_result_type, present_modal, restore_navigation_state, return_route_result,
    try_navigate_for_result, use_params, NavigationState, Router,
};

/// Result callbacks kept beside the router, as the application layer does.
struct Callbacks {
    pending: Vec<Box<dyn FnOnce(Box<dyn std::any::Any>)>>,
}

impl Callbacks {
    fn new() -> Self {
        Callbacks { pending: Vec::new() }
    }

    fn open<T: 'static>(&mut self, router: &mut Router, route: &str, result_type: &str, on_result: impl FnOnce(T) + 'static) -> String {
        let reached = navigate_for_result(router, route, None, result_type);
        if reached == route {
            self.pending.push(Box::new(move |value| {
                on_result(*value.downcast::<T>().expect("type checked"));
            }));
        }
        reached
    }

    fn deliver<T: 'static>(&mut self, router: &mut Router, result_type: &str, value: T) -> bool {
        if return_route_result(router, result_type) {
            let callback = self.pending.pop().expect("callback registered");
            callback(Box::new(value));
            true
        } else {
            false
        }
    }
}

#[test]
fn navigate_for_result_returns_typed_value_and_pops_route() {
    let mut router = Router::new();
    let mut callbacks = Callbacks::new();
    navigate(&mut router, "/checkout", None);

    let selected = Rc::new(RefCell::new(None));
    let selected_for_callback = Rc::clone(&selected);
    let reached = callbacks.open(&mut router, "/products/pick", "alloc::string::String", move |sku: String| {
        *selected_for_callback.borrow_mut() = Some(sku);
    });

    assert_eq!(reached, "/products/pick");
    assert!(has_pending_route_result(&router));
    assert_eq!(pending_route_result_route(&router).as_deref(), Some("/products/pick"));
    assert!(pending_route_result_type(&router).expect("result type should exist").contains("String"));
    assert_eq!(current_route(&router), "/products/pick");

    assert!(callbacks.deliver(&mut router, "alloc::string::String", "sku_123".to_string()));
    assert_eq!(selected.borrow().as_deref(), Some("sku_123"));
    assert_eq!(current_route(&router), "/checkout");
    assert!(!has_pending_route_result(&router));
}

#[test]
fn route_result_rejects_wrong_type_without_consuming_handler() {
    let mut router = Router::new();
    navigate(&mut router, "/checkout", None);

    let selected = Rc::new(RefCell::new(None));
    let selected_for_callback = Rc::clone(&selected);
    assert!(try_navigate_for_result(&mut router, "/products/pick", None, "alloc::string::String"));
    let mut callbacks = Callbacks::new();
    callbacks.pending.push(Box::new(move |value| {
        *selected_for_callback.borrow_mut() = Some(*value.downcast::<String>().expect("type checked"));
    }));

    assert!(!callbacks.deliver(&mut router, "u32", 123_u32));
    assert!(has_pending_route_result(&router));
    assert_eq!(current_route(&router), "/products/pick");

    assert!(callbacks.deliver(&mut router, "alloc::string::String", "sku_456".to_string()));
    assert_eq!(selected.borrow().as_deref(), Some("sku_456"));
    assert_eq!(current_route(&router), "/checkout");
}

#[test]
fn cancel_route_result_drops_callback_and_pops_route() {
    let mut router = Router::new();
    let mut callbacks = Callbacks::new();
    navigate(&mut router, "/checkout", None);

    let called = Rc::new(RefCell::new(false));
    let called_for_callback = Rc::clone(&called);
    callbacks.open(&mut router, "/products/pick", "alloc::string::String", move |_: String| {
        *called_for_callback.borrow_mut() = true;
    });

    assert!(cancel_route_result(&mut router));
    callbacks.pending.pop();
    assert!(!*called.borrow());
    assert_eq!(current_route(&router), "/checkout");
    assert!(!has_pending_route_result(&router));
}

#[test]
fn navigation_state_snapshots_history_and_modals() {
    let mut router = Router::new();
    navigate(&mut router, "/", None);
    navigate(&mut router, "/orders/42?tab=items", None);
    present_modal(&mut router, "/filters");

    let state = navigation_state(&router);

    assert_eq!(state.current, "/orders/42?tab=items");
    assert_eq!(state.history, vec!["/".to_string(), "/orders/42?tab=items".to_string()]);
    assert_eq!(state.modals, vec!["/filters".to_string()]);
}

#[test]
fn restore_navigation_state_restores_stack_and_clears_result_callbacks() {
    let mut router = Router::new();
    let mut callbacks = Callbacks::new();
    navigate(&mut router, "/checkout", None);

    let called = Rc::new(RefCell::new(false));
    let called_for_callback = Rc::clone(&called);
    callbacks.open(&mut router, "/products/pick", "alloc::string::String", move |_: String| {
        *called_for_callback.borrow_mut() = true;
    });
    assert!(has_pending_route_result(&router));

    let restored = restore_navigation_state(
        &mut router,
        NavigationState::new("/orders/42", vec!["/".to_string(), "/orders/42".to_string()], vec!["/filters".to_string()]),
        None,
    );
    callbacks.pending.clear();

    assert_eq!(restored.current, "/orders/42");
    assert_eq!(current_route(&router), "/orders/42");
    assert_eq!(modal_stack(&router), vec!["/filters".to_string()]);
    assert!(!has_pending_route_result(&router));
    assert!(!callbacks.deliver(&mut router, "alloc::string::String", "sku_789".to_string()));
    assert!(!*called.borrow());
}

#[test]
fn go_back_after_navigate_returns_to_previous_route() {
    let mut router = Router::new();
    navigate(&mut router, "/", None);
    navigate(&mut router, "/orders", None);
    assert!(go_back(&mut router));
    assert_eq!(current_route(&router), "/");
    assert!(!go_back(&mut router));
    assert_eq!(current_route(&router), "/");
}

#[test]
fn guard_redirect_replaces_destination() {
    let mut router = Router::new();
    let reached = navigate(&mut router, "/admin", Some("/login".to_string()));
    assert_eq!(reached, "/login");
    assert_eq!(current_route(&router), "/login");
}

#[test]
fn use_params_is_empty_when_no_pattern_is_registered() {
    let mut router = Router::new();
    navigate(&mut router, "/orders/42", None);
    let params = use_params(&router, &[]);
    assert!(params.is_empty());
}

#[test]
fn use_params_reads_the_first_registered_pattern_that_matches() {
    let mut router = Router::new();
    navigate(&mut router, "/orders/42", None);
    let params = use_params(&router, &["/users/:id", "/orders/:id"]);
    assert_eq!(params.len(), 1);
    assert_eq!(params.get("id").map(|v| v.as_str()), Some("42"));
    let none = use_params(&router, &["/users/:id"]);
    assert!(none.is_empty());
}
