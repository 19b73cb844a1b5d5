use raxon::location::{parse_deep_link, parse_query, parse_query_all, parse_route_location};
use raxon::maps::{QueryMap, StrMap};
use raxon::pattern::{build_route, build_route_with_query, match_route, match_route_location, route};

fn value<'a>(m: &'a StrMap, key: &str) -> &'a str {
    m.get(key).expect("key present").as_str()
}

fn values(m: &QueryMap, key: &str) -> Vec<String> {
    m.get(key).expect("key present").clone()
}

#[test]
fn parses_query_strings_with_decoding_and_repeated_keys() {
    let first = parse_query("?tab=reviews&filter=open&filter=closed&empty&name=Alice+Doe");

    assert_eq!(value(&first, "tab"), "reviews");
    assert_eq!(value(&first, "filter"), "open");
    assert_eq!(value(&first, "empty"), "");
    assert_eq!(value(&first, "name"), "Alice Doe");

    let all = parse_query_all("filter=open&filter=closed&encoded=a%2Fb");
    assert_eq!(values(&all, "filter"), vec!["open".to_string(), "closed".to_string()]);
    assert_eq!(values(&all, "encoded"), vec!["a/b".to_string()]);
}

#[test]
fn parses_web_custom_and_hash_route_locations() {
    let web = parse_route_location("https://rtylr.com/products/42?tab=reviews#notes");
    assert_eq!(web.path, "/products/42");
    assert_eq!(value(&web.query, "tab"), "reviews");
    assert_eq!(web.fragment.as_deref(), Some("notes"));

    let custom = parse_route_location("pablo://orders/abc%20123?from=push");
    assert_eq!(custom.path, "/orders/abc%20123");
    assert_eq!(value(&custom.query, "from"), "push");

    let hash = parse_route_location("https://rtylr.com/#/checkout?step=pay");
    assert_eq!(hash.path, "/checkout");
    assert_eq!(value(&hash.query, "step"), "pay");
    assert_eq!(hash.fragment.as_deref(), Some("/checkout?step=pay"));
}

#[test]
fn match_route_ignores_query_hash_and_decodes_params() {
    let params = match_route(
        "/products/:id/reviews/:review_id",
        "/products/abc%20123/reviews/99?sort=new#top",
    )
    .expect("route should match");

    assert_eq!(value(&params, "id"), "abc 123");
    assert_eq!(value(&params, "review_id"), "99");
}

#[test]
fn match_route_supports_optional_path_params() {
    let without_id = match_route("/products/:id?", "/products").expect("route should match");
    assert!(without_id.is_empty());

    let with_id = match_route("/products/:id?", "/products/abc%20123").expect("route should match");
    assert_eq!(value(&with_id, "id"), "abc 123");

    let nested_without_id =
        match_route("/products/:id?/reviews", "/products/reviews").expect("route should match");
    assert!(nested_without_id.is_empty());

    let nested_with_id =
        match_route("/products/:id?/reviews", "/products/42/reviews").expect("route should match");
    assert_eq!(value(&nested_with_id, "id"), "42");

    assert!(match_route("/products/:id?", "/products/42/reviews").is_none());
}

#[test]
fn match_route_supports_splat_params_and_unnamed_catchalls() {
    let file = match_route("/files/*path", "/files/docs/Annual%20Plan.pdf").expect("route should match");
    assert_eq!(value(&file, "path"), "docs/Annual Plan.pdf");

    let empty_splat = match_route("/files/*path", "/files").expect("route should match");
    assert_eq!(value(&empty_splat, "path"), "");

    let unnamed = match_route("/settings/*", "/settings/profile/security").expect("route should match");
    assert!(unnamed.is_empty());

    assert!(match_route("/files/*path/edit", "/files/docs/edit").is_none());
}

#[test]
fn match_route_location_carries_params_query_and_hash() {
    let matched = match_route_location(
        "/orders/:id?tab=items#notes",
        "/orders/abc%20123?tab=items&tag=paid&tag=pickup#notes",
    )
    .expect("route should match");

    assert_eq!(matched.pattern, "/orders/:id?tab=items#notes");
    assert_eq!(matched.path, "/orders/abc%20123");
    assert_eq!(matched.param("id"), Some("abc 123"));
    assert_eq!(matched.query_value("tab"), Some("items"));
    assert_eq!(
        matched.query_values("tag"),
        Some(["paid".to_string(), "pickup".to_string()].as_slice())
    );
    assert_eq!(matched.fragment.as_deref(), Some("notes"));
}

#[test]
fn declarative_route_patterns_can_constrain_query_and_hash() {
    assert!(match_route_location("/orders/:id?tab=items", "/orders/42?tab=items").is_some());
    assert!(match_route_location("/orders/:id?tab=items", "/orders/42?tab=history").is_none());
    assert!(match_route_location("/orders/:id#notes", "/orders/42#notes").is_some());
    assert!(match_route_location("/orders/:id#notes", "/orders/42#summary").is_none());
}

#[test]
fn url_route_matches_exposes_the_route_context() {
    let detail = route("/orders/:id", |_: &str| "detail");
    let matched = detail.matches("/orders/42?tab=items").expect("route should match");

    assert_eq!(detail.pattern(), "/orders/:id");
    assert_eq!(matched.param("id"), Some("42"));
    assert_eq!(matched.query_value("tab"), Some("items"));
}

#[test]
fn url_route_matches_optional_and_splat_patterns() {
    let optional = route("/products/:id?/reviews", |_: &str| "reviews");
    assert!(optional.matches("/products/reviews").is_some());
    assert_eq!(
        optional
            .matches("/products/42/reviews")
            .expect("route should match")
            .param("id"),
        Some("42")
    );

    let catchall = route("/files/*path", |_: &str| "file");
    assert_eq!(
        catchall
            .matches("/files/docs/report.pdf")
            .expect("route should match")
            .param("path"),
        Some("docs/report.pdf")
    );
}

#[test]
fn route_location_rewrites_query_params_with_stable_encoding() {
    let location = parse_route_location("/orders/42?tag=paid&tag=pickup&name=Alice+Doe#notes");
    let rewritten = location.with_query_param("tab", "items").without_query_param("name");

    assert_eq!(rewritten.to_route_string(), "/orders/42?tab=items&tag=paid&tag=pickup#notes");
}

#[test]
fn route_location_rewrites_repeated_values_and_removes_empty_sets() {
    let location = parse_route_location("/search?tag=old&sort=recent");
    let rewritten = location.with_query_values("tag", &["paid", "pickup"]);
    let removed = rewritten.with_query_values("sort", &[]);
    let expected_tags = vec!["paid".to_string(), "pickup".to_string()];

    assert_eq!(rewritten.query_values("tag"), Some(expected_tags.as_slice()));
    assert_eq!(removed.to_route_string(), "/search?tag=paid&tag=pickup");
}

#[test]
fn route_location_encodes_query_and_fragment_values() {
    let location = parse_route_location("/search")
        .with_query_param("sort by", "new first")
        .with_fragment("section 1");

    assert_eq!(location.to_route_string(), "/search?sort+by=new+first#section%201");
}

#[test]
fn route_location_keeps_hash_router_urls_in_hash_form() {
    let location = parse_route_location("https://rtylr.com/#/checkout?step=pay");
    let rewritten = location.with_query_param("coupon", "VIP 10");

    assert_eq!(rewritten.to_route_string(), "/#/checkout?coupon=VIP+10&step=pay");
}

#[test]
fn build_route_fills_optional_required_and_splat_params() {
    let order = build_route("/orders/:id/reviews/:review_id", &[("id", "abc 123"), ("review_id", "R/9")]);
    assert_eq!(order.as_deref(), Some("/orders/abc%20123/reviews/R%2F9"));

    let optional = build_route("/orders/:id?", &[]);
    assert_eq!(optional.as_deref(), Some("/orders"));

    let splat = build_route("/files/*path", &[("path", "docs/Annual Plan.pdf")]);
    assert_eq!(splat.as_deref(), Some("/files/docs/Annual%20Plan.pdf"));

    assert!(build_route("/orders/:id", &[]).is_none());
}

#[test]
fn build_route_with_query_handles_pattern_constraints_and_hash_routes() {
    let route = build_route_with_query(
        "/#/checkout/:step?mode=guest",
        &[("step", "pay")],
        &[("coupon", "VIP 10"), ("tag", "fast"), ("tag", "paid")],
    )
    .expect("route should build");

    assert_eq!(route, "/#/checkout/pay?coupon=VIP+10&mode=guest&tag=fast&tag=paid");

    let overridden = build_route_with_query("/orders/:id?tab=items", &[("id", "42")], &[("tab", "history")])
        .expect("route should build");
    assert_eq!(overridden, "/orders/42?tab=history");
}

#[test]
fn parse_deep_link_handles_universal_links() {
    let (path, params) = parse_deep_link("https://rtylr.com/profile/42?tab=posts");

    assert_eq!(path, "/profile/42");
    assert_eq!(value(&params, "tab"), "posts");
}

#[test]
fn matching_a_built_route_gives_the_parameters_back() {
    let built = build_route("/orders/:id/items/:item", &[("id", "R/9"), ("item", "ü x")]).expect("route builds");
    assert_eq!(built, "/orders/R%2F9/items/%C3%BC%20x");
    let params = match_route("/orders/:id/items/:item", &built).expect("route matches");
    assert_eq!(params.len(), 2);
    assert_eq!(params.get("id").map(|v| v.as_str()), Some("R/9"));
    assert_eq!(params.get("item").map(|v| v.as_str()), Some("ü x"));
}

#[test]
fn parsing_a_printed_location_gives_it_back() {
    let location = parse_route_location("/docs/ü page#part 2");
    let printed = location.to_route_string();
    assert_eq!(printed, "/docs/ü page#part%202");
    let again = parse_route_location(&printed);
    assert_eq!(again.path, location.path);
    assert_eq!(again.fragment, location.fragment);
    assert_eq!(again.fragment.as_deref(), Some("part 2"));
    assert!(again.query_all.is_empty());
}

#[test]
fn static_segments_with_invalid_escapes_still_round_trip() {
    let built = build_route("/x%FF/:id", &[("id", "7")]).expect("route builds");
    assert_eq!(built, "/x%EF%BF%BD/7");
    let params = match_route("/x%FF/:id", &built).expect("route matches");
    assert_eq!(params.len(), 1);
    assert_eq!(params.get("id").map(|v| v.as_str()), Some("7"));
}
