use velo::route_list::{parse_route_list, RouteListTok as T};
use velo::app_files::{rel_le, sort_app_files};
use velo::route_files::{
    classify_app_file, discover_route_patterns, find_segment_file, is_hidden_name, layout_chain,
    module_ident, normalize_rel, path_helper, plan_app, route_data, sanitize_ident,
    validate_route_literal, AppFile, AppFileKind, AppPlanError,
};
use velo::route_match::{
    is_path_active, match_route_patterns, pattern_matches, route_pattern, select_route, RouteSeg,
};
use velo::router::{LayoutRegistry, RouterState};

fn file(rel: &str) -> AppFile {
    let name = rel.rsplit('/').next().unwrap();
    AppFile { rel: rel.to_string(), kind: classify_app_file(name) }
}

fn segs(url: &str) -> Vec<Vec<char>> {
    url.split('/').filter(|s| !s.is_empty()).map(|s| s.chars().collect()).collect()
}

#[test]
fn route_data_root_page() {
    let d = route_data("page.rs");
    assert_eq!(d.path, "/");
    assert_eq!(d.fmt, "/");
    assert!(d.params.is_empty());
    assert!(d.static_segs.is_empty());
}

#[test]
fn route_data_static_and_dynamic_segments() {
    let d = route_data("blog/page.rs");
    assert_eq!(d.path, "/blog");
    assert_eq!(d.fmt, "/blog");
    assert_eq!(d.static_segs, vec!["blog".to_string()]);

    let d = route_data("blog/[slug]/page.rs");
    assert_eq!(d.path, "/blog/:slug");
    assert_eq!(d.params, vec!["slug".to_string()]);
    assert_eq!(d.fmt, "/blog/{}");
    assert_eq!(d.static_segs, vec!["blog".to_string()]);
}

#[test]
fn route_data_catch_all() {
    let d = route_data("blog/[...rest]/page.rs");
    assert_eq!(d.path, "/blog/**");
    assert_eq!(d.params, vec!["rest".to_string()]);
    assert_eq!(d.fmt, "/blog/{}");

    let d = route_data("[...all]/page.rs");
    assert_eq!(d.path, "/**");
    assert_eq!(d.fmt, "/{}");
}

#[test]
fn sanitize_and_module_names() {
    assert_eq!(sanitize_ident("Hello-World"), "hello_world");
    assert_eq!(sanitize_ident("9lives"), "p9lives");
    assert_eq!(sanitize_ident(""), "p");
    assert_eq!(module_ident("blog/[slug]/page.rs"), "blog__slug__page");
    assert_eq!(module_ident("page.rs"), "page");
    assert_eq!(module_ident("404/page.rs"), "p404_page");
    assert_eq!(module_ident("not-found.rs"), "not_found");
}

#[test]
fn app_file_classification() {
    assert_eq!(classify_app_file("page.rs"), AppFileKind::Page);
    assert_eq!(classify_app_file("layout.rs"), AppFileKind::Layout);
    assert_eq!(classify_app_file("not-found.rs"), AppFileKind::NotFound);
    assert_eq!(classify_app_file("error.rs"), AppFileKind::Other);
    assert!(is_hidden_name(".git"));
    assert!(!is_hidden_name("blog"));
    assert_eq!(normalize_rel("blog\\[slug]\\page.rs"), "blog/[slug]/page.rs");
}

#[test]
fn path_helpers() {
    let h = path_helper(&route_data("page.rs"));
    assert!(h.is_const);
    assert_eq!(h.name, "INDEX");
    assert_eq!(h.path, "/");

    let h = path_helper(&route_data("docs/getting-started/page.rs"));
    assert!(h.is_const);
    assert_eq!(h.name, "DOCS_GETTING_STARTED");
    assert_eq!(h.path, "/docs/getting-started");

    let h = path_helper(&route_data("blog/[slug]/page.rs"));
    assert!(!h.is_const);
    assert_eq!(h.name, "blog_slug");
    assert_eq!(h.args, vec!["slug".to_string()]);
    assert_eq!(h.fmt, "/blog/{}");
}

#[test]
fn route_patterns_and_matching() {
    let pat = route_pattern("/blog/:slug");
    assert_eq!(pat.len(), 2);
    assert!(matches!(&pat[0], RouteSeg::Lit(l) if l.iter().collect::<String>() == "blog"));
    assert!(matches!(pat[1], RouteSeg::Param));
    assert!(pattern_matches(&pat, &segs("/blog/hello")));
    assert!(!pattern_matches(&pat, &segs("/blog")));
    assert!(!pattern_matches(&pat, &segs("/blog/a/b")));

    let all = route_pattern("/docs/**");
    assert!(matches!(all[1], RouteSeg::CatchAll));
    assert!(pattern_matches(&all, &segs("/docs/a/b")));
    assert!(!pattern_matches(&all, &segs("/docs")));
}

#[test]
fn template_matching_binds_params() {
    let m = match_route_patterns("/users/:id", "/users/42").unwrap();
    assert_eq!(m.get("id"), Some("42".to_string()));
    assert_eq!(m.get("other"), None);

    let m = match_route_patterns("/posts/:year/:slug", "/posts/2024/hello").unwrap();
    assert_eq!(m.get("year"), Some("2024".to_string()));
    assert_eq!(m.get("slug"), Some("hello".to_string()));

    assert!(match_route_patterns("/**", "/anything/at/all").is_some());
    assert!(match_route_patterns("/docs/**", "/docs/a/b").is_some());
    assert!(match_route_patterns("/a/:x", "/a").is_none());
    assert!(match_route_patterns("/a", "/b").is_none());
}

#[test]
fn active_link_boundaries() {
    assert!(is_path_active("/blog", "/blog"));
    assert!(is_path_active("/blog/post", "/blog"));
    assert!(!is_path_active("/blogxyz", "/blog"));
    assert!(is_path_active("/", "/"));
    assert!(!is_path_active("/blog", "/"));
    assert!(is_path_active("/blog/x", "/blog/"));
}

#[test]
fn first_matching_route_wins() {
    let paths = vec!["/".to_string(), "/users/:id".to_string(), "/**".to_string()];
    let (i, m) = select_route(&paths, "/users/7").unwrap();
    assert_eq!(i, 1);
    assert_eq!(m.get("id"), Some("7".to_string()));
    let (i, _) = select_route(&paths, "/missing/page").unwrap();
    assert_eq!(i, 2);
    assert!(select_route(&vec!["/a".to_string()], "/b").is_none());
}

#[test]
fn compile_time_route_check() {
    let files = vec![file("blog/[slug]/page.rs"), file("layout.rs"), file("page.rs")];
    let pats = discover_route_patterns(&files);
    assert_eq!(pats.len(), 2);
    assert_eq!(pats[0].0, "/blog/:slug");
    assert_eq!(pats[1].0, "/");
    assert!(validate_route_literal("/", &files).is_ok());
    assert!(validate_route_literal("/blog/hello", &files).is_ok());
    assert_eq!(
        validate_route_literal("/nope", &files),
        Err("no route in `src/app/` matches \"/nope\"\navailable routes:\n      - /blog/:slug\n      - /"
            .to_string())
    );
    assert_eq!(
        validate_route_literal("/x", &vec![]),
        Err("no route in `src/app/` matches \"/x\"\navailable routes:\n      (no `page.rs` files found under src/app/)"
            .to_string())
    );
}

#[test]
fn layout_chain_nearest_first() {
    let files = vec![
        file("blog/[slug]/page.rs"),
        file("blog/layout.rs"),
        file("layout.rs"),
        file("page.rs"),
    ];
    assert_eq!(
        layout_chain("blog/[slug]/page.rs", &files),
        vec!["blog/layout.rs".to_string(), "layout.rs".to_string()]
    );
    assert_eq!(layout_chain("page.rs", &files), vec!["layout.rs".to_string()]);
    assert!(layout_chain("page.rs", &vec![file("page.rs")]).is_empty());
}

#[test]
fn nearest_segment_file() {
    let files = vec![file("blog/[slug]/page.rs"), file("blog/error.rs"), file("error.rs")];
    assert_eq!(
        find_segment_file("blog/[slug]/page.rs", &files, "error.rs"),
        Some("blog/error.rs".to_string())
    );
    assert_eq!(find_segment_file("page.rs", &files, "error.rs"), Some("error.rs".to_string()));
    assert_eq!(find_segment_file("blog/[slug]/page.rs", &files, "loading.rs"), None);
}

#[test]
fn app_plan_routes_and_modules() {
    let files = vec![
        file("blog/[slug]/page.rs"),
        file("blog/loading.rs"),
        file("error.rs"),
        file("layout.rs"),
        file("not-found.rs"),
        file("page.rs"),
    ];
    let plan = plan_app(&files).unwrap();
    assert_eq!(plan.modules.len(), 6);
    assert_eq!(plan.modules[0], ("blog__slug__page".to_string(), "blog/[slug]/page.rs".to_string()));
    assert_eq!(plan.routes.len(), 3);
    let r = &plan.routes[0];
    assert_eq!(r.path, "/blog/:slug");
    assert_eq!(r.module, "blog__slug__page");
    assert_eq!(r.render_fn, "blog__slug__page__render");
    assert_eq!(r.layouts, vec!["layout".to_string()]);
    assert_eq!(r.error_module, Some("error".to_string()));
    assert_eq!(r.loading_module, Some("blog_loading".to_string()));
    assert!(!r.is_not_found);
    assert_eq!(plan.routes[1].path, "/");
    let nf = &plan.routes[2];
    assert_eq!(nf.path, "/**");
    assert!(nf.is_not_found);
    assert_eq!(plan.helpers.len(), 2);
    assert_eq!(plan.helpers[0].name, "blog_slug");
    assert_eq!(plan.helpers[1].name, "INDEX");

    assert_eq!(plan_app(&vec![file("layout.rs")]).err(), Some(AppPlanError::NoPages));
}

#[test]
fn app_files_sorted_by_path() {
    let files = vec![file("page.rs"), file("blog/page.rs"), file("about/page.rs"), file("layout.rs")];
    let sorted = sort_app_files(files);
    let rels: Vec<String> = sorted.iter().map(|f| f.rel.clone()).collect();
    assert_eq!(rels, vec!["about/page.rs", "blog/page.rs", "layout.rs", "page.rs"]);
    assert!(rel_le("a", "ab"));
    assert!(!rel_le("b", "ab"));
    assert!(rel_le("", ""));
}

#[test]
fn sorting_keeps_files_at_one_path_in_order() {
    let files = vec![
        AppFile { rel: "b.rs".to_string(), kind: AppFileKind::Page },
        AppFile { rel: "a.rs".to_string(), kind: AppFileKind::Other },
        AppFile { rel: "b.rs".to_string(), kind: AppFileKind::Layout },
        AppFile { rel: "b.rs".to_string(), kind: AppFileKind::NotFound },
    ];
    let sorted = sort_app_files(files);
    let kinds: Vec<AppFileKind> = sorted.iter().map(|f| f.kind).collect();
    assert_eq!(kinds, vec![AppFileKind::Other, AppFileKind::Page, AppFileKind::Layout, AppFileKind::NotFound]);
}

#[test]
fn layout_registry_first_registration_wins() {
    let mut reg = LayoutRegistry::new();
    reg.register_app_layouts(&vec![("/".to_string(), vec![1]), ("/blog".to_string(), vec![2, 1])]);
    reg.register_app_layouts(&vec![("/blog".to_string(), vec![9])]);
    assert_eq!(reg.app_layouts("/blog"), vec![2, 1]);
    assert_eq!(reg.app_layouts("/"), vec![1]);
    assert!(reg.app_layouts("/none").is_empty());
}

#[test]
fn router_keeps_shell_for_same_chain() {
    let mut reg = LayoutRegistry::new();
    reg.register_app_layouts(&vec![
        ("/blog/:slug".to_string(), vec![5, 1]),
        ("/".to_string(), vec![1]),
    ]);
    let paths = vec!["/".to_string(), "/blog/:slug".to_string()];
    let mut st = RouterState::new();

    let p = st.navigate(&paths, &reg, "/blog/a");
    assert_eq!(p.matched, Some(1));
    assert_eq!(p.params.get("slug"), Some("a".to_string()));
    assert_eq!(p.chain, vec![5, 1]);
    assert!(p.rebuild_shell);

    let p = st.navigate(&paths, &reg, "/blog/b");
    assert_eq!(p.params.get("slug"), Some("b".to_string()));
    assert!(!p.rebuild_shell);

    let p = st.navigate(&paths, &reg, "/");
    assert_eq!(p.matched, Some(0));
    assert_eq!(p.chain, vec![1]);
    assert!(p.rebuild_shell);

    let p = st.navigate(&paths, &reg, "/missing");
    assert_eq!(p.matched, None);
    assert!(p.chain.is_empty());
    assert!(p.rebuild_shell);
}

#[test]
fn route_table_grammar() {
    let s = |x: &str| T::Str(x.to_string());
    let id = |x: &str| T::Ident(x.to_string());
    let toks = vec![s("/"), T::FatArrow, id("Home"), T::Comma, s("/about"), T::FatArrow, id("About")];
    assert_eq!(
        parse_route_list(&toks),
        Ok(vec![("/".to_string(), "Home".to_string()), ("/about".to_string(), "About".to_string())])
    );
    let trailing = vec![s("/"), T::FatArrow, id("Home"), T::Comma];
    assert_eq!(parse_route_list(&trailing), Ok(vec![("/".to_string(), "Home".to_string())]));
    assert_eq!(parse_route_list(&vec![]), Ok(vec![]));
    assert_eq!(parse_route_list(&vec![s("/"), T::FatArrow, id("A"), id("B")]), Err(3));
    assert_eq!(parse_route_list(&vec![T::Comma, s("/"), T::FatArrow]), Err(0));
    assert_eq!(parse_route_list(&vec![s("/"), T::Comma, id("A")]), Err(1));
    assert_eq!(parse_route_list(&vec![s("/"), T::FatArrow]), Err(2));
    assert_eq!(parse_route_list(&vec![T::Comma]), Err(0));
    assert_eq!(parse_route_list(&vec![s("/")]), Err(1));
    assert_eq!(parse_route_list(&vec![s("/"), T::Other]), Err(1));
    assert_eq!(parse_route_list(&vec![s("/"), T::FatArrow, id("A"), T::Comma, T::FatArrow]), Err(4));
    assert_eq!(parse_route_list(&vec![s("/"), T::FatArrow, id("A"), T::Comma, s("/b")]), Err(5));
}
