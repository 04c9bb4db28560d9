use velo::arrow::{arrow_form, parse_arrow, ArrowForm, ArrowShape, ArrowTok};
use velo::keyed::{plan_keyed_update, ListOp};
use velo::markup::{
    attr_key, parse_markup, AttrValue, MarkupAttr, MarkupError, MarkupEvent, MarkupTok,
};
use velo::view_attrs::{
    classify_attr, component_kind, is_component_tag, join_class_names, negates_predicate,
    plan_classes, props_type_name, split_whitespace, strip_raw_prefix, AttrKind, ClassNames,
    ClassRegistry, ComponentKind, StyleRegistry, check_component_params, ComponentError, ParamShape,
    prop_role, PropRole,
};

fn ident(s: &str) -> MarkupTok {
    MarkupTok::Ident(s.to_string())
}

fn text(s: &str) -> MarkupTok {
    MarkupTok::Str(s.to_string())
}

#[test]
fn markup_element_with_attributes_and_children() {
    // <div class="a" on:click={0}>"hi" {1}</div>
    let toks = vec![
        MarkupTok::Lt,
        ident("div"),
        ident("class"),
        MarkupTok::Eq,
        text("a"),
        ident("on"),
        MarkupTok::Colon,
        ident("click"),
        MarkupTok::Eq,
        MarkupTok::Block(0),
        MarkupTok::Gt,
        text("hi"),
        MarkupTok::Block(1),
        MarkupTok::Lt,
        MarkupTok::Slash,
        ident("div"),
        MarkupTok::Gt,
    ];
    let ev = parse_markup(&toks).unwrap();
    assert_eq!(ev.len(), 4);
    match &ev[0] {
        MarkupEvent::ElementStart { tag, attrs, self_closing } => {
            assert_eq!(tag, "div");
            assert!(!self_closing);
            assert_eq!(attrs.len(), 2);
            assert_eq!(attr_key(&attrs[0]), "class");
            assert_eq!(attrs[0].value, AttrValue::Text("a".to_string()));
            assert_eq!(attr_key(&attrs[1]), "on:click");
            assert_eq!(attrs[1].value, AttrValue::Expr(0));
        },
        other => panic!("unexpected {:?}", other),
    }
    assert_eq!(ev[1], MarkupEvent::Text("hi".to_string()));
    assert_eq!(ev[2], MarkupEvent::Expr(1));
    assert_eq!(ev[3], MarkupEvent::ElementEnd("div".to_string()));
}

#[test]
fn markup_self_closing_flag_and_hyphenated_keys() {
    // <svg stroke-linecap="round" disabled />
    let toks = vec![
        MarkupTok::Lt,
        ident("svg"),
        ident("stroke"),
        MarkupTok::Minus,
        ident("linecap"),
        MarkupTok::Eq,
        text("round"),
        ident("disabled"),
        MarkupTok::Slash,
        MarkupTok::Gt,
    ];
    let ev = parse_markup(&toks).unwrap();
    assert_eq!(ev.len(), 1);
    let expected = MarkupEvent::ElementStart {
        tag: "svg".to_string(),
        attrs: vec![
            MarkupAttr {
                parts: vec!["stroke".to_string(), "linecap".to_string()],
                namespace: None,
                value: AttrValue::Text("round".to_string()),
            },
            MarkupAttr { parts: vec!["disabled".to_string()], namespace: None, value: AttrValue::Flag },
        ],
        self_closing: true,
    };
    assert_eq!(ev[0], expected);
    if let MarkupEvent::ElementStart { attrs, .. } = &ev[0] {
        assert_eq!(attr_key(&attrs[0]), "stroke-linecap");
    }
}

#[test]
fn markup_fragment_and_for_block() {
    // <>"a"{ for .. { <li/> } }</>
    let toks = vec![
        MarkupTok::Lt,
        MarkupTok::Gt,
        text("a"),
        MarkupTok::ForStart(3),
        MarkupTok::Lt,
        ident("li"),
        MarkupTok::Slash,
        MarkupTok::Gt,
        MarkupTok::ForEnd,
        MarkupTok::Lt,
        MarkupTok::Slash,
        MarkupTok::Gt,
    ];
    let ev = parse_markup(&toks).unwrap();
    assert_eq!(
        ev,
        vec![
            MarkupEvent::FragmentStart,
            MarkupEvent::Text("a".to_string()),
            MarkupEvent::ForStart(3),
            MarkupEvent::ElementStart { tag: "li".to_string(), attrs: vec![], self_closing: true },
            MarkupEvent::ForEnd,
            MarkupEvent::FragmentEnd,
        ]
    );
}

#[test]
fn markup_errors() {
    // <div></span>
    let toks = vec![
        MarkupTok::Lt,
        ident("div"),
        MarkupTok::Gt,
        MarkupTok::Lt,
        MarkupTok::Slash,
        ident("span"),
        MarkupTok::Gt,
    ];
    assert_eq!(
        parse_markup(&toks),
        Err(MarkupError::MismatchedClose { at: 5, open_tag: "div".to_string() })
    );
    // <div><span></div>: the innermost open element is the one named
    let nested = vec![
        MarkupTok::Lt,
        ident("div"),
        MarkupTok::Gt,
        MarkupTok::Lt,
        ident("span"),
        MarkupTok::Gt,
        MarkupTok::Lt,
        MarkupTok::Slash,
        ident("div"),
        MarkupTok::Gt,
    ];
    assert_eq!(
        parse_markup(&nested),
        Err(MarkupError::MismatchedClose { at: 8, open_tag: "span".to_string() })
    );
    // <div>  (never closed)
    assert_eq!(parse_markup(&vec![MarkupTok::Lt, ident("div"), MarkupTok::Gt]), Err(MarkupError::End));
    // "a" "b"  (a second root)
    assert_eq!(parse_markup(&vec![text("a"), text("b")]), Err(MarkupError::Unexpected(1)));
    // nothing at all
    assert_eq!(parse_markup(&vec![]), Err(MarkupError::End));
    // </> with nothing open
    assert_eq!(
        parse_markup(&vec![MarkupTok::Lt, MarkupTok::Slash, MarkupTok::Gt]),
        Err(MarkupError::Unexpected(1))
    );
    // <div =
    assert_eq!(
        parse_markup(&vec![MarkupTok::Lt, ident("div"), MarkupTok::Eq]),
        Err(MarkupError::Unexpected(2))
    );
}

#[test]
fn markup_raw_tag_closes_plain_tag() {
    let toks = vec![
        MarkupTok::Lt,
        ident("r#type"),
        MarkupTok::Gt,
        MarkupTok::Lt,
        MarkupTok::Slash,
        ident("type"),
        MarkupTok::Gt,
    ];
    let ev = parse_markup(&toks).unwrap();
    assert_eq!(ev.len(), 2);
    assert_eq!(strip_raw_prefix("r#type"), "type");
    assert_eq!(strip_raw_prefix("div"), "div");
}

#[test]
fn attribute_kinds() {
    assert!(matches!(classify_attr("on:submit"), AttrKind::Submit));
    assert!(matches!(classify_attr("on:click"), AttrKind::Event(e) if e == "click"));
    assert!(matches!(classify_attr("class:active"), AttrKind::ClassToggle(c) if c == "active"));
    assert!(matches!(classify_attr("class"), AttrKind::Class));
    assert!(matches!(classify_attr("style:color"), AttrKind::Style(p) if p == "color"));
    assert!(matches!(classify_attr("bind:value"), AttrKind::BindValue));
    assert!(matches!(classify_attr("bind:checked"), AttrKind::BindChecked));
    assert!(matches!(classify_attr("disabled"), AttrKind::Boolean));
    assert!(matches!(classify_attr("href"), AttrKind::Plain));
}

#[test]
fn components() {
    assert!(is_component_tag("Show"));
    assert!(!is_component_tag("div"));
    assert!(!is_component_tag(""));
    assert_eq!(component_kind("Show"), ComponentKind::Show);
    assert_eq!(component_kind("Suspense"), ComponentKind::Suspense);
    assert_eq!(component_kind("Link"), ComponentKind::Link);
    assert_eq!(component_kind("Head"), ComponentKind::Head);
    assert_eq!(component_kind("UserCard"), ComponentKind::Custom);
    assert_eq!(props_type_name("UserCard"), "UserCardProps");
    assert!(negates_predicate(ComponentKind::Suspense));
    assert!(!negates_predicate(ComponentKind::Show));
}

#[test]
fn class_names_join_present_parts() {
    assert_eq!("x".collect_class(), Some("x".to_string()));
    assert_eq!("".collect_class(), None);
    assert_eq!(Some("y".to_string()).collect_class(), Some("y".to_string()));
    assert_eq!(Option::<String>::None.collect_class(), None);
    let parts = vec![Some("btn".to_string()), None, Some("active".to_string())];
    assert_eq!(join_class_names(&parts), "btn active");
    assert_eq!(join_class_names(&vec![]), "");
    let words = split_whitespace("  a \t b  ");
    assert_eq!(words, vec![vec!['a'], vec!['b']]);
}

#[test]
fn class_registry_merges_base_and_toggles() {
    let mut reg = ClassRegistry::new("btn primary", &vec!["active".to_string()]);
    assert_eq!(reg.class_name(), "btn primary active");
    reg.set("active", false);
    assert_eq!(reg.class_name(), "btn primary");
    reg.set("active", true);
    assert_eq!(reg.class_name(), "btn primary active");
}

#[test]
fn class_registry_toggles_in_declaration_order() {
    let toggles = vec!["active".to_string(), "disabled".to_string(), "wide".to_string()];
    let mut reg = ClassRegistry::new("btn  primary", &toggles);
    reg.set("active", false);
    reg.set("wide", false);
    reg.set("disabled", true);
    reg.set("active", true);
    assert_eq!(reg.class_name(), "btn primary active disabled");
    reg.set("disabled", false);
    assert_eq!(reg.class_name(), "btn primary active");
}

#[test]
fn style_registry_merges_properties() {
    let mut st = StyleRegistry::new();
    st.set("color", "red");
    st.set("width", "1px");
    st.set("color", "blue");
    assert_eq!(st.css(), "color: blue; width: 1px");
}

#[test]
fn class_plan() {
    let bases = vec![Some("a".to_string()), None, Some("b".to_string())];
    let p = plan_classes(&bases, true);
    assert_eq!(p.static_base, Some("a b".to_string()));
    assert_eq!(p.reactive_bases, vec![1]);
    let p = plan_classes(&bases, false);
    assert_eq!(p.static_base, None);
    assert_eq!(p.reactive_bases, vec![0, 1, 2]);
}

/// Carries out a plan on a list of keys the way the DOM layer does.
fn carry_out(prev: &[u64], plan: &velo::keyed::ListPlan) -> Vec<u64> {
    let mut c: Vec<u64> = prev.iter().copied().filter(|k| !plan.removals.contains(k)).collect();
    for op in &plan.places {
        if let ListOp::Place { key, before } = op {
            c.retain(|k| k != key);
            match before.and_then(|b| c.iter().position(|k| *k == b)) {
                Some(p) => c.insert(p, *key),
                None => c.push(*key),
            }
        }
    }
    c
}

#[test]
fn keyed_update_removal() {
    let plan = plan_keyed_update(&vec![1, 2, 3], &vec![1, 3]);
    assert_eq!(plan.removals, vec![2]);
    assert!(plan.renders.is_empty());
    assert_eq!(
        plan.places,
        vec![ListOp::Place { key: 3, before: None }, ListOp::Place { key: 1, before: Some(3) }]
    );
    assert_eq!(carry_out(&[1, 2, 3], &plan), vec![1, 3]);
}

#[test]
fn keyed_update_insert() {
    let plan = plan_keyed_update(&vec![1, 3], &vec![1, 2, 3]);
    assert!(plan.removals.is_empty());
    assert_eq!(plan.renders, vec![1]);
    assert_eq!(
        plan.places,
        vec![
            ListOp::Place { key: 3, before: None },
            ListOp::Place { key: 2, before: Some(3) },
            ListOp::Place { key: 1, before: Some(2) },
        ]
    );
    assert_eq!(carry_out(&[1, 3], &plan), vec![1, 2, 3]);
}

#[test]
fn keyed_update_rotation() {
    let plan = plan_keyed_update(&vec![1, 2, 3], &vec![2, 3, 1]);
    assert!(plan.removals.is_empty());
    assert!(plan.renders.is_empty());
    assert_eq!(
        plan.places,
        vec![
            ListOp::Place { key: 1, before: None },
            ListOp::Place { key: 3, before: Some(1) },
            ListOp::Place { key: 2, before: Some(3) },
        ]
    );
    assert_eq!(carry_out(&[1, 2, 3], &plan), vec![2, 3, 1]);
}

#[test]
fn keyed_update_unchanged() {
    let plan = plan_keyed_update(&vec![4, 5], &vec![4, 5]);
    assert!(plan.removals.is_empty());
    assert!(plan.renders.is_empty());
    assert_eq!(carry_out(&[4, 5], &plan), vec![4, 5]);
}

#[test]
fn keyed_update_append() {
    let plan = plan_keyed_update(&vec![1], &vec![1, 2, 3]);
    assert!(plan.removals.is_empty());
    assert_eq!(plan.renders, vec![1, 2]);
    assert_eq!(carry_out(&[1], &plan), vec![1, 2, 3]);
}

#[test]
fn keyed_update_mixed() {
    let prev = vec![1, 3];
    let new = vec![0, 3, 2, 1, 4];
    let plan = plan_keyed_update(&prev, &new);
    assert_eq!(plan.renders, vec![0, 2, 4]);
    assert_eq!(carry_out(&prev, &plan), new);
    let prev = vec![5, 1, 2, 3, 4];
    let new = vec![4, 2, 9];
    let plan = plan_keyed_update(&prev, &new);
    assert_eq!(plan.removals, vec![5, 1, 3]);
    assert_eq!(carry_out(&prev, &plan), new);
}

#[test]
fn arrow_shapes() {
    assert_eq!(
        parse_arrow(&vec![ArrowTok::Paren { empty: true }, ArrowTok::Eq, ArrowTok::Gt, ArrowTok::Other]),
        Some(ArrowShape { is_async: false, has_params: false, body_start: 3 })
    );
    assert_eq!(
        parse_arrow(&vec![ArrowTok::Async, ArrowTok::Paren { empty: false }, ArrowTok::Eq, ArrowTok::Gt, ArrowTok::Other, ArrowTok::Other]),
        Some(ArrowShape { is_async: true, has_params: true, body_start: 4 })
    );
    // no body
    assert_eq!(parse_arrow(&vec![ArrowTok::Paren { empty: true }, ArrowTok::Eq, ArrowTok::Gt]), None);
    // a plain expression
    assert_eq!(parse_arrow(&vec![ArrowTok::Other, ArrowTok::Other]), None);
    // `async` with no parameter list
    assert_eq!(parse_arrow(&vec![ArrowTok::Async, ArrowTok::Other, ArrowTok::Eq, ArrowTok::Gt, ArrowTok::Other]), None);
    // `=` without `>`
    assert_eq!(parse_arrow(&vec![ArrowTok::Paren { empty: true }, ArrowTok::Eq, ArrowTok::Other, ArrowTok::Other]), None);
    assert_eq!(parse_arrow(&vec![]), None);
}

#[test]
fn arrow_forms_by_position() {
    let shape = |is_async: bool, has_params: bool| ArrowShape { is_async, has_params, body_start: 3 };
    assert_eq!(arrow_form(&shape(false, false), true), ArrowForm::EventIgnored { spawn: false });
    assert_eq!(arrow_form(&shape(true, false), true), ArrowForm::EventIgnored { spawn: true });
    assert_eq!(arrow_form(&shape(false, true), true), ArrowForm::EventBound { spawn: false });
    assert_eq!(arrow_form(&shape(true, true), true), ArrowForm::EventBound { spawn: true });
    assert_eq!(arrow_form(&shape(false, false), false), ArrowForm::Reactive { async_block: false });
    assert_eq!(arrow_form(&shape(true, false), false), ArrowForm::Reactive { async_block: true });
    assert_eq!(arrow_form(&shape(false, true), false), ArrowForm::Refused);
    assert_eq!(arrow_form(&shape(true, true), false), ArrowForm::Refused);
}

#[test]
fn component_parameter_checks() {
    let named = |s: &str| ParamShape::Named(s.to_string());
    assert_eq!(
        check_component_params(true, &vec![named("title"), named("count")]),
        Ok(vec!["title".to_string(), "count".to_string()])
    );
    assert_eq!(check_component_params(true, &vec![]), Ok(vec![]));
    assert_eq!(check_component_params(false, &vec![named("a")]), Err(ComponentError::PropsArgument));
    assert_eq!(
        check_component_params(true, &vec![named("a"), ParamShape::Receiver, ParamShape::Pattern]),
        Err(ComponentError::Receiver(1))
    );
    assert_eq!(
        check_component_params(true, &vec![named("a"), ParamShape::Pattern, ParamShape::Receiver]),
        Err(ComponentError::NotNamed(1))
    );
}

#[test]
fn component_prop_roles() {
    assert_eq!(prop_role(ComponentKind::Show, "when"), PropRole::Predicate);
    assert_eq!(prop_role(ComponentKind::Suspense, "loading"), PropRole::Predicate);
    assert_eq!(prop_role(ComponentKind::Suspense, "when"), PropRole::Predicate);
    assert_eq!(prop_role(ComponentKind::Show, "fallback"), PropRole::Fallback);
    assert_eq!(prop_role(ComponentKind::Show, "title"), PropRole::Ignored);
    assert_eq!(prop_role(ComponentKind::Link, "to"), PropRole::To);
    assert_eq!(prop_role(ComponentKind::Link, "label"), PropRole::Label);
    assert_eq!(prop_role(ComponentKind::Link, "active_class"), PropRole::ActiveClass);
    assert_eq!(prop_role(ComponentKind::Link, "prefetch"), PropRole::Prefetch);
    assert_eq!(prop_role(ComponentKind::Link, "href"), PropRole::Ignored);
    assert_eq!(prop_role(ComponentKind::Head, "title"), PropRole::Title);
    assert_eq!(prop_role(ComponentKind::Head, "meta"), PropRole::Meta);
    assert_eq!(prop_role(ComponentKind::Custom, "children"), PropRole::Children);
    assert_eq!(prop_role(ComponentKind::Custom, "count"), PropRole::Field);
}
