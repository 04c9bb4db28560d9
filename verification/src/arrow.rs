//! The JS-style arrow-closure sugar of `view!`: `(pat, ..) => body` and
//! `async (pat, ..) => body`, and the closure each form stands for in an
//! event-handler position (`on:*`) or a reactive-expression position.
use vstd::prelude::*;

verus! {

/// One leading token of a block's content, as far as the arrow grammar
/// looks at it.
#[derive(Debug, PartialEq, Eq, Structural, Clone, Copy)]
pub enum ArrowTok {
    /// The keyword `async`.
    Async,
    /// A parenthesised group; `empty` when nothing stands inside it.
    Paren { empty: bool },
    /// `=`.
    Eq,
    /// `>`.
    Gt,
    /// Any other token.
    Other,
}

/// The shape of an arrow closure: whether it is `async`, whether its
/// parameter list is non-empty, and where its body begins.
#[derive(Debug, PartialEq, Eq, Structural, Clone, Copy)]
pub struct ArrowShape {
    pub is_async: bool,
    pub has_params: bool,
    pub body_start: usize,
}

/// The closure an arrow stands for.
#[derive(Debug, PartialEq, Eq, Structural, Clone, Copy)]
pub enum ArrowForm {
    /// `move |_evt: web_sys::Event| body`: a handler that ignores the event.
    EventIgnored { spawn: bool },
    /// `move |params| body`: a handler that binds the event to the params.
    EventBound { spawn: bool },
    /// `move || body`, or `move || async move { body }` when `async_block`.
    Reactive { async_block: bool },
    /// Parameters in a reactive position: not an arrow closure there.
    Refused,
}

/// An optional `async`, one parenthesised parameter list, then `=` `>`
/// and a non-empty body.
pub open spec fn arrow_shape_spec(t: Seq<ArrowTok>) -> Option<ArrowShape> {
    let a = t.len() > 0 && t[0] == ArrowTok::Async;
    let o: int = if a {
        1
    } else {
        0
    };
    if t.len() > o + 3 && (t[o] matches ArrowTok::Paren { .. }) && t[o + 1] == ArrowTok::Eq && t[o + 2]
        == ArrowTok::Gt {
        Some(
            ArrowShape {
                is_async: a,
                has_params: t[o] != ArrowTok::Paren { empty: true },
                body_start: (o + 3) as usize,
            },
        )
    } else {
        None
    }
}

/// In an event position the closure takes the event (discarding it when
/// no parameter is written) and an `async` body is spawned; in a reactive
/// position it takes nothing, an `async` body becomes the returned future,
/// and parameters are refused.
pub open spec fn arrow_form_spec(shape: ArrowShape, event_position: bool) -> ArrowForm {
    if event_position {
        if shape.has_params {
            ArrowForm::EventBound { spawn: shape.is_async }
        } else {
            ArrowForm::EventIgnored { spawn: shape.is_async }
        }
    } else if shape.has_params {
        ArrowForm::Refused
    } else {
        ArrowForm::Reactive { async_block: shape.is_async }
    }
}

/// Reads the arrow shape of a block's content, or `None` when the content
/// is not an arrow closure.
pub fn parse_arrow(toks: &Vec<ArrowTok>) -> (r: Option<ArrowShape>)
    ensures
        r == arrow_shape_spec(toks@),
{
    let n = toks.len();
    let is_async = n > 0 && toks[0] == ArrowTok::Async;
    let o: usize = if is_async {
        1
    } else {
        0
    };
    if n > o + 3 {
        let has_params = match toks[o] {
            ArrowTok::Paren { empty } => !empty,
            _ => return None,
        };
        if toks[o + 1] == ArrowTok::Eq && toks[o + 2] == ArrowTok::Gt {
            return Some(ArrowShape { is_async, has_params, body_start: o + 3 });
        }
    }
    None
}

/// The closure the arrow `shape` stands for in an event-handler position
/// (`event_position`) or a reactive-expression position.
pub fn arrow_form(shape: &ArrowShape, event_position: bool) -> (r: ArrowForm)
    ensures
        r == arrow_form_spec(*shape, event_position),
{
    if event_position {
        if shape.has_params {
            ArrowForm::EventBound { spawn: shape.is_async }
        } else {
            ArrowForm::EventIgnored { spawn: shape.is_async }
        }
    } else if shape.has_params {
        ArrowForm::Refused
    } else {
        ArrowForm::Reactive { async_block: shape.is_async }
    }
}

/// What a parsed arrow is: its body starts right after a parenthesised
/// parameter list and `=` `>`, with something left for the body; it is
/// `async` exactly when the keyword stands before the list; and it has
/// parameters exactly when the list is not the empty `()` (whether or not
/// it is `async`). Content that is such a list then `=` `>` and a body
/// always parses.
pub proof fn lemma_arrow_shape_meaning(toks: Seq<ArrowTok>)
    ensures
        arrow_shape_spec(toks) matches Some(s) ==> {
            &&& 3 <= s.body_start < toks.len()
            &&& toks[s.body_start - 3] matches ArrowTok::Paren { .. }
            &&& toks[s.body_start - 2] == ArrowTok::Eq
            &&& toks[s.body_start - 1] == ArrowTok::Gt
            &&& (s.has_params <==> toks[s.body_start - 3] != ArrowTok::Paren { empty: true })
            &&& (s.is_async <==> s.body_start == 4)
            &&& (s.body_start == 4 ==> toks[0] == ArrowTok::Async)
        },
        toks.len() > 3 && (toks[0] matches ArrowTok::Paren { .. }) && toks[1] == ArrowTok::Eq
            && toks[2] == ArrowTok::Gt ==> arrow_shape_spec(toks) == Some(
            ArrowShape {
                is_async: false,
                has_params: toks[0] != ArrowTok::Paren { empty: true },
                body_start: 3,
            },
        ),
        toks.len() > 4 && toks[0] == ArrowTok::Async && (toks[1] matches ArrowTok::Paren { .. })
            && toks[2] == ArrowTok::Eq && toks[3] == ArrowTok::Gt ==> arrow_shape_spec(toks) == Some(
            ArrowShape {
                is_async: true,
                has_params: toks[1] != ArrowTok::Paren { empty: true },
                body_start: 4,
            },
        ),
{
}

/// What each position makes of an arrow: in an event position the closure
/// takes the event, bound to the written parameters when there are any and
/// discarded otherwise, and spawns its body exactly when it is `async`; in
/// a reactive position it is refused exactly when it has parameters, and
/// otherwise returns a future exactly when it is `async`.
pub proof fn lemma_arrow_form_meaning(shape: ArrowShape)
    ensures
        (arrow_form_spec(shape, true) is EventBound) == shape.has_params,
        (arrow_form_spec(shape, true) is EventIgnored) == !shape.has_params,
        arrow_form_spec(shape, true) matches ArrowForm::EventBound { spawn } ==> spawn == shape.is_async,
        arrow_form_spec(shape, true) matches ArrowForm::EventIgnored { spawn } ==> spawn == shape.is_async,
        (arrow_form_spec(shape, false) is Refused) == shape.has_params,
        (arrow_form_spec(shape, false) is Reactive) == !shape.has_params,
        arrow_form_spec(shape, false) matches ArrowForm::Reactive { async_block } ==> async_block
            == shape.is_async,
{
}

} // verus!
