use std::any::{Any, TypeId};

use velo::context::{provide_context, use_context, with_context, ContextStack};
use velo::reactive::{create_effect, EffectId, Runtime};
use velo::signals::{create_signal, Signal, SignalVec};

/// Runs every effect that is due, each through `body`, until none is left.
fn flush<V>(rt: &mut Runtime<V>, body: &mut dyn FnMut(&mut Runtime<V>, EffectId)) {
    loop {
        let runs = rt.take_pending();
        if runs.is_empty() {
            break;
        }
        for e in runs {
            let prev = rt.enter(e);
            body(rt, e);
            rt.exit(prev);
        }
    }
}

#[test]
fn test_fine_grained_reactivity() {
    let mut rt: Runtime<i32> = Runtime::new();
    let count = Signal::new(&mut rt, 10);
    let mut trigger_count = 0;

    let (_effect, prev) = create_effect(&mut rt);
    trigger_count += 1;
    let _current = count.get(&mut rt);
    rt.exit(prev);

    assert_eq!(trigger_count, 1);

    let mut body = |rt: &mut Runtime<i32>, _e: EffectId| {
        trigger_count += 1;
        let _current = count.get(rt);
    };
    if count.set(&mut rt, 20) {
        flush(&mut rt, &mut body);
    }
    drop(body);
    assert_eq!(trigger_count, 2);

    let mut body = |rt: &mut Runtime<i32>, _e: EffectId| {
        trigger_count += 1;
        let _current = count.get(rt);
    };
    if count.set(&mut rt, 30) {
        flush(&mut rt, &mut body);
    }
    drop(body);
    assert_eq!(trigger_count, 3);
}

#[test]
fn test_split_signal() {
    let mut rt: Runtime<i32> = Runtime::new();
    let (count, set_count) = create_signal(&mut rt, 0);
    let mut trigger = 0;

    let (_effect, prev) = create_effect(&mut rt);
    trigger += 1;
    let _ = count.get(&mut rt);
    rt.exit(prev);

    assert_eq!(trigger, 1);
    let mut body = |rt: &mut Runtime<i32>, _e: EffectId| {
        trigger += 1;
        let _ = count.get(rt);
    };
    if set_count.set(&mut rt, 5) {
        flush(&mut rt, &mut body);
    }
    drop(body);
    assert_eq!(trigger, 2);
    assert_eq!(count.get(&mut rt), 5);
}

#[test]
fn test_memo_recomputes_on_dependency_change() {
    // A memo is a signal kept up to date by an effect that reads its inputs.
    let mut rt: Runtime<i32> = Runtime::new();
    let (base, set_base) = create_signal(&mut rt, 2);
    let doubled = Signal::new(&mut rt, 0);

    let (_effect, prev) = create_effect(&mut rt);
    let v = base.get(&mut rt) * 2;
    doubled.set(&mut rt, v);
    rt.exit(prev);
    let mut body = |rt: &mut Runtime<i32>, _e: EffectId| {
        let v = base.get(rt) * 2;
        doubled.set(rt, v);
    };
    flush(&mut rt, &mut body);

    assert_eq!(*rt.value(doubled.id), 4);
    if set_base.set(&mut rt, 5) {
        flush(&mut rt, &mut body);
    }
    assert_eq!(*rt.value(doubled.id), 10);
}

#[test]
fn test_signal_vec_notifies_on_push() {
    let mut rt: Runtime<Vec<i32>> = Runtime::new();
    let list = SignalVec::new(&mut rt, vec![1, 2, 3]);
    let mut trigger = 0;

    let (_effect, prev) = create_effect(&mut rt);
    trigger += 1;
    let _ = list.get(&mut rt);
    rt.exit(prev);

    assert_eq!(trigger, 1);
    let mut body = |rt: &mut Runtime<Vec<i32>>, _e: EffectId| {
        trigger += 1;
        let _ = list.get(rt);
    };
    if list.push(&mut rt, 4) {
        flush(&mut rt, &mut body);
    }
    drop(body);
    assert_eq!(trigger, 2);
    assert_eq!(list.len(&mut rt), 4);
    assert_eq!(list.get(&mut rt), vec![1, 2, 3, 4]);
}

fn get_i32(ctx: &ContextStack<Box<dyn Any>>) -> Option<i32> {
    use_context(ctx, &TypeId::of::<i32>()).and_then(|b| b.downcast_ref::<i32>()).cloned()
}

fn get_string(ctx: &ContextStack<Box<dyn Any>>) -> Option<String> {
    use_context(ctx, &TypeId::of::<String>()).and_then(|b| b.downcast_ref::<String>()).cloned()
}

#[test]
fn test_context_provides_value() {
    let mut ctx: ContextStack<Box<dyn Any>> = ContextStack::new();
    provide_context(&mut ctx, TypeId::of::<i32>(), Box::new(42i32));
    assert_eq!(get_i32(&ctx), Some(42));

    let scoped = with_context(
        &mut ctx,
        TypeId::of::<String>(),
        Box::new("hi".to_string()),
        |c| get_string(c),
    );
    assert_eq!(scoped, Some("hi".to_string()));

    // Outer context still intact after scoping.
    assert_eq!(get_i32(&ctx), Some(42));
    assert_eq!(get_string(&ctx), None);
}

#[test]
fn context_inner_scope_shadows_outer() {
    let mut ctx: ContextStack<Box<dyn Any>> = ContextStack::new();
    provide_context(&mut ctx, TypeId::of::<i32>(), Box::new(1i32));
    let inner = with_context(&mut ctx, TypeId::of::<i32>(), Box::new(2i32), |c| get_i32(c));
    assert_eq!(inner, Some(2));
    assert_eq!(get_i32(&ctx), Some(1));
    assert_eq!(ctx.depth(), 1);
}

#[test]
fn context_provide_inside_scope_ends_with_it() {
    let mut ctx: ContextStack<Box<dyn Any>> = ContextStack::new();
    provide_context(&mut ctx, TypeId::of::<i32>(), Box::new(1i32));
    let seen = with_context(&mut ctx, TypeId::of::<String>(), Box::new("in".to_string()), |c| {
        provide_context(c, TypeId::of::<i32>(), Box::new(9i32));
        (get_i32(c), get_string(c))
    });
    assert_eq!(seen, (Some(9), Some("in".to_string())));
    assert_eq!(get_i32(&ctx), Some(1));
    assert_eq!(get_string(&ctx), None);
    assert_eq!(ctx.depth(), 1);
}

#[test]
fn context_later_provide_wins() {
    let mut ctx: ContextStack<Box<dyn Any>> = ContextStack::new();
    provide_context(&mut ctx, TypeId::of::<i32>(), Box::new(1i32));
    provide_context(&mut ctx, TypeId::of::<i32>(), Box::new(7i32));
    assert_eq!(get_i32(&ctx), Some(7));
}

#[test]
fn nested_effect_creation_restores_the_outer_effect() {
    let mut rt: Runtime<i32> = Runtime::new();
    let a = Signal::new(&mut rt, 1);
    let b = Signal::new(&mut rt, 2);
    let (outer, p0) = create_effect(&mut rt);
    assert_eq!(p0, None);
    let (inner, p1) = create_effect(&mut rt);
    assert_eq!(p1, Some(outer));
    let _ = a.get(&mut rt);
    rt.exit(p1);
    assert_eq!(rt.active(), Some(outer));
    let _ = b.get(&mut rt);
    rt.exit(p0);
    assert_eq!(rt.active(), None);
    assert!(a.set(&mut rt, 10));
    assert_eq!(rt.take_pending(), vec![inner]);
    assert!(b.set(&mut rt, 20));
    assert_eq!(rt.take_pending(), vec![outer]);
}

#[test]
fn only_subscribers_rerun() {
    let mut rt: Runtime<i32> = Runtime::new();
    let a = Signal::new(&mut rt, 1);
    let b = Signal::new(&mut rt, 2);
    let (ea, prev) = create_effect(&mut rt);
    let _ = a.get(&mut rt);
    rt.exit(prev);
    let (eb, prev) = create_effect(&mut rt);
    let _ = b.get(&mut rt);
    rt.exit(prev);
    assert_eq!(ea, EffectId(1));
    assert_eq!(eb, EffectId(2));

    a.set(&mut rt, 5);
    assert_eq!(rt.take_pending(), vec![EffectId(1)]);
    b.set(&mut rt, 6);
    assert_eq!(rt.take_pending(), vec![EffectId(2)]);
    assert_eq!(*rt.value(a.id), 5);
    assert_eq!(*rt.value(b.id), 6);
}

#[test]
fn disposed_effect_never_reruns_and_cleans_up_once() {
    let mut rt: Runtime<i32> = Runtime::new();
    let s = Signal::new(&mut rt, 0);
    let (e, prev) = create_effect(&mut rt);
    let _ = s.get(&mut rt);
    rt.exit(prev);
    assert!(rt.dispose(e));
    assert!(!rt.dispose(e));
    assert!(rt.is_disposed(e));
    s.set(&mut rt, 1);
    assert_eq!(rt.take_pending(), Vec::<EffectId>::new());
}

#[test]
fn batch_flushes_once_at_outermost_exit() {
    let mut rt: Runtime<i32> = Runtime::new();
    let s = Signal::new(&mut rt, 0);
    let (e, prev) = create_effect(&mut rt);
    let _ = s.get(&mut rt);
    rt.exit(prev);

    assert!(rt.batch_enter());
    assert!(!rt.batch_enter());
    assert!(!s.set(&mut rt, 1));
    assert!(!s.set(&mut rt, 2));
    assert!(!rt.batch_exit());
    assert!(rt.batch_exit());
    // queued twice, run once
    assert_eq!(rt.take_pending(), vec![e]);
    assert_eq!(*rt.value(s.id), 2);
}

#[test]
fn signal_vec_edits() {
    let mut rt: Runtime<Vec<i32>> = Runtime::new();
    let list = SignalVec::new(&mut rt, vec![1, 2, 3]);
    list.insert(&mut rt, 1, 9);
    assert_eq!(list.items(&rt), &vec![1, 9, 2, 3]);
    assert_eq!(list.get(&mut rt), vec![1, 9, 2, 3]);
    let (removed, _) = list.remove(&mut rt, 0);
    assert_eq!(removed, Some(1));
    let (missing, _) = list.remove(&mut rt, 10);
    assert_eq!(missing, None);
    assert!(!list.is_empty(&mut rt));
    list.clear(&mut rt);
    assert!(list.is_empty(&mut rt));
}

#[test]
fn split_handles_share_one_signal() {
    let mut rt: Runtime<i32> = Runtime::new();
    let s = Signal::new(&mut rt, 3);
    let r = s.read_only();
    let w = s.write_only();
    w.set(&mut rt, 8);
    assert_eq!(r.get(&mut rt), 8);
    let (r2, w2) = s.split();
    w2.set(&mut rt, 9);
    assert_eq!(r2.get(&mut rt), 9);
    let rw = velo::signals::signal(&mut rt, 4);
    assert_eq!(rw.get(&mut rt), 4);
}
