use std::hash::{DefaultHasher, Hash, Hasher};
use wasm_canvas::actor::{plan_execution, ActorContext, ComputeQueue, EnvCache, ExecPlan};
use wasm_canvas::registry::BuiltinKind;
use wasm_canvas::bridge::{take_has_message_handler, take_net_publishes, take_recompute_requests, take_tick_interval, take_window_title};

#[test]
fn immediate_compute_starts_at_once() {
    let mut q: ComputeQueue<&str> = ComputeQueue::new(50);
    assert!(!q.has_pending());
    assert_eq!(q.enqueue(1, "a", true, 0), Some("a"));
    assert!(q.has_pending());
    assert_eq!(q.finish(1), None);
    assert!(!q.has_pending());
}

#[test]
fn data_while_running_waits_and_newest_wins() {
    let mut q: ComputeQueue<&str> = ComputeQueue::new(50);
    assert_eq!(q.enqueue(1, "first", true, 0), Some("first"));
    assert_eq!(q.enqueue(1, "second", true, 1), None);
    assert_eq!(q.enqueue(1, "third", false, 2), None);
    assert_eq!(q.finish(1), Some("third"));
    assert!(q.has_pending());
    assert_eq!(q.finish(1), None);
    assert!(!q.has_pending());
}

#[test]
fn debounced_compute_waits_for_its_delay() {
    let mut q: ComputeQueue<&str> = ComputeQueue::new(50);
    assert_eq!(q.enqueue(7, "slider", false, 100), None);
    assert_eq!(q.next_due(120), None);
    assert_eq!(q.enqueue(7, "slider2", false, 130), None);
    assert_eq!(q.next_due(170), None);
    assert_eq!(q.next_due(180), Some((7, "slider2")));
    assert_eq!(q.next_due(500), None);
    assert_eq!(q.enqueue(7, "more", false, 200), None);
    assert_eq!(q.finish(7), Some("more"));
}

#[test]
fn immediate_request_drops_debounced_one() {
    let mut q: ComputeQueue<&str> = ComputeQueue::new(50);
    q.enqueue(3, "late", false, 0);
    assert_eq!(q.enqueue(3, "now", true, 10), Some("now"));
    assert_eq!(q.next_due(1000), None);
}

#[test]
fn cancel_and_forget() {
    let mut q: ComputeQueue<u32> = ComputeQueue::new(0);
    q.enqueue(1, 10, true, 0);
    q.enqueue(1, 11, true, 0);
    q.enqueue(2, 20, false, 0);
    q.cancel_all();
    assert_eq!(q.next_due(5), None);
    assert_eq!(q.finish(1), None);
    q.enqueue(4, 40, true, 0);
    q.forget(4);
    assert!(!q.has_pending());
}

#[test]
fn environment_cache_by_code_hash() {
    let mut c: EnvCache<&str> = EnvCache::new();
    c.store(1, 99, "env-1", Some("pre".to_string()), true);
    assert_eq!(c.len(), 1);
    assert!(c.fast_path(1, 99, true));
    assert!(!c.fast_path(1, 99, false));
    assert!(!c.fast_path(1, 98, true));
    assert_eq!(c.take_for_run(1, 99), Some(("env-1", Some("pre".to_string()))));
    assert_eq!(c.len(), 0);
    c.store(2, 5, "env-2", None, false);
    assert!(!c.fast_path(2, 5, true));
    assert_eq!(c.take_for_run(2, 6), None);
    assert_eq!(c.take_for_run(2, 5), None);
    c.store(3, 1, "env-3", None, true);
    c.store(3, 1, "env-3b", None, false);
    assert!(!c.fast_path(3, 1, true));
    c.forget(3);
    assert_eq!(c.len(), 0);
    assert!(!c.should_fast_path(3, "(display 1)", true));
}

#[test]
fn context_outputs_are_taken_once() {
    let mut ctx = ActorContext::new(5);
    ctx.net_publishes.push("chan".to_string());
    ctx.tick_interval_ms = Some(16);
    ctx.recompute_requests.push(9);
    ctx.window_title = Some("Title".to_string());
    ctx.has_message_handler = true;
    assert_eq!(take_net_publishes(Some(&mut ctx)), vec!["chan".to_string()]);
    assert_eq!(take_net_publishes(Some(&mut ctx)), Vec::<String>::new());
    assert_eq!(take_tick_interval(Some(&mut ctx)), Some(16));
    assert_eq!(take_tick_interval(Some(&mut ctx)), None);
    assert_eq!(take_recompute_requests(Some(&mut ctx)), vec![9]);
    assert_eq!(take_window_title(Some(&mut ctx)), Some("Title".to_string()));
    assert!(take_has_message_handler(Some(&mut ctx)));
    assert!(!take_has_message_handler(None));
    assert_eq!(ctx.next_export_counter(), 0);
    assert_eq!(ctx.next_export_counter(), 1);
    ctx.reset_outputs();
    assert_eq!(ctx.export_counter, 0);
    assert_eq!(ctx.node_id, 5);
}

#[test]
fn take_outputs_leaves_empty_defaults() {
    let mut ctx = ActorContext::new(2);
    ctx.net_publishes.push("a".to_string());
    ctx.tick_interval_ms = Some(5);
    ctx.has_message_handler = true;
    ctx.window_title = Some("w".to_string());
    let out = ctx.take_outputs();
    assert_eq!(out.net_publishes, vec!["a".to_string()]);
    assert_eq!(out.tick_interval_ms, Some(5));
    assert!(out.has_message_handler);
    assert_eq!(out.window_title, Some("w".to_string()));
    assert!(ctx.net_publishes.is_empty());
    assert!(ctx.tick_interval_ms.is_none());
    assert!(!ctx.has_message_handler);
    assert!(ctx.window_title.is_none());
    assert!(!ctx.take_outputs().has_message_handler);

    let mut other = ActorContext::new(3);
    other.window_title = Some("t".to_string());
    other.has_message_handler = true;
    assert_eq!(take_net_publishes(Some(&mut other)), Vec::<String>::new());
    assert_eq!(other.window_title, Some("t".to_string()));
    assert!(other.has_message_handler);
}

#[test]
fn execution_plans() {
    let script = Some(BuiltinKind::Script);
    assert_eq!(plan_execution(script, "(+ 1 2)", true, true, true, false, false), ExecPlan::DrainMessages { reevaluate: true });
    assert_eq!(plan_execution(script, "(+ 1 2)", true, true, false, false, false), ExecPlan::DrainMessages { reevaluate: false });
    assert_eq!(plan_execution(script, "(+ 1 2)", true, false, true, false, false), ExecPlan::RunScript);
    assert_eq!(plan_execution(script, "  \n\t ", false, false, false, false, false), ExecPlan::EmptyScript);
    assert_eq!(plan_execution(Some(BuiltinKind::Const), "", false, false, false, false, false), ExecPlan::Constant);
    assert_eq!(plan_execution(Some(BuiltinKind::Output), "", false, false, false, false, false), ExecPlan::Passthrough);
    assert_eq!(plan_execution(None, "", false, false, false, true, true), ExecPlan::RunWasm);
    let no_template = plan_execution(None, "", false, false, false, true, false);
    assert_eq!(no_template.failure(), Some("No template for WASM node".to_string()));
    let no_runner = plan_execution(None, "", false, false, false, false, true);
    assert_eq!(no_runner.failure(), Some("No WASM runner available".to_string()));
    assert_eq!(ExecPlan::RunScript.failure(), None);
}

#[test]
fn fast_path_by_the_hash_of_the_code() {
    let code = "(on-message (lambda (m) m))";
    let mut hasher = DefaultHasher::new();
    code.hash(&mut hasher);
    let h = hasher.finish();
    let mut c: EnvCache<&str> = EnvCache::new();
    c.store(4, h, "env-4", None, true);
    assert!(c.should_fast_path(4, code, true));
    assert!(!c.should_fast_path(4, code, false));
    assert!(!c.should_fast_path(4, "(other code)", true));
}
