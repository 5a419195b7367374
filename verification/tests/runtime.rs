use pipe::runtime::{decimal_text, module_file_name, Platform, Route, Router};

fn all_started(n: u32) -> Router {
    let mut r = Router::new();
    for _ in 0..n {
        r.add_step(None);
    }
    for id in 0..n {
        let all = r.step_started(id);
        assert_eq!(all, id + 1 == n);
    }
    r
}

#[test]
fn output_goes_to_next_step_and_loops_back() {
    let r = all_started(3);
    assert_eq!(r.route(None, 0), Route::Step(1));
    assert_eq!(r.route(None, 1), Route::Step(2));
    assert_eq!(r.route(None, 2), Route::Step(0));
}

#[test]
fn single_step_output_is_dropped() {
    let r = all_started(1);
    assert_eq!(r.route(None, 0), Route::Drop);
}

#[test]
fn default_references_name_steps() {
    let r = all_started(12);
    assert_eq!(r.route(Some(&"step-11".to_string()), 0), Route::Step(11));
    assert_eq!(r.route(Some(&"step-0".to_string()), 5), Route::Step(0));
    assert_eq!(r.route(Some(&"step-12".to_string()), 5), Route::UnknownReference);
}

#[test]
fn later_step_takes_over_a_reference() {
    let mut r = Router::new();
    assert_eq!(r.add_step(Some("out".to_string())), 0);
    assert_eq!(r.add_step(Some("out".to_string())), 1);
    assert_eq!(r.route(Some(&"out".to_string()), 0), Route::UnknownReference);
    r.step_started(1);
    assert_eq!(r.route(Some(&"out".to_string()), 0), Route::Step(1));
}

#[test]
fn repeated_start_counts_once() {
    let mut r = Router::new();
    r.add_step(None);
    r.add_step(None);
    assert!(!r.step_started(0));
    assert!(!r.step_started(0));
    assert!(r.step_started(1));
    assert!(r.is_started(0));
    assert!(!r.is_started(2));
}

#[test]
fn module_binaries_later_wins() {
    let mut r = Router::new();
    r.add_module("log".to_string(), "liblog".to_string());
    r.add_module("print".to_string(), "libprint".to_string());
    r.add_module("log".to_string(), "liblog2".to_string());
    assert_eq!(r.module_binary(&"log".to_string()), Some("liblog2".to_string()));
    assert_eq!(r.module_binary(&"print".to_string()), Some("libprint".to_string()));
    assert_eq!(r.module_binary(&"http".to_string()), None);
}

#[test]
fn module_file_names() {
    assert_eq!(module_file_name("target/liblog", Platform::Unix), "target/liblog.so");
    assert_eq!(module_file_name("liblog.so", Platform::Unix), "liblog.so");
    assert_eq!(module_file_name("log", Platform::Windows), "log");
    assert_eq!(module_file_name("log", Platform::Other), "log");
    let once = module_file_name("x", Platform::Unix);
    assert_eq!(module_file_name(&once, Platform::Unix), once);
}

#[test]
fn decimal_digits() {
    assert_eq!(decimal_text(0), "0");
    assert_eq!(decimal_text(7), "7");
    assert_eq!(decimal_text(10), "10");
    assert_eq!(decimal_text(4294967295), "4294967295");
}
