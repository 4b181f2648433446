use reactor::cell::CellValue;
use reactor::dyn_func::{Computation, DynFunc, Source};
use reactor::runtime::{ClientRuntime, RuntimeInner, Signal, SingleClientRuntime};
use reactor::ReactorError;

#[test]
fn test_usize() {
    let rt = RuntimeInner::new();
    let mut num_fn = DynFunc::new_eq(&rt, Computation::ConstUint(42)).unwrap();
    assert_eq!(num_fn.run(&rt).unwrap(), false);
    assert_eq!(num_fn.run(&rt).unwrap(), false);
    assert_eq!(num_fn.value.get_uint().unwrap(), 42);
}

#[test]
fn test_string() {
    let rt = RuntimeInner::new();
    let string_fn = DynFunc::new_eq(&rt, Computation::ConstText("hello".to_string())).unwrap();
    assert_eq!(string_fn.value.cloned_text().unwrap(), "hello".to_string());

    // a mutable input, held as a settable signal of a runtime
    let mut srt = SingleClientRuntime::new();
    let scope = ClientRuntime::new_root_scope(&mut srt);
    let input = srt.rt_mut().new_data(scope, CellValue::Text("1".to_string())).unwrap();

    let mut dyn_fn = DynFunc::new_eq(
        srt.rt_ref(),
        Computation::Concat("Val: ".to_string(), Source::Direct(input)),
    )
    .unwrap();

    assert_eq!(dyn_fn.run(srt.rt_ref()).unwrap(), false);

    assert_eq!(dyn_fn.value.cloned_text().unwrap(), "Val: 1".to_string());
    srt.rt_mut().set(input, CellValue::Text("2".to_string())).unwrap();
    assert_eq!(dyn_fn.run(srt.rt_ref()).unwrap(), true);
    assert_eq!(dyn_fn.run(srt.rt_ref()).unwrap(), false);

    assert_eq!(dyn_fn.value.cloned_text().unwrap(), "Val: 2".to_string());
}

#[test]
fn plain_recompute_always_reports_changed() {
    let rt = RuntimeInner::new();
    let mut f = DynFunc::new(&rt, Computation::ConstUint(7)).unwrap();
    assert_eq!(f.run(&rt).unwrap(), true);
    assert_eq!(f.run(&rt).unwrap(), true);
    assert_eq!(f.value.get_uint().unwrap(), 7);
}

#[test]
fn recompute_on_missing_signal_fails() {
    let rt = RuntimeInner::new();
    let r = DynFunc::new_eq(&rt, Computation::Inc(Source::Direct(Signal::from_raw(0))));
    assert!(matches!(r, Err(ReactorError::UseAfterDispose)));
}
