use reactor::cell::CellValue;
use reactor::dyn_func::{Computation, Source};
use reactor::runtime::{ClientRuntime, SingleClientRuntime};

#[test]
fn test_1000_nested() {
    let mut srt = SingleClientRuntime::new();
    let root = ClientRuntime::bench_root_scope(&mut srt);
    let rt = srt.rt_mut();
    let data = rt.new_data(root, CellValue::Uint(0)).unwrap();
    let mut prev = data;
    let mut scope = root;
    for _ in 0..1001 {
        scope = rt.new_scope(scope).unwrap();
        prev = rt
            .new_func(scope, Computation::Inc(Source::Direct(prev)), true)
            .unwrap();
    }
    rt.set(data, CellValue::Uint(1)).unwrap();
    assert_eq!(rt.get_uint(prev).unwrap(), 1002);
}

#[test]
fn test_1000_siblings() {
    let mut srt = SingleClientRuntime::new();
    let root = ClientRuntime::bench_root_scope(&mut srt);
    let rt = srt.rt_mut();
    let data = rt.new_data(root, CellValue::Uint(0)).unwrap();
    let mut prev = data;
    for _ in 0..1001 {
        let scope = rt.new_scope(root).unwrap();
        prev = rt
            .new_func(scope, Computation::Inc(Source::Direct(prev)), true)
            .unwrap();
    }
    rt.set(data, CellValue::Uint(1)).unwrap();
    assert_eq!(rt.get_uint(prev).unwrap(), 1002);
}
