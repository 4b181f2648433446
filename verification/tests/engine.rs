use reactor::cell::{AnyData, CellKind, CellValue};
use reactor::dyn_func::{Computation, Source};
use reactor::runtime::{ClientRuntime, SingleClientRuntime};
use reactor::pool::PooledRuntime;
use reactor::ReactorError;

#[test]
fn data_signal_set_and_get() {
    let mut srt = SingleClientRuntime::new();
    let root = ClientRuntime::new_root_scope(&mut srt);
    let rt = srt.rt_mut();
    let a = rt.new_data(root, CellValue::Uint(5)).unwrap();
    assert_eq!(rt.get_uint(a).unwrap(), 5);
    rt.set(a, CellValue::Uint(9)).unwrap();
    assert_eq!(rt.get_uint(a).unwrap(), 9);
}

#[test]
fn repeated_get_is_idempotent() {
    let mut srt = SingleClientRuntime::new();
    let root = ClientRuntime::new_root_scope(&mut srt);
    let rt = srt.rt_mut();
    let a = rt.new_data(root, CellValue::Uint(5)).unwrap();
    let d = rt
        .new_func(root, Computation::Inc(Source::Direct(a)), true)
        .unwrap();
    assert_eq!(rt.get_uint(d).unwrap(), 6);
    assert_eq!(rt.get_uint(d).unwrap(), 6);
    assert_eq!(rt.get_uint(a).unwrap(), 5);
    // reading re-runs nothing and subscribes nothing
    assert_eq!(rt.runs_of(d).unwrap(), 1);
}

#[test]
fn set_wrong_kind_is_type_mismatch() {
    let mut srt = SingleClientRuntime::new();
    let root = ClientRuntime::new_root_scope(&mut srt);
    let rt = srt.rt_mut();
    let a = rt.new_data(root, CellValue::Uint(5)).unwrap();
    assert_eq!(rt.set(a, CellValue::Flag(true)), Err(ReactorError::TypeMismatch));
    assert_eq!(rt.get_uint(a).unwrap(), 5);
}

#[test]
fn set_derived_signal_is_type_mismatch() {
    let mut srt = SingleClientRuntime::new();
    let root = ClientRuntime::new_root_scope(&mut srt);
    let rt = srt.rt_mut();
    let a = rt.new_data(root, CellValue::Uint(5)).unwrap();
    let d = rt
        .new_func(root, Computation::Inc(Source::Direct(a)), true)
        .unwrap();
    assert_eq!(rt.set(d, CellValue::Uint(0)), Err(ReactorError::TypeMismatch));
}

#[test]
fn typed_read_of_other_kind_is_type_mismatch() {
    let mut srt = SingleClientRuntime::new();
    let root = ClientRuntime::new_root_scope(&mut srt);
    let rt = srt.rt_mut();
    let t = rt.new_data(root, CellValue::Text("x".to_string())).unwrap();
    assert_eq!(rt.get_uint(t), Err(ReactorError::TypeMismatch));
    assert_eq!(rt.get_flag(t), Err(ReactorError::TypeMismatch));
    assert_eq!(rt.get_text(t).unwrap(), "x".to_string());
}

#[test]
fn dispose_invalidates_whole_subtree() {
    let mut srt = SingleClientRuntime::new();
    let root = ClientRuntime::new_root_scope(&mut srt);
    let rt = srt.rt_mut();
    let parent = rt.new_scope(root).unwrap();
    let child = rt.new_scope(parent).unwrap();
    let grandchild = rt.new_scope(child).unwrap();
    let keep = rt.new_data(root, CellValue::Uint(1)).unwrap();
    let in_parent = rt.new_data(parent, CellValue::Uint(2)).unwrap();
    let in_child = rt.new_data(child, CellValue::Uint(3)).unwrap();
    let in_grandchild = rt.new_data(grandchild, CellValue::Uint(4)).unwrap();

    rt.dispose_scope(parent).unwrap();

    assert_eq!(rt.get_uint(in_parent), Err(ReactorError::UseAfterDispose));
    assert_eq!(rt.get_uint(in_child), Err(ReactorError::UseAfterDispose));
    assert_eq!(rt.get_uint(in_grandchild), Err(ReactorError::UseAfterDispose));
    assert_eq!(rt.set(in_child, CellValue::Uint(9)), Err(ReactorError::UseAfterDispose));
    assert_eq!(rt.new_data(child, CellValue::Uint(0)), Err(ReactorError::UseAfterDispose));
    assert_eq!(rt.new_scope(grandchild), Err(ReactorError::UseAfterDispose));
    assert_eq!(rt.dispose_scope(parent), Err(ReactorError::UseAfterDispose));
    // the rest of the tree is untouched
    assert_eq!(rt.get_uint(keep).unwrap(), 1);
}

#[test]
fn direct_cycle_is_detected() {
    let mut srt = SingleClientRuntime::new();
    let root = ClientRuntime::new_root_scope(&mut srt);
    let rt = srt.rt_mut();
    let a = rt.new_data(root, CellValue::Uint(0)).unwrap();
    // a pointer signal, initially designating `a`
    let p = rt
        .new_data(root, CellValue::Uint(a.raw() as u64))
        .unwrap();
    let f = rt
        .new_func(root, Computation::Inc(Source::Via(p)), true)
        .unwrap();
    assert_eq!(rt.get_uint(f).unwrap(), 1);
    // repoint the computation at its own slot: the propagation must report
    // the cycle instead of looping
    assert_eq!(
        rt.set(p, CellValue::Uint(f.raw() as u64)),
        Err(ReactorError::CycleDetected)
    );
}

#[test]
fn transitive_cycle_is_detected() {
    let mut srt = SingleClientRuntime::new();
    let root = ClientRuntime::new_root_scope(&mut srt);
    let rt = srt.rt_mut();
    let a = rt.new_data(root, CellValue::Uint(0)).unwrap();
    let p = rt
        .new_data(root, CellValue::Uint(a.raw() as u64))
        .unwrap();
    let b = rt
        .new_func(root, Computation::Inc(Source::Via(p)), true)
        .unwrap();
    let c = rt
        .new_func(root, Computation::Inc(Source::Direct(b)), true)
        .unwrap();
    assert_eq!(rt.get_uint(c).unwrap(), 2);
    // b reads c and c reads b: a cycle through two signals
    assert_eq!(
        rt.set(p, CellValue::Uint(c.raw() as u64)),
        Err(ReactorError::CycleDetected)
    );
}

#[test]
fn conditional_dependency_is_rebuilt() {
    let mut srt = SingleClientRuntime::new();
    let root = ClientRuntime::new_root_scope(&mut srt);
    let rt = srt.rt_mut();
    let cond = rt.new_data(root, CellValue::Flag(true)).unwrap();
    let a = rt.new_data(root, CellValue::Uint(10)).unwrap();
    let b = rt.new_data(root, CellValue::Uint(20)).unwrap();
    let d = rt
        .new_func(
            root,
            Computation::Select { cond, on_true: a, on_false: b },
            true,
        )
        .unwrap();
    assert_eq!(rt.get_uint(d).unwrap(), 10);
    assert_eq!(rt.runs_of(d).unwrap(), 1);

    // while the condition selects `a`, mutating `b` re-runs nothing
    rt.set(b, CellValue::Uint(21)).unwrap();
    assert_eq!(rt.runs_of(d).unwrap(), 1);
    assert_eq!(rt.get_uint(d).unwrap(), 10);

    // flip the condition: the dependency list is rebuilt
    rt.set(cond, CellValue::Flag(false)).unwrap();
    assert_eq!(rt.get_uint(d).unwrap(), 21);
    assert_eq!(rt.runs_of(d).unwrap(), 2);

    // now `a` is the unread branch: mutating it must not trigger a re-run
    rt.set(a, CellValue::Uint(99)).unwrap();
    assert_eq!(rt.runs_of(d).unwrap(), 2);
    assert_eq!(rt.get_uint(d).unwrap(), 21);

    // while `b` is read again, mutating it propagates
    rt.set(b, CellValue::Uint(30)).unwrap();
    assert_eq!(rt.get_uint(d).unwrap(), 30);
    assert_eq!(rt.runs_of(d).unwrap(), 3);
}

#[test]
fn equality_gate_stops_the_cascade() {
    let mut srt = SingleClientRuntime::new();
    let root = ClientRuntime::new_root_scope(&mut srt);
    let rt = srt.rt_mut();
    let a = rt.new_data(root, CellValue::Uint(5)).unwrap();
    let d = rt
        .new_func(root, Computation::Inc(Source::Direct(a)), true)
        .unwrap();
    let e = rt
        .new_func(root, Computation::Inc(Source::Direct(d)), true)
        .unwrap();
    assert_eq!(rt.get_uint(e).unwrap(), 7);

    // writing the same value re-runs the direct dependent, which reports
    // "unchanged", so the branch below it is not visited
    rt.set(a, CellValue::Uint(5)).unwrap();
    assert_eq!(rt.runs_of(d).unwrap(), 2);
    assert_eq!(rt.runs_of(e).unwrap(), 1);

    // a real change cascades through both
    rt.set(a, CellValue::Uint(8)).unwrap();
    assert_eq!(rt.get_uint(e).unwrap(), 10);
    assert_eq!(rt.runs_of(d).unwrap(), 3);
    assert_eq!(rt.runs_of(e).unwrap(), 2);
}

#[test]
fn many_dependents_spill_and_all_update() {
    let mut srt = SingleClientRuntime::new();
    let root = ClientRuntime::new_root_scope(&mut srt);
    let rt = srt.rt_mut();
    let a = rt.new_data(root, CellValue::Uint(0)).unwrap();
    let mut deps = Vec::new();
    for _ in 0..5 {
        deps.push(
            rt.new_func(root, Computation::Inc(Source::Direct(a)), true)
                .unwrap(),
        );
    }
    rt.set(a, CellValue::Uint(10)).unwrap();
    for d in deps {
        assert_eq!(rt.get_uint(d).unwrap(), 11);
    }
}

#[test]
fn bench_root_scope_resets_the_runtime() {
    let mut srt = SingleClientRuntime::new();
    let root = ClientRuntime::new_root_scope(&mut srt);
    let a = srt.rt_mut().new_data(root, CellValue::Uint(1)).unwrap();
    assert!(srt.rt_ref().in_use());

    let root2 = ClientRuntime::bench_root_scope(&mut srt);
    // the old handle is gone with the old tree
    assert_eq!(srt.rt_ref().get_uint(a), Err(ReactorError::UseAfterDispose));
    let b = srt.rt_mut().new_data(root2, CellValue::Uint(2)).unwrap();
    assert_eq!(srt.rt_ref().get_uint(b).unwrap(), 2);
}

#[test]
fn any_data_cell_is_kind_checked() {
    let cell = AnyData::new(CellValue::Uint(42));
    assert_eq!(cell.kind(), CellKind::Uint);
    assert_eq!(cell.get_uint().unwrap(), 42);
    assert_eq!(cell.get_flag(), Err(ReactorError::TypeMismatch));
    assert_eq!(cell.cloned_text(), Err(ReactorError::TypeMismatch));

    let mut cell = AnyData::new(CellValue::Text("a".to_string()));
    assert_eq!(cell.cloned_text().unwrap(), "a".to_string());
    // replacement keeps the kind fixed at construction
    assert_eq!(cell.replace(CellValue::Uint(1)), Err(ReactorError::TypeMismatch));
    cell.replace(CellValue::Text("b".to_string())).unwrap();
    assert_eq!(cell.cloned_text().unwrap(), "b".to_string());
    assert!(cell.matches_value(&CellValue::Text("b".to_string())));
    assert!(!cell.matches_value(&CellValue::Uint(0)));
}

#[test]
fn pooled_sessions_are_isolated() {
    let mut pool = PooledRuntime::new();
    assert!(!pool.contains_session(7));
    pool.create_session(7);
    pool.create_session(8);
    assert!(pool.contains_session(7) && pool.contains_session(8));

    let ix7 = pool.session_index(7).unwrap();
    let root7 = ClientRuntime::new_root_scope(pool.session_mut(ix7));
    let a7 = pool
        .session_mut(ix7)
        .rt_mut()
        .new_data(root7, CellValue::Uint(1))
        .unwrap();

    let ix8 = pool.session_index(8).unwrap();
    let root8 = ClientRuntime::new_root_scope(pool.session_mut(ix8));
    let a8 = pool
        .session_mut(ix8)
        .rt_mut()
        .new_data(root8, CellValue::Uint(100))
        .unwrap();

    // mutating one session never reaches another
    pool.session_mut(ix7)
        .rt_mut()
        .set(a7, CellValue::Uint(2))
        .unwrap();
    assert_eq!(pool.session_mut(ix8).rt_ref().get_uint(a8).unwrap(), 100);
    assert_eq!(pool.session_mut(ix7).rt_ref().get_uint(a7).unwrap(), 2);

    pool.destroy_session(7).unwrap();
    assert!(!pool.contains_session(7));
    assert_eq!(pool.destroy_session(7), Err(ReactorError::UseAfterDispose));
    assert!(pool.contains_session(8));
}
