use reactor::work_with_cell::{CellId, ComputeCellId, InputCellId, Reactor, RemoveCallbackError};

type Formula = fn(&[i32]) -> i32;

fn input(h: InputCellId) -> CellId {
    CellId::Input(h)
}

fn compute(h: ComputeCellId) -> CellId {
    CellId::Compute(h)
}

#[test]
fn driver_scenario() {
    let mut r: Reactor<i32, Formula> = Reactor::new();
    let a = r.create_input(12);
    let b = r.create_input(13);
    let c = r.create_compute(&[input(a), input(b)], |v: &[i32]| v[0] - v[1]);
    assert_eq!(r.get_val(compute(c)), Some(-1));
    r.change_input(a, 13);
    assert_eq!(r.get_val(compute(c)), Some(0));
    r.change_compute(&[input(a), input(b)], |v: &[i32]| v[0] * v[1], c);
    assert_eq!(r.get_val(compute(c)), Some(169));
    let d = r.create_compute(&[input(a), compute(c)], |v: &[i32]| std::cmp::max(v[0], v[1]));
    assert_eq!(r.get_val(compute(d)), Some(169));
    r.change_input(b, -2);
    assert_eq!(r.get_val(compute(c)), Some(-26));
    assert_eq!(r.get_val(compute(d)), Some(13));
}

#[test]
fn input_reads_back_its_value() {
    let mut r: Reactor<i32, Formula> = Reactor::new();
    let a = r.create_input(42);
    let b = r.create_input(-7);
    assert_eq!(a, InputCellId(0));
    assert_eq!(b, InputCellId(1));
    assert_eq!(r.get_val(input(a)), Some(42));
    assert_eq!(r.get_val(input(b)), Some(-7));
}

#[test]
fn input_change_is_visible() {
    let mut r: Reactor<i32, Formula> = Reactor::new();
    let a = r.create_input(1);
    r.change_input(a, 5);
    assert_eq!(r.get_val(input(a)), Some(5));
}

#[test]
fn compute_value_at_creation() {
    let mut r: Reactor<i32, Formula> = Reactor::new();
    let a = r.create_input(3);
    let b = r.create_input(4);
    let c = r.create_compute(&[input(b), input(a)], |v: &[i32]| 10 * v[0] + v[1]);
    assert_eq!(c, ComputeCellId(0));
    assert_eq!(r.get_val(compute(c)), Some(43));
}

#[test]
fn compute_with_no_dependencies() {
    let mut r: Reactor<i32, Formula> = Reactor::new();
    let c = r.create_compute(&[], |v: &[i32]| v.len() as i32 + 9);
    assert_eq!(r.get_val(compute(c)), Some(9));
}

#[test]
fn chain_is_refreshed_after_write() {
    let mut r: Reactor<i32, Formula> = Reactor::new();
    let a = r.create_input(1);
    let c1 = r.create_compute(&[input(a)], |v: &[i32]| v[0] + 1);
    let c2 = r.create_compute(&[compute(c1)], |v: &[i32]| v[0] * 2);
    let c3 = r.create_compute(&[compute(c2)], |v: &[i32]| v[0] - 3);
    assert_eq!(r.get_val(compute(c3)), Some(1));
    r.change_input(a, 10);
    assert_eq!(r.get_val(compute(c1)), Some(11));
    assert_eq!(r.get_val(compute(c2)), Some(22));
    assert_eq!(r.get_val(compute(c3)), Some(19));
}

#[test]
fn diamond_settles_on_current_values() {
    let mut r: Reactor<i32, Formula> = Reactor::new();
    let a = r.create_input(1);
    let left = r.create_compute(&[input(a)], |v: &[i32]| v[0] + 1);
    let deep = r.create_compute(&[compute(left)], |v: &[i32]| v[0] * 10);
    let top = r.create_compute(&[input(a), compute(deep)], |v: &[i32]| v[0] + v[1]);
    assert_eq!(r.get_val(compute(top)), Some(21));
    r.change_input(a, 4);
    assert_eq!(r.get_val(compute(left)), Some(5));
    assert_eq!(r.get_val(compute(deep)), Some(50));
    assert_eq!(r.get_val(compute(top)), Some(54));
    r.change_input(a, -1);
    assert_eq!(r.get_val(compute(top)), Some(-1));
}

#[test]
fn change_compute_rewires_dependencies() {
    let mut r: Reactor<i32, Formula> = Reactor::new();
    let a = r.create_input(2);
    let b = r.create_input(30);
    let c = r.create_compute(&[input(a)], |v: &[i32]| v[0] + 1);
    let d = r.create_compute(&[compute(c)], |v: &[i32]| v[0] * 2);
    assert_eq!(r.get_val(compute(d)), Some(6));
    r.change_compute(&[input(b)], |v: &[i32]| v[0] - 1, c);
    assert_eq!(r.get_val(compute(c)), Some(29));
    assert_eq!(r.get_val(compute(d)), Some(58));
    r.change_input(a, 100);
    assert_eq!(r.get_val(compute(c)), Some(29));
    assert_eq!(r.get_val(compute(d)), Some(58));
    r.change_input(b, 8);
    assert_eq!(r.get_val(compute(c)), Some(7));
    assert_eq!(r.get_val(compute(d)), Some(14));
}

#[test]
fn same_write_twice_gives_same_values() {
    let mut r: Reactor<i32, Formula> = Reactor::new();
    let a = r.create_input(1);
    let b = r.create_input(2);
    let c = r.create_compute(&[input(a), input(b)], |v: &[i32]| v[0] * 100 + v[1]);
    let d = r.create_compute(&[compute(c), input(a)], |v: &[i32]| v[0] - v[1]);
    r.change_input(a, 7);
    let first = (r.get_val(compute(c)), r.get_val(compute(d)));
    r.change_input(a, 7);
    let second = (r.get_val(compute(c)), r.get_val(compute(d)));
    assert_eq!(first, (Some(702), Some(695)));
    assert_eq!(first, second);
}

#[test]
fn invalid_dependency_leaves_cell_unresolved() {
    let mut r: Reactor<i32, Formula> = Reactor::new();
    let a = r.create_input(1);
    let c = r.create_compute(&[input(a), CellId::Input(InputCellId(5))], |v: &[i32]| v[0] + v[1]);
    assert_eq!(r.get_val(compute(c)), None);
    let d = r.create_compute(&[CellId::Compute(ComputeCellId(9))], |v: &[i32]| v[0]);
    assert_eq!(r.get_val(compute(d)), None);
    r.change_input(a, 3);
    assert_eq!(r.get_val(compute(c)), None);
}

#[test]
fn unresolved_dependency_keeps_stale_value() {
    let mut r: Reactor<i32, Formula> = Reactor::new();
    let a = r.create_input(4);
    let c = r.create_compute(&[input(a)], |v: &[i32]| v[0] * 3);
    assert_eq!(r.get_val(compute(c)), Some(12));
    r.change_compute(&[input(a), CellId::Input(InputCellId(8))], |v: &[i32]| v[0] + v[1], c);
    assert_eq!(r.get_val(compute(c)), Some(12));
    let d = r.create_compute(&[compute(c)], |v: &[i32]| v[0] + 1);
    assert_eq!(r.get_val(compute(d)), Some(13));
}

#[test]
fn boxed_closures_capture_values() {
    let offset = 100;
    let mut r: Reactor<i64, Box<dyn Fn(&[i64]) -> i64>> = Reactor::new();
    let a = r.create_input(5);
    let c = r.create_compute(&[CellId::Input(a)], Box::new(move |v: &[i64]| v[0] + offset));
    assert_eq!(r.get_val(CellId::Compute(c)), Some(105));
    r.change_input(a, -5);
    assert_eq!(r.get_val(CellId::Compute(c)), Some(95));
}

#[test]
fn callback_error_variants_differ() {
    assert_ne!(RemoveCallbackError::NonexistentCell, RemoveCallbackError::NonexistentCallback);
}

#[test]
fn unreached_cells_keep_their_values() {
    let mut r: Reactor<i32, Formula> = Reactor::new();
    let a = r.create_input(1);
    let b = r.create_input(2);
    let constant = r.create_compute(&[], |_v: &[i32]| 77);
    let from_b = r.create_compute(&[input(b)], |v: &[i32]| v[0] * 5);
    let from_a = r.create_compute(&[input(a)], |v: &[i32]| v[0] + 1);
    r.change_input(a, 40);
    assert_eq!(r.get_val(compute(constant)), Some(77));
    assert_eq!(r.get_val(compute(from_b)), Some(10));
    assert_eq!(r.get_val(compute(from_a)), Some(41));
}

#[test]
fn downstream_cell_with_missing_dependency_keeps_stale_value() {
    let mut r: Reactor<i32, Formula> = Reactor::new();
    let a = r.create_input(2);
    let c = r.create_compute(&[input(a)], |v: &[i32]| v[0] + 1);
    r.change_compute(&[input(a), CellId::Input(InputCellId(50))], |v: &[i32]| v[0] + v[1], c);
    assert_eq!(r.get_val(compute(c)), Some(3));
    r.change_input(a, 9);
    assert_eq!(r.get_val(compute(c)), Some(3));
}

#[test]
fn default_engine_is_empty() {
    let mut r: Reactor<i32, Formula> = Reactor::default();
    let a = r.create_input(6);
    assert_eq!(a, InputCellId(0));
    let c = r.create_compute(&[input(a)], |v: &[i32]| -v[0]);
    assert_eq!(c, ComputeCellId(0));
    assert_eq!(r.get_val(compute(c)), Some(-6));
}
