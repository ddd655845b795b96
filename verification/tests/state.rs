use turborand::internal::state::{AtomicState, CellState, State};

#[test]
fn cell_state() {
    let mut state = CellState::with_seed(1);

    assert_eq!(state.get(), 1);

    state.set(5);

    assert_eq!(state.get(), 5);

    state.update(6);

    assert_eq!(state.get(), 11);
}

#[test]
fn cell_state_no_leaking_debug() {
    let state = CellState::with_seed(Default::default());

    assert_eq!(format!("{state:?}"), "CellState");
}

#[test]
fn atomic_state() {
    let state = AtomicState::with_seed(1);

    assert_eq!(state.get(), 1);

    state.set(5);

    assert_eq!(state.get(), 5);

    state.update(6);

    assert_eq!(state.get(), 11);
}

#[test]
fn atomic_state_no_leaking_debug() {
    let state = AtomicState::with_seed(Default::default());

    assert_eq!(format!("{state:?}"), "AtomicState");
}

#[test]
fn cell_state_update_wraps_around() {
    let mut state = CellState::with_seed(u64::MAX);

    assert_eq!(state.update(2), 1);
    assert_eq!(state.get(), 1);
}
