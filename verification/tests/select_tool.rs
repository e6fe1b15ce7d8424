use roxel::geom::IVec3;
use roxel::select::{select_step, SelectEvent, SelectPhase, SelectState, Selection, SelectionAabb};

fn quiet() -> SelectEvent {
    SelectEvent {
        esc: false,
        rmb_just: false,
        lmb_just: false,
        lmb_released: false,
        blocked: false,
        hit: None,
        aim: None,
        offset: 0,
    }
}

fn selected() -> Selection {
    let mut selection = Selection::default();
    selection.set_aabb(SelectionAabb::from_corners(IVec3::new(0, 0, 0), IVec3::new(1, 1, 1)));
    selection
}

#[test]
fn select_rmb_in_idle_keeps_committed_selection() {
    let mut state = SelectState::default();
    let mut selection = selected();
    select_step(&mut state, &mut selection, SelectEvent { rmb_just: true, ..quiet() });
    assert!(selection.aabb.is_some());
    assert_eq!(state.phase, SelectPhase::Idle);
}

#[test]
fn select_esc_in_idle_clears_selection() {
    let mut state = SelectState::default();
    let mut selection = selected();
    select_step(&mut state, &mut selection, SelectEvent { esc: true, ..quiet() });
    assert!(selection.aabb.is_none());
}

#[test]
fn select_drag_footprint_extrude_commit() {
    let mut state = SelectState::default();
    let mut selection = Selection::default();
    let press = SelectEvent {
        lmb_just: true,
        hit: Some((IVec3::new(2, 0, 3), IVec3::new(0, 1, 0))),
        aim: Some(IVec3::new(2, 0, 3)),
        ..quiet()
    };
    select_step(&mut state, &mut selection, press);
    assert_eq!(state.phase, SelectPhase::Footprint);
    select_step(&mut state, &mut selection, SelectEvent { aim: Some(IVec3::new(4, 0, 5)), ..quiet() });
    select_step(&mut state, &mut selection, SelectEvent { lmb_released: true, ..quiet() });
    assert_eq!(state.phase, SelectPhase::Extrude);
    select_step(&mut state, &mut selection, SelectEvent { offset: 2, ..quiet() });
    assert_eq!(state.thickness, 2);
    select_step(&mut state, &mut selection, SelectEvent { lmb_just: true, offset: 2, ..quiet() });
    assert_eq!(state.phase, SelectPhase::Idle);
    let b = selection.aabb.expect("committed box");
    assert_eq!(b.min, IVec3::new(2, 0, 3));
    assert_eq!(b.max, IVec3::new(4, 2, 5));
}

#[test]
fn select_esc_mid_drag_abandons_it_and_keeps_selection() {
    let mut state = SelectState::default();
    let mut selection = selected();
    let press = SelectEvent {
        lmb_just: true,
        hit: Some((IVec3::new(0, 0, 0), IVec3::new(1, 0, 0))),
        ..quiet()
    };
    select_step(&mut state, &mut selection, press);
    assert_eq!(state.phase, SelectPhase::Footprint);
    select_step(&mut state, &mut selection, SelectEvent { esc: true, ..quiet() });
    assert_eq!(state.phase, SelectPhase::Idle);
    assert!(selection.aabb.is_some());
}
