use niri_state::model::{Window, Workspace};
use niri_state::project::project;
use niri_state::reconcile::{Event, IntegrityError, State};

fn ws(id: u64, idx: u8, output: Option<&str>, is_active: bool, is_focused: bool) -> Workspace {
    Workspace {
        id,
        idx,
        name: None,
        output: output.map(|s| s.to_string()),
        is_active,
        is_focused,
        active_window_id: None,
    }
}

fn win(id: u64, workspace_id: Option<u64>, is_floating: bool, is_focused: bool, title: Option<&str>) -> Window {
    Window {
        id,
        title: title.map(|s| s.to_string()),
        workspace_id,
        is_focused,
        is_floating,
    }
}

#[test]
fn scenario_full_projection() {
    let mut state = State::new();
    state
        .apply(Event::WorkspacesReplaced { workspaces: vec![ws(1, 0, Some("eDP-1"), false, false)] })
        .unwrap();
    state.apply(Event::WorkspaceActivated { id: 1, focused: true }).unwrap();
    state.apply(Event::WindowsReplaced { windows: vec![] }).unwrap();
    state
        .apply(Event::WindowOpenedOrChanged { window: win(10, Some(1), false, true, Some("term")) })
        .unwrap();
    let tree = project(&state).unwrap();
    assert_eq!(tree.outputs.len(), 1);
    assert_eq!(tree.outputs[0].name, "eDP-1");
    let wss = &tree.outputs[0].workspaces;
    assert_eq!(wss.len(), 1);
    assert_eq!(wss[0].id, 1);
    assert_eq!(wss[0].index, 0);
    assert_eq!(wss[0].name, None);
    assert!(wss[0].is_active);
    assert_eq!(wss[0].windows.len(), 1);
    assert_eq!(wss[0].windows[0].id, 10);
    assert!(wss[0].windows[0].is_focused);
    assert_eq!(wss[0].windows[0].title.as_deref(), Some("term"));
}

#[test]
fn unknown_workspace_on_activation_is_fatal() {
    let mut state = State::new();
    let r = state.apply(Event::WorkspaceActivated { id: 99, focused: true });
    assert_eq!(r, Err(IntegrityError::ActivatedWorkspaceMissing { workspace_id: 99 }));
    assert_eq!(state.workspaces.len(), 0);
}

#[test]
fn active_window_change_on_missing_workspace_is_benign() {
    let mut state = State::new();
    state
        .apply(Event::WorkspacesReplaced { workspaces: vec![ws(1, 0, Some("eDP-1"), true, true)] })
        .unwrap();
    state
        .apply(Event::WorkspaceActiveWindowChanged { workspace_id: 7, active_window_id: Some(3) })
        .unwrap();
    assert_eq!(state.workspaces.len(), 1);
    assert_eq!(state.workspaces[0].active_window_id, None);
}

#[test]
fn upsert_replaces_in_place_without_duplication() {
    let mut state = State::new();
    state
        .apply(Event::WindowsReplaced {
            windows: vec![
                win(4, Some(1), false, false, Some("a")),
                win(5, Some(1), false, false, Some("old")),
                win(6, Some(1), false, false, Some("b")),
            ],
        })
        .unwrap();
    state
        .apply(Event::WindowOpenedOrChanged { window: win(5, Some(1), false, false, Some("new")) })
        .unwrap();
    assert_eq!(state.windows.len(), 3);
    let with_id5: Vec<&Window> = state.windows.iter().filter(|w| w.id == 5).collect();
    assert_eq!(with_id5.len(), 1);
    assert_eq!(with_id5[0].title.as_deref(), Some("new"));
}

#[test]
fn focused_upsert_clears_other_focus() {
    let mut state = State::new();
    state
        .apply(Event::WindowsReplaced {
            windows: vec![win(1, None, false, true, None), win(2, None, false, false, None)],
        })
        .unwrap();
    state.apply(Event::WindowOpenedOrChanged { window: win(3, None, false, true, None) }).unwrap();
    let focused: Vec<u64> = state.windows.iter().filter(|w| w.is_focused).map(|w| w.id).collect();
    assert_eq!(focused, vec![3]);
}

#[test]
fn activation_deactivates_same_output_only() {
    let mut state = State::new();
    state
        .apply(Event::WorkspacesReplaced {
            workspaces: vec![
                ws(1, 0, Some("eDP-1"), true, false),
                ws(2, 1, Some("eDP-1"), false, false),
                ws(3, 0, Some("HDMI-1"), true, false),
                ws(4, 0, None, true, false),
            ],
        })
        .unwrap();
    state.apply(Event::WorkspaceActivated { id: 2, focused: true }).unwrap();
    assert!(!state.workspaces[0].is_active);
    assert!(state.workspaces[1].is_active);
    assert!(state.workspaces[1].is_focused);
    assert!(state.workspaces[2].is_active, "other output untouched");
    assert!(state.workspaces[3].is_active, "workspace without output untouched");
    let focused: Vec<u64> =
        state.workspaces.iter().filter(|w| w.is_focused).map(|w| w.id).collect();
    assert_eq!(focused, vec![2]);
}

#[test]
fn window_close_removes_and_misses_are_benign() {
    let mut state = State::new();
    state
        .apply(Event::WindowsReplaced {
            windows: vec![win(1, None, false, false, None), win(2, None, false, false, None)],
        })
        .unwrap();
    state.apply(Event::WindowClosed { id: 1 }).unwrap();
    assert_eq!(state.windows.len(), 1);
    assert_eq!(state.windows[0].id, 2);
    state.apply(Event::WindowClosed { id: 42 }).unwrap();
    assert_eq!(state.windows.len(), 1);
}

#[test]
fn focus_change_moves_focus_and_none_clears_it() {
    let mut state = State::new();
    state
        .apply(Event::WindowsReplaced {
            windows: vec![win(1, None, false, true, None), win(2, None, false, false, None)],
        })
        .unwrap();
    state.apply(Event::WindowFocusChanged { id: Some(2) }).unwrap();
    let focused: Vec<u64> = state.windows.iter().filter(|w| w.is_focused).map(|w| w.id).collect();
    assert_eq!(focused, vec![2]);
    state.apply(Event::WindowFocusChanged { id: None }).unwrap();
    assert!(state.windows.iter().all(|w| !w.is_focused));
    state.apply(Event::WindowFocusChanged { id: Some(9) }).unwrap();
    assert!(state.windows.iter().all(|w| !w.is_focused), "missing id is benign");
}

#[test]
fn replacement_is_idempotent() {
    let mut state1 = State::new();
    let mut state2 = State::new();
    let payload = || vec![ws(1, 0, Some("eDP-1"), true, true), ws(2, 1, Some("eDP-1"), false, false)];
    state1.apply(Event::WorkspacesReplaced { workspaces: payload() }).unwrap();
    state2.apply(Event::WorkspacesReplaced { workspaces: payload() }).unwrap();
    state2.apply(Event::WorkspacesReplaced { workspaces: payload() }).unwrap();
    assert_eq!(state1.workspaces.len(), state2.workspaces.len());
    for (a, b) in state1.workspaces.iter().zip(state2.workspaces.iter()) {
        assert_eq!(a.id, b.id);
        assert_eq!(a.is_active, b.is_active);
        assert_eq!(a.is_focused, b.is_focused);
    }
}

#[test]
fn floating_windows_are_excluded_from_projection() {
    let mut state = State::new();
    state
        .apply(Event::WorkspacesReplaced { workspaces: vec![ws(1, 0, Some("eDP-1"), true, true)] })
        .unwrap();
    state
        .apply(Event::WindowsReplaced {
            windows: vec![
                win(10, Some(1), true, false, Some("floating")),
                win(11, Some(1), false, false, Some("tiled")),
                win(12, None, false, false, Some("homeless")),
            ],
        })
        .unwrap();
    let tree = project(&state).unwrap();
    let windows = &tree.outputs[0].workspaces[0].windows;
    assert_eq!(windows.len(), 1);
    assert_eq!(windows[0].id, 11);
}

#[test]
fn projection_is_deterministic_and_sorted() {
    let mut state = State::new();
    state
        .apply(Event::WorkspacesReplaced {
            workspaces: vec![
                ws(5, 0, Some("HDMI-1"), true, false),
                ws(2, 0, Some("eDP-1"), true, true),
                ws(3, 1, Some("eDP-1"), false, false),
            ],
        })
        .unwrap();
    state
        .apply(Event::WindowsReplaced {
            windows: vec![
                win(9, Some(2), false, false, None),
                win(4, Some(2), false, true, None),
            ],
        })
        .unwrap();
    let t1 = project(&state).unwrap();
    let t2 = project(&state).unwrap();
    let names1: Vec<&str> = t1.outputs.iter().map(|o| o.name.as_str()).collect();
    assert_eq!(names1, vec!["HDMI-1", "eDP-1"]);
    let ws_ids: Vec<u64> = t1.outputs[1].workspaces.iter().map(|w| w.id).collect();
    assert_eq!(ws_ids, vec![2, 3]);
    let win_ids: Vec<u64> = t1.outputs[1].workspaces[0].windows.iter().map(|w| w.id).collect();
    assert_eq!(win_ids, vec![4, 9]);
    let names2: Vec<&str> = t2.outputs.iter().map(|o| o.name.as_str()).collect();
    assert_eq!(names1, names2);
    for (o1, o2) in t1.outputs.iter().zip(t2.outputs.iter()) {
        assert_eq!(o1.workspaces.len(), o2.workspaces.len());
        for (a, b) in o1.workspaces.iter().zip(o2.workspaces.iter()) {
            assert_eq!(a.id, b.id);
            let ids1: Vec<u64> = a.windows.iter().map(|w| w.id).collect();
            let ids2: Vec<u64> = b.windows.iter().map(|w| w.id).collect();
            assert_eq!(ids1, ids2);
        }
    }
}

#[test]
fn unplaceable_window_is_a_fatal_projection_error() {
    let mut state = State::new();
    state
        .apply(Event::WorkspacesReplaced { workspaces: vec![ws(1, 0, Some("eDP-1"), true, true)] })
        .unwrap();
    state
        .apply(Event::WindowsReplaced { windows: vec![win(10, Some(77), false, false, None)] })
        .unwrap();
    let r = project(&state);
    assert_eq!(
        r.err(),
        Some(IntegrityError::WindowWorkspaceMissing { window_id: 10, workspace_id: 77 })
    );
}

#[test]
fn workspace_without_output_is_not_projected() {
    let mut state = State::new();
    state
        .apply(Event::WorkspacesReplaced { workspaces: vec![ws(1, 0, None, true, true)] })
        .unwrap();
    let tree = project(&state).unwrap();
    assert_eq!(tree.outputs.len(), 0);
}

#[test]
fn ignored_events_change_nothing() {
    let mut state = State::new();
    state
        .apply(Event::WorkspacesReplaced { workspaces: vec![ws(1, 0, Some("eDP-1"), true, true)] })
        .unwrap();
    state.apply(Event::Ignored).unwrap();
    assert_eq!(state.workspaces.len(), 1);
    assert_eq!(state.windows.len(), 0);
}
