use herdr::hover::{
    ClientShellMode, ClientShellState, PaneHit, PaneSurfaceFrame, PaneSurfacePane,
    PaneSurfaceScrollMetrics, UNDERLINED,
};
use herdr::surface::{CellData, FrameData, Rect};
use unicode_width::UnicodeWidthChar;

const BOLD: u16 = 1;
const ITALIC: u16 = 4;

/// One row of cells showing `text`, each char in a cell and the trailing
/// cells of wide chars blank.
fn text_frame(text: &str) -> FrameData {
    let mut cells = Vec::new();
    for ch in text.chars() {
        let width = ch.width().unwrap_or(0);
        if width == 0 {
            continue;
        }
        cells.push(CellData { symbol: ch.to_string(), hyperlink: None, modifier: 0 });
        for _ in 1..width {
            cells.push(CellData { symbol: " ".to_string(), hyperlink: None, modifier: 0 });
        }
    }
    FrameData { width: cells.len() as u16, height: 1, cells, hyperlinks: Vec::new() }
}

fn shell_with_path() -> ClientShellState {
    let frame = text_frame("文件：/tmp/中文.txt,");
    let area = Rect::new(0, 0, frame.width, 1);
    ClientShellState {
        active_endpoint_is_local: true,
        mode: ClientShellMode::Terminal,
        overlay_open: false,
        popup_terminal_open: false,
        endpoint_error: false,
        pending_pane_surface: false,
        pane_surface: Some(PaneSurfaceFrame {
            boot_id: "boot-1".into(),
            projection_revision: 1,
            frame,
            panes: vec![PaneSurfacePane {
                pane_id: "pane_1".into(),
                content_revision: 4,
                inner_rect: area.into(),
                scroll: None,
            }],
        }),
        snapshot_revision: Some(1),
        pane_hits: vec![PaneHit { pane_id: "pane_1".into(), inner_rect: area, popup: false }],
        local_path_hover: None,
    }
}

#[test]
fn hover_updates_only_on_ctrl_motion_and_draws_only_path_without_changing_other_style() {
    let mut state = shell_with_path();
    assert!(state.update_local_path_hover(true, 8, 0));
    assert!(!state.update_local_path_hover(true, 8, 0));
    assert_eq!(
        state.local_path_at_point(8, 0),
        Some(("pane_1".into(), "/tmp/中文.txt".into()))
    );
    let mut frame = state.pane_surface.as_ref().unwrap().frame.clone();
    for cell in &mut frame.cells {
        cell.modifier = BOLD | ITALIC;
    }
    let before = frame.clone();
    state.render_local_path_hover(&mut frame);
    for (index, cell) in frame.cells.iter().enumerate() {
        let mut expected = before.cells[index].clone();
        if (6..frame.width - 1).contains(&(index as u16)) {
            expected.modifier |= UNDERLINED;
        }
        assert_eq!(*cell, expected);
    }
    assert!(state.update_local_path_hover(false, 8, 0));
    assert!(state.local_path_hover.is_none());
}

#[test]
fn hover_invalidates_on_content_scroll_geometry_and_mode_changes() {
    for case in 0..4 {
        let mut state = shell_with_path();
        assert!(state.update_local_path_hover(true, 8, 0));
        match case {
            0 => state.pane_surface.as_mut().unwrap().panes[0].content_revision += 1,
            1 => {
                state.pane_surface.as_mut().unwrap().panes[0].scroll =
                    Some(PaneSurfaceScrollMetrics {
                        offset_from_bottom: 1,
                        max_offset_from_bottom: 2,
                        viewport_rows: 1,
                    })
            }
            2 => state.pane_hits[0].inner_rect.x += 1,
            _ => state.mode = ClientShellMode::Copy,
        }
        let mut frame = state.pane_surface.as_ref().unwrap().frame.clone();
        let before = frame.clone();
        state.render_local_path_hover(&mut frame);
        assert_eq!(frame, before);
        state.clear_stale_local_path_hover();
        assert!(state.local_path_hover.is_none());
    }
}

#[test]
fn moving_within_the_hovered_path_keeps_the_hover() {
    let mut state = shell_with_path();
    assert!(state.update_local_path_hover(true, 8, 0));
    let hover = state.local_path_hover.clone().unwrap();
    assert!(hover.cells.contains(&(15, 0)));
    assert!(!state.update_local_path_hover(true, 15, 0));
    assert_eq!(state.local_path_hover.as_ref().unwrap().cells, hover.cells);
    assert!(state.local_path_hover_is_current(&hover));
    // Off the path, over the prose label, the hover goes away.
    assert!(state.update_local_path_hover(true, 2, 0));
    assert!(state.local_path_hover.is_none());
    assert!(!state.update_local_path_hover(true, 2, 0));
}

#[test]
fn clearing_keeps_a_current_hover() {
    let mut state = shell_with_path();
    assert!(state.update_local_path_hover(true, 8, 0));
    state.clear_stale_local_path_hover();
    assert!(state.local_path_hover.is_some());
    let mut frame = state.pane_surface.as_ref().unwrap().frame.clone();
    state.render_local_path_hover(&mut frame);
    assert_eq!(frame.cells[6].modifier, UNDERLINED);
    assert_eq!(frame.cells[5].modifier, 0);
}

#[test]
fn local_paths_are_inert_outside_local_terminal_mode() {
    let mut state = shell_with_path();
    assert!(state.local_path_interaction_enabled());
    state.active_endpoint_is_local = false;
    assert!(!state.local_path_interaction_enabled());
    assert_eq!(state.local_path_at_point(8, 0), None);
    let mut state = shell_with_path();
    state.overlay_open = true;
    assert!(!state.update_local_path_hover(true, 8, 0));
    let mut state = shell_with_path();
    state.snapshot_revision = Some(2);
    assert_eq!(state.local_path_at_point(8, 0), None);
    let mut state = shell_with_path();
    state.pane_hits[0].popup = true;
    assert_eq!(state.local_path_at_point(8, 0), None);
}
