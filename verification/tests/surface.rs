use herdr::surface::{path_in_surface, CellData, FrameData, Rect, SurfaceRect};
use unicode_width::{UnicodeWidthChar, UnicodeWidthStr};

/// One row of cells showing `text`, as a terminal buffer lays it out: each
/// char in a cell, the trailing cells of wide chars blank.
fn text_frame(text: &str) -> FrameData {
    let mut cells = Vec::new();
    for ch in text.chars() {
        let width = ch.width().unwrap_or(0);
        if width == 0 {
            continue;
        }
        cells.push(CellData { symbol: ch.to_string(), hyperlink: None, modifier: 0 });
        for _ in 1..width {
            cells.push(CellData { symbol: " ".to_string(), hyperlink: None, modifier: 0 });
        }
    }
    FrameData { width: cells.len() as u16, height: 1, cells, hyperlinks: Vec::new() }
}

#[test]
fn surface_path_maps_chinese_text_and_wide_cells_to_screen_coordinates() {
    let frame = text_frame("• 文件：/home/中文/README.md,");
    let source = Rect::new(0, 0, frame.width, frame.height);
    let screen = Rect::new(5, 7, frame.width, frame.height);
    let (path, cells) = path_in_surface(&frame, source.into(), screen, 20, 7).unwrap();
    assert_eq!(path, "/home/中文/README.md");
    let first = 5 + "• 文件：".width() as u16;
    assert_eq!(cells.first(), Some(&(first, 7)));
    assert_eq!(cells.last(), Some(&(5 + frame.width - 2, 7)));
    assert!(path_in_surface(&frame, source.into(), screen, 8, 7).is_none());
    assert!(path_in_surface(&frame, source.into(), screen, 5 + frame.width - 1, 7).is_none());
    let chinese = first + "/home/".width() as u16;
    let (second_half, _) =
        path_in_surface(&frame, source.into(), screen, chinese + 1, 7).unwrap();
    assert_eq!(second_half, path);
}

#[test]
fn file_hyperlinks_resolve_short_labels_and_preserve_web_link_behavior() {
    let mut frame = text_frame("说明");
    frame.hyperlinks.push("file:///tmp/my%20file.md".into());
    frame.cells[0].hyperlink = Some(0);
    frame.cells[2].hyperlink = Some(0);
    let area = Rect::new(0, 0, frame.width, 1);
    let (path, cells) = path_in_surface(&frame, area.into(), area, 1, 0).unwrap();
    assert_eq!(path, "/tmp/my file.md");
    assert_eq!(cells, vec![(0, 0), (1, 0), (2, 0), (3, 0)]);
    frame.hyperlinks[0] = "https://example.com/a".into();
    assert!(path_in_surface(&frame, area.into(), area, 1, 0).is_none());
}

#[test]
fn surface_paths_do_not_join_unrelated_rows_or_accept_truncated_geometry() {
    let frame = text_frame("`./my project/file.rs:12` next");
    let area = Rect::new(0, 0, frame.width, 1);
    let (path, cells) = path_in_surface(&frame, area.into(), area, 8, 0).unwrap();
    assert_eq!(path, "./my project/file.rs");
    assert_eq!(cells.first(), Some(&(1, 0)));
    assert_eq!(
        cells.last(),
        Some(&("./my project/file.rs:12".width() as u16, 0))
    );
    assert!(path_in_surface(&frame, area.into(), Rect::new(0, 0, 100, 1), 8, 0).is_none());
}

#[test]
fn surface_rect_conversion_keeps_geometry() {
    let rect = Rect::new(3, 4, 10, 2);
    let surface: SurfaceRect = rect.into();
    assert_eq!(surface, SurfaceRect { x: 3, y: 4, width: 10, height: 2 });
}

#[test]
fn hyperlink_labels_spanning_rows_map_to_cells_inside_the_pane() {
    let mut frame = text_frame("ab文");
    let row = frame.cells.clone();
    frame.cells.extend(row);
    frame.height = 2;
    frame.hyperlinks.push("file:///srv/%E6%96%87.md?q=1".into());
    frame.cells[1].hyperlink = Some(0);
    frame.cells[2].hyperlink = Some(0);
    frame.cells[4].hyperlink = Some(0);
    let source = Rect::new(0, 0, frame.width, 2);
    let screen = Rect::new(10, 3, frame.width, 2);
    let (path, cells) = path_in_surface(&frame, source.into(), screen, 12, 3).unwrap();
    assert_eq!(path, "/srv/文.md");
    assert_eq!(cells, vec![(11, 3), (12, 3), (13, 3), (10, 4)]);
    for (x, y) in cells {
        assert!(screen.contains(x, y));
    }
    assert!(path_in_surface(&frame, source.into(), screen, 10, 3).is_none());
}

#[test]
fn unicode_whitespace_separates_paths() {
    let frame = text_frame("见\u{3000}/tmp/a.txt");
    let area = Rect::new(0, 0, frame.width, 1);
    let (path, cells) = path_in_surface(&frame, area.into(), area, 6, 0).unwrap();
    assert_eq!(path, "/tmp/a.txt");
    assert_eq!(cells.first(), Some(&(4, 0)));
    assert_eq!(cells.last(), Some(&(13, 0)));
}

#[test]
fn plain_text_paths_ignore_other_rows() {
    let mut top = text_frame("see /tmp/a.txt now");
    let width = top.width;
    let mut other = top.clone();
    let blank: Vec<CellData> = (0..width)
        .map(|_| CellData { symbol: " ".to_string(), hyperlink: None, modifier: 0 })
        .collect();
    let filler = text_frame("/var/other/path/long");
    top.cells.extend(blank);
    other.cells.extend(filler.cells.into_iter().take(width as usize));
    top.height = 2;
    other.height = 2;
    let area = Rect::new(0, 0, width, 2);
    let first = path_in_surface(&top, area.into(), area, 6, 0);
    assert_eq!(first, path_in_surface(&other, area.into(), area, 6, 0));
    assert_eq!(first.unwrap().0, "/tmp/a.txt");
}

#[test]
fn text_path_cells_include_the_pointer() {
    let frame = text_frame("open ./src/中文.rs:3 now");
    let source = Rect::new(0, 0, frame.width, 1);
    let screen = Rect::new(2, 4, frame.width, 1);
    for column in 7..22 {
        let (path, cells) = path_in_surface(&frame, source.into(), screen, column, 4).unwrap();
        assert_eq!(path, "./src/中文.rs");
        assert!(cells.contains(&(column, 4)));
        assert!(cells.windows(2).all(|pair| pair[1].0 == pair[0].0 + 1));
    }
}
