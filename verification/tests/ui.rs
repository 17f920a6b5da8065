use timepour::render::blockstack::VisualState;
use timepour::timer::SessionKind;
use timepour::ui::{
    centered_rect, hint_text_for, mode_text_for, render_pixel_digits, show_outer_borders,
    panel_rows, side_panel_layout, status_text_for, theme_color, title_text_for, ClockSize,
    PanelRow, Rect, SidePanel,
};
use timepour::render::blockstack::PieceColor;

#[test]
fn titles_and_hints() {
    assert_eq!(title_text_for(SessionKind::Focus, VisualState::Paused), "focus paused");
    assert_eq!(title_text_for(SessionKind::Break, VisualState::Paused), "break paused");
    assert_eq!(title_text_for(SessionKind::Focus, VisualState::Completed), "focus complete");
    assert_eq!(title_text_for(SessionKind::Break, VisualState::Completed), "break complete");
    assert_eq!(title_text_for(SessionKind::Focus, VisualState::Running), "focus");
    assert_eq!(title_text_for(SessionKind::Break, VisualState::Running), "break");
    assert_eq!(hint_text_for(VisualState::Paused), "p resume   q quit");
    assert_eq!(hint_text_for(VisualState::Completed), "done, returning...");
    assert_eq!(hint_text_for(VisualState::Running), "p pause/resume   q quit");
    assert_eq!(mode_text_for(SessionKind::Focus), "FOCUS MODE");
    assert_eq!(mode_text_for(SessionKind::Break), "BREAK MODE");
    assert_eq!(status_text_for(VisualState::Running), "PLAYING");
    assert_eq!(status_text_for(VisualState::Paused), "PAUSED");
    assert_eq!(status_text_for(VisualState::Completed), "DONE");
}

#[test]
fn centered_rect_fits_and_centres() {
    let area = Rect { x: 2, y: 3, width: 20, height: 10 };
    assert_eq!(
        centered_rect(area, 15, 3),
        Rect { x: 4, y: 6, width: 15, height: 3 }
    );
    // Larger than the area: the area's size.
    assert_eq!(
        centered_rect(area, 40, 40),
        Rect { x: 2, y: 3, width: 20, height: 10 }
    );
    let empty = Rect { x: 7, y: 7, width: 0, height: 5 };
    assert_eq!(centered_rect(empty, 3, 3), empty);
}

#[test]
fn pixel_digits_of_a_clock() {
    let lines = render_pixel_digits("12:59");
    assert_eq!(
        lines,
        vec![
            " █  ███     ███ ███ ",
            "██    █  █  █   █ █ ",
            " █  ███     ███ ███ ",
            " █  █    █    █   █ ",
            "███ ███     ███ ███ ",
        ]
    );
    // Characters other than digits and ':' are skipped.
    assert_eq!(render_pixel_digits("a7"), render_pixel_digits("7"));
    assert_eq!(render_pixel_digits(""), vec![""; 5]);
}

#[test]
fn layout_of_the_side_panel() {
    assert!(show_outer_borders(35, 12));
    assert!(!show_outer_borders(34, 12));
    assert!(!show_outer_borders(35, 11));
    assert_eq!(
        side_panel_layout(26, 30),
        SidePanel {
            show_time_borders: true,
            clock_size: ClockSize::Giant,
            clock_height: 7,
            show_status: true,
            show_next: true,
            show_controls: true,
        }
    );
    assert_eq!(
        side_panel_layout(26, 9),
        SidePanel {
            show_time_borders: false,
            clock_size: ClockSize::Giant,
            clock_height: 5,
            show_status: false,
            show_next: false,
            show_controls: false,
        }
    );
    assert_eq!(side_panel_layout(26, 4).clock_size, ClockSize::Medium);
    assert_eq!(side_panel_layout(26, 4).clock_height, 3);
    assert_eq!(side_panel_layout(26, 2).clock_size, ClockSize::Small);
    assert_eq!(side_panel_layout(21, 30).clock_size, ClockSize::Small);
    assert_eq!(side_panel_layout(21, 30).clock_height, 3);
    assert_eq!(side_panel_layout(26, 13).show_next, true);
    assert_eq!(side_panel_layout(26, 16).show_status, false);
    assert_eq!(side_panel_layout(26, 17).show_status, true);
    assert_eq!(side_panel_layout(26, 20).show_controls, false);
}

#[test]
fn focus_is_red_and_breaks_are_cyan() {
    assert_eq!(theme_color(SessionKind::Focus), PieceColor::Red);
    assert_eq!(theme_color(SessionKind::Break), PieceColor::Cyan);
}

#[test]
fn side_panel_rows_top_to_bottom() {
    // Tall enough for everything: status, giant clock with border, preview, space, hints.
    assert_eq!(
        panel_rows(&side_panel_layout(26, 30)),
        vec![PanelRow::Length(4), PanelRow::Length(7), PanelRow::Length(6), PanelRow::Fill, PanelRow::Length(4)]
    );
    // Room for the preview but not the status or hints.
    assert_eq!(panel_rows(&side_panel_layout(26, 14)), vec![PanelRow::Length(7), PanelRow::Length(6), PanelRow::Fill]);
    // A clock alone, without a border.
    assert_eq!(panel_rows(&side_panel_layout(26, 4)), vec![PanelRow::Length(3), PanelRow::Fill]);
}
