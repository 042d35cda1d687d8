use wyvern::app::{App, Focus, PromptIntent};
use wyvern::explorer::FileExplorer;
use wyvern::git::{GitContext, GitLineStatus};
use wyvern::line_view::{hint_label, layout_line, LineCell, TextMarks};
use wyvern::ui::{
    cell_highlight, diag_counts, diag_label, file_icon, git_label, git_marker, line_number_label,
    mode_label, popup_origin, prompt_title, rgb_to_ansi, visible_end, Color, Highlight,
    SEVERITY_ERROR, SEVERITY_WARNING,
};

fn app() -> App {
    App::new("/ws".to_string(), FileExplorer::new("/ws".to_string(), None), GitContext::empty())
}

#[test]
fn rgb_maps_to_the_nearest_ansi_colour() {
    assert_eq!(rgb_to_ansi(0, 0, 0), Color::Black);
    assert_eq!(rgb_to_ansi(255, 255, 255), Color::White);
    assert_eq!(rgb_to_ansi(250, 80, 90), Color::LightRed);
    assert_eq!(rgb_to_ansi(160, 10, 5), Color::Red);
    assert_eq!(rgb_to_ansi(128, 128, 128), Color::Gray);
    assert_eq!(rgb_to_ansi(42, 42, 42), Color::Black);
    assert_eq!(rgb_to_ansi(43, 43, 43), Color::DarkGray);
}

#[test]
fn icons_by_extension() {
    assert_eq!(file_icon("rs"), ("\u{e7a8} ".to_string(), Color::Rgb(222, 90, 44)));
    assert_eq!(file_icon("py").1, Color::Yellow);
    assert_eq!(file_icon("cpp"), ("\u{e61e} ".to_string(), Color::LightBlue));
    assert_eq!(file_icon("htm").1, Color::Rgb(227, 79, 38));
    assert_eq!(file_icon("zip"), ("\u{f15b} ".to_string(), Color::White));
}

#[test]
fn gutter_marks() {
    assert_eq!(git_marker(Some(GitLineStatus::Added)), ("\u{258c}".to_string(), Color::Green));
    assert_eq!(git_marker(Some(GitLineStatus::Modified)), ("\u{258c}".to_string(), Color::Yellow));
    assert_eq!(git_marker(Some(GitLineStatus::Deleted)), ("_".to_string(), Color::Red));
    assert_eq!(git_marker(None), (" ".to_string(), Color::Reset));
}

#[test]
fn line_numbers_are_right_aligned() {
    assert_eq!(line_number_label(7, 3), "   7 ");
    assert_eq!(line_number_label(120, 3), " 120 ");
    assert_eq!(line_number_label(1234, 2), " 1234 ");
}

#[test]
fn mode_labels() {
    assert_eq!(mode_label(Focus::Tree), " TREE ");
    assert_eq!(mode_label(Focus::Window(3)), " EDIT ");
}

#[test]
fn git_labels() {
    assert_eq!(git_label(&GitContext::empty(), true), " local ");
    let mut c = GitContext::empty();
    c.is_repo = true;
    assert_eq!(git_label(&c, true), " git: detached ");
    c.branch = Some("main".to_string());
    c.stats = (3, 0, 2);
    assert_eq!(git_label(&c, true), " git: main [+3 -2] ");
    assert_eq!(git_label(&c, false), " git: main ");
    c.stats = (0, 4, 0);
    assert_eq!(git_label(&c, true), " git: main [~4] ");
    c.stats = (1, 2, 3);
    assert_eq!(git_label(&c, true), " git: main [+1 ~2 -3] ");
}

#[test]
fn diagnostics_labels() {
    let sev = vec![Some(SEVERITY_ERROR), Some(SEVERITY_WARNING), None, Some(SEVERITY_ERROR), Some(3)];
    assert_eq!(diag_counts(&sev), (2, 1));
    assert_eq!(diag_label(2, 1), " E:2 W:1 ");
    assert_eq!(diag_label(0, 0), " OK ");
    assert_eq!(diag_label(0, 5), " E:0 W:5 ");
}

#[test]
fn prompt_titles() {
    assert_eq!(prompt_title(&PromptIntent::SearchText), (" Buscar Texto: ".to_string(), true));
    assert_eq!(prompt_title(&PromptIntent::SearchFile), (" Buscar Archivo: ".to_string(), true));
    assert_eq!(prompt_title(&PromptIntent::SaveAs("/ws".to_string())), (" Guardar Como: ".to_string(), false));
    assert_eq!(prompt_title(&PromptIntent::Delete("/ws/a".to_string())).0, " Eliminar archivo? (y/N): ");
}

#[test]
fn highlights_of_cells() {
    let matches = vec![2, 10];
    assert_eq!(cell_highlight(3, &matches, 3, Some(10), None), Highlight::Match);
    assert_eq!(cell_highlight(11, &matches, 3, Some(10), None), Highlight::ActiveMatch);
    assert_eq!(cell_highlight(5, &matches, 3, Some(10), None), Highlight::Plain);
    assert_eq!(cell_highlight(3, &matches, 3, Some(10), Some((0, 4))), Highlight::Selected);
    assert_eq!(cell_highlight(4, &matches, 3, None, Some((0, 4))), Highlight::Match);
    assert_eq!(cell_highlight(3, &matches, 0, None, None), Highlight::Plain);
}

#[test]
fn visible_lines() {
    assert_eq!(visible_end(10, 20, 100), 30);
    assert_eq!(visible_end(90, 20, 100), 100);
}

#[test]
fn the_completion_menu_stays_on_screen() {
    assert_eq!(popup_origin(10, 5, 80, 24, 30, 6, 6), (10, 6));
    assert_eq!(popup_origin(70, 20, 80, 24, 30, 6, 6), (50, 14));
    assert_eq!(popup_origin(10, 2, 20, 5, 30, 6, 6), (0, 0));
}

#[test]
fn the_cursor_position_label() {
    let mut a = app();
    assert_eq!(a.position_label(), " No Doc ");
    a.load_file("/ws/lib.rs".to_string(), Some("ab\ncde".to_string()));
    a.documents[0].1.buffer.cursor_char_idx = 5;
    assert_eq!(a.position_label(), " Ln 2, Col 3 | RS ");
    a.new_blank_file();
    assert_eq!(a.position_label(), " Ln 1, Col 1 | TXT ");
}

fn cells(line: &[(usize, &str)], hints: &[(usize, &str)], start: usize, marks: &TextMarks) -> Vec<String> {
    let pieces: Vec<(usize, String)> = line.iter().map(|(s, t)| (*s, t.to_string())).collect();
    let hints: Vec<(usize, String)> = hints.iter().map(|(c, l)| (*c, l.to_string())).collect();
    layout_line(&pieces, &hints, start, marks)
        .into_iter()
        .map(|c| match c {
            LineCell::Text { slot, hl, text } => format!("{}{:?}[{}]", slot, hl, text),
            LineCell::Guide => "|".to_string(),
            LineCell::Hint { text } => format!("<{}>", text),
        })
        .collect()
}

fn no_marks() -> TextMarks {
    TextMarks { matches: vec![], qlen: 0, active: None, sel: None }
}

#[test]
fn line_layout_draws_guides_tabs_and_hints() {
    let m = no_marks();
    assert_eq!(
        cells(&[(0, "      let x"), (1, " = 1;\n")], &[(10, "i32::"), (3, "never")], 0, &m),
        vec!["|", "0Plain[  ]", "< never: >", "0Plain[ ]", "|", "0Plain[ let ]", "< i32: >", "0Plain[x]", "1Plain[ = 1;]"]
    );
    assert_eq!(cells(&[(0, "\tx\ty")], &[], 0, &m), vec!["|", "0Plain[   x    y]"]);
    assert_eq!(cells(&[(0, "\r\n")], &[], 0, &m), Vec::<String>::new());
}

#[test]
fn line_layout_marks_selection_and_matches() {
    let m = TextMarks { matches: vec![12, 15], qlen: 2, active: Some(15), sel: Some((10, 11)) };
    assert_eq!(
        cells(&[(4, "abcdefgh")], &[], 10, &m),
        vec!["4Selected[a]", "4Plain[b]", "4Match[cd]", "4Plain[e]", "4ActiveMatch[fg]", "4Plain[h]"]
    );
}

#[test]
fn hint_labels_lose_trailing_colons() {
    assert_eq!(hint_label("x::"), " x: ");
    assert_eq!(hint_label(""), " : ");
}
