use orsiktop::ui_state::scrollbar_thumb;
use orsiktop::ui::ProcessSortKey;
use orsiktop::ui_state::{
    grouped_process_rows, push_history_at, rect_contains, refresh_controls, sorted_processes,
    sorted_processes_with_pin, take_pinned_group_rows, ProcessDisplayRow, ProcessHeaderHit,
    ProcessRowTarget, ProcessRowsHit, ProcessStats, Rect, TimedSample, UiState,
};

/// CPU load in the table's unit (thousandths of a percent).
fn cpu(pct: u64) -> u64 {
    pct * 1000
}

fn proc(pid: u32, program: &str, cpu_pct: u64) -> ProcessStats {
    ProcessStats {
        pid,
        program: program.to_string(),
        cpu_millipct: cpu(cpu_pct),
        ..ProcessStats::default()
    }
}

#[test]
fn same_named_processes_are_grouped_with_aggregate_metrics() {
    let processes = vec![
        ProcessStats {
            pid: 10,
            program: "qemu-system-x86".to_string(),
            cpu_millipct: cpu(120),
            memory_bytes: 2_000,
            threads: 8,
            ..ProcessStats::default()
        },
        ProcessStats {
            pid: 20,
            program: "qemu-system-x86".to_string(),
            cpu_millipct: cpu(80),
            memory_bytes: 3_000,
            threads: 7,
            ..ProcessStats::default()
        },
        ProcessStats {
            pid: 30,
            program: "llama".to_string(),
            cpu_millipct: cpu(50),
            ..ProcessStats::default()
        },
    ];
    let expanded: Vec<String> = Vec::new();
    let (_, rows) = grouped_process_rows(&processes, ProcessSortKey::Cpu, true, None, &expanded);

    assert_eq!(rows.len(), 2);
    match &rows[0] {
        ProcessDisplayRow::Group {
            program,
            count,
            cpu_millipct,
            memory_bytes,
            threads,
            expanded,
        } => {
            assert_eq!(program, "qemu-system-x86");
            assert_eq!(*count, 2);
            assert_eq!(*cpu_millipct, cpu(200));
            assert_eq!(*memory_bytes, 5_000);
            assert_eq!(*threads, 15);
            assert!(!expanded);
        }
        _ => panic!("expected grouped qemu row"),
    }
    assert_eq!(rows[1], ProcessDisplayRow::Process { index: 2, child: false });
}

#[test]
fn expanded_group_exposes_individual_process_rows() {
    let processes = vec![proc(10, "chromium", 20), proc(20, "chromium", 10)];
    let expanded = vec!["chromium".to_string()];
    let (_, rows) = grouped_process_rows(&processes, ProcessSortKey::Cpu, true, None, &expanded);

    assert_eq!(rows.len(), 3);
    assert!(matches!(
        rows[0],
        ProcessDisplayRow::Group { expanded: true, .. }
    ));
    assert!(matches!(
        rows[1],
        ProcessDisplayRow::Process { child: true, .. }
    ));
    assert!(matches!(
        rows[2],
        ProcessDisplayRow::Process { child: true, .. }
    ));
}

fn rows_hit(rect: Rect, targets: Vec<ProcessRowTarget>) -> Option<ProcessRowsHit> {
    Some(ProcessRowsHit { rect, targets })
}

#[test]
fn right_click_toggles_group_expansion() {
    let mut state = UiState::default();
    state.process_rows = rows_hit(
        Rect::new(10, 10, 40, 1),
        vec![ProcessRowTarget::Group("chromium".to_string())],
    );

    assert!(state.right_click_process_group(12, 10));
    assert!(state.expanded_process_groups.contains(&"chromium".to_string()));
    assert!(state.right_click_process_group(12, 10));
    assert!(!state.expanded_process_groups.contains(&"chromium".to_string()));
}

#[test]
fn pinned_process_is_removed_from_sorted_stream() {
    let processes = vec![proc(10, "", 90), proc(20, "", 40), proc(30, "", 70)];

    let (pinned, rest) = sorted_processes_with_pin(&processes, ProcessSortKey::Cpu, true, Some(30));
    assert_eq!(pinned.map(|i| processes[i].pid), Some(30));
    assert_eq!(
        rest.iter().map(|&i| processes[i].pid).collect::<Vec<_>>(),
        vec![10, 20]
    );
}

fn process_click_test_state() -> UiState {
    let mut state = UiState::default();
    state.process_rows = rows_hit(
        Rect::new(10, 10, 40, 2),
        vec![ProcessRowTarget::Process(10), ProcessRowTarget::Process(20)],
    );
    state
}

fn group_click_test_state() -> UiState {
    let mut state = UiState::default();
    state.process_rows = rows_hit(
        Rect::new(10, 10, 40, 1),
        vec![ProcessRowTarget::Group("chromium".to_string())],
    );
    state
}

const T0: u64 = 1_000_000_000;

#[test]
fn single_click_selects_group_without_pinning() {
    let mut state = group_click_test_state();

    assert!(state.click_process_row(12, 10, T0));
    assert_eq!(state.process_selected_group.as_deref(), Some("chromium"));
    assert_eq!(state.process_pinned_group, None);
}

#[test]
fn double_click_pins_group() {
    let mut state = group_click_test_state();

    assert!(state.click_process_row(12, 10, T0));
    assert!(state.click_process_row(12, 10, T0 + 1_000_000));
    assert_eq!(state.process_selected_group.as_deref(), Some("chromium"));
    assert_eq!(state.process_pinned_group.as_deref(), Some("chromium"));
}

#[test]
fn pinned_group_is_taken_with_expanded_children() {
    let processes = vec![
        proc(10, "chromium", 20),
        proc(20, "chromium", 10),
        proc(30, "llama", 5),
    ];
    let expanded = vec!["chromium".to_string()];
    let (_, mut rows) =
        grouped_process_rows(&processes, ProcessSortKey::Cpu, true, None, &expanded);
    let pinned = take_pinned_group_rows(&mut rows, &processes, Some("chromium"));

    assert_eq!(pinned.len(), 3);
    assert_eq!(rows.len(), 1);
    assert!(matches!(
        &pinned[0],
        ProcessDisplayRow::Group { program, .. } if program == "chromium"
    ));
}

#[test]
fn single_click_selects_process_without_pinning() {
    let mut state = process_click_test_state();

    assert!(state.click_process_row(12, 10, T0));
    assert_eq!(state.process_selected_pid, Some(10));
    assert_eq!(state.process_pinned_pid, None);
}

#[test]
fn double_click_pins_process() {
    let mut state = process_click_test_state();

    assert!(state.click_process_row(12, 10, T0));
    assert!(state.click_process_row(12, 10, T0 + 1_000_000));
    assert_eq!(state.process_selected_pid, Some(10));
    assert_eq!(state.process_pinned_pid, Some(10));
}

#[test]
fn clicking_another_process_releases_pin_and_selects_new_process() {
    let mut state = process_click_test_state();

    assert!(state.click_process_row(12, 10, T0));
    assert!(state.click_process_row(12, 10, T0 + 1_000_000));
    assert_eq!(state.process_pinned_pid, Some(10));

    assert!(state.click_process_row(12, 11, T0 + 2_000_000));
    assert_eq!(state.process_selected_pid, Some(20));
    assert_eq!(state.process_pinned_pid, None);
}

#[test]
fn slow_second_click_does_not_pin() {
    let mut state = process_click_test_state();
    assert!(state.click_process_row(12, 10, T0));
    assert!(state.click_process_row(12, 10, T0 + 400_000_001));
    assert_eq!(state.process_pinned_pid, None);
    // A click exactly at the window's end still counts as a double click.
    assert!(state.click_process_row(12, 10, T0 + 800_000_001));
    assert_eq!(state.process_pinned_pid, Some(10));
    // Clicks outside the drawn rows hit nothing.
    assert!(!state.click_process_row(12, 12, T0));
    assert!(!state.click_process_row(9, 10, T0));
}

#[test]
fn keyboard_navigation_treats_collapsed_group_as_one_row() {
    let processes = vec![
        proc(10, "chromium", 30),
        proc(20, "chromium", 20),
        proc(30, "llama", 10),
    ];
    let mut state = UiState::default();

    state.process_home(&processes);
    assert_eq!(state.process_selected_group.as_deref(), Some("chromium"));
    assert_eq!(state.process_selected_pid, None);

    state.move_process_selection(1, &processes);
    assert_eq!(state.process_selected_pid, Some(30));
    assert_eq!(state.process_selected_group, None);
}

#[test]
fn keyboard_navigation_enters_children_only_when_group_is_expanded() {
    let processes = vec![
        proc(10, "chromium", 30),
        proc(20, "chromium", 20),
        proc(30, "llama", 10),
    ];
    let mut state = UiState::default();
    state.expanded_process_groups = vec!["chromium".to_string()];

    state.process_home(&processes);
    assert_eq!(state.process_selected_group.as_deref(), Some("chromium"));

    state.move_process_selection(1, &processes);
    assert!(matches!(state.process_selected_pid, Some(10 | 20)));
    assert_eq!(state.process_selected_group, None);
}

#[test]
fn keyboard_navigation_is_clamped_at_both_ends() {
    let processes = vec![proc(10, "a", 30), proc(20, "b", 20), proc(30, "c", 10)];
    let mut state = UiState::default();
    state.process_end(&processes);
    assert_eq!(state.process_selected_pid, Some(30));
    assert_eq!(state.process_scroll, 2);
    state.move_process_selection(5, &processes);
    assert_eq!(state.process_selected_pid, Some(30));
    state.move_process_selection(-10, &processes);
    assert_eq!(state.process_selected_pid, Some(10));
    state.move_process_selection(isize::MIN, &processes);
    assert_eq!(state.process_selected_pid, Some(10));
    // Nothing to navigate clears the selection.
    state.move_process_selection(1, &[]);
    assert_eq!(state.process_selected_pid, None);
    assert_eq!(state.process_scroll, 0);
}

#[test]
fn help_popup_state_toggles_and_closes() {
    let mut state = UiState::default();
    assert!(!state.is_help_open());
    state.toggle_help();
    assert!(state.is_help_open());
    state.toggle_help();
    assert!(!state.is_help_open());
    state.toggle_help();
    state.close_help();
    assert!(!state.is_help_open());
}

#[test]
fn refresh_buttons_match_rendered_positions() {
    let area = Rect::new(0, 0, 120, 3);
    let controls = refresh_controls(area).unwrap();

    assert!(rect_contains(
        controls.minus,
        controls.minus.x + 2,
        controls.minus.y
    ));
    assert!(rect_contains(
        controls.plus,
        controls.plus.x + 2,
        controls.plus.y
    ));
    assert!(!rect_contains(
        controls.minus,
        controls.plus.x,
        controls.plus.y
    ));
}

#[test]
fn refresh_controls_hide_when_terminal_is_too_narrow() {
    assert!(refresh_controls(Rect::new(0, 0, 20, 3)).is_none());
}

#[test]
fn history_uses_a_fixed_time_window() {
    let now: u64 = 100_000_000_000;
    let mut history: Vec<TimedSample> = Vec::new();
    push_history_at(&mut history, 10, now - 60_000_000_000 - 1_000_000_000);
    push_history_at(&mut history, 20, now);
    assert_eq!(history.len(), 1);
    assert_eq!(history.last().unwrap().value, 20);
}

#[test]
fn history_keeps_at_most_the_newest_samples() {
    let mut history: Vec<TimedSample> = Vec::new();
    for i in 0..800u64 {
        push_history_at(&mut history, i, 1_000 + i);
    }
    assert_eq!(history.len(), 720);
    assert_eq!(history[0].value, 80);
}

#[test]
fn sort_header_click_flips_or_switches_column() {
    let mut state = UiState::default();
    state.process_header_hits = vec![
        ProcessHeaderHit { rect: Rect::new(0, 5, 7, 1), key: ProcessSortKey::Pid },
        ProcessHeaderHit { rect: Rect::new(7, 5, 6, 1), key: ProcessSortKey::Cpu },
    ];
    state.process_scroll = 4;
    // CPU is active and descending: clicking it flips the direction.
    assert!(state.click_process_sort(8, 5));
    assert!(!state.process_sort_desc);
    assert_eq!(state.process_scroll, 0);
    // PID becomes active, ascending.
    assert!(state.click_process_sort(1, 5));
    assert_eq!(state.process_sort_key, ProcessSortKey::Pid);
    assert!(!state.process_sort_desc);
    assert!(!state.click_process_sort(40, 5));
}

#[test]
fn clamp_drops_vanished_selection_and_expansion() {
    let processes = vec![proc(10, "a", 1)];
    let mut state = UiState::default();
    state.process_selected_pid = Some(99);
    state.process_pinned_pid = Some(10);
    state.process_selected_group = Some("gone".to_string());
    state.expanded_process_groups = vec!["a".to_string(), "gone".to_string()];
    state.process_display_total = 3;
    state.process_scroll = 7;
    state.clamp_process_selection(&processes);
    assert_eq!(state.process_selected_pid, None);
    assert_eq!(state.process_pinned_pid, Some(10));
    assert_eq!(state.process_selected_group, None);
    assert_eq!(state.expanded_process_groups, vec!["a".to_string()]);
    assert_eq!(state.process_scroll, 2);
}

#[test]
fn layout_pins_rows_and_records_mouse_targets() {
    let processes = vec![
        proc(10, "a", 50),
        proc(20, "b", 40),
        proc(30, "c", 30),
        proc(40, "d", 20),
    ];
    let mut state = UiState::default();
    state.process_pinned_pid = Some(30);
    state.process_scroll = 9;
    let layout = state.layout_processes(Rect::new(0, 0, 60, 7), &processes);
    // 4 visible lines: the pinned row plus 3 scrolled rows out of 3.
    assert_eq!(
        layout.title,
        " PROCESSES · PIN 30 · SORT CPU ↓ · 1–3/3 · 4 PROC "
    );
    let table = layout.table.unwrap();
    assert!(!table.has_scrollbar);
    assert_eq!(table.rows.len(), 4);
    assert_eq!(table.rows[0], ProcessDisplayRow::Process { index: 2, child: false });
    assert_eq!(state.process_scroll, 0);
    assert_eq!(state.process_display_total, 3);
    let hits = state.process_rows.as_ref().unwrap();
    assert_eq!(hits.targets[0], ProcessRowTarget::Process(30));
    assert_eq!(hits.targets[1], ProcessRowTarget::Process(10));
    assert_eq!(state.process_header_hits.len(), 5);
    // Clicking the second body line selects the first scrolled process.
    assert!(state.click_process_row(2, hits.rect.y + 1, T0));
    assert_eq!(state.process_selected_pid, Some(10));
}

#[test]
fn layout_releases_pins_that_vanished_and_skips_tiny_panes() {
    let processes = vec![proc(10, "a", 50)];
    let mut state = UiState::default();
    state.process_pinned_pid = Some(99);
    state.process_pinned_group = Some("zzz".to_string());
    let layout = state.layout_processes(Rect::new(0, 0, 20, 4), &processes);
    assert!(layout.table.is_none());
    assert_eq!(state.process_pinned_pid, None);
    assert_eq!(state.process_pinned_group, None);
    assert_eq!(layout.title, " PROCESSES · SORT CPU ↓ · 1–1/1 · 1 PROC ");
    let empty = state.layout_processes(Rect::new(0, 0, 20, 4), &[]);
    assert_eq!(empty.title, " PROCESSES · SORT CPU ↓ · 0 ");
}

#[test]
fn sorted_processes_break_ties_by_pid_and_list_each_once() {
    let processes = vec![
        proc(30, "b", 50),
        proc(10, "a", 50),
        proc(20, "c", 70),
        proc(5, "a", 10),
    ];
    let desc = sorted_processes(&processes, ProcessSortKey::Cpu, true);
    assert_eq!(desc.iter().map(|&i| processes[i].pid).collect::<Vec<_>>(), vec![20, 10, 30, 5]);
    let asc = sorted_processes(&processes, ProcessSortKey::Program, false);
    assert_eq!(asc.iter().map(|&i| processes[i].pid).collect::<Vec<_>>(), vec![5, 10, 30, 20]);
}

#[test]
fn toggling_a_group_twice_keeps_other_groups() {
    let mut state = UiState::default();
    state.expanded_process_groups = vec!["bash".to_string()];
    state.process_rows = rows_hit(
        Rect::new(0, 0, 40, 1),
        vec![ProcessRowTarget::Group("chromium".to_string())],
    );
    assert!(state.right_click_process_group(1, 0));
    assert!(state.right_click_process_group(1, 0));
    assert_eq!(state.expanded_process_groups, vec!["bash".to_string()]);
}

#[test]
fn scrollbar_thumb_tracks_visible_share_and_position() {
    assert_eq!(scrollbar_thumb(10, 0, 10, 40), Some((0, 3)));
    assert_eq!(scrollbar_thumb(10, 15, 10, 40), Some((4, 3)));
    assert_eq!(scrollbar_thumb(10, 30, 10, 40), Some((7, 3)));
    assert_eq!(scrollbar_thumb(4, 0, 1, 1000), Some((0, 1)));
    assert_eq!(scrollbar_thumb(10, 0, 10, 10), None);
    assert_eq!(scrollbar_thumb(0, 0, 10, 40), None);
    assert_eq!(scrollbar_thumb(10, 0, 0, 40), None);
}
