use fors::console::pick_color;
use fors::console::render_prefix;
use fors::console::PALETTE_SIZE;
use fors::procfile_parser::process_entries;
use fors::supervisor::check_summary;
use fors::supervisor::padding_width;
use fors::supervisor::start_plan;
use fors::procfile_parser::Error;

#[test]
fn palette_starts_with_cyan_yellow_green() {
    assert_eq!(pick_color(0), 6);
    assert_eq!(pick_color(1), 3);
    assert_eq!(pick_color(2), 2);
    assert_eq!(pick_color(11), 12);
}

#[test]
fn colors_cycle_with_palette_size() {
    for k in 0..30 {
        assert_eq!(pick_color(k), pick_color(k + PALETTE_SIZE));
    }
    assert_eq!(pick_color(12), pick_color(0));
    assert_eq!(pick_color(25), pick_color(1));
}

#[test]
fn prefix_is_padded_to_width() {
    assert_eq!(render_prefix("web", 6).as_str(), "web    | ");
    assert_eq!(render_prefix("worker", 6).as_str(), "worker | ");
    assert_eq!(render_prefix("a", 1).as_str(), "a | ");
}

#[test]
fn long_name_is_not_truncated() {
    assert_eq!(render_prefix("longname", 3).as_str(), "longname | ");
}

#[test]
fn padding_width_is_longest_name() {
    let entries = process_entries(b"web: echo hi\nworker: echo bye\n".as_ref()).unwrap();
    assert_eq!(padding_width(&entries), 6);
}

#[test]
fn prefixes_align_at_padding_width() {
    let entries = process_entries(b"a: x\nlonger: y\nmid: z\n".as_ref()).unwrap();
    let width = padding_width(&entries);
    assert_eq!(width, 6);
    for e in &entries {
        assert_eq!(render_prefix(&e.name, width).chars().count(), width + 3);
    }
}

#[test]
fn start_plan_keeps_order_and_assigns_colors() {
    let mut text = Vec::new();
    for i in 0..15 {
        text.extend_from_slice(format!("p{}: run {}\n", i, i).as_bytes());
    }
    let entries = process_entries(&text).unwrap();
    let plan = start_plan(entries);
    assert_eq!(plan.len(), 15);
    for (i, w) in plan.iter().enumerate() {
        assert_eq!(w.name, format!("p{}", i));
        assert_eq!(w.command, format!("run {}", i));
        assert_eq!(w.color, pick_color(i));
    }
    assert_eq!(plan[12].color, plan[0].color);
    assert_eq!(plan[13].color, plan[1].color);
}

#[test]
fn check_summary_lists_names_of_valid_manifest() {
    let result = process_entries(b"web: echo hi\nworker: echo bye\n".as_ref());
    let msg = check_summary(&result).unwrap();
    assert_eq!(msg.as_str(), "Valid procfile (web, worker)");
}

#[test]
fn check_summary_of_single_entry() {
    let result = process_entries(b"solo: run".as_ref());
    let msg = check_summary(&result).unwrap();
    assert_eq!(msg.as_str(), "Valid procfile (solo)");
}

#[test]
fn check_summary_reports_invalid_manifest() {
    let result = process_entries(b"not a procfile".as_ref());
    let msg = check_summary(&result).unwrap();
    assert_eq!(msg.as_str(), "Invalid procfile");
}

#[test]
fn check_summary_passes_io_errors_through() {
    let result: Result<Vec<fors::procfile_parser::ProcfileEntry>, Error> =
        Err(Error::Io(std::io::Error::new(std::io::ErrorKind::PermissionDenied, "no")));
    assert!(check_summary(&result).is_none());
}

#[test]
fn launch_scenario_prefixes_and_colors() {
    // The manifest of the end-to-end scenario, short of spawning processes:
    // both entries are planned in order, aligned and distinctly colored.
    let entries = process_entries(b"web: echo hi\nworker: echo bye\n".as_ref()).unwrap();
    let width = padding_width(&entries);
    let plan = start_plan(entries);
    assert_eq!(plan[0].name, "web");
    assert_eq!(plan[0].command, "echo hi");
    assert_eq!(plan[1].name, "worker");
    assert_eq!(plan[1].command, "echo bye");
    assert_ne!(plan[0].color, plan[1].color);
    assert_eq!(render_prefix(&plan[0].name, width).as_str(), "web    | ");
    assert_eq!(render_prefix(&plan[1].name, width).as_str(), "worker | ");
}
