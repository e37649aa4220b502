use project_chooser::countdown::rec_fun;
use project_chooser::output::{parse_choice, plan_output, OutputMode, OutputPlan};
use project_chooser::preview::{choose_preview, preview_command, preview_files, PreviewKind};
use project_chooser::text::is_whitespace;

#[test]
fn rec_fun_counts_down_to_zero() {
    let mut nums = vec![];
    rec_fun(&mut nums, 10);
    assert_eq!(nums, vec![10, 9, 8, 7, 6, 5, 4, 3, 2, 1, 0]);
    let mut one = vec![7];
    rec_fun(&mut one, 0);
    assert_eq!(one, vec![7, 0]);
}

#[test]
fn plan_output_by_mode() {
    assert_eq!(plan_output(OutputMode::ALL, 0), None);
    assert_eq!(plan_output(OutputMode::ALL, 3), Some(OutputPlan::PrintAll));
    assert_eq!(plan_output(OutputMode::FIRST, 3), Some(OutputPlan::PrintOne(0)));
    assert_eq!(plan_output(OutputMode::INTERACTIVE, 1), Some(OutputPlan::PrintOne(0)));
    assert_eq!(plan_output(OutputMode::INTERACTIVE, 2), Some(OutputPlan::Ask));
}

#[test]
fn parse_choice_reads_index_in_range() {
    assert_eq!(parse_choice("1\n", 3), Some(1));
    assert_eq!(parse_choice("  2 ", 3), Some(2));
    assert_eq!(parse_choice("3", 3), None);
    assert_eq!(parse_choice("x", 3), None);
    assert_eq!(parse_choice("", 3), None);
    assert_eq!(parse_choice("+0", 3), Some(0));
    assert_eq!(parse_choice("99999999999999999999999", 3), None);
}

#[test]
fn preview_order_prefers_project_files() {
    let files = preview_files();
    assert_eq!(files.len(), 8);
    assert_eq!(files[0], (".project".to_string(), PreviewKind::ProjectFile));
    assert_eq!(files[1], (".groupproject".to_string(), PreviewKind::ProjectFile));
    assert_eq!(files[2], ("README.md".to_string(), PreviewKind::Readme));
    assert_eq!(files[7], ("README.RST".to_string(), PreviewKind::Readme));
}

#[test]
fn preview_command_quotes_file() {
    assert_eq!(preview_command("bat --color=always", "/p/README.md"), "bat --color=always '/p/README.md'");
}

#[test]
fn whitespace_agrees_with_std() {
    for c in (0u32..0x110000).filter_map(char::from_u32) {
        assert_eq!(is_whitespace(c), c.is_whitespace(), "char {:?}", c);
    }
}

#[test]
fn choose_preview_takes_first_usable() {
    assert_eq!(choose_preview(&[false, true, true]), Some(1));
    assert_eq!(choose_preview(&[true]), Some(0));
    assert_eq!(choose_preview(&[false, false]), None);
    assert_eq!(choose_preview(&[]), None);
}
