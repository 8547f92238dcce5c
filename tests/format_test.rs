use vrp_cluster::experiment::ExperimentData;
use vrp_cluster::format::{CustomLocationType, FormatError, MultiFormatError};
use vrp_cluster::models::{TimeOffset, TimeSpan, TimeWindow, filter_times};
use vrp_cluster::validation::ValidationContext;

fn error(code: &str) -> FormatError {
    FormatError::new(code.to_string(), "cause".to_string(), "action".to_string())
}

#[test]
fn format_error_describes_itself() {
    let e = FormatError::new_with_details("E1".to_string(), "bad".to_string(), "fix".to_string(), "more".to_string());
    assert_eq!(e.describe(), "E1, cause: 'bad', action: 'fix'.");
    assert_eq!(e.details, Some("more".to_string()));
    assert!(error("E2").details.is_none());
}

#[test]
fn multi_format_error_joins_lines() {
    let multi = MultiFormatError::from(vec![error("E1"), error("E2")]);
    assert_eq!(multi.describe(), "E1, cause: 'cause', action: 'action'.\nE2, cause: 'cause', action: 'action'.");
    assert_eq!(MultiFormatError::from(vec![]).describe(), "");
}

#[test]
fn validation_without_errors_passes() {
    let ctx = ValidationContext::new(vec![], vec![], vec![]);
    assert_eq!(ctx.validate(), Ok(()));
}

#[test]
fn validation_reports_all_errors_in_order() {
    let ctx = ValidationContext::new(vec![error("E1")], vec![], vec![error("E3")]);
    assert_eq!(
        ctx.validate(),
        Err("Problem has the following validation errors:\nE1, cause: 'cause', action: 'action'.\nE3, cause: 'cause', action: 'action'.".to_string())
    );
}

#[test]
fn custom_location_type_is_unknown() {
    assert_eq!(CustomLocationType::Unknown, CustomLocationType::Unknown);
}

#[test]
fn experiment_data_clears() {
    let mut data: ExperimentData<u32, u8, String> = ExperimentData::new("state".to_string());
    data.generation = 5;
    data.population_state.insert(5, 9);
    data.on_add.insert(1, vec![1, 2]);
    data.on_select.insert(2, vec![3]);
    data.clear();
    assert_eq!(data.generation, 0);
    assert!(data.on_add.is_empty());
    assert!(data.on_select.is_empty());
    assert!(data.on_generation.is_empty());
    assert_eq!(data.population_state.get(&5), Some(&9));
    assert_eq!(data.heuristic_state, "state");
}

#[test]
fn time_windows_overlap_and_filter() {
    let a = TimeWindow::new(0, 10);
    assert_eq!(a.overlapping(&TimeWindow::new(5, 20)), Some(TimeWindow::new(5, 10)));
    assert_eq!(a.overlapping(&TimeWindow::new(10, 20)), None);
    assert_eq!(a.duration(), 10);
    let spans = vec![TimeSpan::Window(a), TimeSpan::Offset(TimeOffset { start: 1, end: 2 })];
    assert_eq!(filter_times(&spans), vec![a]);
}
