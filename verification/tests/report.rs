use program_structure::errors::CFGError;
use program_structure::file_definition::FileLocation;
use program_structure::report::{
    filter_by_file, filter_by_id, filter_by_level, MessageCategory, Report,
};
use std::collections::HashSet;

fn report(id: &str, category: MessageCategory, files: &[usize]) -> Report {
    let mut report = Report::new(id.to_string(), category, "message".to_string());
    for file in files {
        report.add_primary(FileLocation { start: 0, end: 1 }, *file, "here".to_string());
    }
    report
}

#[test]
fn severities_are_ordered() {
    let all = [MessageCategory::Info, MessageCategory::Warning, MessageCategory::Error];
    for (i, a) in all.iter().enumerate() {
        for (j, b) in all.iter().enumerate() {
            assert_eq!(a.at_least(b), i >= j);
        }
    }
    assert_eq!(MessageCategory::Info.rank(), 0);
    assert_eq!(MessageCategory::Warning.rank(), 1);
    assert_eq!(MessageCategory::Error.rank(), 2);
}

#[test]
fn report_passes_the_level_filter_from_its_severity_down() {
    let warning = report("w", MessageCategory::Warning, &[]);
    assert!(filter_by_level(&warning, &MessageCategory::Info));
    assert!(filter_by_level(&warning, &MessageCategory::Warning));
    assert!(!filter_by_level(&warning, &MessageCategory::Error));
}

#[test]
fn report_passes_the_file_filter_with_a_primary_label_in_a_user_file() {
    let user_inputs: HashSet<usize> = [2, 5].into_iter().collect();
    assert!(filter_by_file(&report("r", MessageCategory::Info, &[1, 5]), &user_inputs));
    assert!(!filter_by_file(&report("r", MessageCategory::Info, &[1, 3]), &user_inputs));
    assert!(!filter_by_file(&report("r", MessageCategory::Info, &[]), &user_inputs));
    assert!(!filter_by_file(&report("r", MessageCategory::Info, &[2]), &HashSet::new()));
}

#[test]
fn secondary_label_does_not_pass_the_file_filter() {
    let user_inputs: HashSet<usize> = [2].into_iter().collect();
    let mut with_secondary = report("r", MessageCategory::Info, &[1]);
    with_secondary.add_secondary(FileLocation { start: 0, end: 1 }, 2, "there".to_string());
    assert!(!filter_by_file(&with_secondary, &user_inputs));
    assert_eq!(with_secondary.secondary_labels().len(), 1);
}

#[test]
fn report_passes_the_id_filter_unless_its_id_is_allowed() {
    let shadowing = report("shadowing-declaration", MessageCategory::Warning, &[]);
    let allow_list = vec!["unused-variable".to_string(), "shadowing-declaration".to_string()];
    assert!(!filter_by_id(&shadowing, &allow_list));
    assert!(filter_by_id(&shadowing, &allow_list[..1]));
    assert!(filter_by_id(&shadowing, &[]));
}

#[test]
fn report_keeps_what_it_was_made_with() {
    let report = report("some-id", MessageCategory::Error, &[4, 4, 9]);
    assert_eq!(report.id(), "some-id");
    assert_eq!(*report.category(), MessageCategory::Error);
    assert_eq!(report.message(), "message");
    assert_eq!(report.primary_file_ids(), vec![4, 4, 9]);
    assert_eq!(report.primary_labels()[2].message, "here");
}

#[test]
fn each_error_has_a_report_of_its_own() {
    let errors = [
        (CFGError::DuplicateDeclaration, "duplicate-declaration"),
        (CFGError::UnknownSymbol, "unknown-symbol"),
        (CFGError::ShadowingSignal, "shadowing-signal"),
        (CFGError::MalformedInitBlock, "malformed-initialization-block"),
        (CFGError::EmptyCfg, "empty-cfg"),
    ];
    for (error, id) in errors {
        let report = error.to_report(Some(3), FileLocation { start: 10, end: 20 });
        assert_eq!(report.id(), id);
        assert_eq!(*report.category(), MessageCategory::Error);
        assert_eq!(report.primary_file_ids(), vec![3]);
        assert_eq!(report.primary_labels()[0].location, FileLocation { start: 10, end: 20 });
        assert!(error.to_report(None, FileLocation { start: 0, end: 0 }).primary_labels().is_empty());
    }
}
