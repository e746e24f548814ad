use pazifista::extract::{extract_step, prompt_answer, renamed_file_name, ExtractAction, ExtractPolicy, ExtractSituation};

#[test]
fn answers_are_the_first_character_of_the_line() {
    assert_eq!(prompt_answer("  No\n", 'y'), 'N');
    assert_eq!(prompt_answer("\n", 'r'), 'r');
    assert_eq!(prompt_answer("", 'y'), 'y');
}

#[test]
fn a_settled_policy_asks_nothing() {
    let all = ExtractPolicy::new(true);
    assert_eq!(extract_step(all, ExtractSituation::OutputMissing, None), (all, ExtractAction::CreateFolder));
    assert_eq!(extract_step(all, ExtractSituation::FolderMissing, None), (all, ExtractAction::CreateFolder));
    assert_eq!(extract_step(all, ExtractSituation::FileExists, None), (all, ExtractAction::Overwrite));
}

#[test]
fn answers_settle_the_rest_of_the_run() {
    let p = ExtractPolicy::new(false);
    assert_eq!(extract_step(p, ExtractSituation::FileExists, None), (p, ExtractAction::Ask));
    let (renaming, action) = extract_step(p, ExtractSituation::FileExists, Some('N'));
    assert_eq!(action, ExtractAction::Rename);
    assert!(renaming.rename_files);
    assert_eq!(extract_step(renaming, ExtractSituation::FileExists, None), (renaming, ExtractAction::Rename));
    let (overwriting, action) = extract_step(p, ExtractSituation::FileExists, Some('a'));
    assert_eq!(action, ExtractAction::Overwrite);
    assert!(overwriting.overwrite_files);
    let (creating, action) = extract_step(p, ExtractSituation::FolderMissing, Some('A'));
    assert_eq!(action, ExtractAction::CreateFolder);
    assert!(creating.create_paths);
    assert_eq!(extract_step(p, ExtractSituation::FolderMissing, Some('s')).1, ExtractAction::SkipFile);
    assert_eq!(extract_step(p, ExtractSituation::FolderMissing, Some('e')).1, ExtractAction::Stop);
    assert_eq!(extract_step(p, ExtractSituation::OutputMissing, Some('n')).1, ExtractAction::Stop);
    assert_eq!(extract_step(p, ExtractSituation::OutputMissing, Some('x')).1, ExtractAction::Ask);
    assert_eq!(extract_step(p, ExtractSituation::FileExists, Some('q')), (p, ExtractAction::Ask));
}

#[test]
fn renamed_files_are_numbered_before_the_extension() {
    assert_eq!(renamed_file_name("Fishing_Table", "xlsx", 1), "Fishing_Table[1].xlsx");
    assert_eq!(renamed_file_name("README", "", 12), "README[12]");
}
