use pazifista::archive::FileEntry;
use pazifista::fishing_workbooks::{build_fishing_workbook_plan, fishing_workbook_targets, FishingWorkbookTarget, PlanError};

fn entry(path: &str, paz_num: u32) -> FileEntry {
    let file_name = path.rsplit('/').next().unwrap_or(path).to_string();
    FileEntry {
        paz_num,
        offset: 0,
        compressed_size: 0,
        original_size: 0,
        file_name,
        file_path: path.to_string(),
    }
}

#[test]
fn prefers_excel_path_when_filename_matches_multiple_entries() {
    let plan = build_fishing_workbook_plan(false, |target: &FishingWorkbookTarget| {
        if target.file_name == "Fishing_Table.xlsx" {
            vec![
                entry("backup/Fishing_Table.xlsx", 1),
                entry("gamecommondata/excel/Fishing_Table.xlsx", 2),
            ]
        } else if target.required {
            vec![entry(&format!("gamecommondata/excel/{}", target.file_name), 2)]
        } else {
            Vec::new()
        }
    })
    .expect("plan should resolve");

    let fishing = plan
        .extracted
        .iter()
        .find(|item| item.target.file_name == "Fishing_Table.xlsx")
        .expect("fishing workbook should be present");
    assert_eq!(fishing.entry.paz_num, 2);
    assert_eq!(fishing.entry.file_path, "gamecommondata/excel/Fishing_Table.xlsx");
}

#[test]
fn errors_when_required_workbook_is_missing() {
    let err = build_fishing_workbook_plan(false, |_target: &FishingWorkbookTarget| Vec::new())
        .expect_err("missing required workbook should fail");
    assert!(err.message().contains("required workbook Fishing_Table.xlsx not found"));
}

#[test]
fn tracks_missing_optional_workbooks_without_failing() {
    let plan = build_fishing_workbook_plan(true, |target: &FishingWorkbookTarget| {
        if target.required {
            vec![entry(&format!("gamecommondata/excel/{}", target.file_name), 9)]
        } else {
            Vec::new()
        }
    })
    .expect("optional misses should not fail");

    assert!(plan.missing_optional.contains(&"FloatFishing_Table.xlsx"));
    assert!(plan.missing_optional.contains(&"LightStoneSetOption.xlsx"));
}

#[test]
fn optional_targets_follow_the_required_ones() {
    let required = fishing_workbook_targets(false);
    let all = fishing_workbook_targets(true);
    assert_eq!(required.len(), 4);
    assert_eq!(all.len(), 12);
    assert!(all[..4].iter().all(|t| t.required));
    assert!(all[4..].iter().all(|t| !t.required));
    assert_eq!(all[0].file_name, "Fishing_Table.xlsx");
    assert_eq!(all[11].file_name, "Pet_SetStats_Table.xlsx");
}

#[test]
fn several_excel_matches_are_an_error() {
    let err = build_fishing_workbook_plan(false, |target: &FishingWorkbookTarget| {
        vec![
            entry(&format!("a/excel/{}", target.file_name), 1),
            entry(&format!("b/excel/{}", target.file_name), 2),
        ]
    })
    .expect_err("two excel matches should fail");
    assert!(err.message().contains("matched multiple archive entries"));
}

#[test]
fn plan_errors_name_the_workbook_and_the_paths() {
    let err = PlanError::MultipleMatches("Item_Table.xlsx", vec!["a/Item_Table.xlsx".to_string(), "b/Item_Table.xlsx".to_string()]);
    assert_eq!(err.message(), "workbook Item_Table.xlsx matched multiple archive entries: a/Item_Table.xlsx, b/Item_Table.xlsx");
    assert_eq!(PlanError::MultipleMatches("x", vec![]).message(), "workbook x matched multiple archive entries: ");
    assert_eq!(PlanError::RequiredMissing("y").message(), "required workbook y not found in archive");
}
