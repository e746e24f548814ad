use pazifista::ingest::{
    humanize_source_condition, item_id_from_icon_image, lifeskill_level_label, ranking_rows_deduped,
    source_condition_fields, xml_attr, zone_display_name,
};

#[test]
fn zone_display_name_prefers_csv_name() {
    assert_eq!(zone_display_name(0x123456, Some("Velia Bay")), "Velia Bay");
}

#[test]
fn zone_display_name_falls_back_to_explicit_hex_label() {
    assert_eq!(zone_display_name(0x123456, None), "Unknown Zone 0x123456");
}

#[test]
fn zone_display_name_pads_and_uppercases_hex() {
    assert_eq!(zone_display_name(0xab, None), "Unknown Zone 0x0000AB");
    assert_eq!(zone_display_name(0x1abcdef, None), "Unknown Zone 0x1ABCDEF");
}

#[test]
fn icon_image_suffix_resolves_fish_item_id() {
    assert_eq!(
        item_id_from_icon_image("New_Icon/03_ETC/07_ProductMaterial/00008452"),
        Some(8452)
    );
    assert_eq!(
        item_id_from_icon_image("New_Icon/03_ETC/10_Free_TradeItem/00800108.dds"),
        Some(800108)
    );
    assert_eq!(item_id_from_icon_image("New_Icon/no-item"), None);
}

#[test]
fn icon_image_ignores_query_whitespace_and_other_extensions() {
    assert_eq!(item_id_from_icon_image("  icons/item_0042.webp?v=7  "), Some(42));
    assert_eq!(item_id_from_icon_image("icons/item_0042.WEBP#frag"), Some(42));
    assert_eq!(item_id_from_icon_image("icons/99/name"), None);
    assert_eq!(item_id_from_icon_image("icons/99999999999"), None);
    assert_eq!(item_id_from_icon_image(""), None);
}

#[test]
fn source_life_level_condition_is_labeled() {
    let condition = source_condition_fields(Some("getLifeLevel(1)>80;"));

    assert_eq!(condition.key, "getLifeLevel(1)>80;");
    assert_eq!(condition.text, "Fishing Level Guru 1+");
    assert_eq!(condition.tooltip, "getLifeLevel(1)>80;");

    let default_condition = source_condition_fields(None);
    assert_eq!(default_condition.key, "default");
    assert_eq!(default_condition.text, "Default");
}

#[test]
fn source_contents_group_condition_is_labeled() {
    let condition = source_condition_fields(Some("!isContentsGroupOpen(0,689);"));

    assert_eq!(condition.key, "!isContentsGroupOpen(0,689);");
    assert_eq!(condition.text, "Contents Group 689 Closed");
    assert_eq!(condition.tooltip, "!isContentsGroupOpen(0,689);");
}

#[test]
fn source_condition_joins_labels_of_all_predicates() {
    let condition =
        source_condition_fields(Some("  lifestat(1,1)>499; isContentsGroupOpen(0,12) ;;other  "));
    assert_eq!(condition.key, "lifestat(1,1)>499; isContentsGroupOpen(0,12) ;;other");
    assert_eq!(
        condition.text,
        "Fishing Mastery 500+ \u{b7} Contents Group 12 Open \u{b7} other"
    );
    let blank = source_condition_fields(Some("   "));
    assert_eq!(blank.key, "default");
    assert_eq!(blank.tooltip, "Default");
}

#[test]
fn lifeskill_levels_follow_the_tiers() {
    assert_eq!(lifeskill_level_label(0), "Beginner 1");
    assert_eq!(lifeskill_level_label(10), "Beginner 10");
    assert_eq!(lifeskill_level_label(11), "Apprentice 1");
    assert_eq!(lifeskill_level_label(31), "Professional 1");
    assert_eq!(lifeskill_level_label(50), "Artisan 10");
    assert_eq!(lifeskill_level_label(80), "Master 30");
    assert_eq!(lifeskill_level_label(81), "Guru 1");
}

#[test]
fn unknown_predicates_keep_their_text() {
    assert_eq!(humanize_source_condition("getLifeLevel(1)>x"), "getLifeLevel(1)>x");
    assert_eq!(humanize_source_condition("isContentsGroupOpen(0,5"), "isContentsGroupOpen(0,5");
    assert_eq!(humanize_source_condition("getLifeLevel(1)>+9"), "Fishing Level Beginner 10+");
}

#[test]
fn ranking_rows_deduped_excludes_skipped_rows() {
    assert_eq!(ranking_rows_deduped(10, 3, 2), 5);
}

#[test]
fn ranking_rows_deduped_never_goes_below_zero() {
    assert_eq!(ranking_rows_deduped(2, 5, 1), 0);
    assert_eq!(ranking_rows_deduped(2, 0, 5), 0);
}

#[test]
fn extracts_xml_attr() {
    let line = r#"<SpawnInfo key="40010" dialogIndex="1" position="{-1.0,2.0,3.0}" />"#;
    assert_eq!(xml_attr(line, "key"), Some("40010"));
    assert_eq!(xml_attr(line, "position"), Some("{-1.0,2.0,3.0}"));
}

#[test]
fn xml_attr_missing_or_unterminated_is_none() {
    assert_eq!(xml_attr(r#"<A key="1" />"#, "other"), None);
    assert_eq!(xml_attr(r#"<A key="1"#, "key"), None);
    assert_eq!(xml_attr(r#"<A key="" />"#, "key"), Some(""));
}
