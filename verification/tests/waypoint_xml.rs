use pazifista::waypoint_xml::{
    inspect_waypoint_xml, parse_attr, parse_attr_bool, parse_attr_u32, AttributeFault,
    WaypointAttribute, WaypointXmlError,
};

#[test]
fn parses_waypoint_attributes() {
    let line = r#"<Waypoint Key="2052" Name="town(olvia_academy)" PosX="-114942" PosY="-2674.33" PosZ="157114" Property="ground" IsSubWaypoint="True" IsEscape="False"/>"#;
    assert_eq!(parse_attr_u32(line, "Key").unwrap(), 2052);
    assert_eq!(parse_attr(line, "PosY").unwrap().parse::<f64>().unwrap(), -2674.33);
    assert!(parse_attr_bool(line, "IsSubWaypoint").unwrap());
    assert!(!parse_attr_bool(line, "IsEscape").unwrap());
}

#[test]
fn attribute_faults_are_told_apart() {
    let line = r#"<Waypoint Key="x" Flag="Yes" Open="abc"#;
    assert_eq!(parse_attr(line, "Name"), Err(AttributeFault::Missing));
    assert_eq!(parse_attr(line, "Open"), Err(AttributeFault::Unterminated));
    assert_eq!(parse_attr_u32(line, "Key"), Err(AttributeFault::NotANumber));
    assert_eq!(parse_attr_bool(line, "Flag"), Err(AttributeFault::NotABool));
}

const SAMPLE: &str = "<WaypointList>\r
  <Waypoint Key=\"1\" Name=\"town(velia)\" PosX=\"1.5\" PosY=\"2\" PosZ=\"-3\" Property=\"ground\" IsSubWaypoint=\"False\" IsEscape=\"True\"/>\r
  <Waypoint Key=\"2\" Name=\"plain\" PosX=\"0\" PosY=\"0\" PosZ=\"0\" Property=\"water\" IsSubWaypoint=\"True\" IsEscape=\"False\"/>
  <Link SourceWaypoint=\"1\" TargetWaypoint=\"2\"/>
  <Link SourceWaypoint=\"3\" TargetWaypoint=\"1\"/>
  <Link SourceWaypoint=\"1\" TargetWaypoint=\"2\"/>
  <Link SourceWaypoint=\"1\" TargetWaypoint=\"0\"/>
</WaypointList>
";

#[test]
fn waypoint_inspection_reports_focus_waypoints_and_links() {
    let ins = inspect_waypoint_xml(SAMPLE.as_bytes(), &[1, 9, 2], Some("report.json")).expect("inspection");
    assert_eq!(ins.file_size, SAMPLE.len());
    assert_eq!(ins.summary.waypoint_count, 2);
    assert_eq!(ins.summary.link_count, 4);
    assert_eq!(ins.summary.focus_waypoint_count, 2);
    assert_eq!(ins.summary.missing_focus_waypoint_count, 1);
    assert_eq!(ins.summary.output_path.as_deref(), Some("report.json"));
    assert_eq!(ins.missing_focus_waypoint_ids, vec![9]);
    assert_eq!(ins.focus_waypoints.len(), 2);
    let first = &ins.focus_waypoints[0];
    assert_eq!(first.waypoint.key, 1);
    assert_eq!(first.waypoint.line_number, 2);
    assert_eq!(first.waypoint.name_scope.as_deref(), Some("town"));
    assert_eq!(first.waypoint.name_token.as_deref(), Some("velia"));
    assert_eq!(first.waypoint.pos_x, "1.5");
    assert_eq!(first.waypoint.property, "ground");
    assert!(first.waypoint.is_escape && !first.waypoint.is_sub_waypoint);
    assert_eq!(first.outgoing_links, vec![0, 2]);
    assert_eq!(first.incoming_links, vec![3]);
    let second = &ins.focus_waypoints[1];
    assert_eq!(second.waypoint.key, 2);
    assert_eq!(second.waypoint.line_number, 3);
    assert_eq!(second.outgoing_links, Vec::<u32>::new());
    assert_eq!(second.incoming_links, vec![1]);
}

#[test]
fn waypoint_inspection_without_focus_only_counts() {
    let ins = inspect_waypoint_xml(SAMPLE.as_bytes(), &[], None).expect("inspection");
    assert_eq!(ins.summary.waypoint_count, 2);
    assert_eq!(ins.summary.link_count, 4);
    assert!(ins.focus_waypoints.is_empty());
    assert!(ins.missing_focus_waypoint_ids.is_empty());
}

#[test]
fn waypoint_inspection_names_the_first_bad_line() {
    let text = "<Waypoint Key=\"7\" Name=\"a\"/>\n<Waypoint Key=\"x\"/>\n";
    assert_eq!(
        inspect_waypoint_xml(text.as_bytes(), &[], None).unwrap_err(),
        WaypointXmlError { line_number: 1, attribute: WaypointAttribute::PosX, fault: AttributeFault::Missing }
    );
    // a waypoint outside the focus is only read for its key
    let err = inspect_waypoint_xml(text.as_bytes(), &[8], None).unwrap_err();
    assert_eq!(
        err,
        WaypointXmlError { line_number: 2, attribute: WaypointAttribute::Key, fault: AttributeFault::NotANumber }
    );
    let links = "<Link SourceWaypoint=\"1\"/>\n";
    assert_eq!(inspect_waypoint_xml(links.as_bytes(), &[], None).unwrap().summary.link_count, 1);
    assert_eq!(
        inspect_waypoint_xml(links.as_bytes(), &[1], None).unwrap_err(),
        WaypointXmlError { line_number: 1, attribute: WaypointAttribute::TargetWaypoint, fault: AttributeFault::Missing }
    );
}

#[test]
fn waypoint_coordinates_must_read_as_numbers() {
    let good = r#"<Waypoint Key="4" Name="a(b)" PosX="-1.5e3" PosY="+.5" PosZ="inf" Property="ground" IsSubWaypoint="True" IsEscape="False"/>"#;
    assert!(inspect_waypoint_xml(good.as_bytes(), &[4], None).is_ok());
    for (bad, attribute) in [
        (r#"PosX="1.2.3" PosY="0" PosZ="0""#, WaypointAttribute::PosX),
        (r#"PosX="1" PosY="e5" PosZ="0""#, WaypointAttribute::PosY),
        (r#"PosX="1" PosY="2" PosZ="7e""#, WaypointAttribute::PosZ),
    ] {
        let line = format!(r#"<Waypoint Key="4" Name="a(b)" {bad} Property="ground" IsSubWaypoint="True" IsEscape="False"/>"#);
        assert_eq!(
            inspect_waypoint_xml(line.as_bytes(), &[4], None).unwrap_err(),
            WaypointXmlError { line_number: 1, attribute, fault: AttributeFault::NotAFloat }
        );
    }
}
