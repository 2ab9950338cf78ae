use ehd_cfd::gmsh::{parse_element, scan_msh, skip_to_end, MshError, ReadStatus, VersionClass};
use ehd_cfd::layout::build_topology;
use ehd_cfd::mesh::CellType;
use ehd_cfd::text::chars_of;

const SQUARE: &str = "$MeshFormat
2.2 0 8
$EndMeshFormat
$PhysicalNames
2
1 1 \"wall\"
2 2 \"fluid\"
$EndPhysicalNames
$Nodes
4
1 0 0 0
2 1 0 0
3 0 1 0
4 1 1 0
$EndNodes
$Elements
4
1 1 2 1 1 1 2
2 2 2 2 1 1 2 3
3 2 2 2 1 2 4 3
4 15 2 5 1 1
$EndElements
";

fn chars(s: &str) -> Vec<char> {
    s.chars().collect()
}

fn text(v: &[char]) -> String {
    v.iter().collect()
}

#[test]
fn reads_a_two_dimensional_mesh() {
    let r = scan_msh(SQUARE, &vec![]);
    assert!(matches!(r.status, ReadStatus::Done));
    assert_eq!(r.versions.len(), 1);
    assert_eq!(text(&r.versions[0]), "2.2");
    let c = r.contents;
    assert_eq!(c.nodes.len(), 4);
    let n2 = c.nodes[1].as_ref().unwrap();
    assert_eq!((text(&n2.x), text(&n2.y), text(&n2.z)), ("1".to_string(), "0".to_string(), "0".to_string()));
    assert_eq!(c.volume_elements.len(), 2);
    assert_eq!(c.volume_elements[0].cell_type, CellType::Triangle);
    assert_eq!(c.volume_elements[0].node_indices, vec![0, 1, 2]);
    assert_eq!(c.volume_elements[0].physical_tag, Some(2));
    assert_eq!(c.volume_elements[1].node_indices, vec![1, 3, 2]);
    assert_eq!(c.boundary_faces.len(), 1);
    assert_eq!(c.boundary_faces[0].node_indices, vec![0, 1]);
    assert_eq!(c.boundary_faces[0].physical_tag, 1);
    assert_eq!(c.boundary_faces[0].physical_name, "wall");

    let t = build_topology(c.nodes.len(), &c.volume_elements, &c.boundary_faces);
    assert_eq!(t.n_faces, 5);
    assert_eq!(t.n_internal_faces, 1);
    let names: Vec<&str> = t.boundary_patches.iter().map(|p| p.name.as_str()).collect();
    assert_eq!(names, vec!["default", "wall"]);
    assert_eq!(t.boundary_patches[1].start_face, 3);
    assert_eq!(t.boundary_patches[1].n_faces, 1);
}

#[test]
fn unnamed_boundary_gets_tag_name() {
    let msh = "$Elements\n1\n1 1 2 7 1 3 4\n$EndElements\n";
    let r = scan_msh(msh, &vec![]);
    assert!(matches!(r.status, ReadStatus::Done));
    assert_eq!(r.contents.boundary_faces[0].physical_name, "boundary_7");
    assert_eq!(r.contents.boundary_faces[0].node_indices, vec![2, 3]);
    let msh = "$Elements\n1\n1 2 2 -3 1 1 2 3\n$EndElements\n";
    let r = scan_msh(msh, &vec![]);
    assert_eq!(r.contents.boundary_faces[0].physical_name, "boundary_-3");
    assert!(r.contents.volume_elements.is_empty());
}

#[test]
fn three_dimensional_elements_are_volume_cells() {
    let msh = "$Elements\n4\n1 4 0 1 2 3 4\n2 5 1 9 1 2 3 4 5 6 7 8\n3 6 0 1 2 3 4 5 6\n4 7 0 1 2 3 4 5\n$EndElements\n";
    let r = scan_msh(msh, &vec![]);
    assert!(matches!(r.status, ReadStatus::Done));
    let v = &r.contents.volume_elements;
    assert_eq!(v.len(), 4);
    assert_eq!(v[0].cell_type, CellType::Tetrahedron);
    assert_eq!(v[0].physical_tag, None);
    assert_eq!(v[1].cell_type, CellType::Hexahedron);
    assert_eq!(v[1].physical_tag, Some(9));
    assert_eq!(v[1].node_indices, vec![0, 1, 2, 3, 4, 5, 6, 7]);
    assert_eq!(v[2].cell_type, CellType::Wedge);
    assert_eq!(v[3].cell_type, CellType::Pyramid);
}

#[test]
fn unknown_sections_are_skipped() {
    let msh = "$Comments\n$Nodes\n1\n$EndComments\n$Nodes\n1\n1 0.5 0.25 0\n$EndNodes\n";
    let r = scan_msh(msh, &vec![]);
    assert!(matches!(r.status, ReadStatus::Done));
    assert_eq!(r.contents.nodes.len(), 1);
    assert_eq!(text(&r.contents.nodes[0].as_ref().unwrap().x), "0.5");
}

#[test]
fn node_lines_out_of_range_leave_slots_empty() {
    let msh = "$Nodes\n2\n5 1 2 3\n2 4 5 6\n$EndNodes\n";
    let r = scan_msh(msh, &vec![]);
    assert!(r.contents.nodes[0].is_none());
    assert_eq!(text(&r.contents.nodes[1].as_ref().unwrap().z), "6");
}

#[test]
fn format_errors() {
    let r = scan_msh("$MeshFormat\nabc 0 8\n$EndMeshFormat\n", &vec![VersionClass::Unparsable]);
    assert!(matches!(r.status, ReadStatus::Failed(MshError::InvalidFormatVersion)));
    let r = scan_msh("$MeshFormat\n2.2 x 8\n$EndMeshFormat\n", &vec![VersionClass::Supported]);
    assert!(matches!(r.status, ReadStatus::Failed(MshError::InvalidFileType)));
    let r = scan_msh(
        "$MeshFormat\n4.1 0 8\n$EndMeshFormat\n",
        &vec![VersionClass::Unsupported("4.1".to_string())],
    );
    match r.status {
        ReadStatus::Failed(MshError::UnsupportedVersion(v)) => assert_eq!(v, "4.1"),
        _ => panic!("expected an unsupported version"),
    }
    let r = scan_msh("$MeshFormat\n2.2 1 8\n$EndMeshFormat\n", &vec![VersionClass::Supported]);
    assert!(matches!(r.status, ReadStatus::Failed(MshError::BinaryFormat)));
}

#[test]
fn count_errors() {
    let r = scan_msh("$PhysicalNames\nx\n$EndPhysicalNames\n", &vec![]);
    assert!(matches!(r.status, ReadStatus::Failed(MshError::InvalidPhysicalNameCount)));
    let r = scan_msh("$Nodes\n-1\n$EndNodes\n", &vec![]);
    assert!(matches!(r.status, ReadStatus::Failed(MshError::InvalidNodeCount)));
    let r = scan_msh("$Elements\n1.5\n$EndElements\n", &vec![]);
    assert!(matches!(r.status, ReadStatus::Failed(MshError::InvalidElementCount)));
}

#[test]
fn malformed_element_lines() {
    let r = scan_msh("$Elements\n1\n1 4 9 1 2 3 4\n$EndElements\n", &vec![]);
    assert!(matches!(r.status, ReadStatus::Malformed));
    let r = scan_msh("$Elements\n1\n1 4 0 0 1 2 3\n$EndElements\n", &vec![]);
    assert!(matches!(r.status, ReadStatus::Malformed));
}

#[test]
fn parse_element_classifies_by_physical_names() {
    let names = vec![(2, 5, chars("fluid"))];
    let mut volume = Vec::new();
    let mut boundary = Vec::new();
    assert!(parse_element(&chars("1 2 2 5 1 1 2 3"), &names, &mut volume, &mut boundary));
    assert_eq!(volume.len(), 1);
    assert_eq!(volume[0].cell_type, CellType::Triangle);
    assert!(parse_element(&chars("2 3 1 6 1 2 3 4"), &names, &mut volume, &mut boundary));
    assert_eq!(boundary.len(), 1);
    assert_eq!(boundary[0].physical_name, "boundary_6");
    assert_eq!(boundary[0].node_indices, vec![0, 1, 2, 3]);
    // Too few words: ignored.
    assert!(parse_element(&chars("1 2 0"), &names, &mut volume, &mut boundary));
    // A triangle with the wrong number of nodes: ignored.
    assert!(parse_element(&chars("3 2 1 5 1 2"), &names, &mut volume, &mut boundary));
    assert_eq!(volume.len(), 1);
    assert_eq!(boundary.len(), 1);
    assert!(!parse_element(&chars("4 4 0 0 1 2 3"), &names, &mut volume, &mut boundary));
}

#[test]
fn skip_to_end_finds_the_tag() {
    let ls = vec![chars("a"), chars("$EndX"), chars("b")];
    assert_eq!(skip_to_end(&ls, 0, &chars("$EndX")), 2);
    assert_eq!(skip_to_end(&ls, 2, &chars("$EndX")), 3);
    assert_eq!(skip_to_end(&ls, 3, &chars("$EndX")), 3);
}

#[test]
fn chars_of_keeps_every_character() {
    assert_eq!(chars_of("ä $x"), vec!['ä', ' ', '$', 'x']);
}

#[test]
fn judged_run_meets_a_prefix_of_the_listed_versions() {
    let msh = "$MeshFormat\n2.2 0 8\n$EndMeshFormat\n$MeshFormat\n4.1 0 8\n$EndMeshFormat\n$MeshFormat\n2.0 0 8\n$EndMeshFormat\n";
    let first = scan_msh(msh, &vec![]);
    assert!(matches!(first.status, ReadStatus::Done));
    let listed: Vec<String> = first.versions.iter().map(|v| text(v)).collect();
    assert_eq!(listed, vec!["2.2", "4.1", "2.0"]);
    let verdicts = vec![
        VersionClass::Supported,
        VersionClass::Unsupported("4.1".to_string()),
        VersionClass::Supported,
    ];
    let second = scan_msh(msh, &verdicts);
    assert!(matches!(second.status, ReadStatus::Failed(MshError::UnsupportedVersion(_))));
    let met: Vec<String> = second.versions.iter().map(|v| text(v)).collect();
    assert_eq!(met, vec!["2.2", "4.1"]);
    assert_eq!(&listed[..met.len()], &met[..]);
}
