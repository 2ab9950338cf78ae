use ehd_cfd::index::{CellId, FaceId, NodeId};
use ehd_cfd::layout::{build_topology, check_topology_inputs, vtk_cell_arrays, MeshTopology};
use ehd_cfd::mesh::{CellType, RawBoundaryFace, RawElement};
use ehd_cfd::topology::element_faces;

fn elem(ct: CellType, nodes: &[u32]) -> RawElement {
    RawElement { cell_type: ct, node_indices: nodes.to_vec(), physical_tag: None }
}

fn bface(nodes: &[u32], tag: i32, name: &str) -> RawBoundaryFace {
    RawBoundaryFace { node_indices: nodes.to_vec(), physical_tag: tag, physical_name: name.to_string() }
}

fn ids(v: &[FaceId]) -> Vec<u32> {
    v.iter().map(|f| f.0).collect()
}

fn nodes(v: &[NodeId]) -> Vec<u32> {
    v.iter().map(|n| n.0).collect()
}

fn two_triangles() -> Vec<RawElement> {
    vec![elem(CellType::Triangle, &[0, 1, 2]), elem(CellType::Triangle, &[1, 3, 2])]
}

#[test]
fn element_faces_of_each_type() {
    let tri = element_faces(&elem(CellType::Triangle, &[5, 6, 7]));
    assert_eq!(tri, vec![
        vec![NodeId(5), NodeId(6)],
        vec![NodeId(6), NodeId(7)],
        vec![NodeId(7), NodeId(5)],
    ]);
    let tet = element_faces(&elem(CellType::Tetrahedron, &[0, 1, 2, 3]));
    assert_eq!(tet[0], vec![NodeId(0), NodeId(2), NodeId(1)]);
    assert_eq!(tet[3], vec![NodeId(0), NodeId(3), NodeId(2)]);
    let hex = element_faces(&elem(CellType::Hexahedron, &[0, 1, 2, 3, 4, 5, 6, 7]));
    assert_eq!(hex.len(), 6);
    assert_eq!(hex[1], vec![NodeId(4), NodeId(5), NodeId(6), NodeId(7)]);
    let wedge = element_faces(&elem(CellType::Wedge, &[0, 1, 2, 3, 4, 5]));
    assert_eq!(wedge.len(), 5);
    assert_eq!(wedge[4], vec![NodeId(0), NodeId(3), NodeId(5), NodeId(2)]);
    let pyr = element_faces(&elem(CellType::Pyramid, &[0, 1, 2, 3, 4]));
    assert_eq!(pyr[4], vec![NodeId(3), NodeId(0), NodeId(4)]);
    let quad = element_faces(&elem(CellType::Quad, &[0, 1, 2, 3]));
    assert_eq!(quad[3], vec![NodeId(3), NodeId(0)]);
}

#[test]
fn two_triangles_share_one_face() {
    let t = build_topology(4, &two_triangles(), &vec![]);
    assert_eq!(t.n_nodes, 4);
    assert_eq!(t.n_cells, 2);
    assert_eq!(t.n_faces, 5);
    assert_eq!(t.n_internal_faces, 1);
    assert_eq!(t.n_boundary_faces(), 4);
    // The shared edge comes first, then the boundary edges in order of appearance.
    assert_eq!(nodes(t.face_nodes(FaceId(0))), vec![1, 2]);
    assert_eq!(nodes(t.face_nodes(FaceId(1))), vec![0, 1]);
    assert_eq!(nodes(t.face_nodes(FaceId(2))), vec![2, 0]);
    assert_eq!(nodes(t.face_nodes(FaceId(3))), vec![1, 3]);
    assert_eq!(nodes(t.face_nodes(FaceId(4))), vec![3, 2]);
    assert_eq!(t.face_owner, vec![CellId(0), CellId(0), CellId(0), CellId(1), CellId(1)]);
    assert_eq!(t.face_neighbor, vec![CellId(1)]);
    assert_eq!(ids(t.cell_faces(CellId(0))), vec![1, 0, 2]);
    assert_eq!(ids(t.cell_faces(CellId(1))), vec![3, 4, 0]);
    assert_eq!(nodes(t.cell_nodes(CellId(1))), vec![1, 3, 2]);
    assert_eq!(t.cell_face_offsets, vec![0, 3, 6]);
    assert_eq!(t.face_node_offsets, vec![0, 2, 4, 6, 8, 10]);
    assert_eq!(t.boundary_patches.len(), 1);
    assert_eq!(t.boundary_patches[0].name, "default");
    assert_eq!(t.boundary_patches[0].start_face, 0);
    assert_eq!(t.boundary_patches[0].n_faces, 4);
    assert!(!t.is_boundary_face(FaceId(0)));
    assert!(t.is_boundary_face(FaceId(1)));
}

#[test]
fn boundary_faces_are_grouped_by_sorted_patch_name() {
    let bfs = vec![bface(&[1, 0], 1, "wall"), bface(&[3, 2], 2, "outlet")];
    let t = build_topology(4, &two_triangles(), &bfs);
    assert_eq!(t.n_faces, 5);
    assert_eq!(t.n_internal_faces, 1);
    let names: Vec<&str> = t.boundary_patches.iter().map(|p| p.name.as_str()).collect();
    assert_eq!(names, vec!["default", "outlet", "wall"]);
    let spans: Vec<(usize, usize)> =
        t.boundary_patches.iter().map(|p| (p.start_face, p.n_faces)).collect();
    assert_eq!(spans, vec![(0, 2), (2, 1), (3, 1)]);
    assert_eq!(nodes(t.face_nodes(FaceId(1))), vec![2, 0]);
    assert_eq!(nodes(t.face_nodes(FaceId(2))), vec![1, 3]);
    assert_eq!(nodes(t.face_nodes(FaceId(3))), vec![3, 2]);
    assert_eq!(nodes(t.face_nodes(FaceId(4))), vec![0, 1]);
    let wall = t.find_patch("wall").unwrap();
    assert_eq!(wall.face_range(t.n_internal_faces), 4..5);
    assert!(t.find_patch("inlet").is_none());
    assert_eq!(ids(t.cell_faces(CellId(0))), vec![4, 0, 1]);
    assert_eq!(ids(t.cell_faces(CellId(1))), vec![2, 3, 0]);
}

#[test]
fn last_boundary_face_with_the_same_nodes_names_the_patch() {
    let bfs = vec![bface(&[0, 1], 1, "first"), bface(&[1, 0], 2, "second")];
    let t = build_topology(4, &two_triangles(), &bfs);
    let names: Vec<&str> = t.boundary_patches.iter().map(|p| p.name.as_str()).collect();
    assert_eq!(names, vec!["default", "second"]);
}

#[test]
fn single_hexahedron_has_six_boundary_faces() {
    let t = build_topology(8, &vec![elem(CellType::Hexahedron, &[0, 1, 2, 3, 4, 5, 6, 7])], &vec![]);
    assert_eq!(t.n_faces, 6);
    assert_eq!(t.n_internal_faces, 0);
    assert!(t.face_neighbor.is_empty());
    assert_eq!(ids(t.cell_faces(CellId(0))), vec![0, 1, 2, 3, 4, 5]);
    assert_eq!(nodes(t.face_nodes(FaceId(0))), vec![0, 3, 2, 1]);
    assert_eq!(t.face_node_indices.len(), 24);
}

#[test]
fn two_tetrahedra_share_a_triangle() {
    let elems = vec![
        elem(CellType::Tetrahedron, &[0, 1, 2, 3]),
        elem(CellType::Tetrahedron, &[1, 2, 3, 4]),
    ];
    let t = build_topology(5, &elems, &vec![]);
    assert_eq!(t.n_faces, 7);
    assert_eq!(t.n_internal_faces, 1);
    // Face (1, 2, 3) of the first tet is face 0 of the second one.
    assert_eq!(nodes(t.face_nodes(FaceId(0))), vec![1, 2, 3]);
    assert_eq!(t.face_owner[0], CellId(0));
    assert_eq!(t.face_neighbor[0], CellId(1));
    assert_eq!(ids(t.cell_faces(CellId(1)))[0], 0);
}

#[test]
fn empty_mesh() {
    let t: MeshTopology = build_topology(0, &vec![], &vec![]);
    assert_eq!(t.n_faces, 0);
    assert_eq!(t.n_cells, 0);
    assert!(t.boundary_patches.is_empty());
    assert_eq!(t.cell_face_offsets, vec![0]);
}

#[test]
fn topology_inputs_are_checked() {
    assert!(check_topology_inputs(&two_triangles()));
    assert!(!check_topology_inputs(&vec![elem(CellType::Quad, &[0, 1, 2])]));
    assert!(check_topology_inputs(&vec![]));
}

#[test]
fn vtk_cells_follow_the_cell_nodes() {
    let elems = vec![elem(CellType::Triangle, &[0, 1, 2]), elem(CellType::Quad, &[1, 3, 4, 2])];
    let t = build_topology(5, &elems, &vec![]);
    let v = vtk_cell_arrays(&t);
    assert_eq!(v.connectivity, vec![0, 1, 2, 1, 3, 4, 2]);
    assert_eq!(v.offsets, vec![3, 7]);
    assert_eq!(v.types, vec![CellType::Triangle, CellType::Quad]);
}

fn mixed_mesh() -> (Vec<RawElement>, Vec<RawBoundaryFace>) {
    // A hexahedron with a pyramid on its top face and a wedge beside it.
    let elems = vec![
        elem(CellType::Hexahedron, &[0, 1, 2, 3, 4, 5, 6, 7]),
        elem(CellType::Pyramid, &[4, 5, 6, 7, 8]),
        elem(CellType::Wedge, &[1, 9, 2, 5, 10, 6]),
    ];
    let bfs = vec![bface(&[0, 3, 2, 1], 1, "floor"), bface(&[4, 5, 8], 2, "roof")];
    (elems, bfs)
}

#[test]
fn every_face_is_named_by_an_element_face_and_internal_ones_twice() {
    let (elems, bfs) = mixed_mesh();
    let t = build_topology(11, &elems, &bfs);
    for k in 0..t.n_faces as u32 {
        let uses = t.cell_face_indices.iter().filter(|f| f.0 == k).count();
        assert!(uses >= 1);
        assert_eq!(uses >= 2, (k as usize) < t.n_internal_faces);
    }
    // Hex top = pyramid base; hex side (1, 2, 6, 5) = wedge side.
    assert_eq!(t.n_internal_faces, 2);
    assert_eq!(t.n_faces, 6 + 5 + 5 - 2);
}

#[test]
fn patches_tile_the_boundary_faces() {
    let (elems, bfs) = mixed_mesh();
    let t = build_topology(11, &elems, &bfs);
    let mut end = 0;
    for p in &t.boundary_patches {
        assert_eq!(p.start_face, end);
        end += p.n_faces;
    }
    assert_eq!(end, t.n_boundary_faces());
    let names: Vec<&str> = t.boundary_patches.iter().map(|p| p.name.as_str()).collect();
    assert_eq!(names, vec!["default", "floor", "roof"]);
    assert_eq!(t.find_patch("floor").unwrap().n_faces, 1);
    assert_eq!(t.find_patch("roof").unwrap().n_faces, 1);
    for k in t.n_internal_faces..t.n_faces {
        let holders = t
            .boundary_patches
            .iter()
            .filter(|p| p.face_range(t.n_internal_faces).contains(&k))
            .count();
        assert_eq!(holders, 1);
    }
}

#[test]
fn cells_list_one_face_per_side_and_faces_have_two_to_four_nodes() {
    let (elems, bfs) = mixed_mesh();
    let t = build_topology(11, &elems, &bfs);
    for c in 0..t.n_cells {
        let n = (t.cell_face_offsets[c + 1] - t.cell_face_offsets[c]) as usize;
        assert_eq!(n, t.cell_types[c].face_count());
    }
    for k in 0..t.n_faces as u32 {
        let n = t.face_nodes(FaceId(k)).len();
        assert!((2..=4).contains(&n));
    }
    for k in 0..t.n_internal_faces {
        assert!(t.face_owner[k] <= t.face_neighbor[k]);
    }
}

#[test]
fn face_order_is_a_permutation_of_the_element_faces() {
    let (elems, bfs) = mixed_mesh();
    let t = build_topology(11, &elems, &bfs);
    let mut seen = vec![false; t.n_faces];
    for f in &t.cell_face_indices {
        seen[f.as_usize()] = true;
    }
    assert!(seen.iter().all(|s| *s));
    // Each face's node set is unique.
    let mut keys: Vec<Vec<u32>> = (0..t.n_faces as u32)
        .map(|k| {
            let mut v = nodes(t.face_nodes(FaceId(k)));
            v.sort();
            v
        })
        .collect();
    keys.sort();
    keys.dedup();
    assert_eq!(keys.len(), t.n_faces);
}
