use ehd_cfd::config::{
    default_advection, default_every, default_fluid_model, default_gas, default_mesh_format,
    default_output_format, default_output_path, default_pressure_solver, MeshConfig, OutputConfig,
};
use ehd_cfd::driver::{final_frame_needed, step_outcome};
use ehd_cfd::kernel::{AdvectionScheme, FieldRef, Limiter};
use ehd_cfd::mesh::{BoundaryPatch, CellType};

#[test]
fn config_defaults() {
    assert_eq!(default_mesh_format(), "gmsh");
    assert_eq!(default_gas(), "air");
    assert_eq!(default_fluid_model(), "incompressible");
    assert_eq!(default_advection(), "upwind");
    assert_eq!(default_pressure_solver(), "cg");
    assert_eq!(default_output_format(), "vtu");
    assert_eq!(default_every(), 10);
    assert_eq!(default_output_path(), "output/");
}

#[test]
fn config_records_hold_their_values() {
    let m = MeshConfig { path: "mesh.msh".to_string(), format: default_mesh_format() };
    assert_eq!(m.format, "gmsh");
    let o = OutputConfig {
        format: default_output_format(),
        every: default_every(),
        path: default_output_path(),
        fields: vec!["phi".to_string()],
    };
    assert_eq!(o.every, 10);
    assert_eq!(o.fields.len(), 1);
}

#[test]
fn field_ref_names_its_field() {
    let f = FieldRef::new("phi");
    assert_eq!(f.0, "phi");
    assert_eq!(f, FieldRef("phi".to_string()));
    assert_ne!(FieldRef::new("rho"), f);
}

#[test]
fn advection_schemes() {
    let s = AdvectionScheme::TVD(Limiter::VanLeer);
    assert_eq!(s, AdvectionScheme::TVD(Limiter::VanLeer));
    assert_ne!(s, AdvectionScheme::TVD(Limiter::MinMod));
    assert_ne!(AdvectionScheme::Upwind, AdvectionScheme::Central);
}

#[test]
fn cell_type_counts() {
    let expected = [
        (CellType::Triangle, 3, 3),
        (CellType::Quad, 4, 4),
        (CellType::Tetrahedron, 4, 4),
        (CellType::Hexahedron, 8, 6),
        (CellType::Wedge, 6, 5),
        (CellType::Pyramid, 5, 5),
    ];
    for (ct, nodes, faces) in expected {
        assert_eq!(ct.node_count(), nodes);
        assert_eq!(ct.face_count(), faces);
    }
}

#[test]
fn patch_face_range_is_offset_by_internal_faces() {
    let p = BoundaryPatch { name: "wall".to_string(), start_face: 3, n_faces: 4 };
    assert_eq!(p.face_range(10), 13..17);
    let empty = BoundaryPatch { name: "x".to_string(), start_face: 0, n_faces: 0 };
    assert_eq!(empty.face_range(5), 5..5);
}

#[test]
fn driver_writes_on_interval_and_stops() {
    let o = step_outcome(10, 100, 5, false);
    assert!(o.write_frame);
    assert!(!o.stop);
    let o = step_outcome(7, 100, 5, false);
    assert!(!o.write_frame);
    assert!(!o.stop);
    let o = step_outcome(7, 7, 5, false);
    assert!(o.stop);
    let o = step_outcome(3, 100, 5, true);
    assert!(o.stop);
    assert!(final_frame_needed(7, 5));
    assert!(!final_frame_needed(10, 5));
    assert!(!final_frame_needed(0, 5));
}
