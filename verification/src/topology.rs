//! Mesh topology construction from element connectivity.
//!
//! Builds the face-based FVM topology from raw element data:
//! - identifies shared faces between cells (internal faces),
//! - identifies boundary faces (faces with only one adjacent cell),
//! - orders faces: internal first, then boundary faces grouped by patch,
//! - builds CSR-compressed cell-to-face, cell-to-node and face-to-node
//!   connectivity.
//!
//! A face is identified by its set of nodes with multiplicity: two element
//! faces are the same face when their node lists are permutations of each other.

use vstd::multiset::Multiset;
use vstd::prelude::*;

use crate::index::{CellId, FaceId, NodeId};
use crate::keyindex::{sorted_copy, sorted_u32, KeyIndex};
use crate::mesh::{spec_face_count, spec_node_count, CellType, RawBoundaryFace, RawElement};
use crate::names::{
    insert_name, lemma_lex_irreflexive, lex_lt, name_views, same_name, strictly_sorted,
};
use crate::text::chars_of;

verus! {

// ---------------------------------------------------------------------------
// Element faces
// ---------------------------------------------------------------------------

pub open spec fn nid(ni: Seq<u32>, k: int) -> NodeId {
    NodeId(ni[k])
}

/// The faces of an element, each as its nodes in winding order
/// (edges for the 2D types).
pub open spec fn element_faces_spec(ct: CellType, ni: Seq<u32>) -> Seq<Seq<NodeId>> {
    let n = |k: int| nid(ni, k);
    match ct {
        CellType::Triangle => seq![seq![n(0), n(1)], seq![n(1), n(2)], seq![n(2), n(0)]],
        CellType::Quad => seq![
            seq![n(0), n(1)],
            seq![n(1), n(2)],
            seq![n(2), n(3)],
            seq![n(3), n(0)],
        ],
        CellType::Tetrahedron => seq![
            seq![n(0), n(2), n(1)],
            seq![n(0), n(1), n(3)],
            seq![n(1), n(2), n(3)],
            seq![n(0), n(3), n(2)],
        ],
        CellType::Hexahedron => seq![
            seq![n(0), n(3), n(2), n(1)],
            seq![n(4), n(5), n(6), n(7)],
            seq![n(0), n(1), n(5), n(4)],
            seq![n(2), n(3), n(7), n(6)],
            seq![n(0), n(4), n(7), n(3)],
            seq![n(1), n(2), n(6), n(5)],
        ],
        CellType::Wedge => seq![
            seq![n(0), n(2), n(1)],
            seq![n(3), n(4), n(5)],
            seq![n(0), n(1), n(4), n(3)],
            seq![n(1), n(2), n(5), n(4)],
            seq![n(0), n(3), n(5), n(2)],
        ],
        CellType::Pyramid => seq![
            seq![n(0), n(3), n(2), n(1)],
            seq![n(0), n(1), n(4)],
            seq![n(1), n(2), n(4)],
            seq![n(2), n(3), n(4)],
            seq![n(3), n(0), n(4)],
        ],
    }
}

pub proof fn lemma_element_faces_shape(ct: CellType, ni: Seq<u32>)
    ensures
        element_faces_spec(ct, ni).len() == spec_face_count(ct),
        forall|t: int|
            0 <= t < element_faces_spec(ct, ni).len() ==> 2 <= #[trigger] element_faces_spec(
                ct,
                ni,
            )[t].len() <= 4,
{
}

/// The nodes of a face, as a set.
pub open spec fn node_set(f: Seq<NodeId>) -> Set<u32> {
    node_values(f).to_set()
}

proof fn lemma_seq_set(s: Seq<u32>)
    ensures
        forall|x: u32| s.to_set().contains(x) <==> exists|i: int| 0 <= i < s.len() && s[i] == x,
{
}

/// Each face of an element is one of the geometric sides of its cell type
/// (an edge for the 2D types), given by the local node numbers of that side:
/// a hexahedron's faces are the sides {0,1,2,3}, {4,5,6,7}, {0,1,4,5},
/// {2,3,6,7}, {0,3,4,7} and {1,2,5,6}, and likewise for the other types.
/// So two elements whose sides have the same nodes name the same face.
pub proof fn lemma_element_faces_are_sides(ct: CellType, ni: Seq<u32>)
    requires
        ni.len() >= spec_node_count(ct),
    ensures
        ct == CellType::Triangle ==> ({
            let fs = element_faces_spec(ct, ni);
            fs.len() == 3
            && fs[0].len() == 2
            && node_set(fs[0]) == set![ni[0], ni[1]]
            && fs[1].len() == 2
            && node_set(fs[1]) == set![ni[1], ni[2]]
            && fs[2].len() == 2
            && node_set(fs[2]) == set![ni[0], ni[2]]
        }),
        ct == CellType::Quad ==> ({
            let fs = element_faces_spec(ct, ni);
            fs.len() == 4
            && fs[0].len() == 2
            && node_set(fs[0]) == set![ni[0], ni[1]]
            && fs[1].len() == 2
            && node_set(fs[1]) == set![ni[1], ni[2]]
            && fs[2].len() == 2
            && node_set(fs[2]) == set![ni[2], ni[3]]
            && fs[3].len() == 2
            && node_set(fs[3]) == set![ni[0], ni[3]]
        }),
        ct == CellType::Tetrahedron ==> ({
            let fs = element_faces_spec(ct, ni);
            fs.len() == 4
            && fs[0].len() == 3
            && node_set(fs[0]) == set![ni[0], ni[1], ni[2]]
            && fs[1].len() == 3
            && node_set(fs[1]) == set![ni[0], ni[1], ni[3]]
            && fs[2].len() == 3
            && node_set(fs[2]) == set![ni[1], ni[2], ni[3]]
            && fs[3].len() == 3
            && node_set(fs[3]) == set![ni[0], ni[2], ni[3]]
        }),
        ct == CellType::Hexahedron ==> ({
            let fs = element_faces_spec(ct, ni);
            fs.len() == 6
            && fs[0].len() == 4
            && node_set(fs[0]) == set![ni[0], ni[1], ni[2], ni[3]]
            && fs[1].len() == 4
            && node_set(fs[1]) == set![ni[4], ni[5], ni[6], ni[7]]
            && fs[2].len() == 4
            && node_set(fs[2]) == set![ni[0], ni[1], ni[4], ni[5]]
            && fs[3].len() == 4
            && node_set(fs[3]) == set![ni[2], ni[3], ni[6], ni[7]]
            && fs[4].len() == 4
            && node_set(fs[4]) == set![ni[0], ni[3], ni[4], ni[7]]
            && fs[5].len() == 4
            && node_set(fs[5]) == set![ni[1], ni[2], ni[5], ni[6]]
        }),
        ct == CellType::Wedge ==> ({
            let fs = element_faces_spec(ct, ni);
            fs.len() == 5
            && fs[0].len() == 3
            && node_set(fs[0]) == set![ni[0], ni[1], ni[2]]
            && fs[1].len() == 3
            && node_set(fs[1]) == set![ni[3], ni[4], ni[5]]
            && fs[2].len() == 4
            && node_set(fs[2]) == set![ni[0], ni[1], ni[3], ni[4]]
            && fs[3].len() == 4
            && node_set(fs[3]) == set![ni[1], ni[2], ni[4], ni[5]]
            && fs[4].len() == 4
            && node_set(fs[4]) == set![ni[0], ni[2], ni[3], ni[5]]
        }),
        ct == CellType::Pyramid ==> ({
            let fs = element_faces_spec(ct, ni);
            fs.len() == 5
            && fs[0].len() == 4
            && node_set(fs[0]) == set![ni[0], ni[1], ni[2], ni[3]]
            && fs[1].len() == 3
            && node_set(fs[1]) == set![ni[0], ni[1], ni[4]]
            && fs[2].len() == 3
            && node_set(fs[2]) == set![ni[1], ni[2], ni[4]]
            && fs[3].len() == 3
            && node_set(fs[3]) == set![ni[2], ni[3], ni[4]]
            && fs[4].len() == 3
            && node_set(fs[4]) == set![ni[0], ni[3], ni[4]]
        }),
{
    match ct {
        CellType::Triangle => {
            let fs = element_faces_spec(ct, ni);
            assert(node_values(fs[0]) =~= seq![ni[0], ni[1]]);
            assert(node_set(fs[0]) =~= set![ni[0], ni[1]]) by {
                lemma_seq_set(node_values(fs[0]));
            }
            assert(node_values(fs[1]) =~= seq![ni[1], ni[2]]);
            assert(node_set(fs[1]) =~= set![ni[1], ni[2]]) by {
                lemma_seq_set(node_values(fs[1]));
            }
            assert(node_values(fs[2]) =~= seq![ni[2], ni[0]]);
            assert(node_set(fs[2]) =~= set![ni[0], ni[2]]) by {
                lemma_seq_set(node_values(fs[2]));
            }
        },
        CellType::Quad => {
            let fs = element_faces_spec(ct, ni);
            assert(node_values(fs[0]) =~= seq![ni[0], ni[1]]);
            assert(node_set(fs[0]) =~= set![ni[0], ni[1]]) by {
                lemma_seq_set(node_values(fs[0]));
            }
            assert(node_values(fs[1]) =~= seq![ni[1], ni[2]]);
            assert(node_set(fs[1]) =~= set![ni[1], ni[2]]) by {
                lemma_seq_set(node_values(fs[1]));
            }
            assert(node_values(fs[2]) =~= seq![ni[2], ni[3]]);
            assert(node_set(fs[2]) =~= set![ni[2], ni[3]]) by {
                lemma_seq_set(node_values(fs[2]));
            }
            assert(node_values(fs[3]) =~= seq![ni[3], ni[0]]);
            assert(node_set(fs[3]) =~= set![ni[0], ni[3]]) by {
                lemma_seq_set(node_values(fs[3]));
            }
        },
        CellType::Tetrahedron => {
            let fs = element_faces_spec(ct, ni);
            assert(node_values(fs[0]) =~= seq![ni[0], ni[2], ni[1]]);
            assert(node_set(fs[0]) =~= set![ni[0], ni[1], ni[2]]) by {
                lemma_seq_set(node_values(fs[0]));
            }
            assert(node_values(fs[1]) =~= seq![ni[0], ni[1], ni[3]]);
            assert(node_set(fs[1]) =~= set![ni[0], ni[1], ni[3]]) by {
                lemma_seq_set(node_values(fs[1]));
            }
            assert(node_values(fs[2]) =~= seq![ni[1], ni[2], ni[3]]);
            assert(node_set(fs[2]) =~= set![ni[1], ni[2], ni[3]]) by {
                lemma_seq_set(node_values(fs[2]));
            }
            assert(node_values(fs[3]) =~= seq![ni[0], ni[3], ni[2]]);
            assert(node_set(fs[3]) =~= set![ni[0], ni[2], ni[3]]) by {
                lemma_seq_set(node_values(fs[3]));
            }
        },
        CellType::Hexahedron => {
            let fs = element_faces_spec(ct, ni);
            assert(node_values(fs[0]) =~= seq![ni[0], ni[3], ni[2], ni[1]]);
            assert(node_set(fs[0]) =~= set![ni[0], ni[1], ni[2], ni[3]]) by {
                lemma_seq_set(node_values(fs[0]));
            }
            assert(node_values(fs[1]) =~= seq![ni[4], ni[5], ni[6], ni[7]]);
            assert(node_set(fs[1]) =~= set![ni[4], ni[5], ni[6], ni[7]]) by {
                lemma_seq_set(node_values(fs[1]));
            }
            assert(node_values(fs[2]) =~= seq![ni[0], ni[1], ni[5], ni[4]]);
            assert(node_set(fs[2]) =~= set![ni[0], ni[1], ni[4], ni[5]]) by {
                lemma_seq_set(node_values(fs[2]));
            }
            assert(node_values(fs[3]) =~= seq![ni[2], ni[3], ni[7], ni[6]]);
            assert(node_set(fs[3]) =~= set![ni[2], ni[3], ni[6], ni[7]]) by {
                lemma_seq_set(node_values(fs[3]));
            }
            assert(node_values(fs[4]) =~= seq![ni[0], ni[4], ni[7], ni[3]]);
            assert(node_set(fs[4]) =~= set![ni[0], ni[3], ni[4], ni[7]]) by {
                lemma_seq_set(node_values(fs[4]));
            }
            assert(node_values(fs[5]) =~= seq![ni[1], ni[2], ni[6], ni[5]]);
            assert(node_set(fs[5]) =~= set![ni[1], ni[2], ni[5], ni[6]]) by {
                lemma_seq_set(node_values(fs[5]));
            }
        },
        CellType::Wedge => {
            let fs = element_faces_spec(ct, ni);
            assert(node_values(fs[0]) =~= seq![ni[0], ni[2], ni[1]]);
            assert(node_set(fs[0]) =~= set![ni[0], ni[1], ni[2]]) by {
                lemma_seq_set(node_values(fs[0]));
            }
            assert(node_values(fs[1]) =~= seq![ni[3], ni[4], ni[5]]);
            assert(node_set(fs[1]) =~= set![ni[3], ni[4], ni[5]]) by {
                lemma_seq_set(node_values(fs[1]));
            }
            assert(node_values(fs[2]) =~= seq![ni[0], ni[1], ni[4], ni[3]]);
            assert(node_set(fs[2]) =~= set![ni[0], ni[1], ni[3], ni[4]]) by {
                lemma_seq_set(node_values(fs[2]));
            }
            assert(node_values(fs[3]) =~= seq![ni[1], ni[2], ni[5], ni[4]]);
            assert(node_set(fs[3]) =~= set![ni[1], ni[2], ni[4], ni[5]]) by {
                lemma_seq_set(node_values(fs[3]));
            }
            assert(node_values(fs[4]) =~= seq![ni[0], ni[3], ni[5], ni[2]]);
            assert(node_set(fs[4]) =~= set![ni[0], ni[2], ni[3], ni[5]]) by {
                lemma_seq_set(node_values(fs[4]));
            }
        },
        CellType::Pyramid => {
            let fs = element_faces_spec(ct, ni);
            assert(node_values(fs[0]) =~= seq![ni[0], ni[3], ni[2], ni[1]]);
            assert(node_set(fs[0]) =~= set![ni[0], ni[1], ni[2], ni[3]]) by {
                lemma_seq_set(node_values(fs[0]));
            }
            assert(node_values(fs[1]) =~= seq![ni[0], ni[1], ni[4]]);
            assert(node_set(fs[1]) =~= set![ni[0], ni[1], ni[4]]) by {
                lemma_seq_set(node_values(fs[1]));
            }
            assert(node_values(fs[2]) =~= seq![ni[1], ni[2], ni[4]]);
            assert(node_set(fs[2]) =~= set![ni[1], ni[2], ni[4]]) by {
                lemma_seq_set(node_values(fs[2]));
            }
            assert(node_values(fs[3]) =~= seq![ni[2], ni[3], ni[4]]);
            assert(node_set(fs[3]) =~= set![ni[2], ni[3], ni[4]]) by {
                lemma_seq_set(node_values(fs[3]));
            }
            assert(node_values(fs[4]) =~= seq![ni[3], ni[0], ni[4]]);
            assert(node_set(fs[4]) =~= set![ni[0], ni[3], ni[4]]) by {
                lemma_seq_set(node_values(fs[4]));
            }
        },
    }
}

/// Whether `a` is followed by `b` somewhere along the closed loop of nodes `f`.
#[verifier::opaque]
pub open spec fn has_edge(f: Seq<NodeId>, a: NodeId, b: NodeId) -> bool {
    exists|k: int|
        #![trigger f[k], f[next_in_loop(k, f.len())]]
        0 <= k < f.len() && f[k] == a && f[next_in_loop(k, f.len())] == b
}

/// The position after `k` in a closed loop of `n` positions.
pub open spec fn next_in_loop(k: int, n: nat) -> int {
    if k + 1 == n {
        0
    } else {
        k + 1
    }
}

/// Every edge that a face of `fs` runs along in one direction is run along in
/// the other direction by another face.
pub open spec fn closed_surface(fs: Seq<Seq<NodeId>>) -> bool {
    forall|t: int, i: int|
        #![trigger fs[t][i]]
        0 <= t < fs.len() && 0 <= i < fs[t].len() ==> exists|u: int|
            0 <= u < fs.len() && u != t && #[trigger] has_edge(
                fs[u],
                fs[t][next_in_loop(i, fs[t].len())],
                fs[t][i],
            )
}

proof fn lemma_edges3(a: NodeId, b: NodeId, c: NodeId)
    ensures
        has_edge(seq![a, b, c], a, b),
        has_edge(seq![a, b, c], b, c),
        has_edge(seq![a, b, c], c, a),
{
    reveal(has_edge);
    let f = seq![a, b, c];
    assert(f[0] == a && f[next_in_loop(0, f.len())] == b);
    assert(f[1] == b && f[next_in_loop(1, f.len())] == c);
    assert(f[2] == c && f[next_in_loop(2, f.len())] == a);
}

proof fn lemma_edges4(a: NodeId, b: NodeId, c: NodeId, d: NodeId)
    ensures
        has_edge(seq![a, b, c, d], a, b),
        has_edge(seq![a, b, c, d], b, c),
        has_edge(seq![a, b, c, d], c, d),
        has_edge(seq![a, b, c, d], d, a),
{
    reveal(has_edge);
    let f = seq![a, b, c, d];
    assert(f[0] == a && f[next_in_loop(0, f.len())] == b);
    assert(f[1] == b && f[next_in_loop(1, f.len())] == c);
    assert(f[2] == c && f[next_in_loop(2, f.len())] == d);
    assert(f[3] == d && f[next_in_loop(3, f.len())] == a);
}

#[verifier::spinoff_prover]
proof fn lemma_closed_tetrahedron(v0: NodeId, v1: NodeId, v2: NodeId, v3: NodeId)
    ensures
        closed_surface(seq![seq![v0, v2, v1], seq![v0, v1, v3], seq![v1, v2, v3], seq![v0, v3, v2]]),
{
    let f0 = seq![v0, v2, v1];
    lemma_edges3(v0, v2, v1);
    let f1 = seq![v0, v1, v3];
    lemma_edges3(v0, v1, v3);
    let f2 = seq![v1, v2, v3];
    lemma_edges3(v1, v2, v3);
    let f3 = seq![v0, v3, v2];
    lemma_edges3(v0, v3, v2);
    let fs = seq![f0, f1, f2, f3];
    assert(fs.len() == 4);
    assert forall|t: int, i: int| #![trigger fs[t][i]] 0 <= t < fs.len() && 0 <= i < fs[t].len() implies exists|u: int|
        0 <= u < fs.len() && u != t && #[trigger] has_edge(fs[u], fs[t][next_in_loop(i, fs[t].len())], fs[t][i]) by {
        if t == 0 {
            assert(fs[0] == f0);
            if i == 0 {
                assert(f0[0] == v0 && f0[next_in_loop(0, f0.len())] == v2);
                assert(fs[3] == f3);
                assert(has_edge(fs[3], v2, v0));
            } else if i == 1 {
                assert(f0[1] == v2 && f0[next_in_loop(1, f0.len())] == v1);
                assert(fs[2] == f2);
                assert(has_edge(fs[2], v1, v2));
            } else if i == 2 {
                assert(f0[2] == v1 && f0[next_in_loop(2, f0.len())] == v0);
                assert(fs[1] == f1);
                assert(has_edge(fs[1], v0, v1));
            }
        } else if t == 1 {
            assert(fs[1] == f1);
            if i == 0 {
                assert(f1[0] == v0 && f1[next_in_loop(0, f1.len())] == v1);
                assert(fs[0] == f0);
                assert(has_edge(fs[0], v1, v0));
            } else if i == 1 {
                assert(f1[1] == v1 && f1[next_in_loop(1, f1.len())] == v3);
                assert(fs[2] == f2);
                assert(has_edge(fs[2], v3, v1));
            } else if i == 2 {
                assert(f1[2] == v3 && f1[next_in_loop(2, f1.len())] == v0);
                assert(fs[3] == f3);
                assert(has_edge(fs[3], v0, v3));
            }
        } else if t == 2 {
            assert(fs[2] == f2);
            if i == 0 {
                assert(f2[0] == v1 && f2[next_in_loop(0, f2.len())] == v2);
                assert(fs[0] == f0);
                assert(has_edge(fs[0], v2, v1));
            } else if i == 1 {
                assert(f2[1] == v2 && f2[next_in_loop(1, f2.len())] == v3);
                assert(fs[3] == f3);
                assert(has_edge(fs[3], v3, v2));
            } else if i == 2 {
                assert(f2[2] == v3 && f2[next_in_loop(2, f2.len())] == v1);
                assert(fs[1] == f1);
                assert(has_edge(fs[1], v1, v3));
            }
        } else if t == 3 {
            assert(fs[3] == f3);
            if i == 0 {
                assert(f3[0] == v0 && f3[next_in_loop(0, f3.len())] == v3);
                assert(fs[1] == f1);
                assert(has_edge(fs[1], v3, v0));
            } else if i == 1 {
                assert(f3[1] == v3 && f3[next_in_loop(1, f3.len())] == v2);
                assert(fs[2] == f2);
                assert(has_edge(fs[2], v2, v3));
            } else if i == 2 {
                assert(f3[2] == v2 && f3[next_in_loop(2, f3.len())] == v0);
                assert(fs[0] == f0);
                assert(has_edge(fs[0], v0, v2));
            }
        }
    }
    assert(fs == seq![seq![v0, v2, v1], seq![v0, v1, v3], seq![v1, v2, v3], seq![v0, v3, v2]]);
}

proof fn lemma_wound_tetrahedron(ni: Seq<u32>)
    requires
        ni.len() >= spec_node_count(CellType::Tetrahedron),
    ensures
        closed_surface(element_faces_spec(CellType::Tetrahedron, ni)),
{
    lemma_closed_tetrahedron(NodeId(ni[0]), NodeId(ni[1]), NodeId(ni[2]), NodeId(ni[3]));
    assert(element_faces_spec(CellType::Tetrahedron, ni) =~= seq![seq![NodeId(ni[0]), NodeId(ni[2]), NodeId(ni[1])], seq![NodeId(ni[0]), NodeId(ni[1]), NodeId(ni[3])], seq![NodeId(ni[1]), NodeId(ni[2]), NodeId(ni[3])], seq![NodeId(ni[0]), NodeId(ni[3]), NodeId(ni[2])]]);
}

#[verifier::spinoff_prover]
proof fn lemma_closed_hexahedron(v0: NodeId, v1: NodeId, v2: NodeId, v3: NodeId, v4: NodeId, v5: NodeId, v6: NodeId, v7: NodeId)
    ensures
        closed_surface(seq![seq![v0, v3, v2, v1], seq![v4, v5, v6, v7], seq![v0, v1, v5, v4], seq![v2, v3, v7, v6], seq![v0, v4, v7, v3], seq![v1, v2, v6, v5]]),
{
    let f0 = seq![v0, v3, v2, v1];
    lemma_edges4(v0, v3, v2, v1);
    let f1 = seq![v4, v5, v6, v7];
    lemma_edges4(v4, v5, v6, v7);
    let f2 = seq![v0, v1, v5, v4];
    lemma_edges4(v0, v1, v5, v4);
    let f3 = seq![v2, v3, v7, v6];
    lemma_edges4(v2, v3, v7, v6);
    let f4 = seq![v0, v4, v7, v3];
    lemma_edges4(v0, v4, v7, v3);
    let f5 = seq![v1, v2, v6, v5];
    lemma_edges4(v1, v2, v6, v5);
    let fs = seq![f0, f1, f2, f3, f4, f5];
    assert(fs.len() == 6);
    assert forall|t: int, i: int| #![trigger fs[t][i]] 0 <= t < fs.len() && 0 <= i < fs[t].len() implies exists|u: int|
        0 <= u < fs.len() && u != t && #[trigger] has_edge(fs[u], fs[t][next_in_loop(i, fs[t].len())], fs[t][i]) by {
        if t == 0 {
            assert(fs[0] == f0);
            if i == 0 {
                assert(f0[0] == v0 && f0[next_in_loop(0, f0.len())] == v3);
                assert(fs[4] == f4);
                assert(has_edge(fs[4], v3, v0));
            } else if i == 1 {
                assert(f0[1] == v3 && f0[next_in_loop(1, f0.len())] == v2);
                assert(fs[3] == f3);
                assert(has_edge(fs[3], v2, v3));
            } else if i == 2 {
                assert(f0[2] == v2 && f0[next_in_loop(2, f0.len())] == v1);
                assert(fs[5] == f5);
                assert(has_edge(fs[5], v1, v2));
            } else if i == 3 {
                assert(f0[3] == v1 && f0[next_in_loop(3, f0.len())] == v0);
                assert(fs[2] == f2);
                assert(has_edge(fs[2], v0, v1));
            }
        } else if t == 1 {
            assert(fs[1] == f1);
            if i == 0 {
                assert(f1[0] == v4 && f1[next_in_loop(0, f1.len())] == v5);
                assert(fs[2] == f2);
                assert(has_edge(fs[2], v5, v4));
            } else if i == 1 {
                assert(f1[1] == v5 && f1[next_in_loop(1, f1.len())] == v6);
                assert(fs[5] == f5);
                assert(has_edge(fs[5], v6, v5));
            } else if i == 2 {
                assert(f1[2] == v6 && f1[next_in_loop(2, f1.len())] == v7);
                assert(fs[3] == f3);
                assert(has_edge(fs[3], v7, v6));
            } else if i == 3 {
                assert(f1[3] == v7 && f1[next_in_loop(3, f1.len())] == v4);
                assert(fs[4] == f4);
                assert(has_edge(fs[4], v4, v7));
            }
        } else if t == 2 {
            assert(fs[2] == f2);
            if i == 0 {
                assert(f2[0] == v0 && f2[next_in_loop(0, f2.len())] == v1);
                assert(fs[0] == f0);
                assert(has_edge(fs[0], v1, v0));
            } else if i == 1 {
                assert(f2[1] == v1 && f2[next_in_loop(1, f2.len())] == v5);
                assert(fs[5] == f5);
                assert(has_edge(fs[5], v5, v1));
            } else if i == 2 {
                assert(f2[2] == v5 && f2[next_in_loop(2, f2.len())] == v4);
                assert(fs[1] == f1);
                assert(has_edge(fs[1], v4, v5));
            } else if i == 3 {
                assert(f2[3] == v4 && f2[next_in_loop(3, f2.len())] == v0);
                assert(fs[4] == f4);
                assert(has_edge(fs[4], v0, v4));
            }
        } else if t == 3 {
            assert(fs[3] == f3);
            if i == 0 {
                assert(f3[0] == v2 && f3[next_in_loop(0, f3.len())] == v3);
                assert(fs[0] == f0);
                assert(has_edge(fs[0], v3, v2));
            } else if i == 1 {
                assert(f3[1] == v3 && f3[next_in_loop(1, f3.len())] == v7);
                assert(fs[4] == f4);
                assert(has_edge(fs[4], v7, v3));
            } else if i == 2 {
                assert(f3[2] == v7 && f3[next_in_loop(2, f3.len())] == v6);
                assert(fs[1] == f1);
                assert(has_edge(fs[1], v6, v7));
            } else if i == 3 {
                assert(f3[3] == v6 && f3[next_in_loop(3, f3.len())] == v2);
                assert(fs[5] == f5);
                assert(has_edge(fs[5], v2, v6));
            }
        } else if t == 4 {
            assert(fs[4] == f4);
            if i == 0 {
                assert(f4[0] == v0 && f4[next_in_loop(0, f4.len())] == v4);
                assert(fs[2] == f2);
                assert(has_edge(fs[2], v4, v0));
            } else if i == 1 {
                assert(f4[1] == v4 && f4[next_in_loop(1, f4.len())] == v7);
                assert(fs[1] == f1);
                assert(has_edge(fs[1], v7, v4));
            } else if i == 2 {
                assert(f4[2] == v7 && f4[next_in_loop(2, f4.len())] == v3);
                assert(fs[3] == f3);
                assert(has_edge(fs[3], v3, v7));
            } else if i == 3 {
                assert(f4[3] == v3 && f4[next_in_loop(3, f4.len())] == v0);
                assert(fs[0] == f0);
                assert(has_edge(fs[0], v0, v3));
            }
        } else if t == 5 {
            assert(fs[5] == f5);
            if i == 0 {
                assert(f5[0] == v1 && f5[next_in_loop(0, f5.len())] == v2);
                assert(fs[0] == f0);
                assert(has_edge(fs[0], v2, v1));
            } else if i == 1 {
                assert(f5[1] == v2 && f5[next_in_loop(1, f5.len())] == v6);
                assert(fs[3] == f3);
                assert(has_edge(fs[3], v6, v2));
            } else if i == 2 {
                assert(f5[2] == v6 && f5[next_in_loop(2, f5.len())] == v5);
                assert(fs[1] == f1);
                assert(has_edge(fs[1], v5, v6));
            } else if i == 3 {
                assert(f5[3] == v5 && f5[next_in_loop(3, f5.len())] == v1);
                assert(fs[2] == f2);
                assert(has_edge(fs[2], v1, v5));
            }
        }
    }
    assert(fs == seq![seq![v0, v3, v2, v1], seq![v4, v5, v6, v7], seq![v0, v1, v5, v4], seq![v2, v3, v7, v6], seq![v0, v4, v7, v3], seq![v1, v2, v6, v5]]);
}

proof fn lemma_wound_hexahedron(ni: Seq<u32>)
    requires
        ni.len() >= spec_node_count(CellType::Hexahedron),
    ensures
        closed_surface(element_faces_spec(CellType::Hexahedron, ni)),
{
    lemma_closed_hexahedron(NodeId(ni[0]), NodeId(ni[1]), NodeId(ni[2]), NodeId(ni[3]), NodeId(ni[4]), NodeId(ni[5]), NodeId(ni[6]), NodeId(ni[7]));
    assert(element_faces_spec(CellType::Hexahedron, ni) =~= seq![seq![NodeId(ni[0]), NodeId(ni[3]), NodeId(ni[2]), NodeId(ni[1])], seq![NodeId(ni[4]), NodeId(ni[5]), NodeId(ni[6]), NodeId(ni[7])], seq![NodeId(ni[0]), NodeId(ni[1]), NodeId(ni[5]), NodeId(ni[4])], seq![NodeId(ni[2]), NodeId(ni[3]), NodeId(ni[7]), NodeId(ni[6])], seq![NodeId(ni[0]), NodeId(ni[4]), NodeId(ni[7]), NodeId(ni[3])], seq![NodeId(ni[1]), NodeId(ni[2]), NodeId(ni[6]), NodeId(ni[5])]]);
}

#[verifier::spinoff_prover]
proof fn lemma_closed_wedge(v0: NodeId, v1: NodeId, v2: NodeId, v3: NodeId, v4: NodeId, v5: NodeId)
    ensures
        closed_surface(seq![seq![v0, v2, v1], seq![v3, v4, v5], seq![v0, v1, v4, v3], seq![v1, v2, v5, v4], seq![v0, v3, v5, v2]]),
{
    let f0 = seq![v0, v2, v1];
    lemma_edges3(v0, v2, v1);
    let f1 = seq![v3, v4, v5];
    lemma_edges3(v3, v4, v5);
    let f2 = seq![v0, v1, v4, v3];
    lemma_edges4(v0, v1, v4, v3);
    let f3 = seq![v1, v2, v5, v4];
    lemma_edges4(v1, v2, v5, v4);
    let f4 = seq![v0, v3, v5, v2];
    lemma_edges4(v0, v3, v5, v2);
    let fs = seq![f0, f1, f2, f3, f4];
    assert(fs.len() == 5);
    assert forall|t: int, i: int| #![trigger fs[t][i]] 0 <= t < fs.len() && 0 <= i < fs[t].len() implies exists|u: int|
        0 <= u < fs.len() && u != t && #[trigger] has_edge(fs[u], fs[t][next_in_loop(i, fs[t].len())], fs[t][i]) by {
        if t == 0 {
            assert(fs[0] == f0);
            if i == 0 {
                assert(f0[0] == v0 && f0[next_in_loop(0, f0.len())] == v2);
                assert(fs[4] == f4);
                assert(has_edge(fs[4], v2, v0));
            } else if i == 1 {
                assert(f0[1] == v2 && f0[next_in_loop(1, f0.len())] == v1);
                assert(fs[3] == f3);
                assert(has_edge(fs[3], v1, v2));
            } else if i == 2 {
                assert(f0[2] == v1 && f0[next_in_loop(2, f0.len())] == v0);
                assert(fs[2] == f2);
                assert(has_edge(fs[2], v0, v1));
            }
        } else if t == 1 {
            assert(fs[1] == f1);
            if i == 0 {
                assert(f1[0] == v3 && f1[next_in_loop(0, f1.len())] == v4);
                assert(fs[2] == f2);
                assert(has_edge(fs[2], v4, v3));
            } else if i == 1 {
                assert(f1[1] == v4 && f1[next_in_loop(1, f1.len())] == v5);
                assert(fs[3] == f3);
                assert(has_edge(fs[3], v5, v4));
            } else if i == 2 {
                assert(f1[2] == v5 && f1[next_in_loop(2, f1.len())] == v3);
                assert(fs[4] == f4);
                assert(has_edge(fs[4], v3, v5));
            }
        } else if t == 2 {
            assert(fs[2] == f2);
            if i == 0 {
                assert(f2[0] == v0 && f2[next_in_loop(0, f2.len())] == v1);
                assert(fs[0] == f0);
                assert(has_edge(fs[0], v1, v0));
            } else if i == 1 {
                assert(f2[1] == v1 && f2[next_in_loop(1, f2.len())] == v4);
                assert(fs[3] == f3);
                assert(has_edge(fs[3], v4, v1));
            } else if i == 2 {
                assert(f2[2] == v4 && f2[next_in_loop(2, f2.len())] == v3);
                assert(fs[1] == f1);
                assert(has_edge(fs[1], v3, v4));
            } else if i == 3 {
                assert(f2[3] == v3 && f2[next_in_loop(3, f2.len())] == v0);
                assert(fs[4] == f4);
                assert(has_edge(fs[4], v0, v3));
            }
        } else if t == 3 {
            assert(fs[3] == f3);
            if i == 0 {
                assert(f3[0] == v1 && f3[next_in_loop(0, f3.len())] == v2);
                assert(fs[0] == f0);
                assert(has_edge(fs[0], v2, v1));
            } else if i == 1 {
                assert(f3[1] == v2 && f3[next_in_loop(1, f3.len())] == v5);
                assert(fs[4] == f4);
                assert(has_edge(fs[4], v5, v2));
            } else if i == 2 {
                assert(f3[2] == v5 && f3[next_in_loop(2, f3.len())] == v4);
                assert(fs[1] == f1);
                assert(has_edge(fs[1], v4, v5));
            } else if i == 3 {
                assert(f3[3] == v4 && f3[next_in_loop(3, f3.len())] == v1);
                assert(fs[2] == f2);
                assert(has_edge(fs[2], v1, v4));
            }
        } else if t == 4 {
            assert(fs[4] == f4);
            if i == 0 {
                assert(f4[0] == v0 && f4[next_in_loop(0, f4.len())] == v3);
                assert(fs[2] == f2);
                assert(has_edge(fs[2], v3, v0));
            } else if i == 1 {
                assert(f4[1] == v3 && f4[next_in_loop(1, f4.len())] == v5);
                assert(fs[1] == f1);
                assert(has_edge(fs[1], v5, v3));
            } else if i == 2 {
                assert(f4[2] == v5 && f4[next_in_loop(2, f4.len())] == v2);
                assert(fs[3] == f3);
                assert(has_edge(fs[3], v2, v5));
            } else if i == 3 {
                assert(f4[3] == v2 && f4[next_in_loop(3, f4.len())] == v0);
                assert(fs[0] == f0);
                assert(has_edge(fs[0], v0, v2));
            }
        }
    }
    assert(fs == seq![seq![v0, v2, v1], seq![v3, v4, v5], seq![v0, v1, v4, v3], seq![v1, v2, v5, v4], seq![v0, v3, v5, v2]]);
}

proof fn lemma_wound_wedge(ni: Seq<u32>)
    requires
        ni.len() >= spec_node_count(CellType::Wedge),
    ensures
        closed_surface(element_faces_spec(CellType::Wedge, ni)),
{
    lemma_closed_wedge(NodeId(ni[0]), NodeId(ni[1]), NodeId(ni[2]), NodeId(ni[3]), NodeId(ni[4]), NodeId(ni[5]));
    assert(element_faces_spec(CellType::Wedge, ni) =~= seq![seq![NodeId(ni[0]), NodeId(ni[2]), NodeId(ni[1])], seq![NodeId(ni[3]), NodeId(ni[4]), NodeId(ni[5])], seq![NodeId(ni[0]), NodeId(ni[1]), NodeId(ni[4]), NodeId(ni[3])], seq![NodeId(ni[1]), NodeId(ni[2]), NodeId(ni[5]), NodeId(ni[4])], seq![NodeId(ni[0]), NodeId(ni[3]), NodeId(ni[5]), NodeId(ni[2])]]);
}

#[verifier::spinoff_prover]
proof fn lemma_closed_pyramid(v0: NodeId, v1: NodeId, v2: NodeId, v3: NodeId, v4: NodeId)
    ensures
        closed_surface(seq![seq![v0, v3, v2, v1], seq![v0, v1, v4], seq![v1, v2, v4], seq![v2, v3, v4], seq![v3, v0, v4]]),
{
    let f0 = seq![v0, v3, v2, v1];
    lemma_edges4(v0, v3, v2, v1);
    let f1 = seq![v0, v1, v4];
    lemma_edges3(v0, v1, v4);
    let f2 = seq![v1, v2, v4];
    lemma_edges3(v1, v2, v4);
    let f3 = seq![v2, v3, v4];
    lemma_edges3(v2, v3, v4);
    let f4 = seq![v3, v0, v4];
    lemma_edges3(v3, v0, v4);
    let fs = seq![f0, f1, f2, f3, f4];
    assert(fs.len() == 5);
    assert forall|t: int, i: int| #![trigger fs[t][i]] 0 <= t < fs.len() && 0 <= i < fs[t].len() implies exists|u: int|
        0 <= u < fs.len() && u != t && #[trigger] has_edge(fs[u], fs[t][next_in_loop(i, fs[t].len())], fs[t][i]) by {
        if t == 0 {
            assert(fs[0] == f0);
            if i == 0 {
                assert(f0[0] == v0 && f0[next_in_loop(0, f0.len())] == v3);
                assert(fs[4] == f4);
                assert(has_edge(fs[4], v3, v0));
            } else if i == 1 {
                assert(f0[1] == v3 && f0[next_in_loop(1, f0.len())] == v2);
                assert(fs[3] == f3);
                assert(has_edge(fs[3], v2, v3));
            } else if i == 2 {
                assert(f0[2] == v2 && f0[next_in_loop(2, f0.len())] == v1);
                assert(fs[2] == f2);
                assert(has_edge(fs[2], v1, v2));
            } else if i == 3 {
                assert(f0[3] == v1 && f0[next_in_loop(3, f0.len())] == v0);
                assert(fs[1] == f1);
                assert(has_edge(fs[1], v0, v1));
            }
        } else if t == 1 {
            assert(fs[1] == f1);
            if i == 0 {
                assert(f1[0] == v0 && f1[next_in_loop(0, f1.len())] == v1);
                assert(fs[0] == f0);
                assert(has_edge(fs[0], v1, v0));
            } else if i == 1 {
                assert(f1[1] == v1 && f1[next_in_loop(1, f1.len())] == v4);
                assert(fs[2] == f2);
                assert(has_edge(fs[2], v4, v1));
            } else if i == 2 {
                assert(f1[2] == v4 && f1[next_in_loop(2, f1.len())] == v0);
                assert(fs[4] == f4);
                assert(has_edge(fs[4], v0, v4));
            }
        } else if t == 2 {
            assert(fs[2] == f2);
            if i == 0 {
                assert(f2[0] == v1 && f2[next_in_loop(0, f2.len())] == v2);
                assert(fs[0] == f0);
                assert(has_edge(fs[0], v2, v1));
            } else if i == 1 {
                assert(f2[1] == v2 && f2[next_in_loop(1, f2.len())] == v4);
                assert(fs[3] == f3);
                assert(has_edge(fs[3], v4, v2));
            } else if i == 2 {
                assert(f2[2] == v4 && f2[next_in_loop(2, f2.len())] == v1);
                assert(fs[1] == f1);
                assert(has_edge(fs[1], v1, v4));
            }
        } else if t == 3 {
            assert(fs[3] == f3);
            if i == 0 {
                assert(f3[0] == v2 && f3[next_in_loop(0, f3.len())] == v3);
                assert(fs[0] == f0);
                assert(has_edge(fs[0], v3, v2));
            } else if i == 1 {
                assert(f3[1] == v3 && f3[next_in_loop(1, f3.len())] == v4);
                assert(fs[4] == f4);
                assert(has_edge(fs[4], v4, v3));
            } else if i == 2 {
                assert(f3[2] == v4 && f3[next_in_loop(2, f3.len())] == v2);
                assert(fs[2] == f2);
                assert(has_edge(fs[2], v2, v4));
            }
        } else if t == 4 {
            assert(fs[4] == f4);
            if i == 0 {
                assert(f4[0] == v3 && f4[next_in_loop(0, f4.len())] == v0);
                assert(fs[0] == f0);
                assert(has_edge(fs[0], v0, v3));
            } else if i == 1 {
                assert(f4[1] == v0 && f4[next_in_loop(1, f4.len())] == v4);
                assert(fs[1] == f1);
                assert(has_edge(fs[1], v4, v0));
            } else if i == 2 {
                assert(f4[2] == v4 && f4[next_in_loop(2, f4.len())] == v3);
                assert(fs[3] == f3);
                assert(has_edge(fs[3], v3, v4));
            }
        }
    }
    assert(fs == seq![seq![v0, v3, v2, v1], seq![v0, v1, v4], seq![v1, v2, v4], seq![v2, v3, v4], seq![v3, v0, v4]]);
}

proof fn lemma_wound_pyramid(ni: Seq<u32>)
    requires
        ni.len() >= spec_node_count(CellType::Pyramid),
    ensures
        closed_surface(element_faces_spec(CellType::Pyramid, ni)),
{
    lemma_closed_pyramid(NodeId(ni[0]), NodeId(ni[1]), NodeId(ni[2]), NodeId(ni[3]), NodeId(ni[4]));
    assert(element_faces_spec(CellType::Pyramid, ni) =~= seq![seq![NodeId(ni[0]), NodeId(ni[3]), NodeId(ni[2]), NodeId(ni[1])], seq![NodeId(ni[0]), NodeId(ni[1]), NodeId(ni[4])], seq![NodeId(ni[1]), NodeId(ni[2]), NodeId(ni[4])], seq![NodeId(ni[2]), NodeId(ni[3]), NodeId(ni[4])], seq![NodeId(ni[3]), NodeId(ni[0]), NodeId(ni[4])]]);
}

/// The faces of a 3D element are wound consistently: each edge that a face
/// runs along in one direction is run along in the other direction by another
/// face of the element, so flipping the winding of one face breaks it. The
/// edges of a 2D element follow one another around the cell.
pub proof fn lemma_element_faces_wound_consistently(ct: CellType, ni: Seq<u32>)
    requires
        ni.len() >= spec_node_count(ct),
    ensures
        (ct == CellType::Triangle || ct == CellType::Quad) ==> ({
            let fs = element_faces_spec(ct, ni);
            forall|t: int|
                0 <= t < fs.len() ==> (#[trigger] fs[t]).len() == 2 && fs[t][1] == fs[next_in_loop(
                    t,
                    fs.len(),
                )][0]
        }),
        !(ct == CellType::Triangle || ct == CellType::Quad) ==> closed_surface(
            element_faces_spec(ct, ni),
        ),
{
    match ct {
        CellType::Triangle => {},
        CellType::Quad => {},
        CellType::Tetrahedron => lemma_wound_tetrahedron(ni),
        CellType::Hexahedron => lemma_wound_hexahedron(ni),
        CellType::Wedge => lemma_wound_wedge(ni),
        CellType::Pyramid => lemma_wound_pyramid(ni),
    }
}

pub open spec fn face_views(v: Seq<Vec<NodeId>>) -> Seq<Seq<NodeId>> {
    v.map_values(|f: Vec<NodeId>| f@)
}

/// Extract local face connectivity from an element's node list.
///
/// Returns the faces, each face being a list of `NodeId` in winding order.
pub fn element_faces(elem: &RawElement) -> (r: Vec<Vec<NodeId>>)
    requires
        elem.node_indices.len() >= spec_node_count(elem.cell_type),
    ensures
        face_views(r@) == element_faces_spec(elem.cell_type, elem.node_indices@),
{
    let ni = &elem.node_indices;
    let r = match elem.cell_type {
        CellType::Triangle => vec![
            vec![NodeId(ni[0]), NodeId(ni[1])],
            vec![NodeId(ni[1]), NodeId(ni[2])],
            vec![NodeId(ni[2]), NodeId(ni[0])],
        ],
        CellType::Quad => vec![
            vec![NodeId(ni[0]), NodeId(ni[1])],
            vec![NodeId(ni[1]), NodeId(ni[2])],
            vec![NodeId(ni[2]), NodeId(ni[3])],
            vec![NodeId(ni[3]), NodeId(ni[0])],
        ],
        CellType::Tetrahedron => vec![
            vec![NodeId(ni[0]), NodeId(ni[2]), NodeId(ni[1])],
            vec![NodeId(ni[0]), NodeId(ni[1]), NodeId(ni[3])],
            vec![NodeId(ni[1]), NodeId(ni[2]), NodeId(ni[3])],
            vec![NodeId(ni[0]), NodeId(ni[3]), NodeId(ni[2])],
        ],
        CellType::Hexahedron => vec![
            vec![NodeId(ni[0]), NodeId(ni[3]), NodeId(ni[2]), NodeId(ni[1])],
            vec![NodeId(ni[4]), NodeId(ni[5]), NodeId(ni[6]), NodeId(ni[7])],
            vec![NodeId(ni[0]), NodeId(ni[1]), NodeId(ni[5]), NodeId(ni[4])],
            vec![NodeId(ni[2]), NodeId(ni[3]), NodeId(ni[7]), NodeId(ni[6])],
            vec![NodeId(ni[0]), NodeId(ni[4]), NodeId(ni[7]), NodeId(ni[3])],
            vec![NodeId(ni[1]), NodeId(ni[2]), NodeId(ni[6]), NodeId(ni[5])],
        ],
        CellType::Wedge => vec![
            vec![NodeId(ni[0]), NodeId(ni[2]), NodeId(ni[1])],
            vec![NodeId(ni[3]), NodeId(ni[4]), NodeId(ni[5])],
            vec![NodeId(ni[0]), NodeId(ni[1]), NodeId(ni[4]), NodeId(ni[3])],
            vec![NodeId(ni[1]), NodeId(ni[2]), NodeId(ni[5]), NodeId(ni[4])],
            vec![NodeId(ni[0]), NodeId(ni[3]), NodeId(ni[5]), NodeId(ni[2])],
        ],
        CellType::Pyramid => vec![
            vec![NodeId(ni[0]), NodeId(ni[3]), NodeId(ni[2]), NodeId(ni[1])],
            vec![NodeId(ni[0]), NodeId(ni[1]), NodeId(ni[4])],
            vec![NodeId(ni[1]), NodeId(ni[2]), NodeId(ni[4])],
            vec![NodeId(ni[2]), NodeId(ni[3]), NodeId(ni[4])],
            vec![NodeId(ni[3]), NodeId(ni[0]), NodeId(ni[4])],
        ],
    };
    proof {
        assert(face_views(r@) =~= element_faces_spec(elem.cell_type, elem.node_indices@));
    }
    r
}


// ---------------------------------------------------------------------------
// The face table
// ---------------------------------------------------------------------------

pub open spec fn element_views(es: Seq<RawElement>) -> Seq<(CellType, Seq<u32>, Option<i32>)> {
    es.map_values(|e: RawElement| e@)
}

/// Every element face in order, tagged with the index of its cell.
pub open spec fn occurrences(es: Seq<(CellType, Seq<u32>, Option<i32>)>) -> Seq<(int, Seq<NodeId>)>
    decreases es.len(),
{
    if es.len() == 0 {
        seq![]
    } else {
        let c = es.len() - 1;
        occurrences(es.drop_last()) + element_faces_spec(es.last().0, es.last().1).map_values(
            |f: Seq<NodeId>| (c, f),
        )
    }
}

/// The node numbers of a face.
pub open spec fn node_values(f: Seq<NodeId>) -> Seq<u32> {
    f.map_values(|n: NodeId| n.0)
}

/// What identifies a face: its nodes with multiplicity.
pub open spec fn face_key(f: Seq<NodeId>) -> Multiset<u32> {
    node_values(f).to_multiset()
}

pub open spec fn same_face(a: Seq<NodeId>, b: Seq<NodeId>) -> bool {
    face_key(a) == face_key(b)
}

/// A face of the table: its nodes in the winding order of the element that
/// first named it, its owner cell and, once a second element names it, the
/// last such element as neighbour.
pub open spec fn opt_int(o: Option<usize>) -> Option<int> {
    match o {
        Some(x) => Some(x as int),
        None => None,
    }
}

/// The first face of `faces` that is the same face as `f`.
pub open spec fn find_face(faces: Seq<(Seq<NodeId>, int, Option<int>)>, f: Seq<NodeId>) -> Option<
    int,
>
    decreases faces.len(),
{
    if faces.len() == 0 {
        None
    } else {
        match find_face(faces.drop_last(), f) {
            Some(i) => Some(i),
            None => if same_face(faces.last().0, f) {
                Some(faces.len() - 1)
            } else {
                None
            },
        }
    }
}

pub open spec fn add_occurrence(
    faces: Seq<(Seq<NodeId>, int, Option<int>)>,
    o: (int, Seq<NodeId>),
) -> Seq<(Seq<NodeId>, int, Option<int>)> {
    match find_face(faces, o.1) {
        Some(i) => faces.update(i, (faces[i].0, faces[i].1, Some(o.0))),
        None => faces.push((o.1, o.0, None)),
    }
}

/// The faces named by the occurrences `occ`, in order of first appearance.
pub open spec fn face_table(occ: Seq<(int, Seq<NodeId>)>) -> Seq<(Seq<NodeId>, int, Option<int>)>
    decreases occ.len(),
{
    if occ.len() == 0 {
        seq![]
    } else {
        add_occurrence(face_table(occ.drop_last()), occ.last())
    }
}

/// The face-table index of the face named by occurrence `j`.
pub open spec fn face_slot(occ: Seq<(int, Seq<NodeId>)>, j: int) -> int {
    let t = face_table(occ.take(j));
    match find_face(t, occ[j].1) {
        Some(i) => i,
        None => t.len() as int,
    }
}

pub proof fn lemma_find_face(faces: Seq<(Seq<NodeId>, int, Option<int>)>, f: Seq<NodeId>)
    ensures
        match find_face(faces, f) {
            Some(i) => 0 <= i < faces.len() && same_face(faces[i].0, f) && forall|k: int|
                0 <= k < i ==> !same_face(#[trigger] faces[k].0, f),
            None => forall|k: int| 0 <= k < faces.len() ==> !same_face(#[trigger] faces[k].0, f),
        },
    decreases faces.len(),
{
    if faces.len() > 0 {
        let d = faces.drop_last();
        lemma_find_face(d, f);
        match find_face(d, f) {
            Some(i) => {
                assert forall|k: int| 0 <= k < i implies !same_face(#[trigger] faces[k].0, f) by {
                    assert(faces[k] == d[k]);
                }
                assert(faces[i] == d[i]);
            },
            None => {
                assert forall|k: int| 0 <= k < faces.len() - 1 implies !same_face(
                    #[trigger] faces[k].0,
                    f,
                ) by {
                    assert(faces[k] == d[k]);
                }
            },
        }
    }
}

/// Faces of the table are pairwise different faces, and each has the nodes of
/// some occurrence.
pub proof fn lemma_face_table_distinct(occ: Seq<(int, Seq<NodeId>)>)
    ensures
        forall|i: int, j: int|
            0 <= i < face_table(occ).len() && 0 <= j < face_table(occ).len() && i != j
                ==> !same_face(#[trigger] face_table(occ)[i].0, #[trigger] face_table(occ)[j].0),
        face_table(occ).len() <= occ.len(),
        forall|i: int|
            0 <= i < face_table(occ).len() ==> exists|j: int|
                0 <= j < occ.len() && #[trigger] face_table(occ)[i].0 == occ[j].1,
    decreases occ.len(),
{
    if occ.len() > 0 {
        let d = occ.drop_last();
        let prev = face_table(d);
        lemma_face_table_distinct(d);
        lemma_find_face(prev, occ.last().1);
        let cur = face_table(occ);
        assert forall|i: int| 0 <= i < cur.len() implies exists|j: int|
            0 <= j < occ.len() && #[trigger] cur[i].0 == occ[j].1 by {
            if i < prev.len() {
                assert(cur[i].0 == prev[i].0);
                let j = choose|j: int| 0 <= j < d.len() && prev[i].0 == d[j].1;
                assert(occ[j] == d[j]);
            } else {
                assert(cur[i].0 == occ[occ.len() - 1].1);
            }
        }
        assert forall|i: int, j: int|
            0 <= i < cur.len() && 0 <= j < cur.len() && i != j implies !same_face(
            #[trigger] cur[i].0,
            #[trigger] cur[j].0,
        ) by {
            if i < prev.len() && j < prev.len() {
                assert(cur[i].0 == prev[i].0);
                assert(cur[j].0 == prev[j].0);
            } else if i < prev.len() {
                assert(cur[i].0 == prev[i].0);
            } else {
                assert(cur[j].0 == prev[j].0);
            }
        }
    }
}

/// With pairwise different faces, `find_face` finds the one same face.
pub proof fn lemma_find_unique(faces: Seq<(Seq<NodeId>, int, Option<int>)>, f: Seq<NodeId>, p: int)
    requires
        0 <= p < faces.len(),
        same_face(faces[p].0, f),
        forall|i: int, j: int|
            0 <= i < faces.len() && 0 <= j < faces.len() && i != j ==> !same_face(
                #[trigger] faces[i].0,
                #[trigger] faces[j].0,
            ),
    ensures
        find_face(faces, f) == Some(p),
{
    lemma_find_face(faces, f);
    match find_face(faces, f) {
        Some(i) => {
            if i != p {
                assert(!same_face(faces[i].0, faces[p].0));
            }
        },
        None => {
            assert(!same_face(faces[p].0, f));
        },
    }
}

/// Sorted keys of two faces are equal exactly when they are the same face.
pub proof fn lemma_sorted_keys(ka: Seq<u32>, kb: Seq<u32>, a: Seq<NodeId>, b: Seq<NodeId>)
    requires
        sorted_u32(ka),
        sorted_u32(kb),
        ka.to_multiset() == face_key(a),
        kb.to_multiset() == face_key(b),
    ensures
        (ka == kb) <==> same_face(a, b),
{
    if same_face(a, b) {
        let leq = |x: u32, y: u32| x <= y;
        assert(vstd::relations::total_ordering(leq));
        assert(vstd::relations::sorted_by(ka, leq));
        assert(vstd::relations::sorted_by(kb, leq));
        vstd::seq_lib::lemma_sorted_unique(ka, kb, leq);
    }
}

pub proof fn lemma_occurrences_take(es: Seq<(CellType, Seq<u32>, Option<i32>)>, c: int)
    requires
        0 <= c < es.len(),
    ensures
        occurrences(es.take(c + 1)) == occurrences(es.take(c)) + element_faces_spec(
            es[c].0,
            es[c].1,
        ).map_values(|f: Seq<NodeId>| (c, f)),
{
    assert(es.take(c + 1).drop_last() =~= es.take(c));
    assert(es.take(c + 1).last() == es[c]);
}

pub proof fn lemma_occurrence_sizes(es: Seq<(CellType, Seq<u32>, Option<i32>)>)
    ensures
        forall|j: int|
            0 <= j < occurrences(es).len() ==> 2 <= (#[trigger] occurrences(es)[j]).1.len() <= 4
                && 0 <= occurrences(es)[j].0 < es.len(),
    decreases es.len(),
{
    if es.len() > 0 {
        let d = es.drop_last();
        lemma_occurrence_sizes(d);
        lemma_element_faces_shape(es.last().0, es.last().1);
        let a = occurrences(d);
        let c = es.len() - 1;
        let b = element_faces_spec(es.last().0, es.last().1).map_values(
            |f: Seq<NodeId>| (c, f),
        );
        assert forall|j: int| 0 <= j < occurrences(es).len() implies 2 <= (
        #[trigger] occurrences(es)[j]).1.len() <= 4 && 0 <= occurrences(es)[j].0 < es.len() by {
            if j < a.len() {
                assert(occurrences(es)[j] == a[j]);
            } else {
                assert(occurrences(es)[j] == b[j - a.len()]);
            }
        }
    }
}

/// Occurrences come cell by cell: their cells never decrease.
pub proof fn lemma_occurrence_cells_sorted(es: Seq<(CellType, Seq<u32>, Option<i32>)>)
    ensures
        forall|j1: int, j2: int|
            0 <= j1 <= j2 < occurrences(es).len() ==> (#[trigger] occurrences(es)[j1]).0 <= (
            #[trigger] occurrences(es)[j2]).0,
    decreases es.len(),
{
    if es.len() > 0 {
        let d = es.drop_last();
        lemma_occurrence_cells_sorted(d);
        lemma_occurrence_sizes(d);
        let a = occurrences(d);
        let c = es.len() - 1;
        let b = element_faces_spec(es.last().0, es.last().1).map_values(
            |f: Seq<NodeId>| (c, f),
        );
        let o = occurrences(es);
        assert(o == a + b);
        assert forall|j1: int, j2: int| 0 <= j1 <= j2 < o.len() implies (#[trigger] o[j1]).0 <= (
        #[trigger] o[j2]).0 by {
            if j2 < a.len() {
                assert(o[j1] == a[j1] && o[j2] == a[j2]);
            } else if j1 < a.len() {
                assert(o[j1] == a[j1]);
                assert(o[j2] == b[j2 - a.len()]);
            } else {
                assert(o[j1] == b[j1 - a.len()]);
                assert(o[j2] == b[j2 - a.len()]);
            }
        }
    }
}

/// An element names at most six faces.
pub proof fn lemma_occurrences_len(es: Seq<(CellType, Seq<u32>, Option<i32>)>)
    ensures
        occurrences(es).len() <= 6 * es.len(),
    decreases es.len(),
{
    if es.len() > 0 {
        lemma_occurrences_len(es.drop_last());
        lemma_element_faces_shape(es.last().0, es.last().1);
    }
}

/// Owners and neighbours of the table are cells of the occurrences, and the
/// owner of a face is never after its neighbour.
pub proof fn lemma_face_table_cells(occ: Seq<(int, Seq<NodeId>)>)
    requires
        occ.len() > 0,
        forall|j: int| 0 <= j < occ.len() ==> 0 <= (#[trigger] occ[j]).0,
        forall|j1: int, j2: int|
            0 <= j1 <= j2 < occ.len() ==> (#[trigger] occ[j1]).0 <= (#[trigger] occ[j2]).0,
    ensures
        forall|i: int|
            0 <= i < face_table(occ).len() ==> {
                let f = #[trigger] face_table(occ)[i];
                &&& 0 <= f.1 <= occ.last().0
                &&& f.2 matches Some(n) ==> f.1 <= n <= occ.last().0
            },
    decreases occ.len(),
{
    let d = occ.drop_last();
    let o = occ.last();
    let cur = face_table(occ);
    let prev = face_table(d);
    if d.len() > 0 {
        assert forall|j: int| 0 <= j < d.len() implies 0 <= (#[trigger] d[j]).0 by {
            assert(d[j] == occ[j]);
        }
        assert forall|j1: int, j2: int| 0 <= j1 <= j2 < d.len() implies (#[trigger] d[j1]).0 <= (
        #[trigger] d[j2]).0 by {
            assert(d[j1] == occ[j1] && d[j2] == occ[j2]);
        }
        lemma_face_table_cells(d);
        assert(d.last() == occ[d.len() - 1]);
        assert(occ[d.len() - 1].0 <= occ[occ.len() - 1].0);
    } else {
        assert(prev.len() == 0);
    }
    assert(o == occ[occ.len() - 1]);
    lemma_find_face(prev, o.1);
    assert forall|i: int| 0 <= i < cur.len() implies {
        let f = #[trigger] cur[i];
        &&& 0 <= f.1 <= occ.last().0
        &&& f.2 matches Some(n) ==> f.1 <= n <= occ.last().0
    } by {
        if i < prev.len() {
            let f0 = prev[i];
            assert(0 <= f0.1);
        }
    }
}

/// Every face of the table has between two and four nodes.
pub proof fn lemma_face_table_sizes(es: Seq<(CellType, Seq<u32>, Option<i32>)>)
    ensures
        forall|i: int|
            0 <= i < face_table(occurrences(es)).len() ==> 2 <= (#[trigger] face_table(
                occurrences(es),
            )[i]).0.len() <= 4,
{
    let occ = occurrences(es);
    lemma_face_table_distinct(occ);
    lemma_occurrence_sizes(es);
    assert forall|i: int| 0 <= i < face_table(occ).len() implies 2 <= (#[trigger] face_table(
        occ,
    )[i]).0.len() <= 4 by {
        let j = choose|j: int| 0 <= j < occ.len() && face_table(occ)[i].0 == occ[j].1;
        assert(2 <= occ[j].1.len() <= 4);
    }
}

/// Whether two different occurrences before `n` have slot `i`.
pub open spec fn shared_below(occ: Seq<(int, Seq<NodeId>)>, n: int, i: int) -> bool {
    exists|j1: int, j2: int|
        0 <= j1 < j2 < n && #[trigger] face_slot(occ, j1) == i && #[trigger] face_slot(occ, j2)
            == i
}

/// Whether some occurrence before `n` has slot `i`.
pub open spec fn named_below_slot(occ: Seq<(int, Seq<NodeId>)>, n: int, i: int) -> bool {
    exists|j: int| 0 <= j < n && #[trigger] face_slot(occ, j) == i
}

#[verifier::spinoff_prover]
proof fn lemma_slots_prefix(occ: Seq<(int, Seq<NodeId>)>, n: int)
    requires
        0 <= n <= occ.len(),
    ensures
        forall|j: int| 0 <= j < n ==> 0 <= #[trigger] face_slot(occ, j) < face_table(
            occ.take(n),
        ).len(),
        forall|i: int|
            0 <= i < face_table(occ.take(n)).len() ==> named_below_slot(occ, n, i) && ((
            #[trigger] face_table(occ.take(n))[i]).2 is Some <==> shared_below(occ, n, i)),
    decreases n,
{
    if n == 0 {
        assert(occ.take(0) =~= seq![]);
    } else {
        let m = n - 1;
        lemma_slots_prefix(occ, m);
        let prev = face_table(occ.take(m));
        let o = occ[m];
        assert(occ.take(n).drop_last() =~= occ.take(m));
        assert(occ.take(n).last() == o);
        let cur = face_table(occ.take(n));
        assert(cur == add_occurrence(prev, o));
        lemma_find_face(prev, o.1);
        let sm = face_slot(occ, m);
        assert(sm == match find_face(prev, o.1) {
            Some(p) => p,
            None => prev.len() as int,
        });
        assert forall|j: int| 0 <= j < n implies 0 <= #[trigger] face_slot(occ, j) < cur.len() by {
            if j < m {
                assert(face_slot(occ, j) < prev.len());
            }
        }
        assert forall|i: int| 0 <= i < cur.len() implies named_below_slot(occ, n, i) && ((
        #[trigger] cur[i]).2 is Some <==> shared_below(occ, n, i)) by {
            if i == sm {
                assert(face_slot(occ, m) == i);
                if i < prev.len() {
                    assert(named_below_slot(occ, m, i));
                    let j = choose|j: int| 0 <= j < m && #[trigger] face_slot(occ, j) == i;
                    assert(face_slot(occ, j) == i && face_slot(occ, m) == i);
                    assert(shared_below(occ, n, i));
                } else {
                    assert(cur[i].2 is None);
                    if shared_below(occ, n, i) {
                        let (j1, j2) = choose|j1: int, j2: int|
                            0 <= j1 < j2 < n && #[trigger] face_slot(occ, j1) == i
                                && #[trigger] face_slot(occ, j2) == i;
                        assert(face_slot(occ, j1) < prev.len());
                    }
                }
            } else {
                assert(i < prev.len());
                assert(cur[i] == prev[i]);
                let j = choose|j: int| 0 <= j < m && #[trigger] face_slot(occ, j) == i;
                assert(face_slot(occ, j) == i);
                if shared_below(occ, n, i) {
                    let (j1, j2) = choose|j1: int, j2: int|
                        0 <= j1 < j2 < n && #[trigger] face_slot(occ, j1) == i
                            && #[trigger] face_slot(occ, j2) == i;
                    assert(j2 < m);
                    assert(shared_below(occ, m, i));
                }
                if shared_below(occ, m, i) {
                    let (j1, j2) = choose|j1: int, j2: int|
                        0 <= j1 < j2 < m && #[trigger] face_slot(occ, j1) == i
                            && #[trigger] face_slot(occ, j2) == i;
                    assert(shared_below(occ, n, i));
                }
            }
        }
    }
}

pub proof fn lemma_slot_nodes(occ: Seq<(int, Seq<NodeId>)>, n: int)
    requires
        0 <= n <= occ.len(),
    ensures
        forall|j: int|
            0 <= j < n ==> 0 <= #[trigger] face_slot(occ, j) < face_table(occ.take(n)).len()
                && same_face(face_table(occ.take(n))[face_slot(occ, j)].0, occ[j].1),
    decreases n,
{
    if n > 0 {
        let m = n - 1;
        lemma_slot_nodes(occ, m);
        let prev = face_table(occ.take(m));
        let o = occ[m];
        assert(occ.take(n).drop_last() =~= occ.take(m));
        assert(occ.take(n).last() == o);
        let cur = face_table(occ.take(n));
        assert(cur == add_occurrence(prev, o));
        lemma_find_face(prev, o.1);
        assert(cur.len() >= prev.len());
        assert forall|i: int| 0 <= i < prev.len() implies cur[i].0 == #[trigger] prev[i].0 by {}
        assert forall|j: int| 0 <= j < n implies 0 <= #[trigger] face_slot(occ, j) < cur.len()
            && same_face(cur[face_slot(occ, j)].0, occ[j].1) by {
            if j < m {
                assert(cur[face_slot(occ, j)].0 == prev[face_slot(occ, j)].0);
            } else {
                assert(occ.take(m) == occ.take(j));
            }
        }
    }
}

/// Two element faces are the same face of the table exactly when they have
/// the same nodes: element faces with the same nodes, in any order, are merged,
/// and element faces with different nodes are never merged.
pub proof fn lemma_slot_iff_same_nodes(occ: Seq<(int, Seq<NodeId>)>)
    ensures
        forall|j1: int, j2: int|
            0 <= j1 < occ.len() && 0 <= j2 < occ.len() ==> (#[trigger] face_slot(occ, j1)
                == #[trigger] face_slot(occ, j2) <==> same_face(occ[j1].1, occ[j2].1)),
{
    lemma_slot_nodes(occ, occ.len() as int);
    assert(occ.take(occ.len() as int) =~= occ);
    lemma_face_table_distinct(occ);
    let t = face_table(occ);
    assert forall|j1: int, j2: int|
        0 <= j1 < occ.len() && 0 <= j2 < occ.len() implies (#[trigger] face_slot(occ, j1)
            == #[trigger] face_slot(occ, j2) <==> same_face(occ[j1].1, occ[j2].1)) by {
        let s1 = face_slot(occ, j1);
        let s2 = face_slot(occ, j2);
        if s1 != s2 && same_face(occ[j1].1, occ[j2].1) {
            assert(!same_face(t[s1].0, t[s2].0));
        }
    }
}

/// A face of the table is internal exactly when two element faces name it,
/// and every face of the table is named by some element face.
pub proof fn lemma_internal_iff_shared(occ: Seq<(int, Seq<NodeId>)>)
    ensures
        forall|j: int| 0 <= j < occ.len() ==> 0 <= #[trigger] face_slot(occ, j) < face_table(
            occ,
        ).len(),
        forall|i: int|
            0 <= i < face_table(occ).len() ==> named_below_slot(occ, occ.len() as int, i) && ((
            #[trigger] face_table(occ)[i]).2 is Some <==> shared_below(occ, occ.len() as int, i)),
{
    lemma_slots_prefix(occ, occ.len() as int);
    assert(occ.take(occ.len() as int) =~= occ);
}

/// The face slot of occurrence `j` depends only on the occurrences up to `j`.
pub proof fn lemma_face_slot_prefix(occ: Seq<(int, Seq<NodeId>)>, k: int, j: int)
    requires
        0 <= j < k <= occ.len(),
    ensures
        face_slot(occ.take(k), j) == face_slot(occ, j),
{
    assert(occ.take(k).take(j) =~= occ.take(j));
    assert(occ.take(k)[j] == occ[j]);
}

pub open spec fn table_view(
    nodes: Seq<Vec<NodeId>>,
    owner: Seq<usize>,
    nb: Seq<Option<usize>>,
) -> Seq<(Seq<NodeId>, int, Option<int>)> {
    Seq::new(nodes.len(), |i: int| (nodes[i]@, owner[i] as int, opt_int(nb[i])))
}

/// The face table of a list of elements.
pub struct FaceTable {
    /// Nodes of each face, in the winding order of its first element.
    pub nodes: Vec<Vec<NodeId>>,
    /// Owner cell of each face.
    pub owner: Vec<usize>,
    /// Neighbour cell of each face, where two elements name it.
    pub neighbor: Vec<Option<usize>>,
    /// Face-table index of each element face, in element order.
    pub slots: Vec<usize>,
}

impl FaceTable {
    pub open spec fn view_faces(&self) -> Seq<(Seq<NodeId>, int, Option<int>)> {
        table_view(self.nodes@, self.owner@, self.neighbor@)
    }
}

fn node_values_vec(f: &Vec<NodeId>) -> (r: Vec<u32>)
    ensures
        r@ == node_values(f@),
{
    let mut r: Vec<u32> = Vec::new();
    let mut i: usize = 0;
    while i < f.len()
        invariant
            i <= f.len(),
            r@ == node_values(f@.take(i as int)),
        decreases f.len() - i,
    {
        r.push(f[i].0);
        i += 1;
        proof {
            assert(r@ =~= node_values(f@.take(i as int)));
        }
    }
    proof {
        assert(f@.take(f.len() as int) =~= f@);
    }
    r
}

/// Whether every element has the nodes its type needs.
pub open spec fn elements_complete(es: Seq<RawElement>) -> bool {
    forall|c: int|
        0 <= c < es.len() ==> (#[trigger] es[c]).node_indices@.len() >= spec_node_count(
            es[c].cell_type,
        )
}

/// Builds the face table: extracts each element's faces and merges those that
/// name the same nodes.
pub fn build_face_table(elems: &Vec<RawElement>) -> (r: FaceTable)
    requires
        elements_complete(elems@),
        elems.len() <= usize::MAX / 8,
    ensures
        ({
            let occ = occurrences(element_views(elems@));
            &&& r.nodes.len() == r.owner.len() == r.neighbor.len()
            &&& r.view_faces() == face_table(occ)
            &&& r.slots@.len() == occ.len()
            &&& forall|j: int| 0 <= j < occ.len() ==> r.slots@[j] == face_slot(occ, j)
            &&& forall|j: int| 0 <= j < occ.len() ==> r.slots@[j] < r.nodes.len()
        }),
{
    let ghost es = element_views(elems@);
    let mut nodes: Vec<Vec<NodeId>> = Vec::new();
    let mut owner: Vec<usize> = Vec::new();
    let mut neighbor: Vec<Option<usize>> = Vec::new();
    let mut slots: Vec<usize> = Vec::new();
    let mut index = KeyIndex::new(elems.len() * 6 + 1);
    let ghost mut done: Seq<(int, Seq<NodeId>)> = seq![];
    let mut ci: usize = 0;
    proof {
        assert(es.take(0) =~= seq![]);
        assert(table_view(nodes@, owner@, neighbor@) =~= seq![]);
    }
    while ci < elems.len()
        invariant
            ci <= elems.len() <= usize::MAX / 8,
            es == element_views(elems@),
            elements_complete(elems@),
            done == occurrences(es.take(ci as int)),
            nodes.len() == owner.len() == neighbor.len() == index.keys.len(),
            index.wf(),
            table_view(nodes@, owner@, neighbor@) == face_table(done),
            forall|p: int|
                0 <= p < index.keys.len() ==> sorted_u32(#[trigger] index.keys@[p]@)
                    && index.keys@[p]@.to_multiset() == face_key(nodes@[p]@),
            slots@.len() == done.len(),
            forall|x: int| 0 <= x < done.len() ==> slots@[x] == face_slot(done, x),
            forall|x: int| 0 <= x < done.len() ==> (#[trigger] done[x]).1.len() >= 2,
            forall|x: int| 0 <= x < done.len() ==> 0 <= (#[trigger] done[x]).0 < ci,
            forall|x: int| 0 <= x < slots.len() ==> #[trigger] slots@[x] < nodes.len(),
        decreases elems.len() - ci,
    {
        let local = element_faces(&elems[ci]);
        let ghost lf = element_faces_spec(es[ci as int].0, es[ci as int].1);
        proof {
            assert(es[ci as int] == elems@[ci as int]@);
            lemma_element_faces_shape(es[ci as int].0, es[ci as int].1);
            lemma_occurrences_take(es, ci as int);
        }
        let ghost base = done;
        let mut t: usize = 0;
        while t < local.len()
            invariant
                t <= local.len(),
                ci < elems.len(),
                face_views(local@) == lf,
                lf.len() <= 6,
                forall|u: int| 0 <= u < lf.len() ==> 2 <= #[trigger] lf[u].len() <= 4,
                done == base + lf.take(t as int).map_values(|f: Seq<NodeId>| (ci as int, f)),
                nodes.len() == owner.len() == neighbor.len() == index.keys.len(),
                index.wf(),
                table_view(nodes@, owner@, neighbor@) == face_table(done),
                forall|p: int|
                    0 <= p < index.keys.len() ==> sorted_u32(#[trigger] index.keys@[p]@)
                        && index.keys@[p]@.to_multiset() == face_key(nodes@[p]@),
                slots@.len() == done.len(),
                forall|x: int| 0 <= x < done.len() ==> slots@[x] == face_slot(done, x),
                forall|x: int| 0 <= x < done.len() ==> (#[trigger] done[x]).1.len() >= 2,
                forall|x: int| 0 <= x < done.len() ==> 0 <= (#[trigger] done[x]).0 <= ci,
                forall|x: int| 0 <= x < slots.len() ==> #[trigger] slots@[x] < nodes.len(),
            decreases local.len() - t,
        {
            let f = &local[t];
            let ghost fv = f@;
            proof {
                assert(lf[t as int] == fv);
            }
            let key = sorted_copy(&node_values_vec(f));
            let ghost table = face_table(done);
            let ghost o = (ci as int, fv);
            let ghost next = done.push(o);
            proof {
                assert(next.drop_last() =~= done);
                assert(next.last() == o);
                assert(face_table(next) == add_occurrence(table, o));
                assert(next.take(done.len() as int) =~= done);
                lemma_face_table_distinct(done);

            }
            match index.last_match(&key) {
                Some(p) => {
                    proof {
                        assert(table[p as int].0 == nodes@[p as int]@);
                        lemma_sorted_keys(index.keys@[p as int]@, key@, nodes@[p as int]@, fv);
                        lemma_find_unique(table, fv, p as int);
                        assert(face_slot(next, done.len() as int) == p);
                    }
                    neighbor.set(p, Some(ci));
                    slots.push(p);
                    proof {
                        assert(table_view(nodes@, owner@, neighbor@) =~= add_occurrence(table, o));
                    }
                },
                None => {
                    let q = nodes.len();
                    proof {
                        assert forall|k: int| 0 <= k < table.len() implies !same_face(
                            #[trigger] table[k].0,
                            fv,
                        ) by {
                            assert(table[k].0 == nodes@[k]@);
                            lemma_sorted_keys(index.keys@[k]@, key@, nodes@[k]@, fv);
                        }
                        lemma_find_face(table, fv);
                        assert(find_face(table, fv) is None);
                        assert(face_slot(next, done.len() as int) == q);
                    }
                    let ghost old_keys = index.keys@;
                    index.push(key);
                    let copy = copy_nodes(f);
                    nodes.push(copy);
                    owner.push(ci);
                    neighbor.push(None);
                    slots.push(q);
                    proof {
                        assert(table_view(nodes@, owner@, neighbor@) =~= add_occurrence(table, o));
                        assert forall|p: int|
                            0 <= p < index.keys.len() implies sorted_u32(
                            #[trigger] index.keys@[p]@,
                        ) && index.keys@[p]@.to_multiset() == face_key(nodes@[p]@) by {
                            if p < q {
                                assert(index.key_views()[p] == old_keys[p]@);
                            } else {
                                assert(index.key_views()[p] == key@);
                            }
                        }
                    }
                },
            }
            proof {
                assert forall|x: int| 0 <= x < next.len() implies slots@[x] == face_slot(next, x) by {
                    if x < done.len() {
                        lemma_face_slot_prefix(next, done.len() as int, x);
                    }
                }
                assert(lf.take(t + 1).map_values(|g: Seq<NodeId>| (ci as int, g)) =~= lf.take(
                    t as int,
                ).map_values(|g: Seq<NodeId>| (ci as int, g)).push(o));
            }
            proof {
                done = next;
            }
            t += 1;
        }
        proof {
            assert(lf.take(local.len() as int) =~= lf);
        }
        ci += 1;
    }
    proof {
        assert(es.take(elems.len() as int) =~= es);
    }
    FaceTable { nodes, owner, neighbor, slots }
}

fn copy_nodes(f: &Vec<NodeId>) -> (r: Vec<NodeId>)
    ensures
        r@ == f@,
{
    let mut r: Vec<NodeId> = Vec::new();
    let mut i: usize = 0;
    while i < f.len()
        invariant
            i <= f.len(),
            r@ == f@.take(i as int),
        decreases f.len() - i,
    {
        r.push(f[i]);
        i += 1;
        proof {
            assert(r@ =~= f@.take(i as int));
        }
    }
    proof {
        assert(f@.take(f.len() as int) =~= f@);
    }
    r
}


// ---------------------------------------------------------------------------
// Boundary patches and the face order
// ---------------------------------------------------------------------------

pub open spec fn boundary_views(v: Seq<RawBoundaryFace>) -> Seq<(Seq<u32>, i32, Seq<char>)> {
    v.map_values(|b: RawBoundaryFace| b@)
}

/// The patch of a boundary face with nodes `f`: the name of the last raw
/// boundary face with the same nodes, or `default`.
pub open spec fn boundary_name(bfs: Seq<(Seq<u32>, i32, Seq<char>)>, f: Seq<NodeId>) -> Seq<char>
    decreases bfs.len(),
{
    if bfs.len() == 0 {
        "default"@
    } else if bfs.last().0.to_multiset() == face_key(f) {
        bfs.last().2
    } else {
        boundary_name(bfs.drop_last(), f)
    }
}

/// The indices below `n` that satisfy `pred`, in increasing order.
pub open spec fn indices_where(n: nat, pred: spec_fn(int) -> bool) -> Seq<int>
    decreases n,
{
    if n == 0 {
        seq![]
    } else {
        let prev = indices_where((n - 1) as nat, pred);
        if pred(n - 1) {
            prev.push(n - 1)
        } else {
            prev
        }
    }
}

pub open spec fn internal_pred(faces: Seq<(Seq<NodeId>, int, Option<int>)>) -> spec_fn(int) -> bool {
    |i: int| faces[i].2 is Some
}

pub open spec fn patch_pred(
    faces: Seq<(Seq<NodeId>, int, Option<int>)>,
    bfs: Seq<(Seq<u32>, i32, Seq<char>)>,
    name: Seq<char>,
) -> spec_fn(int) -> bool {
    |i: int| faces[i].2 is None && boundary_name(bfs, faces[i].0) == name
}

/// The internal faces of the table, in table order.
pub open spec fn internal_faces(faces: Seq<(Seq<NodeId>, int, Option<int>)>) -> Seq<int> {
    indices_where(faces.len(), internal_pred(faces))
}

/// The boundary faces of patch `name`, in table order.
pub open spec fn patch_faces(
    faces: Seq<(Seq<NodeId>, int, Option<int>)>,
    bfs: Seq<(Seq<u32>, i32, Seq<char>)>,
    name: Seq<char>,
) -> Seq<int> {
    indices_where(faces.len(), patch_pred(faces, bfs, name))
}

/// Whether some boundary face of the table belongs to patch `name`.
pub open spec fn used_name(
    faces: Seq<(Seq<NodeId>, int, Option<int>)>,
    bfs: Seq<(Seq<u32>, i32, Seq<char>)>,
    name: Seq<char>,
) -> bool {
    exists|i: int|
        0 <= i < faces.len() && faces[i].2 is None && #[trigger] boundary_name(bfs, faces[i].0)
            == name
}

/// The faces of the first `q` patches of `names`, patch after patch.
pub open spec fn patches_concat(
    faces: Seq<(Seq<NodeId>, int, Option<int>)>,
    bfs: Seq<(Seq<u32>, i32, Seq<char>)>,
    names: Seq<Seq<char>>,
    q: nat,
) -> Seq<int>
    decreases q,
{
    if q == 0 {
        seq![]
    } else {
        patches_concat(faces, bfs, names, (q - 1) as nat) + patch_faces(faces, bfs, names[q - 1])
    }
}

/// The final face order: internal faces, then each patch in the order of `names`.
pub open spec fn face_order(
    faces: Seq<(Seq<NodeId>, int, Option<int>)>,
    bfs: Seq<(Seq<u32>, i32, Seq<char>)>,
    names: Seq<Seq<char>>,
) -> Seq<int> {
    internal_faces(faces) + patches_concat(faces, bfs, names, names.len())
}

pub open spec fn ids_view(v: Seq<usize>) -> Seq<int> {
    v.map_values(|x: usize| x as int)
}

pub proof fn lemma_sorted_multiset(ka: Seq<u32>, kb: Seq<u32>)
    requires
        sorted_u32(ka),
        sorted_u32(kb),
    ensures
        (ka == kb) <==> (ka.to_multiset() == kb.to_multiset()),
{
    if ka.to_multiset() == kb.to_multiset() {
        let leq = |x: u32, y: u32| x <= y;
        assert(vstd::relations::total_ordering(leq));
        assert(vstd::relations::sorted_by(ka, leq));
        assert(vstd::relations::sorted_by(kb, leq));
        vstd::seq_lib::lemma_sorted_unique(ka, kb, leq);
    }
}

pub proof fn lemma_boundary_name_last(bfs: Seq<(Seq<u32>, i32, Seq<char>)>, f: Seq<NodeId>, p: int)
    requires
        0 <= p < bfs.len(),
        bfs[p].0.to_multiset() == face_key(f),
        forall|q: int| p < q < bfs.len() ==> (#[trigger] bfs[q]).0.to_multiset() != face_key(f),
    ensures
        boundary_name(bfs, f) == bfs[p].2,
    decreases bfs.len(),
{
    if p < bfs.len() - 1 {
        let d = bfs.drop_last();
        assert(bfs[bfs.len() - 1].0.to_multiset() != face_key(f));
        assert forall|q: int| p < q < d.len() implies (#[trigger] d[q]).0.to_multiset() != face_key(
            f,
        ) by {
            assert(d[q] == bfs[q]);
        }
        lemma_boundary_name_last(d, f, p);
    }
}

pub proof fn lemma_boundary_name_none(bfs: Seq<(Seq<u32>, i32, Seq<char>)>, f: Seq<NodeId>)
    requires
        forall|q: int| 0 <= q < bfs.len() ==> (#[trigger] bfs[q]).0.to_multiset() != face_key(f),
    ensures
        boundary_name(bfs, f) == "default"@,
    decreases bfs.len(),
{
    if bfs.len() > 0 {
        let d = bfs.drop_last();
        assert(bfs[bfs.len() - 1].0.to_multiset() != face_key(f));
        assert forall|q: int| 0 <= q < d.len() implies (#[trigger] d[q]).0.to_multiset()
            != face_key(f) by {
            assert(d[q] == bfs[q]);
        }
        lemma_boundary_name_none(d, f);
    }
}

/// The patch name of a face is decided by the last boundary face with its
/// nodes: one more boundary face with the face's nodes names its patch, ...
pub proof fn lemma_boundary_name_last_wins(
    bfs: Seq<(Seq<u32>, i32, Seq<char>)>,
    b: (Seq<u32>, i32, Seq<char>),
    f: Seq<NodeId>,
)
    ensures
        b.0.to_multiset() == face_key(f) ==> boundary_name(bfs.push(b), f) == b.2,
        b.0.to_multiset() != face_key(f) ==> boundary_name(bfs.push(b), f) == boundary_name(
            bfs,
            f,
        ),
        boundary_name(seq![], f) == "default"@,
{
    assert(bfs.push(b).drop_last() =~= bfs);
}

/// The indices chosen by `indices_where` are below `n`, satisfy `pred`, come in
/// increasing order, and are all such indices.
pub proof fn lemma_indices_where(n: nat, pred: spec_fn(int) -> bool)
    ensures
        forall|k: int|
            0 <= k < indices_where(n, pred).len() ==> 0 <= #[trigger] indices_where(n, pred)[k] < n
                && pred(indices_where(n, pred)[k]),
        forall|k1: int, k2: int|
            0 <= k1 < k2 < indices_where(n, pred).len() ==> #[trigger] indices_where(n, pred)[k1]
                < #[trigger] indices_where(n, pred)[k2],
        forall|i: int| 0 <= i < n && pred(i) ==> #[trigger] indices_where(n, pred).contains(i),
    decreases n,
{
    if n > 0 {
        let m = (n - 1) as nat;
        lemma_indices_where(m, pred);
        let prev = indices_where(m, pred);
        let s = indices_where(n, pred);
        assert forall|i: int| 0 <= i < n && pred(i) implies #[trigger] s.contains(i) by {
            if i < n - 1 {
                assert(prev.contains(i));
                let k = choose|k: int| 0 <= k < prev.len() && prev[k] == i;
                assert(s[k] == i);
            } else {
                assert(s[prev.len() as int] == i);
            }
        }
    }
}

pub open spec fn no_dup_ints(s: Seq<int>) -> bool {
    forall|i: int, j: int| 0 <= i < s.len() && 0 <= j < s.len() && i != j ==> s[i] != s[j]
}

proof fn lemma_concat_no_dup(a: Seq<int>, c: Seq<int>)
    requires
        no_dup_ints(a),
        no_dup_ints(c),
        forall|x: int| #[trigger] a.contains(x) ==> !c.contains(x),
    ensures
        no_dup_ints(a + c),
{
    let s = a + c;
    assert forall|i: int, j: int| 0 <= i < s.len() && 0 <= j < s.len() && i != j implies s[i]
        != s[j] by {
        if i < a.len() && j >= a.len() {
            assert(a.contains(s[i]));
            assert(c[j - a.len()] == s[j]);
        } else if j < a.len() && i >= a.len() {
            assert(a.contains(s[j]));
            assert(c[i - a.len()] == s[i]);
        } else if i < a.len() {
            assert(s[i] == a[i] && s[j] == a[j]);
        } else {
            assert(s[i] == c[i - a.len()] && s[j] == c[j - a.len()]);
        }
    }
}

/// Whether `n` is one of the first `q` names.
pub open spec fn named_below(names: Seq<Seq<char>>, q: int, n: Seq<char>) -> bool {
    exists|qq: int| 0 <= qq < q && #[trigger] names[qq] == n
}

proof fn lemma_patches_concat(
    faces: Seq<(Seq<NodeId>, int, Option<int>)>,
    bfs: Seq<(Seq<u32>, i32, Seq<char>)>,
    names: Seq<Seq<char>>,
    q: nat,
)
    requires
        q <= names.len(),
        strictly_sorted(names),
    ensures
        no_dup_ints(patches_concat(faces, bfs, names, q)),
        forall|k: int|
            0 <= k < patches_concat(faces, bfs, names, q).len() ==> {
                let e = #[trigger] patches_concat(faces, bfs, names, q)[k];
                &&& 0 <= e < faces.len()
                &&& faces[e].2 is None
                &&& named_below(names, q as int, boundary_name(bfs, faces[e].0))
            },
        forall|i: int, qq: int|
            0 <= i < faces.len() && 0 <= qq < q && faces[i].2 is None && boundary_name(
                bfs,
                faces[i].0,
            ) == #[trigger] names[qq] ==> #[trigger] patches_concat(faces, bfs, names, q).contains(
                i,
            ),
    decreases q,
{
    if q > 0 {
        let m = (q - 1) as nat;
        lemma_patches_concat(faces, bfs, names, m);
        let a = patches_concat(faces, bfs, names, m);
        let c = patch_faces(faces, bfs, names[q - 1]);
        let pred = patch_pred(faces, bfs, names[q - 1]);
        lemma_indices_where(faces.len(), pred);
        let s = patches_concat(faces, bfs, names, q);
        assert(s == a + c);
        assert forall|x: int| #[trigger] a.contains(x) implies !c.contains(x) by {
            let k = choose|k: int| 0 <= k < a.len() && a[k] == x;
            let e = a[k];
            let qq = choose|qq: int| 0 <= qq < m && #[trigger] names[qq] == boundary_name(
                bfs,
                faces[e].0,
            );
            if c.contains(x) {
                let k2 = choose|k2: int| 0 <= k2 < c.len() && c[k2] == x;
                assert(pred(c[k2]));
                assert(lex_lt(names[qq], names[q - 1]));
                lemma_lex_irreflexive(names[qq]);
            }
        }
        lemma_concat_no_dup(a, c);
        assert forall|k: int| 0 <= k < s.len() implies {
            let e = #[trigger] s[k];
            &&& 0 <= e < faces.len()
            &&& faces[e].2 is None
            &&& named_below(names, q as int, boundary_name(bfs, faces[e].0))
        } by {
            if k < a.len() {
                assert(s[k] == a[k]);
                let e = a[k];
                let qq = choose|qq: int| 0 <= qq < m && #[trigger] names[qq] == boundary_name(
                    bfs,
                    faces[e].0,
                );
                assert(names[qq] == boundary_name(bfs, faces[e].0));
            } else {
                assert(s[k] == c[k - a.len()]);
                assert(pred(c[k - a.len()]));
                assert(names[q - 1] == boundary_name(bfs, faces[s[k]].0));
            }
        }
        assert forall|i: int, qq: int|
            0 <= i < faces.len() && 0 <= qq < q && faces[i].2 is None && boundary_name(
                bfs,
                faces[i].0,
            ) == #[trigger] names[qq] implies #[trigger] s.contains(i) by {
            if qq < m {
                assert(a.contains(i));
                let k = choose|k: int| 0 <= k < a.len() && a[k] == i;
                assert(s[k] == i);
            } else {
                assert(pred(i));
                assert(c.contains(i));
                let k = choose|k: int| 0 <= k < c.len() && c[k] == i;
                assert(s[a.len() + k] == i);
            }
        }
    }
}

/// The face order is a permutation of the faces of the table: internal faces
/// first, then each boundary face once, in the patch of its name.
pub proof fn lemma_face_order_permutation(
    faces: Seq<(Seq<NodeId>, int, Option<int>)>,
    bfs: Seq<(Seq<u32>, i32, Seq<char>)>,
    names: Seq<Seq<char>>,
)
    requires
        strictly_sorted(names),
        forall|n: Seq<char>| names.contains(n) <==> used_name(faces, bfs, n),
    ensures
        no_dup_ints(face_order(faces, bfs, names)),
        face_order(faces, bfs, names).len() == faces.len(),
        forall|k: int|
            0 <= k < faces.len() ==> 0 <= #[trigger] face_order(faces, bfs, names)[k] < faces.len(),
        forall|i: int| 0 <= i < faces.len() ==> #[trigger] face_order(faces, bfs, names).contains(i),
        forall|k: int|
            0 <= k < faces.len() ==> (k < internal_faces(faces).len() <==> (faces[#[trigger] face_order(
                faces,
                bfs,
                names,
            )[k]].2 is Some)),
{
    let ip = internal_pred(faces);
    lemma_indices_where(faces.len(), ip);
    let a = internal_faces(faces);
    lemma_patches_concat(faces, bfs, names, names.len());
    let c = patches_concat(faces, bfs, names, names.len());
    let s = face_order(faces, bfs, names);
    assert(s == a + c);
    assert(no_dup_ints(a)) by {
        assert forall|i: int, j: int| 0 <= i < a.len() && 0 <= j < a.len() && i != j implies a[i]
            != a[j] by {
            if i < j {
                assert(a[i] < a[j]);
            } else {
                assert(a[j] < a[i]);
            }
        }
    }
    assert forall|x: int| #[trigger] a.contains(x) implies !c.contains(x) by {
        let k = choose|k: int| 0 <= k < a.len() && a[k] == x;
        assert(ip(a[k]));
        if c.contains(x) {
            let k2 = choose|k2: int| 0 <= k2 < c.len() && c[k2] == x;
            assert(faces[c[k2]].2 is None);
        }
    }
    lemma_concat_no_dup(a, c);
    assert forall|i: int| 0 <= i < faces.len() implies #[trigger] s.contains(i) by {
        if faces[i].2 is Some {
            assert(ip(i));
            assert(a.contains(i));
            let k = choose|k: int| 0 <= k < a.len() && a[k] == i;
            assert(s[k] == i);
        } else {
            let n = boundary_name(bfs, faces[i].0);
            assert(used_name(faces, bfs, n));
            assert(names.contains(n));
            let qq = choose|qq: int| 0 <= qq < names.len() && names[qq] == n;
            assert(c.contains(i));
            let k = choose|k: int| 0 <= k < c.len() && c[k] == i;
            assert(s[a.len() + k] == i);
        }
    }
    assert forall|k: int| 0 <= k < s.len() implies 0 <= #[trigger] s[k] < faces.len() && (k
        < a.len() <==> faces[s[k]].2 is Some) by {
        if k < a.len() {
            assert(s[k] == a[k]);
            assert(ip(a[k]));
        } else {
            assert(s[k] == c[k - a.len()]);
        }
    }
    // Same elements, no duplicates: the order has as many entries as the table.
    let r = vstd::set_lib::set_int_range(0, faces.len() as int);
    assert(s.to_set() =~= r) by {
        assert forall|x: int| s.to_set().contains(x) implies r.contains(x) by {
            assert(s.contains(x));
            let k = choose|k: int| 0 <= k < s.len() && s[k] == x;
        }
        assert forall|x: int| r.contains(x) implies s.to_set().contains(x) by {
            assert(s.contains(x));
        }
    }
    assert(s.no_duplicates()) by {
        assert forall|i: int, j: int| 0 <= i < s.len() && 0 <= j < s.len() && i != j implies s[i]
            != s[j] by {}
    }
    s.unique_seq_to_set();
    vstd::set_lib::lemma_int_range(0, faces.len() as int);
}

/// The patch name of each face of the table (empty for internal faces).
fn face_patch_names(table: &FaceTable, bfs: &Vec<RawBoundaryFace>) -> (r: Vec<Vec<char>>)
    requires
        table.nodes.len() == table.owner.len() == table.neighbor.len(),
    ensures
        r.len() == table.nodes.len(),
        forall|i: int|
            0 <= i < r.len() && table.neighbor@[i] is None ==> (#[trigger] r@[i])@ == boundary_name(
                boundary_views(bfs@),
                table.nodes@[i]@,
            ),
{
    let ghost b = boundary_views(bfs@);
    let mut index = KeyIndex::new(bfs.len());
    let mut j: usize = 0;
    while j < bfs.len()
        invariant
            j <= bfs.len(),
            index.wf(),
            index.keys.len() == j,
            forall|p: int|
                0 <= p < j ==> sorted_u32(#[trigger] index.keys@[p]@)
                    && index.keys@[p]@.to_multiset() == bfs@[p].node_indices@.to_multiset(),
        decreases bfs.len() - j,
    {
        let key = sorted_copy(&bfs[j].node_indices);
        let ghost old_keys = index.keys@;
        index.push(key);
        proof {
            assert forall|p: int| 0 <= p < j + 1 implies sorted_u32(#[trigger] index.keys@[p]@)
                && index.keys@[p]@.to_multiset() == bfs@[p].node_indices@.to_multiset() by {
                if p < j {
                    assert(index.key_views()[p] == old_keys[p]@);
                } else {
                    assert(index.key_views()[p] == key@);
                }
            }
        }
        j += 1;
    }
    let mut r: Vec<Vec<char>> = Vec::new();
    let mut i: usize = 0;
    while i < table.nodes.len()
        invariant
            i <= table.nodes.len() == table.owner.len() == table.neighbor.len(),
            r.len() == i,
            b == boundary_views(bfs@),
            index.wf(),
            index.keys.len() == bfs.len(),
            forall|p: int|
                0 <= p < bfs.len() ==> sorted_u32(#[trigger] index.keys@[p]@)
                    && index.keys@[p]@.to_multiset() == bfs@[p].node_indices@.to_multiset(),
            forall|k: int|
                0 <= k < i && table.neighbor@[k] is None ==> (#[trigger] r@[k])@ == boundary_name(
                    b,
                    table.nodes@[k]@,
                ),
        decreases table.nodes.len() - i,
    {
        if table.neighbor[i].is_none() {
            let f = &table.nodes[i];
            let key = sorted_copy(&node_values_vec(f));
            let name = match index.last_match(&key) {
                Some(p) => {
                    proof {
                        assert(b[p as int] == bfs@[p as int]@);
                        lemma_sorted_multiset(index.keys@[p as int]@, key@);
                        assert forall|q: int| p < q < b.len() implies (
                        #[trigger] b[q]).0.to_multiset() != face_key(f@) by {
                            assert(b[q] == bfs@[q]@);
                            lemma_sorted_multiset(index.keys@[q]@, key@);
                        }
                        lemma_boundary_name_last(b, f@, p as int);
                    }
                    chars_of(bfs[p].physical_name.as_str())
                },
                None => {
                    proof {
                        assert forall|q: int| 0 <= q < b.len() implies (
                        #[trigger] b[q]).0.to_multiset() != face_key(f@) by {
                            assert(b[q] == bfs@[q]@);
                            lemma_sorted_multiset(index.keys@[q]@, key@);
                        }
                        lemma_boundary_name_none(b, f@);
                    }
                    chars_of("default")
                },
            };
            r.push(name);
        } else {
            r.push(Vec::new());
        }
        i += 1;
    }
    r
}

/// The face order and the patches of a face table.
pub struct FaceGrouping {
    /// Table indices of the faces in their final order.
    pub order: Vec<usize>,
    /// Number of internal faces; they come first.
    pub n_internal: usize,
    /// Patch names in increasing order.
    pub patch_names: Vec<Vec<char>>,
    /// Number of faces of each patch.
    pub patch_sizes: Vec<usize>,
}

fn indices_matching_internal(table: &FaceTable) -> (r: Vec<usize>)
    requires
        table.nodes.len() == table.owner.len() == table.neighbor.len(),
    ensures
        ids_view(r@) == internal_faces(table.view_faces()),
        forall|k: int| 0 <= k < r.len() ==> r@[k] < table.nodes.len(),
{
    let ghost faces = table.view_faces();
    let mut r: Vec<usize> = Vec::new();
    let mut i: usize = 0;
    while i < table.nodes.len()
        invariant
            i <= table.nodes.len() == table.owner.len() == table.neighbor.len(),
            faces == table.view_faces(),
            ids_view(r@) == indices_where(i as nat, internal_pred(faces)),
            forall|k: int| 0 <= k < r.len() ==> r@[k] < i,
        decreases table.nodes.len() - i,
    {
        let ghost old_r = r@;
        if table.neighbor[i].is_some() {
            r.push(i);
        }
        proof {
            assert(faces[i as int].2 == opt_int(table.neighbor@[i as int]));
            assert(ids_view(r@) =~= indices_where((i + 1) as nat, internal_pred(faces)));
        }
        i += 1;
    }
    r
}

fn indices_matching_patch(
    table: &FaceTable,
    names: &Vec<Vec<char>>,
    name: &Vec<char>,
    Ghost(bfs): Ghost<Seq<(Seq<u32>, i32, Seq<char>)>>,
) -> (r: Vec<usize>)
    requires
        table.nodes.len() == table.owner.len() == table.neighbor.len() == names.len(),
        forall|i: int|
            0 <= i < names.len() && table.neighbor@[i] is None ==> (#[trigger] names@[i])@
                == boundary_name(bfs, table.nodes@[i]@),
    ensures
        ids_view(r@) == patch_faces(table.view_faces(), bfs, name@),
        forall|k: int| 0 <= k < r.len() ==> r@[k] < table.nodes.len(),
{
    let ghost faces = table.view_faces();
    let mut r: Vec<usize> = Vec::new();
    let mut i: usize = 0;
    while i < table.nodes.len()
        invariant
            i <= table.nodes.len() == table.owner.len() == table.neighbor.len() == names.len(),
            faces == table.view_faces(),
            forall|k: int|
                0 <= k < names.len() && table.neighbor@[k] is None ==> (#[trigger] names@[k])@
                    == boundary_name(bfs, table.nodes@[k]@),
            ids_view(r@) == indices_where(i as nat, patch_pred(faces, bfs, name@)),
            forall|k: int| 0 <= k < r.len() ==> r@[k] < i,
        decreases table.nodes.len() - i,
    {
        let ghost old_r = r@;
        if table.neighbor[i].is_none() && same_name(&names[i], name) {
            r.push(i);
        }
        proof {
            assert(faces[i as int].2 == opt_int(table.neighbor@[i as int]));
            assert(faces[i as int].0 == table.nodes@[i as int]@);
            assert(ids_view(r@) =~= indices_where((i + 1) as nat, patch_pred(faces, bfs, name@)));
        }
        i += 1;
    }
    r
}

/// Orders the faces of a table: internal faces first, then the boundary faces
/// patch by patch, patches sorted by name; within each group table order.
pub fn group_faces(table: &FaceTable, bfs: &Vec<RawBoundaryFace>) -> (r: FaceGrouping)
    requires
        table.nodes.len() == table.owner.len() == table.neighbor.len(),
    ensures
        ({
            let faces = table.view_faces();
            let b = boundary_views(bfs@);
            let names = name_views(r.patch_names@);
            &&& strictly_sorted(names)
            &&& forall|n: Seq<char>| names.contains(n) <==> used_name(faces, b, n)
            &&& ids_view(r.order@) == face_order(faces, b, names)
            &&& r.n_internal == internal_faces(faces).len()
            &&& r.patch_sizes.len() == names.len()
            &&& forall|q: int|
                0 <= q < names.len() ==> r.patch_sizes@[q] == patch_faces(faces, b, names[q]).len()
        }),
{
    let ghost faces = table.view_faces();
    let ghost b = boundary_views(bfs@);
    let face_names = face_patch_names(table, bfs);
    let nf = table.nodes.len();
    let mut names: Vec<Vec<char>> = Vec::new();
    let mut i: usize = 0;
    while i < nf
        invariant
            i <= nf == table.nodes.len() == table.owner.len() == table.neighbor.len()
                == face_names.len(),
            faces == table.view_faces(),
            forall|k: int|
                0 <= k < nf && table.neighbor@[k] is None ==> (#[trigger] face_names@[k])@
                    == boundary_name(b, table.nodes@[k]@),
            strictly_sorted(name_views(names@)),
            forall|n: Seq<char>|
                name_views(names@).contains(n) <==> exists|k: int|
                    0 <= k < i && faces[k].2 is None && #[trigger] boundary_name(b, faces[k].0)
                        == n,
        decreases nf - i,
    {
        let ghost old_names = name_views(names@);
        proof {
            assert(faces[i as int].2 == opt_int(table.neighbor@[i as int]));
            assert(faces[i as int].0 == table.nodes@[i as int]@);
        }
        if table.neighbor[i].is_none() {
            let n = copy_chars(&face_names[i]);
            insert_name(&mut names, n);
        }
        proof {
            assert forall|n: Seq<char>| name_views(names@).contains(n) <==> exists|k: int|
                0 <= k < i + 1 && faces[k].2 is None && #[trigger] boundary_name(b, faces[k].0)
                    == n by {
                if name_views(names@).contains(n) && !old_names.contains(n) {
                    assert(faces[i as int].2 is None && boundary_name(b, faces[i as int].0) == n);
                }
                if exists|k: int|
                    0 <= k < i + 1 && faces[k].2 is None && #[trigger] boundary_name(b, faces[k].0)
                        == n {
                    let k = choose|k: int|
                        0 <= k < i + 1 && faces[k].2 is None && #[trigger] boundary_name(
                            b,
                            faces[k].0,
                        ) == n;
                    if k == i {
                        assert(name_views(names@).contains(n));
                    }
                }
            }
        }
        i += 1;
    }
    let mut order = indices_matching_internal(table);
    let n_internal = order.len();
    let mut sizes: Vec<usize> = Vec::new();
    let mut q: usize = 0;
    proof {
        assert(ids_view(order@) =~= internal_faces(faces) + patches_concat(
            faces,
            b,
            name_views(names@),
            0,
        ));
    }
    while q < names.len()
        invariant
            q <= names.len(),
            nf == table.nodes.len() == table.owner.len() == table.neighbor.len()
                == face_names.len(),
            faces == table.view_faces(),
            forall|k: int|
                0 <= k < nf && table.neighbor@[k] is None ==> (#[trigger] face_names@[k])@
                    == boundary_name(b, table.nodes@[k]@),
            ids_view(order@) == internal_faces(faces) + patches_concat(
                faces,
                b,
                name_views(names@),
                q as nat,
            ),
            sizes.len() == q,
            forall|k: int|
                0 <= k < q ==> sizes@[k] == patch_faces(faces, b, name_views(names@)[k]).len(),
        decreases names.len() - q,
    {
        let group = indices_matching_patch(table, &face_names, &names[q], Ghost(b));
        proof {
            assert(name_views(names@)[q as int] == names@[q as int]@);
        }
        let ghost old_order = ids_view(order@);
        let mut t: usize = 0;
        while t < group.len()
            invariant
                t <= group.len(),
                ids_view(order@) == old_order + ids_view(group@).take(t as int),
            decreases group.len() - t,
        {
            let ghost before = order@;
            order.push(group[t]);
            proof {
                assert(order@ == before.push(group@[t as int]));
                assert(ids_view(order@) =~= ids_view(before).push(group@[t as int] as int));
                assert(ids_view(group@).take(t + 1) =~= ids_view(group@).take(t as int).push(
                    group@[t as int] as int,
                ));
            }
            t += 1;
            proof {
                assert(ids_view(order@) =~= old_order + ids_view(group@).take(t as int));
            }
        }
        proof {
            assert(ids_view(group@).take(group.len() as int) =~= ids_view(group@));
            assert(ids_view(order@) =~= internal_faces(faces) + patches_concat(
                faces,
                b,
                name_views(names@),
                (q + 1) as nat,
            ));
        }
        sizes.push(group.len());
        q += 1;
    }
    FaceGrouping { order, n_internal, patch_names: names, patch_sizes: sizes }
}

fn copy_chars(s: &Vec<char>) -> (r: Vec<char>)
    ensures
        r@ == s@,
{
    let mut r: Vec<char> = Vec::new();
    let mut i: usize = 0;
    while i < s.len()
        invariant
            i <= s.len(),
            r@ == s@.take(i as int),
        decreases s.len() - i,
    {
        r.push(s[i]);
        i += 1;
        proof {
            assert(r@ =~= s@.take(i as int));
        }
    }
    proof {
        assert(s@.take(s.len() as int) =~= s@);
    }
    r
}

} // verus!
