//! The face-based mesh layout: the topology arrays of an unstructured FVM mesh,
//! built from raw element connectivity.
//!
//! ```text
//! Face indices: [0 .. n_internal_faces) [n_internal_faces .. n_faces)
//!                ├── internal faces ──┤ ├── boundary faces ─────────┤
//!                                       ├─ patch 0 ─┤ ├─ patch 1 ─┤ ...
//! ```
//!
//! Connectivity lists are stored compressed (CSR): the entries of item `k` are
//! `indices[offsets[k] .. offsets[k + 1]]`.

use vstd::prelude::*;

use crate::index::{CellId, FaceId, NodeId};
use crate::mesh::{spec_face_count, BoundaryPatch, CellType, RawBoundaryFace, RawElement};
use crate::names::{name_views, same_name, strictly_sorted};
use crate::text::{chars_of, string_from_chars};
use crate::topology::{
    boundary_views, build_face_table, element_views, elements_complete, face_order, face_slot,
    face_table, group_faces, ids_view, internal_faces, lemma_face_order_permutation,
    lemma_face_table_cells, lemma_face_table_distinct, lemma_face_table_sizes,
    lemma_occurrence_cells_sorted, lemma_occurrence_sizes, lemma_occurrences_len,
    lemma_occurrences_take, lemma_element_faces_shape, lemma_internal_iff_shared, named_below_slot,
    no_dup_ints, occurrences, opt_int, shared_below, lemma_slot_iff_same_nodes, lemma_slot_nodes,
    same_face,
    patch_faces, patches_concat, used_name, FaceGrouping, FaceTable,
};

verus! {

// ---------------------------------------------------------------------------
// Compressed connectivity
// ---------------------------------------------------------------------------

/// The entries of item `k` of a compressed list.
pub open spec fn csr_entry<T>(offsets: Seq<u32>, items: Seq<T>, k: int) -> Seq<T> {
    items.subrange(offsets[k] as int, offsets[k + 1] as int)
}

/// A compressed list of `n` items: offsets start at zero, never decrease and
/// end at the number of entries.
pub open spec fn csr_ok<T>(offsets: Seq<u32>, items: Seq<T>, n: int) -> bool {
    &&& offsets.len() == n + 1
    &&& offsets[0] == 0
    &&& offsets[n] == items.len()
    &&& forall|i: int, j: int| 0 <= i <= j <= n ==> #[trigger] offsets[i] <= #[trigger] offsets[j]
}

/// Node ids of raw node numbers.
pub open spec fn node_ids(s: Seq<u32>) -> Seq<NodeId> {
    s.map_values(|v: u32| NodeId(v))
}

/// Number of node entries of the elements `es`.
pub open spec fn node_total(es: Seq<(CellType, Seq<u32>, Option<i32>)>) -> nat
    decreases es.len(),
{
    if es.len() == 0 {
        0
    } else {
        node_total(es.drop_last()) + es.last().1.len()
    }
}

// ---------------------------------------------------------------------------
// Patches
// ---------------------------------------------------------------------------

pub open spec fn patch_names(ps: Seq<BoundaryPatch>) -> Seq<Seq<char>> {
    ps.map_values(|p: BoundaryPatch| p.name@)
}

/// Where the boundary faces of the patches before `q` end.
pub open spec fn patch_end(ps: Seq<BoundaryPatch>, q: int) -> int {
    if q <= 0 {
        0
    } else {
        ps[q - 1].start_face + ps[q - 1].n_faces
    }
}

/// The patches cover the `n_boundary` boundary faces one after the other.
pub open spec fn patches_tile(ps: Seq<BoundaryPatch>, n_boundary: int) -> bool {
    &&& forall|q: int| 0 <= q < ps.len() ==> #[trigger] ps[q].start_face == patch_end(ps, q)
    &&& patch_end(ps, ps.len() as int) == n_boundary
}

// ---------------------------------------------------------------------------
// The topology
// ---------------------------------------------------------------------------

/// The face-based topology of an unstructured mesh.
///
/// Internal faces occupy `[0, n_internal_faces)`, boundary faces follow,
/// grouped patch by patch.
#[derive(Clone, Debug)]
pub struct MeshTopology {
    pub n_nodes: usize,
    pub n_cells: usize,
    pub n_faces: usize,
    /// Number of internal (inter-cell) faces.
    pub n_internal_faces: usize,
    pub cell_types: Vec<CellType>,
    /// Cell-to-face connectivity (CSR).
    pub cell_face_offsets: Vec<u32>,
    pub cell_face_indices: Vec<FaceId>,
    /// Cell-to-node connectivity (CSR).
    pub cell_node_offsets: Vec<u32>,
    pub cell_node_indices: Vec<NodeId>,
    /// Owner cell of each face.
    pub face_owner: Vec<CellId>,
    /// Neighbour cell of each internal face.
    pub face_neighbor: Vec<CellId>,
    /// Face-to-node connectivity (CSR).
    pub face_node_offsets: Vec<u32>,
    pub face_node_indices: Vec<NodeId>,
    pub boundary_patches: Vec<BoundaryPatch>,
}

impl MeshTopology {
    /// The layout invariants of a topology.
    pub open spec fn wf(&self) -> bool {
        &&& self.n_cells <= u32::MAX
        &&& self.n_faces <= u32::MAX
        &&& self.cell_types.len() == self.n_cells
        &&& csr_ok(self.cell_face_offsets@, self.cell_face_indices@, self.n_cells as int)
        &&& csr_ok(self.cell_node_offsets@, self.cell_node_indices@, self.n_cells as int)
        &&& csr_ok(self.face_node_offsets@, self.face_node_indices@, self.n_faces as int)
        &&& self.face_owner.len() == self.n_faces
        &&& self.face_neighbor.len() == self.n_internal_faces
        &&& self.n_internal_faces <= self.n_faces
        &&& forall|x: int|
            0 <= x < self.cell_face_indices.len() ==> (#[trigger] self.cell_face_indices@[x]).0
                < self.n_faces
        &&& forall|k: int|
            0 <= k < self.n_faces ==> (#[trigger] self.face_owner@[k]).0 < self.n_cells
        &&& forall|k: int|
            0 <= k < self.n_internal_faces ==> self.face_owner@[k].0 <= (
            #[trigger] self.face_neighbor@[k]).0 < self.n_cells
        &&& patches_tile(self.boundary_patches@, self.n_faces - self.n_internal_faces)
        &&& strictly_sorted(patch_names(self.boundary_patches@))
    }
}

// ---------------------------------------------------------------------------
// Building
// ---------------------------------------------------------------------------

/// For each table face, its position in `order`.
fn positions(order: &Vec<usize>, n: usize) -> (r: Vec<usize>)
    requires
        no_dup_ints(ids_view(order@)),
        forall|k: int| 0 <= k < order.len() ==> #[trigger] order@[k] < n,
    ensures
        r.len() == n,
        forall|k: int| 0 <= k < order.len() ==> r@[#[trigger] order@[k] as int] == k,
{
    let mut r: Vec<usize> = Vec::new();
    let mut i: usize = 0;
    while i < n
        invariant
            i <= n,
            r.len() == i,
        decreases n - i,
    {
        r.push(0);
        i += 1;
    }
    let mut k: usize = 0;
    while k < order.len()
        invariant
            k <= order.len(),
            r.len() == n,
            no_dup_ints(ids_view(order@)),
            forall|p: int| 0 <= p < order.len() ==> #[trigger] order@[p] < n,
            forall|p: int| 0 <= p < k ==> r@[#[trigger] order@[p] as int] == p,
        decreases order.len() - k,
    {
        let ghost before = r@;
        r.set(order[k], k);
        proof {
            assert forall|p: int| 0 <= p < k + 1 implies r@[#[trigger] order@[p] as int] == p by {
                if p < k {
                    assert(ids_view(order@)[p] != ids_view(order@)[k as int]);
                    assert(before[order@[p] as int] == p);
                }
            }
        }
        k += 1;
    }
    r
}

/// Owner, neighbour and nodes of the faces in the order `order`.
fn face_lists(table: &FaceTable, order: &Vec<usize>, n_internal: usize) -> (r: (
    Vec<CellId>,
    Vec<CellId>,
    Vec<u32>,
    Vec<NodeId>,
))
    requires
        table.nodes.len() == table.owner.len() == table.neighbor.len(),
        order.len() <= u32::MAX / 4,
        n_internal <= order.len(),
        forall|k: int| 0 <= k < order.len() ==> #[trigger] order@[k] < table.nodes.len(),
        forall|k: int|
            0 <= k < order.len() ==> (k < n_internal <==> table.neighbor@[#[trigger] order@[
                k
            ] as int] is Some),
        forall|i: int|
            0 <= i < table.nodes.len() ==> (#[trigger] table.nodes@[i]).len() <= 4
                && table.owner@[i] <= u32::MAX && (table.neighbor@[i] matches Some(n) ==> n
                <= u32::MAX),
    ensures
        r.0.len() == order.len(),
        r.1.len() == n_internal,
        csr_ok(r.2@, r.3@, order.len() as int),
        forall|k: int|
            0 <= k < order.len() ==> (#[trigger] r.0@[k]).0 == table.owner@[order@[k] as int],
        forall|k: int|
            0 <= k < n_internal ==> table.neighbor@[order@[k] as int] == Some(
                (#[trigger] r.1@[k]).0 as usize,
            ),
        forall|k: int|
            0 <= k < order.len() ==> #[trigger] csr_entry(r.2@, r.3@, k) == table.nodes@[order@[
                k
            ] as int]@,
{
    let mut owner: Vec<CellId> = Vec::new();
    let mut neighbor: Vec<CellId> = Vec::new();
    let mut offsets: Vec<u32> = Vec::new();
    let mut nodes: Vec<NodeId> = Vec::new();
    offsets.push(0);
    let mut k: usize = 0;
    while k < order.len()
        invariant
            k <= order.len() <= u32::MAX / 4,
            n_internal <= order.len(),
            table.nodes.len() == table.owner.len() == table.neighbor.len(),
            forall|p: int| 0 <= p < order.len() ==> #[trigger] order@[p] < table.nodes.len(),
            forall|p: int|
                0 <= p < order.len() ==> (p < n_internal <==> table.neighbor@[#[trigger] order@[
                    p
                ] as int] is Some),
            forall|i: int|
                0 <= i < table.nodes.len() ==> (#[trigger] table.nodes@[i]).len() <= 4
                    && table.owner@[i] <= u32::MAX && (table.neighbor@[i] matches Some(n) ==> n
                    <= u32::MAX),
            owner.len() == k,
            neighbor.len() == if k < n_internal {
                k
            } else {
                n_internal
            },
            offsets.len() == k + 1,
            offsets@[0] == 0,
            offsets@[k as int] == nodes.len(),
            nodes.len() <= 4 * k,
            forall|i: int, j: int| 0 <= i <= j <= k ==> #[trigger] offsets@[i] <= #[trigger] offsets@[j],
            forall|p: int| 0 <= p < k ==> (#[trigger] owner@[p]).0 == table.owner@[order@[p] as int],
            forall|p: int|
                0 <= p < k && p < n_internal ==> table.neighbor@[order@[p] as int] == Some(
                    (#[trigger] neighbor@[p]).0 as usize,
                ),
            forall|p: int|
                0 <= p < k ==> #[trigger] csr_entry(offsets@, nodes@, p) == table.nodes@[order@[
                    p
                ] as int]@,
        decreases order.len() - k,
    {
        let i = order[k];
        owner.push(CellId(table.owner[i] as u32));
        match table.neighbor[i] {
            Some(nb) => {
                neighbor.push(CellId(nb as u32));
            },
            None => {},
        }
        let f = &table.nodes[i];
        let ghost old_nodes = nodes@;
        let ghost old_offsets = offsets@;
        let mut t: usize = 0;
        while t < f.len()
            invariant
                t <= f.len() <= 4,
                nodes.len() == old_nodes.len() + t,
                nodes@ == old_nodes + f@.take(t as int),
            decreases f.len() - t,
        {
            nodes.push(f[t]);
            t += 1;
            proof {
                assert(nodes@ =~= old_nodes + f@.take(t as int));
            }
        }
        proof {
            assert(f@.take(f.len() as int) =~= f@);
        }
        offsets.push(nodes.len() as u32);
        proof {
            assert forall|p: int| 0 <= p < k + 1 implies #[trigger] csr_entry(offsets@, nodes@, p)
                == table.nodes@[order@[p] as int]@ by {
                assert(offsets@[p] == old_offsets[p]);
                assert(offsets@[p + 1] as int <= nodes.len());
                if p < k {
                    assert(offsets@[p + 1] == old_offsets[p + 1]);
                    assert(old_offsets[p + 1] <= old_offsets[k as int]);
                    assert(csr_entry(offsets@, nodes@, p) =~= csr_entry(
                        old_offsets,
                        old_nodes,
                        p,
                    ));
                } else {
                    assert(csr_entry(offsets@, nodes@, p) =~= f@);
                }
            }
            assert forall|a: int, b: int| 0 <= a <= b <= k + 1 implies #[trigger] offsets@[a]
                <= #[trigger] offsets@[b] by {
                if b <= k {
                    assert(offsets@[a] == old_offsets[a]);
                    assert(offsets@[b] == old_offsets[b]);
                } else if a <= k {
                    assert(offsets@[a] == old_offsets[a]);
                    assert(old_offsets[a] <= old_offsets[k as int]);
                }
            }
        }
        k += 1;
    }
    (owner, neighbor, offsets, nodes)
}

proof fn lemma_occurrences_prefix_len(es: Seq<(CellType, Seq<u32>, Option<i32>)>, c: int)
    requires
        0 <= c <= es.len(),
    ensures
        occurrences(es.take(c)).len() <= occurrences(es).len(),
    decreases es.len() - c,
{
    if c < es.len() {
        lemma_occurrences_take(es, c);
        lemma_occurrences_prefix_len(es, c + 1);
    } else {
        assert(es.take(c) =~= es);
    }
}

proof fn lemma_node_total_take(es: Seq<(CellType, Seq<u32>, Option<i32>)>, c: int)
    requires
        0 <= c < es.len(),
    ensures
        node_total(es.take(c + 1)) == node_total(es.take(c)) + es[c].1.len(),
{
    assert(es.take(c + 1).drop_last() =~= es.take(c));
}

proof fn lemma_node_total_prefix(es: Seq<(CellType, Seq<u32>, Option<i32>)>, c: int)
    requires
        0 <= c <= es.len(),
    ensures
        node_total(es.take(c)) <= node_total(es),
    decreases es.len() - c,
{
    if c < es.len() {
        lemma_node_total_take(es, c);
        lemma_node_total_prefix(es, c + 1);
    } else {
        assert(es.take(c) =~= es);
    }
}

/// Cell-to-face lists: for each element face, the position of its face.
fn cell_face_lists(elems: &Vec<RawElement>, slots: &Vec<usize>, pos: &Vec<usize>) -> (r: (
    Vec<u32>,
    Vec<FaceId>,
))
    requires
        slots.len() == occurrences(element_views(elems@)).len(),
        slots.len() <= u32::MAX,
        forall|x: int|
            0 <= x < slots.len() ==> #[trigger] slots@[x] < pos.len() && pos@[slots@[x] as int]
                <= u32::MAX,
    ensures
        csr_ok(r.0@, r.1@, elems.len() as int),
        forall|c: int|
            0 <= c <= elems.len() ==> #[trigger] r.0@[c] == occurrences(
                element_views(elems@).take(c),
            ).len(),
        forall|x: int|
            0 <= x < slots.len() ==> (#[trigger] r.1@[x]).0 == pos@[slots@[x] as int],
{
    let ghost es = element_views(elems@);
    let mut offsets: Vec<u32> = Vec::new();
    let mut faces: Vec<FaceId> = Vec::new();
    offsets.push(0);
    let mut x: usize = 0;
    let mut c: usize = 0;
    proof {
        assert(es.take(0) =~= seq![]);
    }
    while c < elems.len()
        invariant
            c <= elems.len(),
            es == element_views(elems@),
            slots.len() == occurrences(es).len() <= u32::MAX,
            forall|y: int|
                0 <= y < slots.len() ==> #[trigger] slots@[y] < pos.len() && pos@[slots@[y] as int]
                    <= u32::MAX,
            x == occurrences(es.take(c as int)).len(),
            faces.len() == x,
            offsets.len() == c + 1,
            offsets@[c as int] == x,
            forall|i: int, j: int| 0 <= i <= j <= c ==> #[trigger] offsets@[i] <= #[trigger] offsets@[j],
            forall|d: int| 0 <= d <= c ==> #[trigger] offsets@[d] == occurrences(es.take(d)).len(),
            forall|y: int| 0 <= y < x ==> (#[trigger] faces@[y]).0 == pos@[slots@[y] as int],
        decreases elems.len() - c,
    {
        let n = elems[c].cell_type.face_count();
        proof {
            assert(es[c as int] == elems@[c as int]@);
            lemma_occurrences_take(es, c as int);
            lemma_element_faces_shape(es[c as int].0, es[c as int].1);
            lemma_occurrences_prefix_len(es, c + 1);
        }
        let mut t: usize = 0;
        while t < n
            invariant
                t <= n,
                x + n <= slots.len(),
                slots.len() <= u32::MAX,
                forall|y: int|
                    0 <= y < slots.len() ==> #[trigger] slots@[y] < pos.len() && pos@[slots@[
                        y
                    ] as int] <= u32::MAX,
                faces.len() == x + t,
                forall|y: int| 0 <= y < x + t ==> (#[trigger] faces@[y]).0 == pos@[slots@[y] as int],
            decreases n - t,
        {
            let v = pos[slots[x + t]];
            faces.push(FaceId(v as u32));
            t += 1;
        }
        let ghost old_offsets = offsets@;
        x = x + n;
        offsets.push(x as u32);
        c += 1;
        proof {
            assert forall|i: int, j: int| 0 <= i <= j <= c implies #[trigger] offsets@[i]
                <= #[trigger] offsets@[j] by {
                if j < c {
                    assert(offsets@[i] == old_offsets[i] && offsets@[j] == old_offsets[j]);
                } else if i < c {
                    assert(offsets@[i] == old_offsets[i]);
                    assert(old_offsets[i] <= old_offsets[c - 1]);
                }
            }
            assert forall|d: int| 0 <= d <= c implies #[trigger] offsets@[d] == occurrences(
                es.take(d),
            ).len() by {
                if d < c {
                    assert(offsets@[d] == old_offsets[d]);
                }
            }
        }
    }
    proof {
        assert(es.take(elems.len() as int) =~= es);
    }
    (offsets, faces)
}

/// Cell types and cell-to-node lists of the elements.
fn cell_node_lists(elems: &Vec<RawElement>) -> (r: (Vec<CellType>, Vec<u32>, Vec<NodeId>))
    requires
        node_total(element_views(elems@)) <= u32::MAX,
    ensures
        r.0.len() == elems.len(),
        forall|c: int| 0 <= c < elems.len() ==> #[trigger] r.0@[c] == elems@[c].cell_type,
        csr_ok(r.1@, r.2@, elems.len() as int),
        forall|c: int|
            0 <= c <= elems.len() ==> #[trigger] r.1@[c] == node_total(
                element_views(elems@).take(c),
            ),
        forall|c: int|
            0 <= c < elems.len() ==> #[trigger] csr_entry(r.1@, r.2@, c) == node_ids(
                elems@[c].node_indices@,
            ),
{
    let ghost es = element_views(elems@);
    let mut types: Vec<CellType> = Vec::new();
    let mut offsets: Vec<u32> = Vec::new();
    let mut nodes: Vec<NodeId> = Vec::new();
    offsets.push(0);
    let mut c: usize = 0;
    proof {
        assert(es.take(0) =~= seq![]);
    }
    while c < elems.len()
        invariant
            c <= elems.len(),
            es == element_views(elems@),
            node_total(es) <= u32::MAX,
            types.len() == c,
            forall|d: int| 0 <= d < c ==> #[trigger] types@[d] == elems@[d].cell_type,
            offsets.len() == c + 1,
            offsets@[c as int] == nodes.len(),
            nodes.len() == node_total(es.take(c as int)),
            forall|i: int, j: int| 0 <= i <= j <= c ==> #[trigger] offsets@[i] <= #[trigger] offsets@[j],
            forall|d: int| 0 <= d <= c ==> #[trigger] offsets@[d] == node_total(es.take(d)),
            forall|d: int|
                0 <= d < c ==> #[trigger] csr_entry(offsets@, nodes@, d) == node_ids(
                    elems@[d].node_indices@,
                ),
        decreases elems.len() - c,
    {
        let e = &elems[c];
        proof {
            assert(es[c as int] == e@);
            lemma_node_total_take(es, c as int);
            lemma_node_total_prefix(es, c + 1);
        }
        types.push(e.cell_type);
        let ghost old_nodes = nodes@;
        let ghost old_offsets = offsets@;
        let mut t: usize = 0;
        while t < e.node_indices.len()
            invariant
                t <= e.node_indices.len(),
                nodes@ == old_nodes + node_ids(e.node_indices@.take(t as int)),
            decreases e.node_indices.len() - t,
        {
            nodes.push(NodeId(e.node_indices[t]));
            t += 1;
            proof {
                assert(nodes@ =~= old_nodes + node_ids(e.node_indices@.take(t as int)));
            }
        }
        proof {
            assert(e.node_indices@.take(e.node_indices.len() as int) =~= e.node_indices@);
        }
        offsets.push(nodes.len() as u32);
        c += 1;
        proof {
            assert forall|i: int, j: int| 0 <= i <= j <= c implies #[trigger] offsets@[i]
                <= #[trigger] offsets@[j] by {
                if j < c {
                    assert(offsets@[i] == old_offsets[i] && offsets@[j] == old_offsets[j]);
                } else if i < c {
                    assert(offsets@[i] == old_offsets[i]);
                    assert(old_offsets[i] <= old_offsets[c - 1]);
                }
            }
            assert forall|d: int| 0 <= d <= c implies #[trigger] offsets@[d] == node_total(
                es.take(d),
            ) by {
                if d < c {
                    assert(offsets@[d] == old_offsets[d]);
                }
            }
            assert forall|d: int| 0 <= d < c implies #[trigger] csr_entry(offsets@, nodes@, d)
                == node_ids(elems@[d].node_indices@) by {
                assert(offsets@[d] == old_offsets[d]);
                if d < c - 1 {
                    assert(offsets@[d + 1] == old_offsets[d + 1]);
                    assert(old_offsets[d + 1] <= old_offsets[c - 1]);
                    assert(csr_entry(offsets@, nodes@, d) =~= csr_entry(
                        old_offsets,
                        old_nodes,
                        d,
                    ));
                } else {
                    assert(csr_entry(offsets@, nodes@, d) =~= node_ids(elems@[d].node_indices@));
                }
            }
        }
    }
    proof {
        assert(es.take(elems.len() as int) =~= es);
    }
    (types, offsets, nodes)
}

proof fn lemma_patches_concat_len(
    faces: Seq<(Seq<NodeId>, int, Option<int>)>,
    bfs: Seq<(Seq<u32>, i32, Seq<char>)>,
    names: Seq<Seq<char>>,
    q: nat,
    m: nat,
)
    requires
        q <= m <= names.len(),
    ensures
        patches_concat(faces, bfs, names, q).len() <= patches_concat(faces, bfs, names, m).len(),
    decreases m - q,
{
    if q < m {
        lemma_patches_concat_len(faces, bfs, names, q, (m - 1) as nat);
    }
}

/// The patches of a grouping, each starting where the previous one ends.
fn make_patches(
    g: &FaceGrouping,
    Ghost(faces): Ghost<Seq<(Seq<NodeId>, int, Option<int>)>>,
    Ghost(bfs): Ghost<Seq<(Seq<u32>, i32, Seq<char>)>>,
) -> (r: Vec<BoundaryPatch>)
    requires
        g.patch_sizes.len() == g.patch_names.len(),
        forall|q: int|
            0 <= q < g.patch_names.len() ==> #[trigger] g.patch_sizes@[q] == patch_faces(
                faces,
                bfs,
                name_views(g.patch_names@)[q],
            ).len(),
        patches_concat(faces, bfs, name_views(g.patch_names@), g.patch_names.len() as nat).len()
            <= usize::MAX,
    ensures
        patch_names(r@) == name_views(g.patch_names@),
        forall|q: int|
            0 <= q < r.len() ==> (#[trigger] r@[q]).n_faces == g.patch_sizes@[q]
                && r@[q].start_face == patches_concat(
                faces,
                bfs,
                name_views(g.patch_names@),
                q as nat,
            ).len(),
{
    let ghost names = name_views(g.patch_names@);
    let mut r: Vec<BoundaryPatch> = Vec::new();
    let mut start: usize = 0;
    let mut q: usize = 0;
    while q < g.patch_names.len()
        invariant
            q <= g.patch_names.len() == g.patch_sizes.len(),
            names == name_views(g.patch_names@),
            forall|p: int|
                0 <= p < g.patch_names.len() ==> #[trigger] g.patch_sizes@[p] == patch_faces(
                    faces,
                    bfs,
                    names[p],
                ).len(),
            patches_concat(faces, bfs, names, g.patch_names.len() as nat).len() <= usize::MAX,
            start == patches_concat(faces, bfs, names, q as nat).len(),
            r.len() == q,
            forall|p: int| 0 <= p < q ==> (#[trigger] r@[p]).name@ == names[p],
            forall|p: int|
                0 <= p < q ==> (#[trigger] r@[p]).n_faces == g.patch_sizes@[p]
                    && r@[p].start_face == patches_concat(faces, bfs, names, p as nat).len(),
        decreases g.patch_names.len() - q,
    {
        proof {
            lemma_patches_concat_len(faces, bfs, names, (q + 1) as nat, g.patch_names.len() as nat);
        }
        let n = g.patch_sizes[q];
        let name = string_from_chars(g.patch_names[q].as_slice());
        r.push(BoundaryPatch { name, start_face: start, n_faces: n });
        start = start + n;
        q += 1;
    }
    proof {
        assert(patch_names(r@) =~= names);
    }
    r
}

/// `r` is the topology of the mesh of `n_nodes` nodes with volume elements
/// `elems` and patch-naming boundary faces `bfs`.
///
/// Faces are those of the face table of the element faces; they are laid out
/// in the face order, with the patches named after the boundary faces.
pub open spec fn builds(
    n_nodes: usize,
    elems: Seq<RawElement>,
    bfs: Seq<RawBoundaryFace>,
    r: MeshTopology,
) -> bool {
    let es = element_views(elems);
    let occ = occurrences(es);
    let faces = face_table(occ);
    let b = boundary_views(bfs);
    let names = patch_names(r.boundary_patches@);
    let order = face_order(faces, b, names);
    &&& r.n_nodes == n_nodes
    &&& r.n_cells == elems.len()
    &&& r.n_faces == faces.len()
    &&& r.n_internal_faces == internal_faces(faces).len()
    &&& forall|n: Seq<char>| names.contains(n) <==> used_name(faces, b, n)
    &&& forall|q: int|
        0 <= q < names.len() ==> (#[trigger] r.boundary_patches@[q]).n_faces
            == patch_faces(faces, b, names[q]).len()
    &&& forall|c: int| 0 <= c < elems.len() ==> #[trigger] r.cell_types@[c] == es[c].0
    &&& forall|c: int|
        0 <= c <= elems.len() ==> #[trigger] r.cell_face_offsets@[c] == occurrences(
            es.take(c),
        ).len()
    &&& forall|x: int|
        0 <= x < occ.len() ==> order[(#[trigger] r.cell_face_indices@[x]).0 as int]
            == face_slot(occ, x)
    &&& forall|c: int|
        0 <= c <= elems.len() ==> #[trigger] r.cell_node_offsets@[c] == node_total(
            es.take(c),
        )
    &&& forall|c: int|
        0 <= c < elems.len() ==> #[trigger] csr_entry(
            r.cell_node_offsets@,
            r.cell_node_indices@,
            c,
        ) == node_ids(es[c].1)
    &&& forall|k: int|
        0 <= k < faces.len() ==> (#[trigger] r.face_owner@[k]).0 == faces[order[k]].1
    &&& forall|k: int|
        0 <= k < r.n_internal_faces ==> Some((#[trigger] r.face_neighbor@[k]).0 as int)
            == faces[order[k]].2
    &&& forall|k: int|
        0 <= k < faces.len() ==> #[trigger] csr_entry(
            r.face_node_offsets@,
            r.face_node_indices@,
            k,
        ) == faces[order[k]].0
}

/// Builds the topology of a mesh of `n_nodes` nodes from its volume elements
/// and the boundary faces that name its patches.
///
/// Faces named by two elements are internal; the others are boundary faces,
/// each in the patch of the last boundary face with the same nodes, or in
/// `"default"`. Internal faces come first, then the patches sorted by name;
/// within each group faces keep the order in which the elements first name
/// them.
#[verifier::spinoff_prover]
#[verifier::rlimit(40)]
pub fn build_topology(n_nodes: usize, elems: &Vec<RawElement>, bfs: &Vec<RawBoundaryFace>) -> (r:
    MeshTopology)
    requires
        elements_complete(elems@),
        elems.len() <= u32::MAX / 24,
        node_total(element_views(elems@)) <= u32::MAX,
    ensures
        r.wf(),
        builds(n_nodes, elems@, bfs@, r),
{
    let ghost es = element_views(elems@);
    let ghost occ = occurrences(es);
    let ghost faces = face_table(occ);
    let ghost b = boundary_views(bfs@);
    let table = build_face_table(elems);
    let g = group_faces(&table, bfs);
    let ghost names = name_views(g.patch_names@);
    let ghost order = face_order(faces, b, names);
    proof {
        lemma_face_order_permutation(faces, b, names);
        lemma_occurrences_len(es);
        lemma_face_table_distinct(occ);
        lemma_face_table_sizes(es);
        lemma_occurrence_sizes(es);
        lemma_occurrence_cells_sorted(es);
        if occ.len() > 0 {
            lemma_face_table_cells(occ);
        }
        assert(table.view_faces().len() == table.nodes.len());
        assert forall|k: int| 0 <= k < g.order.len() implies #[trigger] g.order@[k] == order[k] by {
            assert(ids_view(g.order@)[k] == g.order@[k] as int);
        }
        assert forall|i: int| 0 <= i < table.nodes.len() implies (#[trigger] table.nodes@[i]).len()
            <= 4 && table.owner@[i] <= u32::MAX && (table.neighbor@[i] matches Some(n) ==> n
            <= u32::MAX) by {
            assert(table.view_faces()[i] == faces[i]);
            if occ.len() > 0 {
                assert(occ[occ.len() - 1].0 < es.len());
            }
        }
    }
    let nf = table.nodes.len();
    let pos = positions(&g.order, nf);
    let lists = face_lists(&table, &g.order, g.n_internal);
    proof {
        assert forall|x: int| 0 <= x < table.slots.len() implies #[trigger] table.slots@[x]
            < pos.len() && pos@[table.slots@[x] as int] <= u32::MAX by {
            let i = table.slots@[x] as int;
            assert(order.contains(i));
            let k = choose|k: int| 0 <= k < order.len() && order[k] == i;
            assert(g.order@[k] == i);
            assert(pos@[g.order@[k] as int] == k);
        }
    }
    let cf = cell_face_lists(elems, &table.slots, &pos);
    let cn = cell_node_lists(elems);
    proof {
        assert(order == internal_faces(faces) + patches_concat(faces, b, names, names.len()));
    }
    let patches = make_patches(&g, Ghost(faces), Ghost(b));
    let r = MeshTopology {
        n_nodes,
        n_cells: elems.len(),
        n_faces: nf,
        n_internal_faces: g.n_internal,
        cell_types: cn.0,
        cell_face_offsets: cf.0,
        cell_face_indices: cf.1,
        cell_node_offsets: cn.1,
        cell_node_indices: cn.2,
        face_owner: lists.0,
        face_neighbor: lists.1,
        face_node_offsets: lists.2,
        face_node_indices: lists.3,
        boundary_patches: patches,
    };
    proof {
        assert(patch_names(r.boundary_patches@) == names);
        assert forall|x: int| 0 <= x < occ.len() implies order[(
        #[trigger] r.cell_face_indices@[x]).0 as int] == face_slot(occ, x) && r.cell_face_indices@[
            x
        ].0 < nf by {
            let i = table.slots@[x] as int;
            assert(order.contains(i));
            let k = choose|k: int| 0 <= k < order.len() && order[k] == i;
            assert(g.order@[k] == i);
            assert(pos@[g.order@[k] as int] == k);
        }
        assert forall|k: int| 0 <= k < nf implies (#[trigger] r.face_owner@[k]).0 == faces[order[
            k
        ]].1 && r.face_owner@[k].0 < r.n_cells by {
            assert(table.view_faces()[order[k]] == faces[order[k]]);
        }
        assert forall|k: int| 0 <= k < r.n_internal_faces implies Some(
            (#[trigger] r.face_neighbor@[k]).0 as int,
        ) == faces[order[k]].2 && r.face_owner@[k].0 <= r.face_neighbor@[k].0 < r.n_cells by {
            assert(table.view_faces()[order[k]] == faces[order[k]]);
        }
        assert forall|k: int| 0 <= k < nf implies #[trigger] csr_entry(
            r.face_node_offsets@,
            r.face_node_indices@,
            k,
        ) == faces[order[k]].0 by {
            assert(table.view_faces()[order[k]] == faces[order[k]]);
        }
        assert forall|c: int| 0 <= c < elems.len() implies #[trigger] r.cell_types@[c]
            == es[c].0 && csr_entry(r.cell_node_offsets@, r.cell_node_indices@, c) == node_ids(
            es[c].1,
        ) by {
            assert(es[c] == elems@[c]@);
        }
        let ps = r.boundary_patches@;
        assert forall|q: int| 0 <= q < ps.len() implies #[trigger] ps[q].start_face == patch_end(
            ps,
            q,
        ) by {
            if q > 0 {
                assert(ps[q - 1].start_face == patches_concat(faces, b, names, (q - 1) as nat).len());
            }
        }
        if ps.len() > 0 {
            let l = ps.len() - 1;
            assert(ps[l].start_face == patches_concat(faces, b, names, l as nat).len());
        }
        assert(patches_tile(ps, r.n_faces - r.n_internal_faces));
        assert(es.take(elems.len() as int) =~= es);
        assert(r.cell_face_indices.len() == occ.len());
        assert(strictly_sorted(patch_names(r.boundary_patches@)));
        assert(csr_ok(r.cell_face_offsets@, r.cell_face_indices@, r.n_cells as int));
        assert(csr_ok(r.cell_node_offsets@, r.cell_node_indices@, r.n_cells as int));
        assert(csr_ok(r.face_node_offsets@, r.face_node_indices@, r.n_faces as int));
    }
    r
}


// ---------------------------------------------------------------------------
// Queries
// ---------------------------------------------------------------------------

/// The index of the first patch named `name`.
pub open spec fn first_patch(ps: Seq<BoundaryPatch>, name: Seq<char>) -> Option<int>
    decreases ps.len(),
{
    if ps.len() == 0 {
        None
    } else {
        match first_patch(ps.drop_last(), name) {
            Some(q) => Some(q),
            None => if ps.last().name@ == name {
                Some(ps.len() - 1)
            } else {
                None
            },
        }
    }
}

proof fn lemma_first_patch(ps: Seq<BoundaryPatch>, name: Seq<char>)
    ensures
        match first_patch(ps, name) {
            Some(q) => 0 <= q < ps.len() && ps[q].name@ == name && forall|p: int|
                0 <= p < q ==> (#[trigger] ps[p]).name@ != name,
            None => forall|p: int| 0 <= p < ps.len() ==> (#[trigger] ps[p]).name@ != name,
        },
    decreases ps.len(),
{
    if ps.len() > 0 {
        let d = ps.drop_last();
        lemma_first_patch(d, name);
        assert(ps.last() == ps[ps.len() - 1]);
        match first_patch(d, name) {
            Some(q) => {
                assert(ps[q] == d[q]);
                assert forall|p: int| 0 <= p < q implies (#[trigger] ps[p]).name@ != name by {
                    assert(ps[p] == d[p]);
                }
            },
            None => {
                assert forall|p: int| 0 <= p < ps.len() - 1 implies (#[trigger] ps[p]).name@
                    != name by {
                    assert(ps[p] == d[p]);
                }
            },
        }
    }
}

impl MeshTopology {
    /// The faces of a cell.
    pub fn cell_faces(&self, cell: CellId) -> (r: &[FaceId])
        requires
            self.wf(),
            cell.0 < self.n_cells,
        ensures
            r@ == csr_entry(self.cell_face_offsets@, self.cell_face_indices@, cell.0 as int),
    {
        let start = self.cell_face_offsets[cell.as_usize()] as usize;
        let end = self.cell_face_offsets[cell.as_usize() + 1] as usize;
        proof {
            assert(self.cell_face_offsets@[cell.0 as int] <= self.cell_face_offsets@[cell.0 + 1]);
            assert(self.cell_face_offsets@[cell.0 + 1] <= self.cell_face_offsets@[
                self.n_cells as int
            ]);
        }
        vstd::slice::slice_subrange(self.cell_face_indices.as_slice(), start, end)
    }

    /// The nodes of a cell.
    pub fn cell_nodes(&self, cell: CellId) -> (r: &[NodeId])
        requires
            self.wf(),
            cell.0 < self.n_cells,
        ensures
            r@ == csr_entry(self.cell_node_offsets@, self.cell_node_indices@, cell.0 as int),
    {
        let start = self.cell_node_offsets[cell.as_usize()] as usize;
        let end = self.cell_node_offsets[cell.as_usize() + 1] as usize;
        proof {
            assert(self.cell_node_offsets@[cell.0 as int] <= self.cell_node_offsets@[cell.0 + 1]);
            assert(self.cell_node_offsets@[cell.0 + 1] <= self.cell_node_offsets@[
                self.n_cells as int
            ]);
        }
        vstd::slice::slice_subrange(self.cell_node_indices.as_slice(), start, end)
    }

    /// The nodes of a face, in winding order.
    pub fn face_nodes(&self, face: FaceId) -> (r: &[NodeId])
        requires
            self.wf(),
            face.0 < self.n_faces,
        ensures
            r@ == csr_entry(self.face_node_offsets@, self.face_node_indices@, face.0 as int),
    {
        let start = self.face_node_offsets[face.as_usize()] as usize;
        let end = self.face_node_offsets[face.as_usize() + 1] as usize;
        proof {
            assert(self.face_node_offsets@[face.0 as int] <= self.face_node_offsets@[face.0 + 1]);
            assert(self.face_node_offsets@[face.0 + 1] <= self.face_node_offsets@[
                self.n_faces as int
            ]);
        }
        vstd::slice::slice_subrange(self.face_node_indices.as_slice(), start, end)
    }

    /// Whether a face is on the boundary.
    pub fn is_boundary_face(&self, face: FaceId) -> (r: bool)
        ensures
            r == (face.0 >= self.n_internal_faces),
    {
        face.as_usize() >= self.n_internal_faces
    }

    /// Number of boundary faces.
    pub fn n_boundary_faces(&self) -> (r: usize)
        requires
            self.n_internal_faces <= self.n_faces,
        ensures
            r == self.n_faces - self.n_internal_faces,
    {
        self.n_faces - self.n_internal_faces
    }

    /// The first boundary patch named `name`.
    pub fn find_patch(&self, name: &str) -> (r: Option<&BoundaryPatch>)
        ensures
            match first_patch(self.boundary_patches@, name@) {
                Some(q) => r == Some(&self.boundary_patches@[q]),
                None => r is None,
            },
    {
        let target = chars_of(name);
        let mut q: usize = 0;
        proof {
            lemma_first_patch(self.boundary_patches@, name@);
        }
        while q < self.boundary_patches.len()
            invariant
                q <= self.boundary_patches.len(),
                target@ == name@,
                forall|p: int| 0 <= p < q ==> (#[trigger] self.boundary_patches@[p]).name@ != name@,
            decreases self.boundary_patches.len() - q,
        {
            let candidate = chars_of(self.boundary_patches[q].name.as_str());
            if same_name(&candidate, &target) {
                proof {
                    lemma_first_patch(self.boundary_patches@, name@);
                }
                return Some(&self.boundary_patches[q]);
            }
            q += 1;
        }
        None
    }
}

// ---------------------------------------------------------------------------
// Laws of the layout
// ---------------------------------------------------------------------------

proof fn lemma_patch_end_monotone(ps: Seq<BoundaryPatch>, n_boundary: int, p: int, q: int)
    requires
        patches_tile(ps, n_boundary),
        0 <= p <= q <= ps.len(),
    ensures
        patch_end(ps, p) <= patch_end(ps, q),
    decreases q - p,
{
    if p < q {
        lemma_patch_end_monotone(ps, n_boundary, p, q - 1);
        assert(ps[q - 1].start_face == patch_end(ps, q - 1));
    }
}

/// A patch at or after `q` whose faces include boundary face `j`.
proof fn lemma_patch_at(ps: Seq<BoundaryPatch>, n_boundary: int, j: int, q: int) -> (r: int)
    requires
        patches_tile(ps, n_boundary),
        0 <= q <= ps.len(),
        patch_end(ps, q) <= j < n_boundary,
    ensures
        q <= r < ps.len(),
        patch_end(ps, r) <= j < patch_end(ps, r + 1),
    decreases ps.len() - q,
{
    if q == ps.len() {
        assert(false);
        q
    } else if j < patch_end(ps, q + 1) {
        q
    } else {
        lemma_patch_at(ps, n_boundary, j, q + 1)
    }
}

/// Every boundary face lies in the face range of exactly one patch.
pub proof fn lemma_boundary_face_in_one_patch(t: MeshTopology, k: int)
    requires
        t.wf(),
        t.n_internal_faces <= k < t.n_faces,
    ensures
        exists|q: int|
            0 <= q < t.boundary_patches.len() && t.n_internal_faces + (
            #[trigger] t.boundary_patches@[q]).start_face <= k < t.n_internal_faces
                + t.boundary_patches@[q].start_face + t.boundary_patches@[q].n_faces,
        forall|q1: int, q2: int|
            0 <= q1 < t.boundary_patches.len() && 0 <= q2 < t.boundary_patches.len() && t.n_internal_faces
                + (#[trigger] t.boundary_patches@[q1]).start_face <= k < t.n_internal_faces
                + t.boundary_patches@[q1].start_face + t.boundary_patches@[q1].n_faces
                && t.n_internal_faces + (#[trigger] t.boundary_patches@[q2]).start_face <= k
                < t.n_internal_faces + t.boundary_patches@[q2].start_face
                + t.boundary_patches@[q2].n_faces ==> q1 == q2,
{
    let ps = t.boundary_patches@;
    let nb = t.n_faces - t.n_internal_faces;
    let j = k - t.n_internal_faces;
    let q = lemma_patch_at(ps, nb, j, 0);
    assert(ps[q].start_face == patch_end(ps, q));
    assert(t.n_internal_faces + ps[q].start_face <= k < t.n_internal_faces + ps[q].start_face
        + ps[q].n_faces);
    assert forall|q1: int, q2: int|
        0 <= q1 < ps.len() && 0 <= q2 < ps.len() && t.n_internal_faces + (
        #[trigger] ps[q1]).start_face <= k < t.n_internal_faces + ps[q1].start_face
            + ps[q1].n_faces && t.n_internal_faces + (#[trigger] ps[q2]).start_face <= k
            < t.n_internal_faces + ps[q2].start_face + ps[q2].n_faces implies q1 == q2 by {
        assert(ps[q1].start_face == patch_end(ps, q1));
        assert(ps[q2].start_face == patch_end(ps, q2));
        if q1 < q2 {
            lemma_patch_end_monotone(ps, nb, q1 + 1, q2);
        } else if q2 < q1 {
            lemma_patch_end_monotone(ps, nb, q2 + 1, q1);
        }
    }
}


/// Whether some element face is face `k`.
pub open spec fn named_by_element(t: MeshTopology, k: int) -> bool {
    exists|x: int| 0 <= x < t.cell_face_indices.len() && (#[trigger] t.cell_face_indices@[x]).0 == k
}

/// Whether two different element faces are face `k`.
pub open spec fn named_twice(t: MeshTopology, k: int) -> bool {
    exists|x1: int, x2: int|
        0 <= x1 < t.cell_face_indices.len() && 0 <= x2 < t.cell_face_indices.len() && x1 != x2 && (
        #[trigger] t.cell_face_indices@[x1]).0 == k && (#[trigger] t.cell_face_indices@[x2]).0 == k
}

/// In a built topology every face is named by some element face, and a face
/// is internal exactly when at least two element faces name it.
pub proof fn lemma_internal_iff_named_twice(
    n_nodes: usize,
    elems: Seq<RawElement>,
    bfs: Seq<RawBoundaryFace>,
    t: MeshTopology,
)
    requires
        t.wf(),
        builds(n_nodes, elems, bfs, t),
    ensures
        forall|k: int| 0 <= k < t.n_faces ==> #[trigger] named_by_element(t, k),
        forall|k: int|
            0 <= k < t.n_faces ==> (k < t.n_internal_faces <==> #[trigger] named_twice(t, k)),
{
    let es = element_views(elems);
    let occ = occurrences(es);
    let faces = face_table(occ);
    let b = boundary_views(bfs);
    let names = patch_names(t.boundary_patches@);
    let order = face_order(faces, b, names);
    let cfi = t.cell_face_indices@;
    lemma_face_order_permutation(faces, b, names);
    lemma_internal_iff_shared(occ);
    assert(es.take(elems.len() as int) =~= es);
    assert(cfi.len() == occ.len());
    assert forall|k: int| 0 <= k < t.n_faces implies #[trigger] named_by_element(t, k) by {
        let i = order[k];
        assert(named_below_slot(occ, occ.len() as int, i));
        let x = choose|x: int| 0 <= x < occ.len() && #[trigger] face_slot(occ, x) == i;
        assert(order[cfi[x].0 as int] == i);
        assert(cfi[x].0 == k);
    }
    assert forall|k: int| 0 <= k < t.n_faces implies (k < t.n_internal_faces
        <==> #[trigger] named_twice(t, k)) by {
        let i = order[k];
        if k < t.n_internal_faces {
            assert(faces[i].2 is Some);
            assert(shared_below(occ, occ.len() as int, i));
            let (x1, x2) = choose|x1: int, x2: int|
                0 <= x1 < x2 < occ.len() && #[trigger] face_slot(occ, x1) == i
                    && #[trigger] face_slot(occ, x2) == i;
            assert(order[cfi[x1].0 as int] == i && order[cfi[x2].0 as int] == i);
            assert(cfi[x1].0 == k && cfi[x2].0 == k);
        }
        if named_twice(t, k) {
            let (x1, x2) = choose|x1: int, x2: int|
                0 <= x1 < cfi.len() && 0 <= x2 < cfi.len() && x1 != x2 && (#[trigger] cfi[x1]).0
                    == k && (#[trigger] cfi[x2]).0 == k;
            assert(face_slot(occ, x1) == i && face_slot(occ, x2) == i);
            if x1 < x2 {
                assert(shared_below(occ, occ.len() as int, i));
            } else {
                assert(shared_below(occ, occ.len() as int, i));
            }
            assert(faces[i].2 is Some);
        }
    }
}

/// In a built topology each cell lists as many faces as its type has, and
/// each face has between two and four nodes.
pub proof fn lemma_layout_counts(
    n_nodes: usize,
    elems: Seq<RawElement>,
    bfs: Seq<RawBoundaryFace>,
    t: MeshTopology,
)
    requires
        t.wf(),
        builds(n_nodes, elems, bfs, t),
    ensures
        forall|c: int|
            0 <= c < t.n_cells ==> t.cell_face_offsets@[c + 1] - t.cell_face_offsets@[c]
                == spec_face_count(#[trigger] t.cell_types@[c]),
        forall|k: int|
            0 <= k < t.n_faces ==> 2 <= #[trigger] csr_entry(
                t.face_node_offsets@,
                t.face_node_indices@,
                k,
            ).len() <= 4,
{
    let es = element_views(elems);
    let occ = occurrences(es);
    let faces = face_table(occ);
    let b = boundary_views(bfs);
    let names = patch_names(t.boundary_patches@);
    let order = face_order(faces, b, names);
    assert forall|c: int| 0 <= c < t.n_cells implies t.cell_face_offsets@[c + 1]
        - t.cell_face_offsets@[c] == spec_face_count(#[trigger] t.cell_types@[c]) by {
        lemma_occurrences_take(es, c);
        lemma_element_faces_shape(es[c].0, es[c].1);
    }
    lemma_face_order_permutation(faces, b, names);
    lemma_face_table_sizes(es);
    assert forall|k: int| 0 <= k < t.n_faces implies 2 <= #[trigger] csr_entry(
        t.face_node_offsets@,
        t.face_node_indices@,
        k,
    ).len() <= 4 by {
        assert(0 <= order[k] < faces.len());
    }
}

/// In a built topology two element faces (entries of the cell-to-face lists)
/// are the same face exactly when they have the same nodes, and the nodes of
/// that face are the nodes of each element face that names it.
pub proof fn lemma_element_faces_merge_by_nodes(
    n_nodes: usize,
    elems: Seq<RawElement>,
    bfs: Seq<RawBoundaryFace>,
    t: MeshTopology,
)
    requires
        t.wf(),
        builds(n_nodes, elems, bfs, t),
    ensures
        ({
            let occ = occurrences(element_views(elems));
            &&& t.cell_face_indices.len() == occ.len()
            &&& forall|x1: int, x2: int|
                0 <= x1 < occ.len() && 0 <= x2 < occ.len() ==> (#[trigger] t.cell_face_indices@[x1]
                    == #[trigger] t.cell_face_indices@[x2] <==> same_face(occ[x1].1, occ[x2].1))
            &&& forall|x: int|
                0 <= x < occ.len() ==> same_face(
                    csr_entry(
                        t.face_node_offsets@,
                        t.face_node_indices@,
                        (#[trigger] t.cell_face_indices@[x]).0 as int,
                    ),
                    occ[x].1,
                )
        }),
{
    let es = element_views(elems);
    let occ = occurrences(es);
    let faces = face_table(occ);
    let b = boundary_views(bfs);
    let names = patch_names(t.boundary_patches@);
    let order = face_order(faces, b, names);
    let cfi = t.cell_face_indices@;
    lemma_face_order_permutation(faces, b, names);
    lemma_slot_iff_same_nodes(occ);
    lemma_slot_nodes(occ, occ.len() as int);
    assert(occ.take(occ.len() as int) =~= occ);
    assert(es.take(elems.len() as int) =~= es);
    assert forall|x1: int, x2: int|
        0 <= x1 < occ.len() && 0 <= x2 < occ.len() implies (#[trigger] cfi[x1] == #[trigger] cfi[x2]
        <==> same_face(occ[x1].1, occ[x2].1)) by {
        assert(order[cfi[x1].0 as int] == face_slot(occ, x1));
        assert(order[cfi[x2].0 as int] == face_slot(occ, x2));
        if face_slot(occ, x1) == face_slot(occ, x2) && cfi[x1] != cfi[x2] {
            assert(cfi[x1].0 != cfi[x2].0);
            assert(order[cfi[x1].0 as int] == order[cfi[x2].0 as int]);
        }
    }
    assert forall|x: int| 0 <= x < occ.len() implies same_face(
        csr_entry(t.face_node_offsets@, t.face_node_indices@, (#[trigger] cfi[x]).0 as int),
        occ[x].1,
    ) by {
        assert(order[cfi[x].0 as int] == face_slot(occ, x));
    }
}

/// Whether the elements can be laid out: each has the nodes its type needs,
/// and the counts fit the 32-bit offsets.
pub open spec fn topology_inputs_ok(elems: Seq<RawElement>) -> bool {
    &&& elements_complete(elems)
    &&& elems.len() <= u32::MAX / 24
    &&& node_total(element_views(elems)) <= u32::MAX
}

/// Checks `topology_inputs_ok`.
pub fn check_topology_inputs(elems: &Vec<RawElement>) -> (r: bool)
    ensures
        r == topology_inputs_ok(elems@),
{
    if elems.len() > u32::MAX as usize / 24 {
        return false;
    }
    let ghost es = element_views(elems@);
    let mut total: u64 = 0;
    let mut c: usize = 0;
    proof {
        assert(es.take(0) =~= seq![]);
    }
    while c < elems.len()
        invariant
            c <= elems.len(),
            es == element_views(elems@),
            total == node_total(es.take(c as int)),
            total <= u32::MAX,
            forall|d: int| 0 <= d < c ==> (#[trigger] elems@[d]).node_indices@.len() >= crate::mesh::spec_node_count(
                elems@[d].cell_type,
            ),
        decreases elems.len() - c,
    {
        let e = &elems[c];
        proof {
            assert(es[c as int] == e@);
            lemma_node_total_take(es, c as int);
            lemma_node_total_prefix(es, c + 1);
        }
        if e.node_indices.len() < e.cell_type.node_count() {
            return false;
        }
        if e.node_indices.len() as u64 > u32::MAX as u64 - total {
            return false;
        }
        total = total + e.node_indices.len() as u64;
        c += 1;
    }
    proof {
        assert(es.take(elems.len() as int) =~= es);
    }
    true
}


// ---------------------------------------------------------------------------
// Output
// ---------------------------------------------------------------------------

/// The cells of a topology in the layout of a VTK unstructured grid.
#[derive(Clone, Debug)]
pub struct VtkCells {
    /// The nodes of every cell, cell after cell.
    pub connectivity: Vec<u64>,
    /// Where the nodes of each cell end in `connectivity`.
    pub offsets: Vec<u64>,
    /// The type of each cell.
    pub types: Vec<CellType>,
}

pub open spec fn node_numbers(s: Seq<NodeId>) -> Seq<u64> {
    s.map_values(|n: NodeId| n.0 as u64)
}

/// Converting node ids to VTK node numbers keeps each number as it is.
pub proof fn lemma_node_numbers_exact(s: Seq<NodeId>)
    ensures
        node_numbers(s).len() == s.len(),
        forall|k: int| 0 <= k < s.len() ==> #[trigger] node_numbers(s)[k] as int == s[k].0 as int,
{
}

/// The VTK cell arrays of a topology: each cell's nodes in order, the end of
/// each cell's nodes, and the cell types.
pub fn vtk_cell_arrays(t: &MeshTopology) -> (r: VtkCells)
    requires
        t.wf(),
    ensures
        r.connectivity@ == node_numbers(t.cell_node_indices@),
        r.connectivity.len() == t.cell_node_indices.len(),
        forall|k: int|
            0 <= k < r.connectivity.len() ==> #[trigger] r.connectivity@[k] as int
                == t.cell_node_indices@[k].0 as int,
        r.offsets.len() == t.n_cells,
        forall|c: int| 0 <= c < t.n_cells ==> #[trigger] r.offsets@[c] == t.cell_node_offsets@[c + 1],
        r.types@ == t.cell_types@,
{
    let mut connectivity: Vec<u64> = Vec::new();
    let mut offsets: Vec<u64> = Vec::new();
    let mut types: Vec<CellType> = Vec::new();
    let mut ci: usize = 0;
    while ci < t.n_cells
        invariant
            t.wf(),
            ci <= t.n_cells,
            connectivity@ == node_numbers(t.cell_node_indices@.take(t.cell_node_offsets@[ci as int] as int)),
            offsets.len() == ci,
            forall|c: int| 0 <= c < ci ==> #[trigger] offsets@[c] == t.cell_node_offsets@[c + 1],
            types@ == t.cell_types@.take(ci as int),
        decreases t.n_cells - ci,
    {
        let nodes = t.cell_nodes(CellId(ci as u32));
        let ghost start = t.cell_node_offsets@[ci as int] as int;
        let ghost end = t.cell_node_offsets@[ci + 1] as int;
        proof {
            assert(t.cell_node_offsets@[ci as int] <= t.cell_node_offsets@[ci + 1]);
            assert(t.cell_node_offsets@[ci + 1] <= t.cell_node_offsets@[t.n_cells as int]);
        }
        let ghost before = connectivity@;
        let mut k: usize = 0;
        while k < nodes.len()
            invariant
                k <= nodes.len(),
                nodes@ == t.cell_node_indices@.subrange(start, end),
                0 <= start <= end <= t.cell_node_indices.len(),
                connectivity@ == before + node_numbers(nodes@.take(k as int)),
            decreases nodes.len() - k,
        {
            connectivity.push(nodes[k].0 as u64);
            k += 1;
            proof {
                assert(connectivity@ =~= before + node_numbers(nodes@.take(k as int)));
            }
        }
        proof {
            assert(nodes@.take(nodes.len() as int) =~= nodes@);
            assert(t.cell_node_indices@.take(end) =~= t.cell_node_indices@.take(start)
                + t.cell_node_indices@.subrange(start, end));
            assert(connectivity@ =~= node_numbers(t.cell_node_indices@.take(end)));
        }
        offsets.push(connectivity.len() as u64);
        types.push(t.cell_types[ci]);
        ci += 1;
        proof {
            assert(types@ =~= t.cell_types@.take(ci as int));
        }
    }
    proof {
        assert(t.cell_node_indices@.take(t.cell_node_offsets@[t.n_cells as int] as int)
            =~= t.cell_node_indices@);
        assert(t.cell_types@.take(t.n_cells as int) =~= t.cell_types@);
    }
    VtkCells { connectivity, offsets, types }
}

} // verus!
