//! Gmsh `.msh` reader (MSH 2.2 ASCII format).
//!
//! Reads nodes, elements and physical names from the text of a Gmsh mesh
//! file. The reader works line by line on trimmed lines; sections it does not
//! know are skipped up to their `$End...` line.
//!
//! Coordinates stay as the tokens written in the file; turning them into
//! numbers, and judging the format version number, is left to the caller: a
//! run of [`scan_msh`] without judgements lists the version tokens it meets,
//! and a second run takes the caller's judgement of each as a
//! [`VersionClass`] (see [`lemma_judged_versions_prefix`]).

use vstd::prelude::*;

use crate::mesh::{spec_node_count, CellType, RawBoundaryFace, RawElement};
use crate::text::{
    all_digits, chars_of, copy_range, digits_value, i32_decimal, is_token, is_ws, lemma_raw_lines_text,
    lemma_trim_of_trimmed, lines_text, spaced, lemma_words_spaced, lemma_words_token, parse_i32, parse_i32_chars, parse_u32, parse_u32_chars,
    parse_usize, parse_usize_chars, push_i32_decimal, split_trimmed_lines, split_words,
    string_from_chars, trimmed_lines, words,
};

verus! {

/// How the caller judged the version number of a `$MeshFormat` line.
#[derive(Clone, Debug)]
pub enum VersionClass {
    /// The token is not a number.
    Unparsable,
    /// A version 2.x number.
    Supported,
    /// A number outside 2.x; holds the number as it is to be shown.
    Unsupported(String),
}

/// Errors of the mesh reader.
#[derive(Clone, Debug)]
pub enum MshError {
    /// The format version is not a number.
    InvalidFormatVersion,
    /// The file type is not an integer.
    InvalidFileType,
    /// The format version is not 2.x; holds the version as shown.
    UnsupportedVersion(String),
    /// The file type is not 0 (ASCII).
    BinaryFormat,
    /// The `$PhysicalNames` count is not a number.
    InvalidPhysicalNameCount,
    /// The `$Nodes` count is not a number.
    InvalidNodeCount,
    /// The `$Elements` count is not a number.
    InvalidElementCount,
}

/// The coordinate tokens of one node line.
#[derive(Clone, Debug)]
pub struct NodeTokens {
    pub x: Vec<char>,
    pub y: Vec<char>,
    pub z: Vec<char>,
}

impl View for NodeTokens {
    type V = (Seq<char>, Seq<char>, Seq<char>);

    open spec fn view(&self) -> Self::V {
        (self.x@, self.y@, self.z@)
    }
}

/// The contents of a mesh file.
#[derive(Clone, Debug)]
pub struct MshContents {
    /// For each node slot (0-based), the coordinate tokens of the last node
    /// line that named it; `None` where no line did.
    pub nodes: Vec<Option<NodeTokens>>,
    /// Volume (cell) elements in file order.
    pub volume_elements: Vec<RawElement>,
    /// Boundary faces in file order.
    pub boundary_faces: Vec<RawBoundaryFace>,
}

/// How a run of the reader ended.
#[derive(Clone, Debug)]
pub enum ReadStatus {
    /// The whole file was read.
    Done,
    /// The reader stopped with an error.
    Failed(MshError),
    /// The file holds an element line that the reader cannot take apart: its
    /// tag count reaches past the end of the line, or a node index is 0.
    Malformed,
}

/// What the reader has gathered so far.
pub struct MshModel {
    /// Version tokens of the `$MeshFormat` lines met, in order.
    pub versions: Seq<Seq<char>>,
    /// Physical names `(dimension, tag, name)` in file order.
    pub names: Seq<(i32, i32, Seq<char>)>,
    /// Node slots (see [`MshContents::nodes`]).
    pub nodes: Seq<Option<(Seq<char>, Seq<char>, Seq<char>)>>,
    pub volume: Seq<(CellType, Seq<u32>, Option<i32>)>,
    pub boundary: Seq<(Seq<u32>, i32, Seq<char>)>,
}

pub open spec fn empty_model() -> MshModel {
    MshModel { versions: seq![], names: seq![], nodes: seq![], volume: seq![], boundary: seq![] }
}

/// The line index just past the first line at or after `p` equal to `tag`,
/// or the number of lines if there is none.
pub open spec fn skip_past(ls: Seq<Seq<char>>, p: int, tag: Seq<char>) -> int
    decreases ls.len() - p,
{
    if p >= ls.len() {
        ls.len() as int
    } else if ls[p] == tag {
        p + 1
    } else {
        skip_past(ls, p + 1, tag)
    }
}

pub proof fn lemma_skip_past(ls: Seq<Seq<char>>, p: int, tag: Seq<char>)
    requires
        0 <= p,
    ensures
        skip_past(ls, p, tag) <= ls.len(),
        p < ls.len() ==> p < skip_past(ls, p, tag),
        p >= ls.len() ==> skip_past(ls, p, tag) == ls.len(),
    decreases ls.len() - p,
{
    if p < ls.len() && ls[p] != tag {
        lemma_skip_past(ls, p + 1, tag);
    }
}

/// The judgement for the `k`-th format line; a line without one counts as supported.
pub open spec fn verdict_at(vs: Seq<VersionClass>, k: int) -> VersionClass {
    if 0 <= k < vs.len() {
        vs[k]
    } else {
        VersionClass::Supported
    }
}

/// The check of a `$MeshFormat` line with words `parts` (at least two).
pub open spec fn format_check(parts: Seq<Seq<char>>, verdict: VersionClass) -> Option<MshError> {
    match verdict {
        VersionClass::Unparsable => Some(MshError::InvalidFormatVersion),
        _ => match parse_i32(parts[1]) {
            None => Some(MshError::InvalidFileType),
            Some(file_type) => match verdict {
                VersionClass::Unsupported(shown) => Some(MshError::UnsupportedVersion(shown)),
                _ => if file_type != 0 {
                    Some(MshError::BinaryFormat)
                } else {
                    None
                },
            },
        },
    }
}

/// `s` without leading and trailing `"` characters (`str::trim_matches('"')`).
pub open spec fn trim_quotes_start(s: Seq<char>) -> Seq<char>
    decreases s.len(),
{
    if s.len() > 0 && s[0] == '"' {
        trim_quotes_start(s.drop_first())
    } else {
        s
    }
}

pub open spec fn trim_quotes_end(s: Seq<char>) -> Seq<char>
    decreases s.len(),
{
    if s.len() > 0 && s.last() == '"' {
        trim_quotes_end(s.drop_last())
    } else {
        s
    }
}

pub open spec fn trim_quotes(s: Seq<char>) -> Seq<char> {
    trim_quotes_end(trim_quotes_start(s))
}

pub open spec fn or_zero(o: Option<i32>) -> i32 {
    match o {
        Some(v) => v,
        None => 0,
    }
}

/// The physical name entry of a line of the `$PhysicalNames` section.
pub open spec fn name_entry(line: Seq<char>) -> Option<(i32, i32, Seq<char>)> {
    let parts = words(line);
    if parts.len() >= 3 {
        Some((or_zero(parse_i32(parts[0])), or_zero(parse_i32(parts[1])), trim_quotes(parts[2])))
    } else {
        None
    }
}

/// The physical names after reading `m` name lines from line `p` on.
pub open spec fn names_fold(
    ls: Seq<Seq<char>>,
    p: int,
    m: nat,
    names: Seq<(i32, i32, Seq<char>)>,
) -> Seq<(i32, i32, Seq<char>)>
    decreases m,
{
    if m == 0 {
        names
    } else {
        let prev = names_fold(ls, p, (m - 1) as nat, names);
        match name_entry(ls[p + m - 1]) {
            Some(e) => prev.push(e),
            None => prev,
        }
    }
}

/// The name last given to `(dim, tag)`.
pub open spec fn lookup_name(names: Seq<(i32, i32, Seq<char>)>, dim: i32, tag: i32) -> Option<
    Seq<char>,
>
    decreases names.len(),
{
    if names.len() == 0 {
        None
    } else if names.last().0 == dim && names.last().1 == tag {
        Some(names.last().2)
    } else {
        lookup_name(names.drop_last(), dim, tag)
    }
}

/// The name of `(dim, tag)` is the one given last: a later entry for the same
/// pair replaces it, an entry for another pair leaves it, and with no entry
/// there is none.
pub proof fn lemma_lookup_name_last_wins(
    names: Seq<(i32, i32, Seq<char>)>,
    e: (i32, i32, Seq<char>),
    dim: i32,
    tag: i32,
)
    ensures
        e.0 == dim && e.1 == tag ==> lookup_name(names.push(e), dim, tag) == Some(e.2),
        !(e.0 == dim && e.1 == tag) ==> lookup_name(names.push(e), dim, tag) == lookup_name(
            names,
            dim,
            tag,
        ),
        lookup_name(seq![], dim, tag) is None,
{
    assert(names.push(e).drop_last() =~= names);
}

/// The patch name of a boundary element: its physical name, or `boundary_<tag>`.
pub open spec fn patch_name(names: Seq<(i32, i32, Seq<char>)>, dim: i32, tag: i32) -> Seq<char> {
    match lookup_name(names, dim, tag) {
        Some(n) => n,
        None => "boundary_"@ + i32_decimal(tag),
    }
}

/// Node slots after a node line.
pub open spec fn node_line_update(
    line: Seq<char>,
    count: nat,
    slots: Seq<Option<(Seq<char>, Seq<char>, Seq<char>)>>,
) -> Seq<Option<(Seq<char>, Seq<char>, Seq<char>)>> {
    let parts = words(line);
    if parts.len() >= 4 {
        let idx: int = match parse_usize(parts[0]) {
            Some(i) => i as int,
            None => 1,
        };
        if 1 <= idx <= count {
            slots.update(idx - 1, Some((parts[1], parts[2], parts[3])))
        } else {
            slots
        }
    } else {
        slots
    }
}

/// A node line `i x y z` whose index `i` reads as `k`, with `1 <= k <= count`,
/// puts the coordinate tokens `x`, `y` and `z`, in that order, in slot `k - 1`
/// and leaves every other slot as it was.
pub proof fn lemma_node_line_coordinates(
    i: Seq<char>,
    x: Seq<char>,
    y: Seq<char>,
    z: Seq<char>,
    k: usize,
    count: nat,
    slots: Seq<Option<(Seq<char>, Seq<char>, Seq<char>)>>,
)
    requires
        is_token(i),
        is_token(x),
        is_token(y),
        is_token(z),
        parse_usize(i) == Some(k),
        1 <= k <= count,
        slots.len() == count,
    ensures
        node_line_update(spaced(i, spaced(x, spaced(y, z))), count, slots)[k - 1] == Some((x, y, z)),
        forall|j: int|
            0 <= j < count && j != k - 1 ==> #[trigger] node_line_update(
                spaced(i, spaced(x, spaced(y, z))),
                count,
                slots,
            )[j] == slots[j],
        node_line_update(spaced(i, spaced(x, spaced(y, z))), count, slots).len() == count,
{
    lemma_words_token(z);
    lemma_words_spaced(y, z);
    lemma_words_spaced(x, spaced(y, z));
    lemma_words_spaced(i, spaced(x, spaced(y, z)));
    let parts = words(spaced(i, spaced(x, spaced(y, z))));
    assert(parts =~= seq![i, x, y, z]);
}

/// Node slots after reading `m` node lines from line `p` on.
pub open spec fn nodes_fold(
    ls: Seq<Seq<char>>,
    p: int,
    m: nat,
    count: nat,
) -> Seq<Option<(Seq<char>, Seq<char>, Seq<char>)>>
    decreases m,
{
    if m == 0 {
        Seq::new(count, |i: int| None)
    } else {
        node_line_update(ls[p + m - 1], count, nodes_fold(ls, p, (m - 1) as nat, count))
    }
}

/// The 0-based node indices of the node tokens of an element line; `None`
/// when a token reads as node 0.
pub open spec fn index_tokens(toks: Seq<Seq<char>>) -> Option<Seq<u32>>
    decreases toks.len(),
{
    if toks.len() == 0 {
        Some(seq![])
    } else {
        match index_tokens(toks.drop_last()) {
            None => None,
            Some(prev) => match parse_u32(toks.last()) {
                Some(v) => if v == 0 {
                    None
                } else {
                    Some(prev.push((v - 1) as u32))
                },
                None => Some(prev),
            },
        }
    }
}

pub open spec fn volume_type(et: i32) -> Option<CellType> {
    if et == 4 {
        Some(CellType::Tetrahedron)
    } else if et == 5 {
        Some(CellType::Hexahedron)
    } else if et == 6 {
        Some(CellType::Wedge)
    } else if et == 7 {
        Some(CellType::Pyramid)
    } else {
        None
    }
}

/// The element lists after an element of Gmsh type `et` with the given node
/// indices and physical tag.
pub open spec fn add_element(
    et: i32,
    nodes: Seq<u32>,
    tag: Option<i32>,
    names: Seq<(i32, i32, Seq<char>)>,
    volume: Seq<(CellType, Seq<u32>, Option<i32>)>,
    boundary: Seq<(Seq<u32>, i32, Seq<char>)>,
) -> (Seq<(CellType, Seq<u32>, Option<i32>)>, Seq<(Seq<u32>, i32, Seq<char>)>) {
    if et == 1 {
        match tag {
            Some(t) => (volume, boundary.push((nodes, t, patch_name(names, 1, t)))),
            None => (volume, boundary),
        }
    } else if et == 2 || et == 3 {
        let want: nat = if et == 2 {
            3
        } else {
            4
        };
        let ct = if et == 2 {
            CellType::Triangle
        } else {
            CellType::Quad
        };
        if nodes.len() == want {
            match tag {
                Some(t) => if lookup_name(names, 2, t) is Some {
                    (volume.push((ct, nodes, tag)), boundary)
                } else {
                    (volume, boundary.push((nodes, t, patch_name(names, 2, t))))
                },
                None => (volume, boundary),
            }
        } else {
            (volume, boundary)
        }
    } else {
        match volume_type(et) {
            Some(ct) => (volume.push((ct, nodes, tag)), boundary),
            None => (volume, boundary),
        }
    }
}

/// The cell type that a volume element of Gmsh type `et` must have.
pub open spec fn gmsh_cell_type_is(et: i32, ct: CellType) -> bool {
    &&& et == 2 ==> ct == CellType::Triangle
    &&& et == 3 ==> ct == CellType::Quad
    &&& et == 4 ==> ct == CellType::Tetrahedron
    &&& et == 5 ==> ct == CellType::Hexahedron
    &&& et == 6 ==> ct == CellType::Wedge
    &&& et == 7 ==> ct == CellType::Pyramid
    &&& 2 <= et <= 7
}

/// An element line adds at most one volume element. One added for a line of
/// Gmsh type 2, 3, 4, 5, 6 or 7 is a triangle, quad, tetrahedron,
/// hexahedron, wedge or pyramid respectively; no other type gives one. It
/// keeps the line's node indices (made 0-based) and physical tag, and a
/// triangle or quad has exactly the nodes of its type.
pub proof fn lemma_element_volume_types(
    line: Seq<char>,
    names: Seq<(i32, i32, Seq<char>)>,
    volume: Seq<(CellType, Seq<u32>, Option<i32>)>,
    boundary: Seq<(Seq<u32>, i32, Seq<char>)>,
)
    ensures
        element_step(line, names, volume, boundary) matches Some(vb) ==> {
            ||| vb.0 == volume
            ||| {
                let parts = words(line);
                let et = or_zero(parse_i32(parts[1]));
                let e = vb.0.last();
                &&& vb.0 == volume.push(e)
                &&& gmsh_cell_type_is(et, e.0)
                &&& (et == 2 || et == 3) ==> e.1.len() == spec_node_count(e.0)
                &&& parts.len() >= 4
                &&& exists|n_tags: int|
                    0 <= n_tags && 3 + n_tags <= parts.len() && #[trigger] index_tokens(
                        parts.skip(3 + n_tags),
                    ) == Some(e.1) && e.2 == (if n_tags > 0 {
                        parse_i32(parts[3])
                    } else {
                        None
                    })
            }
        },
{
    let parts = words(line);
    if parts.len() >= 4 {
        let n_tags: int = match parse_usize(parts[2]) {
            Some(v) => v as int,
            None => 0,
        };
        if 3 + n_tags <= parts.len() {
            match index_tokens(parts.skip(3 + n_tags)) {
                None => {},
                Some(nodes) => {
                    let et = or_zero(parse_i32(parts[1]));
                    let tag = if n_tags > 0 {
                        parse_i32(parts[3])
                    } else {
                        None
                    };
                    let r = add_element(et, nodes, tag, names, volume, boundary);
                    if r.0 != volume {
                        assert(r.0.last() == (r.0.last().0, nodes, tag));
                        assert(index_tokens(parts.skip(3 + n_tags)) == Some(r.0.last().1));
                    }
                },
            }
        }
    }
}

/// The element lists after one element line; `None` when the line is malformed.
pub open spec fn element_step(
    line: Seq<char>,
    names: Seq<(i32, i32, Seq<char>)>,
    volume: Seq<(CellType, Seq<u32>, Option<i32>)>,
    boundary: Seq<(Seq<u32>, i32, Seq<char>)>,
) -> Option<(Seq<(CellType, Seq<u32>, Option<i32>)>, Seq<(Seq<u32>, i32, Seq<char>)>)> {
    let parts = words(line);
    if parts.len() < 4 {
        Some((volume, boundary))
    } else {
        let n_tags: int = match parse_usize(parts[2]) {
            Some(v) => v as int,
            None => 0,
        };
        if 3 + n_tags > parts.len() {
            None
        } else {
            match index_tokens(parts.skip(3 + n_tags)) {
                None => None,
                Some(nodes) => {
                    let et = or_zero(parse_i32(parts[1]));
                    let tag = if n_tags > 0 {
                        parse_i32(parts[3])
                    } else {
                        None
                    };
                    Some(add_element(et, nodes, tag, names, volume, boundary))
                },
            }
        }
    }
}

/// The model after reading `m` element lines from line `p` on; `None` when
/// one of them is malformed.
pub open spec fn elements_fold(ls: Seq<Seq<char>>, p: int, m: nat, st: MshModel) -> Option<MshModel>
    decreases m,
{
    if m == 0 {
        Some(st)
    } else {
        match elements_fold(ls, p, (m - 1) as nat, st) {
            None => None,
            Some(prev) => match element_step(ls[p + m - 1], prev.names, prev.volume, prev.boundary) {
                None => None,
                Some(vb) => Some(
                    MshModel {
                        versions: prev.versions,
                        names: prev.names,
                        nodes: prev.nodes,
                        volume: vb.0,
                        boundary: vb.1,
                    },
                ),
            },
        }
    }
}

pub open spec fn min_nat(a: int, b: int) -> nat {
    if a < b {
        a as nat
    } else {
        b as nat
    }
}

pub open spec fn starts_with_end(line: Seq<char>) -> bool {
    line.len() >= 4 && line.take(4) == "$End"@
}

/// The reader, from line `p` on, with model `st` and version judgements `vs`.
pub open spec fn read_from(ls: Seq<Seq<char>>, p: int, st: MshModel, vs: Seq<VersionClass>) -> (
    ReadStatus,
    MshModel,
)
    decreases ls.len() - p,
{
    if p < 0 || p >= ls.len() {
        (ReadStatus::Done, st)
    } else {
        let n = ls.len() as int;
        let line = ls[p];
        if line == "$MeshFormat"@ {
            if p + 1 < n {
                let parts = words(ls[p + 1]);
                let q = skip_past(ls, p + 2, "$EndMeshFormat"@);
                proof {
                    lemma_skip_past(ls, p + 2, "$EndMeshFormat"@);
                }
                if parts.len() >= 2 {
                    let st2 = MshModel {
                        versions: st.versions.push(parts[0]),
                        names: st.names,
                        nodes: st.nodes,
                        volume: st.volume,
                        boundary: st.boundary,
                    };
                    match format_check(parts, verdict_at(vs, st.versions.len() as int)) {
                        Some(e) => (ReadStatus::Failed(e), st2),
                        None => read_from(ls, q, st2, vs),
                    }
                } else {
                    read_from(ls, q, st, vs)
                }
            } else {
                (ReadStatus::Done, st)
            }
        } else if line == "$PhysicalNames"@ {
            if p + 1 < n {
                match parse_usize(ls[p + 1]) {
                    None => (ReadStatus::Failed(MshError::InvalidPhysicalNameCount), st),
                    Some(c) => {
                        let m = min_nat(c as int, n - (p + 2));
                        let q = skip_past(ls, p + 2 + m, "$EndPhysicalNames"@);
                        proof {
                            lemma_skip_past(ls, p + 2 + m, "$EndPhysicalNames"@);
                        }
                        let st2 = MshModel {
                            versions: st.versions,
                            names: names_fold(ls, p + 2, m, st.names),
                            nodes: st.nodes,
                            volume: st.volume,
                            boundary: st.boundary,
                        };
                        read_from(ls, q, st2, vs)
                    },
                }
            } else {
                (ReadStatus::Done, st)
            }
        } else if line == "$Nodes"@ {
            if p + 1 < n {
                match parse_usize(ls[p + 1]) {
                    None => (ReadStatus::Failed(MshError::InvalidNodeCount), st),
                    Some(c) => {
                        let m = min_nat(c as int, n - (p + 2));
                        let q = skip_past(ls, p + 2 + m, "$EndNodes"@);
                        proof {
                            lemma_skip_past(ls, p + 2 + m, "$EndNodes"@);
                        }
                        let st2 = MshModel {
                            versions: st.versions,
                            names: st.names,
                            nodes: nodes_fold(ls, p + 2, m, c as nat),
                            volume: st.volume,
                            boundary: st.boundary,
                        };
                        read_from(ls, q, st2, vs)
                    },
                }
            } else {
                (ReadStatus::Done, st)
            }
        } else if line == "$Elements"@ {
            if p + 1 < n {
                match parse_usize(ls[p + 1]) {
                    None => (ReadStatus::Failed(MshError::InvalidElementCount), st),
                    Some(c) => {
                        let m = min_nat(c as int, n - (p + 2));
                        let q = skip_past(ls, p + 2 + m, "$EndElements"@);
                        proof {
                            lemma_skip_past(ls, p + 2 + m, "$EndElements"@);
                        }
                        match elements_fold(ls, p + 2, m, st) {
                            None => (ReadStatus::Malformed, st),
                            Some(st2) => read_from(ls, q, st2, vs),
                        }
                    },
                }
            } else {
                (ReadStatus::Done, st)
            }
        } else if line.len() > 0 && line[0] == '$' && !starts_with_end(line) {
            let q = skip_past(ls, p + 1, "$End"@ + line.skip(1));
            proof {
                lemma_skip_past(ls, p + 1, "$End"@ + line.skip(1));
            }
            read_from(ls, q, st, vs)
        } else {
            read_from(ls, p + 1, st, vs)
        }
    }
}

/// The reader on the text `content` with version judgements `vs`.
pub open spec fn msh_read(content: Seq<char>, vs: Seq<VersionClass>) -> (ReadStatus, MshModel) {
    read_from(trimmed_lines(content), 0, empty_model(), vs)
}


/// Reading a file whose only section is `$Nodes` with one node line
/// `1 x y z` gives one node slot holding the tokens `x`, `y` and `z` in that
/// order, and nothing else.
pub proof fn lemma_single_node_file(
    x: Seq<char>,
    y: Seq<char>,
    z: Seq<char>,
    vs: Seq<VersionClass>,
)
    requires
        is_token(x),
        is_token(y),
        is_token(z),
    ensures
        msh_read(
            lines_text(seq!["$Nodes"@, "1"@, spaced("1"@, spaced(x, spaced(y, z))), "$EndNodes"@]),
            vs,
        ) == (ReadStatus::Done, MshModel {
            versions: seq![],
            names: seq![],
            nodes: seq![Some((x, y, z))],
            volume: seq![],
            boundary: seq![],
        }),
{
    reveal_strlit("$Nodes");
    reveal_strlit("1");
    reveal_strlit("$EndNodes");
    reveal_strlit("$MeshFormat");
    reveal_strlit("$PhysicalNames");
    let one = "1"@;
    let line = spaced(one, spaced(x, spaced(y, z)));
    let ls = seq!["$Nodes"@, one, line, "$EndNodes"@];
    assert(one[0] == '1');
    assert(is_token(one));
    assert(!is_ws('$'));
    assert(!is_ws('s'));
    assert(!is_ws('1'));
    // The line of the node.
    let sz = spaced(y, z);
    let sxyz = spaced(x, sz);
    assert(sz.len() == y.len() + 1 + z.len());
    assert(sz[sz.len() - 1] == z[z.len() - 1]);
    assert(sxyz[sxyz.len() - 1] == sz[sz.len() - 1]);
    assert(line[line.len() - 1] == sxyz[sxyz.len() - 1]);
    assert(line[0] == '1');
    assert forall|i: int| 0 <= i < line.len() implies #[trigger] line[i] != '\n' by {
        if i == 0 {
        } else if i == 1 {
            assert(line[1] == ' ');
        } else {
            let j = i - 2;
            assert(line[i] == sxyz[j]);
            if j < x.len() {
                assert(sxyz[j] == x[j]);
                assert(!is_ws(x[j]));
            } else if j == x.len() {
                assert(sxyz[j] == ' ');
            } else {
                let j2 = j - x.len() - 1;
                assert(sxyz[j] == sz[j2]);
                if j2 < y.len() {
                    assert(sz[j2] == y[j2]);
                    assert(!is_ws(y[j2]));
                } else if j2 == y.len() {
                    assert(sz[j2] == ' ');
                } else {
                    assert(sz[j2] == z[j2 - y.len() - 1]);
                    assert(!is_ws(z[j2 - y.len() - 1]));
                }
            }
        }
    }
    assert forall|k: int, i: int| 0 <= k < ls.len() && 0 <= i < ls[k].len() implies #[trigger] ls[k][i] != '\n' by {
        if k == 2 {
            assert(ls[k] == line);
        }
    }
    lemma_raw_lines_text(ls);
    lemma_trim_of_trimmed("$Nodes"@);
    lemma_trim_of_trimmed(one);
    lemma_trim_of_trimmed(line);
    lemma_trim_of_trimmed("$EndNodes"@);
    let content = lines_text(ls);
    assert(trimmed_lines(content) =~= ls);
    // The count line reads as one.
    assert(one.drop_last() =~= Seq::<char>::empty());
    assert(digits_value(one.drop_last()) == 0);
    assert(one.last() == '1');
    assert(('1' as u32) == 49);
    assert(digits_value(one) == 1);
    assert(all_digits(one));
    assert(parse_usize(one) == Some(1usize));
    // The node line fills the single slot.
    let slots0 = nodes_fold(ls, 2, 0, 1);
    assert(slots0.len() == 1);
    lemma_node_line_coordinates(one, x, y, z, 1, 1, slots0);
    let slots = nodes_fold(ls, 2, 1, 1);
    assert(slots == node_line_update(ls[2], 1, slots0));
    assert(slots =~= seq![Some((x, y, z))]);
    assert(ls[0] != "$MeshFormat"@);
    assert(ls[0] != "$PhysicalNames"@);
    assert(skip_past(ls, 3, "$EndNodes"@) == 4);
    assert(read_from(ls, 4, MshModel {
        versions: seq![],
        names: seq![],
        nodes: slots,
        volume: seq![],
        boundary: seq![],
    }, vs).0 is Done);
}

// ---------------------------------------------------------------------------
// Judging the format versions
// ---------------------------------------------------------------------------

/// `a` is a prefix of `b`.
pub open spec fn prefix_of(a: Seq<Seq<char>>, b: Seq<Seq<char>>) -> bool {
    a.len() <= b.len() && b.take(a.len() as int) == a
}

proof fn lemma_prefix_trans(a: Seq<Seq<char>>, b: Seq<Seq<char>>, c: Seq<Seq<char>>)
    requires
        prefix_of(a, b),
        prefix_of(b, c),
    ensures
        prefix_of(a, c),
{
    assert(c.take(a.len() as int) =~= c.take(b.len() as int).take(a.len() as int));
}

proof fn lemma_elements_fold_versions(ls: Seq<Seq<char>>, p: int, m: nat, st: MshModel)
    ensures
        elements_fold(ls, p, m, st) matches Some(st2) ==> st2.versions == st.versions,
    decreases m,
{
    if m > 0 {
        lemma_elements_fold_versions(ls, p, (m - 1) as nat, st);
    }
}

/// The reader only adds version tokens to those it started with.
proof fn lemma_read_versions_grow(ls: Seq<Seq<char>>, p: int, st: MshModel, vs: Seq<VersionClass>)
    ensures
        prefix_of(st.versions, read_from(ls, p, st, vs).1.versions),
    decreases ls.len() - p,
{
    assert(st.versions.take(st.versions.len() as int) =~= st.versions);
    if 0 <= p < ls.len() {
        let n = ls.len() as int;
        let line = ls[p];
        if line == "$MeshFormat"@ {
            if p + 1 < n {
                let parts = words(ls[p + 1]);
                let q = skip_past(ls, p + 2, "$EndMeshFormat"@);
                lemma_skip_past(ls, p + 2, "$EndMeshFormat"@);
                if parts.len() >= 2 {
                    let st2 = MshModel {
                        versions: st.versions.push(parts[0]),
                        names: st.names,
                        nodes: st.nodes,
                        volume: st.volume,
                        boundary: st.boundary,
                    };
                    assert(prefix_of(st.versions, st2.versions)) by {
                        assert(st2.versions.take(st.versions.len() as int) =~= st.versions);
                    }
                    if format_check(parts, verdict_at(vs, st.versions.len() as int)) is None {
                        lemma_read_versions_grow(ls, q, st2, vs);
                        lemma_prefix_trans(st.versions, st2.versions, read_from(ls, q, st2, vs).1.versions);
                    }
                } else {
                    lemma_read_versions_grow(ls, q, st, vs);
                }
            }
        } else if line == "$PhysicalNames"@ {
            if p + 1 < n {
                match parse_usize(ls[p + 1]) {
                    None => {},
                    Some(c) => {
                        let m = min_nat(c as int, n - (p + 2));
                        let q = skip_past(ls, p + 2 + m, "$EndPhysicalNames"@);
                        lemma_skip_past(ls, p + 2 + m, "$EndPhysicalNames"@);
                        let st2 = MshModel {
                            versions: st.versions,
                            names: names_fold(ls, p + 2, m, st.names),
                            nodes: st.nodes,
                            volume: st.volume,
                            boundary: st.boundary,
                        };
                        lemma_read_versions_grow(ls, q, st2, vs);
                    },
                }
            }
        } else if line == "$Nodes"@ {
            if p + 1 < n {
                match parse_usize(ls[p + 1]) {
                    None => {},
                    Some(c) => {
                        let m = min_nat(c as int, n - (p + 2));
                        let q = skip_past(ls, p + 2 + m, "$EndNodes"@);
                        lemma_skip_past(ls, p + 2 + m, "$EndNodes"@);
                        let st2 = MshModel {
                            versions: st.versions,
                            names: st.names,
                            nodes: nodes_fold(ls, p + 2, m, c as nat),
                            volume: st.volume,
                            boundary: st.boundary,
                        };
                        lemma_read_versions_grow(ls, q, st2, vs);
                    },
                }
            }
        } else if line == "$Elements"@ {
            if p + 1 < n {
                match parse_usize(ls[p + 1]) {
                    None => {},
                    Some(c) => {
                        let m = min_nat(c as int, n - (p + 2));
                        let q = skip_past(ls, p + 2 + m, "$EndElements"@);
                        lemma_skip_past(ls, p + 2 + m, "$EndElements"@);
                        lemma_elements_fold_versions(ls, p + 2, m, st);
                        match elements_fold(ls, p + 2, m, st) {
                            None => {},
                            Some(st2) => {
                                lemma_read_versions_grow(ls, q, st2, vs);
                            },
                        }
                    },
                }
            }
        } else if line.len() > 0 && line[0] == '$' && !starts_with_end(line) {
            let q = skip_past(ls, p + 1, "$End"@ + line.skip(1));
            lemma_skip_past(ls, p + 1, "$End"@ + line.skip(1));
            lemma_read_versions_grow(ls, q, st, vs);
        } else {
            lemma_read_versions_grow(ls, p + 1, st, vs);
        }
    }
}

proof fn lemma_read_versions_prefix(ls: Seq<Seq<char>>, p: int, st: MshModel, vs: Seq<VersionClass>)
    ensures
        prefix_of(read_from(ls, p, st, vs).1.versions, read_from(ls, p, st, seq![]).1.versions),
    decreases ls.len() - p,
{
    let r = read_from(ls, p, st, vs).1.versions;
    assert(r.take(r.len() as int) =~= r);
    if 0 <= p < ls.len() {
        let n = ls.len() as int;
        let line = ls[p];
        if line == "$MeshFormat"@ {
            if p + 1 < n {
                let parts = words(ls[p + 1]);
                let q = skip_past(ls, p + 2, "$EndMeshFormat"@);
                lemma_skip_past(ls, p + 2, "$EndMeshFormat"@);
                if parts.len() >= 2 {
                    let st2 = MshModel {
                        versions: st.versions.push(parts[0]),
                        names: st.names,
                        nodes: st.nodes,
                        volume: st.volume,
                        boundary: st.boundary,
                    };
                    let judged = format_check(parts, verdict_at(vs, st.versions.len() as int));
                    let plain = format_check(
                        parts,
                        verdict_at(seq![], st.versions.len() as int),
                    );
                    if judged is None {
                        assert(plain is None);
                        lemma_read_versions_prefix(ls, q, st2, vs);
                    } else if plain is None {
                        lemma_read_versions_grow(ls, q, st2, seq![]);
                    }
                } else {
                    lemma_read_versions_prefix(ls, q, st, vs);
                }
            }
        } else if line == "$PhysicalNames"@ {
            if p + 1 < n {
                match parse_usize(ls[p + 1]) {
                    None => {},
                    Some(c) => {
                        let m = min_nat(c as int, n - (p + 2));
                        let q = skip_past(ls, p + 2 + m, "$EndPhysicalNames"@);
                        lemma_skip_past(ls, p + 2 + m, "$EndPhysicalNames"@);
                        let st2 = MshModel {
                            versions: st.versions,
                            names: names_fold(ls, p + 2, m, st.names),
                            nodes: st.nodes,
                            volume: st.volume,
                            boundary: st.boundary,
                        };
                        lemma_read_versions_prefix(ls, q, st2, vs);
                    },
                }
            }
        } else if line == "$Nodes"@ {
            if p + 1 < n {
                match parse_usize(ls[p + 1]) {
                    None => {},
                    Some(c) => {
                        let m = min_nat(c as int, n - (p + 2));
                        let q = skip_past(ls, p + 2 + m, "$EndNodes"@);
                        lemma_skip_past(ls, p + 2 + m, "$EndNodes"@);
                        let st2 = MshModel {
                            versions: st.versions,
                            names: st.names,
                            nodes: nodes_fold(ls, p + 2, m, c as nat),
                            volume: st.volume,
                            boundary: st.boundary,
                        };
                        lemma_read_versions_prefix(ls, q, st2, vs);
                    },
                }
            }
        } else if line == "$Elements"@ {
            if p + 1 < n {
                match parse_usize(ls[p + 1]) {
                    None => {},
                    Some(c) => {
                        let m = min_nat(c as int, n - (p + 2));
                        let q = skip_past(ls, p + 2 + m, "$EndElements"@);
                        lemma_skip_past(ls, p + 2 + m, "$EndElements"@);
                        match elements_fold(ls, p + 2, m, st) {
                            None => {},
                            Some(st2) => {
                                lemma_read_versions_prefix(ls, q, st2, vs);
                            },
                        }
                    },
                }
            }
        } else if line.len() > 0 && line[0] == '$' && !starts_with_end(line) {
            let q = skip_past(ls, p + 1, "$End"@ + line.skip(1));
            lemma_skip_past(ls, p + 1, "$End"@ + line.skip(1));
            lemma_read_versions_prefix(ls, q, st, vs);
        } else {
            lemma_read_versions_prefix(ls, p + 1, st, vs);
        }
    }
}

/// A run of the reader with version judgements meets no format line beyond
/// those met by a run without judgements: its version tokens are a prefix of
/// the unjudged run's. So judging every token of the unjudged run gives each
/// format line met by the judged run its own judgement.
pub proof fn lemma_judged_versions_prefix(content: Seq<char>, vs: Seq<VersionClass>)
    ensures
        prefix_of(msh_read(content, vs).1.versions, msh_read(content, seq![]).1.versions),
{
    lemma_read_versions_prefix(trimmed_lines(content), 0, empty_model(), vs);
}

// ---------------------------------------------------------------------------
// Views of the reader's collections
// ---------------------------------------------------------------------------

pub open spec fn chars_view(v: Seq<Vec<char>>) -> Seq<Seq<char>> {
    v.map_values(|x: Vec<char>| x@)
}

pub open spec fn names_view(v: Seq<(i32, i32, Vec<char>)>) -> Seq<(i32, i32, Seq<char>)> {
    v.map_values(|e: (i32, i32, Vec<char>)| (e.0, e.1, e.2@))
}

pub open spec fn slot_view(o: Option<NodeTokens>) -> Option<(Seq<char>, Seq<char>, Seq<char>)> {
    match o {
        Some(t) => Some(t@),
        None => None,
    }
}

pub open spec fn nodes_view(v: Seq<Option<NodeTokens>>) -> Seq<
    Option<(Seq<char>, Seq<char>, Seq<char>)>,
> {
    v.map_values(|o: Option<NodeTokens>| slot_view(o))
}

pub open spec fn volume_view(v: Seq<RawElement>) -> Seq<(CellType, Seq<u32>, Option<i32>)> {
    v.map_values(|e: RawElement| e@)
}

pub open spec fn boundary_view(v: Seq<RawBoundaryFace>) -> Seq<(Seq<u32>, i32, Seq<char>)> {
    v.map_values(|e: RawBoundaryFace| e@)
}

pub open spec fn model_of(
    versions: Seq<Vec<char>>,
    names: Seq<(i32, i32, Vec<char>)>,
    nodes: Seq<Option<NodeTokens>>,
    volume: Seq<RawElement>,
    boundary: Seq<RawBoundaryFace>,
) -> MshModel {
    MshModel {
        versions: chars_view(versions),
        names: names_view(names),
        nodes: nodes_view(nodes),
        volume: volume_view(volume),
        boundary: boundary_view(boundary),
    }
}

// ---------------------------------------------------------------------------
// Line-level helpers
// ---------------------------------------------------------------------------

fn eq_chars(a: &Vec<char>, b: &Vec<char>) -> (r: bool)
    ensures
        r == (a@ == b@),
{
    if a.len() != b.len() {
        return false;
    }
    let mut i: usize = 0;
    while i < a.len()
        invariant
            i <= a.len() == b.len(),
            forall|j: int| 0 <= j < i ==> a@[j] == b@[j],
        decreases a.len() - i,
    {
        if a[i] != b[i] {
            return false;
        }
        i += 1;
    }
    proof {
        assert(a@ =~= b@);
    }
    true
}

/// The line index just past the first line at or after `p` equal to `tag`,
/// or the number of lines if there is none.
pub fn skip_to_end(ls: &Vec<Vec<char>>, p: usize, tag: &Vec<char>) -> (q: usize)
    requires
        p <= ls.len(),
    ensures
        q == skip_past(chars_view(ls@), p as int, tag@),
        p <= q <= ls.len(),
{
    let ghost lv = chars_view(ls@);
    let mut q = p;
    while q < ls.len()
        invariant
            p <= q <= ls.len(),
            lv == chars_view(ls@),
            skip_past(lv, p as int, tag@) == skip_past(lv, q as int, tag@),
        decreases ls.len() - q,
    {
        assert(lv[q as int] == ls@[q as int]@);
        if eq_chars(&ls[q], tag) {
            return q + 1;
        }
        q += 1;
    }
    q
}

fn trim_quotes_chars(s: &Vec<char>) -> (r: Vec<char>)
    ensures
        r@ == trim_quotes(s@),
{
    let n = s.len();
    let mut a: usize = 0;
    proof {
        assert(s@.skip(0) =~= s@);
    }
    while a < n && s[a] == '"'
        invariant
            a <= n == s.len(),
            trim_quotes_start(s@) == trim_quotes_start(s@.skip(a as int)),
        decreases n - a,
    {
        proof {
            assert(s@.skip(a as int).drop_first() =~= s@.skip(a + 1));
        }
        a += 1;
    }
    let mut b: usize = n;
    proof {
        assert(s@.subrange(a as int, b as int) =~= s@.skip(a as int));
        if a < n {
            assert(s@.skip(a as int)[0] == s@[a as int]);
        }
    }
    while b > a && s[b - 1] == '"'
        invariant
            a <= b <= n == s.len(),
            trim_quotes(s@) == trim_quotes_end(s@.subrange(a as int, b as int)),
        decreases b - a,
    {
        proof {
            assert(s@.subrange(a as int, b as int).drop_last() =~= s@.subrange(a as int, b - 1));
        }
        b -= 1;
    }
    proof {
        if b > a {
            assert(s@.subrange(a as int, b as int).last() == s@[b - 1]);
        }
    }
    copy_range(s, a, b)
}

/// Index of the last physical name entry for `(dim, tag)`.
fn find_name(names: &Vec<(i32, i32, Vec<char>)>, dim: i32, tag: i32) -> (r: Option<usize>)
    ensures
        match lookup_name(names_view(names@), dim, tag) {
            Some(n) => r matches Some(i) && i < names.len() && names@[i as int].2@ == n,
            None => r is None,
        },
{
    let ghost nv = names_view(names@);
    let mut k = names.len();
    proof {
        assert(nv.take(k as int) =~= nv);
    }
    while k > 0
        invariant
            k <= names.len(),
            nv == names_view(names@),
            lookup_name(nv, dim, tag) == lookup_name(nv.take(k as int), dim, tag),
        decreases k,
    {
        let e = &names[k - 1];
        proof {
            assert(nv.take(k as int).last() == nv[k - 1]);
            assert(nv.take(k as int).drop_last() =~= nv.take(k - 1));
        }
        if e.0 == dim && e.1 == tag {
            return Some(k - 1);
        }
        k -= 1;
    }
    None
}

/// The patch name of a boundary element of dimension `dim` and tag `tag`.
fn boundary_name(names: &Vec<(i32, i32, Vec<char>)>, dim: i32, tag: i32) -> (r: Vec<char>)
    ensures
        r@ == patch_name(names_view(names@), dim, tag),
{
    match find_name(names, dim, tag) {
        Some(i) => {
            let n = &names[i].2;
            copy_range(n, 0, n.len())
        },
        None => {
            let mut r = chars_of("boundary_");
            push_i32_decimal(tag, &mut r);
            r
        },
    }
}

proof fn lemma_index_tokens_prefix_none(t: Seq<Seq<char>>, k: int)
    requires
        0 <= k <= t.len(),
        index_tokens(t.take(k)) is None,
    ensures
        index_tokens(t) is None,
    decreases t.len() - k,
{
    if k < t.len() {
        assert(t.drop_last().take(k) =~= t.take(k));
        lemma_index_tokens_prefix_none(t.drop_last(), k);
    } else {
        assert(t.take(k) =~= t);
    }
}

/// Reads one element line (`elem-id elem-type n-tags <tags...> <node-indices...>`)
/// into the element lists; `false` when the line is malformed, in which case
/// nothing is added.
#[verifier::loop_isolation(false)]
pub fn parse_element(
    line: &Vec<char>,
    names: &Vec<(i32, i32, Vec<char>)>,
    volume: &mut Vec<RawElement>,
    boundary: &mut Vec<RawBoundaryFace>,
) -> (ok: bool)
    ensures
        match element_step(line@, names_view(names@), volume_view(old(volume)@), boundary_view(old(boundary)@)) {
            None => !ok && final(volume)@ == old(volume)@ && final(boundary)@ == old(boundary)@,
            Some(vb) => ok && volume_view(final(volume)@) == vb.0 && boundary_view(final(boundary)@) == vb.1,
        },
{
    let parts = split_words(line);
    let ghost pv = chars_view(parts@);
    assert(pv == words(line@));
    if parts.len() < 4 {
        return true;
    }
    proof {
        assert(pv[2] == parts@[2]@);
        assert(pv[1] == parts@[1]@);
        assert(pv[3] == parts@[3]@);
    }
    let n_tags: usize = match parse_usize_chars(&parts[2]) {
        Some(v) => v,
        None => 0,
    };
    if n_tags > parts.len() - 3 {
        return false;
    }
    let start = 3 + n_tags;
    let ghost toks = pv.skip(start as int);
    let mut nodes: Vec<u32> = Vec::new();
    let mut j = start;
    proof {
        assert(toks.take(0) =~= seq![]);
    }
    while j < parts.len()
        invariant
            start <= j <= parts.len(),
            pv == chars_view(parts@),
            toks == pv.skip(start as int),
            index_tokens(toks.take(j - start)) == Some(nodes@),
        decreases parts.len() - j,
    {
        proof {
            assert(toks.take(j - start + 1).drop_last() =~= toks.take(j - start));
            assert(toks.take(j - start + 1).last() == parts@[j as int]@);
        }
        match parse_u32_chars(&parts[j]) {
            Some(v) => {
                if v == 0 {
                    proof {
                        lemma_index_tokens_prefix_none(toks, j - start + 1);
                    }
                    return false;
                }
                nodes.push(v - 1);
            },
            None => {},
        }
        j += 1;
    }
    proof {
        assert(toks.take(j - start) =~= toks);
    }
    let et: i32 = match parse_i32_chars(&parts[1]) {
        Some(v) => v,
        None => 0,
    };
    let tag: Option<i32> = if n_tags > 0 {
        parse_i32_chars(&parts[3])
    } else {
        None
    };
    let ghost old_v = volume@;
    let ghost old_b = boundary@;
    if et == 1 {
        if let Some(t) = tag {
            let name = boundary_name(names, 1, t);
            let f = RawBoundaryFace {
                node_indices: nodes,
                physical_tag: t,
                physical_name: string_from_chars(name.as_slice()),
            };
            boundary.push(f);
            proof {
                assert(boundary_view(boundary@) =~= boundary_view(old_b).push(f@));
            }
        }
    } else if et == 2 || et == 3 {
        let want: usize = if et == 2 {
            3
        } else {
            4
        };
        let ct = if et == 2 {
            CellType::Triangle
        } else {
            CellType::Quad
        };
        if nodes.len() == want {
            if let Some(t) = tag {
                if find_name(names, 2, t).is_some() {
                    let e = RawElement { cell_type: ct, node_indices: nodes, physical_tag: tag };
                    volume.push(e);
                    proof {
                        assert(volume_view(volume@) =~= volume_view(old_v).push(e@));
                    }
                } else {
                    let name = boundary_name(names, 2, t);
                    let f = RawBoundaryFace {
                        node_indices: nodes,
                        physical_tag: t,
                        physical_name: string_from_chars(name.as_slice()),
                    };
                    boundary.push(f);
                    proof {
                        assert(boundary_view(boundary@) =~= boundary_view(old_b).push(f@));
                    }
                }
            }
        }
    } else {
        let ct: Option<CellType> = if et == 4 {
            Some(CellType::Tetrahedron)
        } else if et == 5 {
            Some(CellType::Hexahedron)
        } else if et == 6 {
            Some(CellType::Wedge)
        } else if et == 7 {
            Some(CellType::Pyramid)
        } else {
            None
        };
        if let Some(c) = ct {
            let e = RawElement { cell_type: c, node_indices: nodes, physical_tag: tag };
            volume.push(e);
            proof {
                assert(volume_view(volume@) =~= volume_view(old_v).push(e@));
            }
        }
    }
    true
}


// ---------------------------------------------------------------------------
// Sections
// ---------------------------------------------------------------------------

fn check_format(parts: &Vec<Vec<char>>, verdicts: &Vec<VersionClass>, k: usize) -> (r: Option<
    MshError,
>)
    requires
        parts.len() >= 2,
    ensures
        r == format_check(chars_view(parts@), verdict_at(verdicts@, k as int)),
{
    proof {
        assert(chars_view(parts@)[1] == parts@[1]@);
    }
    let supported = VersionClass::Supported;
    let v: &VersionClass = if k < verdicts.len() {
        &verdicts[k]
    } else {
        &supported
    };
    match v {
        VersionClass::Unparsable => Some(MshError::InvalidFormatVersion),
        _ => match parse_i32_chars(&parts[1]) {
            None => Some(MshError::InvalidFileType),
            Some(file_type) => match v {
                VersionClass::Unsupported(shown) => Some(MshError::UnsupportedVersion(shown.clone())),
                _ => if file_type != 0 {
                    Some(MshError::BinaryFormat)
                } else {
                    None
                },
            },
        },
    }
}

fn read_names(ls: &Vec<Vec<char>>, start: usize, m: usize, names: &mut Vec<(i32, i32, Vec<char>)>)
    requires
        start + m <= ls.len(),
    ensures
        names_view(final(names)@) == names_fold(chars_view(ls@), start as int, m as nat, names_view(old(names)@)),
{
    let ghost lv = chars_view(ls@);
    let ghost init = names_view(names@);
    let mut i: usize = 0;
    while i < m
        invariant
            i <= m,
            start + m <= ls.len(),
            lv == chars_view(ls@),
            names_view(names@) == names_fold(lv, start as int, i as nat, init),
        decreases m - i,
    {
        let line = &ls[start + i];
        let parts = split_words(line);
        proof {
            assert(lv[start + i] == line@);
        }
        if parts.len() >= 3 {
            proof {
                assert(chars_view(parts@)[0] == parts@[0]@);
                assert(chars_view(parts@)[1] == parts@[1]@);
                assert(chars_view(parts@)[2] == parts@[2]@);
            }
            let dim: i32 = match parse_i32_chars(&parts[0]) {
                Some(v) => v,
                None => 0,
            };
            let tag: i32 = match parse_i32_chars(&parts[1]) {
                Some(v) => v,
                None => 0,
            };
            let name = trim_quotes_chars(&parts[2]);
            let ghost old_n = names@;
            names.push((dim, tag, name));
            proof {
                assert(names_view(names@) =~= names_view(old_n).push((dim, tag, name@)));
            }
        }
        i += 1;
    }
}

fn read_nodes(ls: &Vec<Vec<char>>, start: usize, m: usize, count: usize) -> (r: Vec<
    Option<NodeTokens>,
>)
    requires
        start + m <= ls.len(),
    ensures
        nodes_view(r@) == nodes_fold(chars_view(ls@), start as int, m as nat, count as nat),
{
    let ghost lv = chars_view(ls@);
    let mut slots: Vec<Option<NodeTokens>> = Vec::new();
    let mut k: usize = 0;
    while k < count
        invariant
            k <= count,
            slots.len() == k,
            forall|j: int| 0 <= j < k ==> slots@[j] is None,
        decreases count - k,
    {
        slots.push(None);
        k += 1;
    }
    proof {
        assert(nodes_view(slots@) =~= Seq::new(count as nat, |j: int| None));
    }
    let mut i: usize = 0;
    while i < m
        invariant
            i <= m,
            start + m <= ls.len(),
            lv == chars_view(ls@),
            slots.len() == count,
            nodes_view(slots@) == nodes_fold(lv, start as int, i as nat, count as nat),
        decreases m - i,
    {
        let line = &ls[start + i];
        let parts = split_words(line);
        proof {
            assert(lv[start + i] == line@);
        }
        if parts.len() >= 4 {
            proof {
                assert(chars_view(parts@)[0] == parts@[0]@);
                assert(chars_view(parts@)[1] == parts@[1]@);
                assert(chars_view(parts@)[2] == parts@[2]@);
                assert(chars_view(parts@)[3] == parts@[3]@);
            }
            let idx: usize = match parse_usize_chars(&parts[0]) {
                Some(v) => v,
                None => 1,
            };
            if 1 <= idx && idx <= count {
                let t = NodeTokens {
                    x: copy_range(&parts[1], 0, parts[1].len()),
                    y: copy_range(&parts[2], 0, parts[2].len()),
                    z: copy_range(&parts[3], 0, parts[3].len()),
                };
                let ghost old_s = slots@;
                slots.set(idx - 1, Some(t));
                proof {
                    assert(parts@[1]@.subrange(0, parts@[1]@.len() as int) =~= parts@[1]@);
                    assert(parts@[2]@.subrange(0, parts@[2]@.len() as int) =~= parts@[2]@);
                    assert(parts@[3]@.subrange(0, parts@[3]@.len() as int) =~= parts@[3]@);
                    assert(nodes_view(slots@) =~= nodes_view(old_s).update(
                        idx - 1,
                        Some(t@),
                    ));
                }
            }
        }
        i += 1;
    }
    slots
}

fn read_elements(
    ls: &Vec<Vec<char>>,
    start: usize,
    m: usize,
    names: &Vec<(i32, i32, Vec<char>)>,
    volume: &mut Vec<RawElement>,
    boundary: &mut Vec<RawBoundaryFace>,
    Ghost(st): Ghost<MshModel>,
) -> (ok: bool)
    requires
        start + m <= ls.len(),
        st.names == names_view(names@),
        st.volume == volume_view(old(volume)@),
        st.boundary == boundary_view(old(boundary)@),
    ensures
        ok ==> elements_fold(chars_view(ls@), start as int, m as nat, st) == Some(
            MshModel {
                versions: st.versions,
                names: st.names,
                nodes: st.nodes,
                volume: volume_view(final(volume)@),
                boundary: boundary_view(final(boundary)@),
            },
        ),
        !ok ==> elements_fold(chars_view(ls@), start as int, m as nat, st) is None,
{
    let ghost lv = chars_view(ls@);
    let mut i: usize = 0;
    while i < m
        invariant
            i <= m,
            start + m <= ls.len(),
            lv == chars_view(ls@),
            st.names == names_view(names@),
            elements_fold(lv, start as int, i as nat, st) == Some(
                MshModel {
                    versions: st.versions,
                    names: st.names,
                    nodes: st.nodes,
                    volume: volume_view(volume@),
                    boundary: boundary_view(boundary@),
                },
            ),
        decreases m - i,
    {
        let line = &ls[start + i];
        proof {
            assert(lv[start + i] == line@);
        }
        if !parse_element(line, names, volume, boundary) {
            proof {
                lemma_elements_fold_none(lv, start as int, m as nat, (i + 1) as nat, st);
            }
            return false;
        }
        i += 1;
    }
    true
}

proof fn lemma_elements_fold_none(ls: Seq<Seq<char>>, p: int, m: nat, k: nat, st: MshModel)
    requires
        k <= m,
        elements_fold(ls, p, k, st) is None,
    ensures
        elements_fold(ls, p, m, st) is None,
    decreases m - k,
{
    if k < m {
        lemma_elements_fold_none(ls, p, (m - 1) as nat, k, st);
    }
}

/// How a run of the reader ended, and what it gathered.
pub struct MshScan {
    pub status: ReadStatus,
    /// Version tokens of the `$MeshFormat` lines met, in order.
    pub versions: Vec<Vec<char>>,
    pub contents: MshContents,
}

/// Whether the scan `r` is the reader's run `res`.
pub open spec fn scan_matches(r: MshScan, res: (ReadStatus, MshModel)) -> bool {
    &&& r.status == res.0
    &&& chars_view(r.versions@) == res.1.versions
    &&& res.0 is Done ==> contents_match(r.contents, res.1)
}

/// Whether `c` holds what the model `m` gathered.
pub open spec fn contents_match(c: MshContents, m: MshModel) -> bool {
    &&& nodes_view(c.nodes@) == m.nodes
    &&& volume_view(c.volume_elements@) == m.volume
    &&& boundary_view(c.boundary_faces@) == m.boundary
}

#[verifier::loop_isolation(false)]
fn read_lines(ls: &Vec<Vec<char>>, verdicts: &Vec<VersionClass>) -> (r: MshScan)
    ensures
        scan_matches(r, read_from(chars_view(ls@), 0, empty_model(), verdicts@)),
{
    let ghost lv = chars_view(ls@);
    let ghost vs = verdicts@;
    let n = ls.len();
    let tag_format = chars_of("$MeshFormat");
    let tag_end_format = chars_of("$EndMeshFormat");
    let tag_names = chars_of("$PhysicalNames");
    let tag_end_names = chars_of("$EndPhysicalNames");
    let tag_nodes = chars_of("$Nodes");
    let tag_end_nodes = chars_of("$EndNodes");
    let tag_elements = chars_of("$Elements");
    let tag_end_elements = chars_of("$EndElements");
    let mut versions: Vec<Vec<char>> = Vec::new();
    let mut names: Vec<(i32, i32, Vec<char>)> = Vec::new();
    let mut nodes: Vec<Option<NodeTokens>> = Vec::new();
    let mut volume: Vec<RawElement> = Vec::new();
    let mut boundary: Vec<RawBoundaryFace> = Vec::new();
    let mut p: usize = 0;
    proof {
        assert(chars_view(versions@) =~= seq![]);
        assert(names_view(names@) =~= seq![]);
        assert(nodes_view(nodes@) =~= seq![]);
        assert(volume_view(volume@) =~= seq![]);
        assert(boundary_view(boundary@) =~= seq![]);
        assert(model_of(versions@, names@, nodes@, volume@, boundary@) == empty_model());
    }
    while p < n
        invariant
            p <= n == ls.len(),
            lv == chars_view(ls@),
            vs == verdicts@,
            read_from(lv, 0, empty_model(), vs) == read_from(
                lv,
                p as int,
                model_of(versions@, names@, nodes@, volume@, boundary@),
                vs,
            ),
        decreases n - p,
    {
        let ghost st = model_of(versions@, names@, nodes@, volume@, boundary@);
        let line = &ls[p];
        proof {
            assert(lv[p as int] == line@);
        }
        if eq_chars(line, &tag_format) {
            if p + 1 < n {
                let parts = split_words(&ls[p + 1]);
                proof {
                    assert(lv[p + 1] == ls@[p + 1]@);
                }
                let q = skip_to_end(ls, p + 2, &tag_end_format);
                if parts.len() >= 2 {
                    let k = versions.len();
                    let ghost old_v = versions@;
                    let first = &parts[0];
                    versions.push(copy_range(first, 0, first.len()));
                    proof {
                        assert(first@.subrange(0, first@.len() as int) =~= first@);
                        assert(chars_view(parts@)[0] == first@);
                        assert(chars_view(versions@) =~= chars_view(old_v).push(first@));
                    }
                    match check_format(&parts, verdicts, k) {
                        Some(e) => {
                            return MshScan {
                                status: ReadStatus::Failed(e),
                                versions,
                                contents: MshContents {
                                    nodes,
                                    volume_elements: volume,
                                    boundary_faces: boundary,
                                },
                            };
                        },
                        None => {
                            p = q;
                        },
                    }
                } else {
                    p = q;
                }
            } else {
                p = n;
            }
        } else if eq_chars(line, &tag_names) {
            if p + 1 < n {
                proof {
                    assert(lv[p + 1] == ls@[p + 1]@);
                }
                match parse_usize_chars(&ls[p + 1]) {
                    None => {
                        return MshScan {
                            status: ReadStatus::Failed(MshError::InvalidPhysicalNameCount),
                            versions,
                            contents: MshContents {
                                nodes,
                                volume_elements: volume,
                                boundary_faces: boundary,
                            },
                        };
                    },
                    Some(c) => {
                        let avail = n - (p + 2);
                        let m = if c < avail {
                            c
                        } else {
                            avail
                        };
                        read_names(ls, p + 2, m, &mut names);
                        p = skip_to_end(ls, p + 2 + m, &tag_end_names);
                    },
                }
            } else {
                p = n;
            }
        } else if eq_chars(line, &tag_nodes) {
            if p + 1 < n {
                proof {
                    assert(lv[p + 1] == ls@[p + 1]@);
                }
                match parse_usize_chars(&ls[p + 1]) {
                    None => {
                        return MshScan {
                            status: ReadStatus::Failed(MshError::InvalidNodeCount),
                            versions,
                            contents: MshContents {
                                nodes,
                                volume_elements: volume,
                                boundary_faces: boundary,
                            },
                        };
                    },
                    Some(c) => {
                        let avail = n - (p + 2);
                        let m = if c < avail {
                            c
                        } else {
                            avail
                        };
                        nodes = read_nodes(ls, p + 2, m, c);
                        p = skip_to_end(ls, p + 2 + m, &tag_end_nodes);
                    },
                }
            } else {
                p = n;
            }
        } else if eq_chars(line, &tag_elements) {
            if p + 1 < n {
                proof {
                    assert(lv[p + 1] == ls@[p + 1]@);
                }
                match parse_usize_chars(&ls[p + 1]) {
                    None => {
                        return MshScan {
                            status: ReadStatus::Failed(MshError::InvalidElementCount),
                            versions,
                            contents: MshContents {
                                nodes,
                                volume_elements: volume,
                                boundary_faces: boundary,
                            },
                        };
                    },
                    Some(c) => {
                        let avail = n - (p + 2);
                        let m = if c < avail {
                            c
                        } else {
                            avail
                        };
                        let ok = read_elements(
                            ls,
                            p + 2,
                            m,
                            &names,
                            &mut volume,
                            &mut boundary,
                            Ghost(st),
                        );
                        if !ok {
                            return MshScan {
                                status: ReadStatus::Malformed,
                                versions,
                                contents: MshContents {
                                    nodes,
                                    volume_elements: volume,
                                    boundary_faces: boundary,
                                },
                            };
                        }
                        p = skip_to_end(ls, p + 2 + m, &tag_end_elements);
                    },
                }
            } else {
                p = n;
            }
        } else if line.len() > 0 && line[0] == '$' && !starts_with_end_chars(line) {
            let mut end_tag = chars_of("$End");
            let mut j: usize = 1;
            let ghost pre = end_tag@;
            while j < line.len()
                invariant
                    1 <= j <= line.len(),
                    end_tag@ == pre + line@.subrange(1, j as int),
                decreases line.len() - j,
            {
                end_tag.push(line[j]);
                j += 1;
                proof {
                    assert(end_tag@ =~= pre + line@.subrange(1, j as int));
                }
            }
            proof {
                assert(line@.subrange(1, line@.len() as int) =~= line@.skip(1));
            }
            p = skip_to_end(ls, p + 1, &end_tag);
        } else {
            p = p + 1;
        }
    }
    MshScan {
        status: ReadStatus::Done,
        versions,
        contents: MshContents { nodes, volume_elements: volume, boundary_faces: boundary },
    }
}

fn starts_with_end_chars(line: &Vec<char>) -> (r: bool)
    ensures
        r == starts_with_end(line@),
{
    proof {
        reveal_strlit("$End");
    }
    if line.len() < 4 {
        return false;
    }
    let r = line[0] == '$' && line[1] == 'E' && line[2] == 'n' && line[3] == 'd';
    proof {
        if r {
            assert(line@.take(4) =~= "$End"@);
        } else {
            assert(line@.take(4) != "$End"@) by {
                if line@.take(4) == "$End"@ {
                    assert(line@.take(4)[0] == line@[0]);
                    assert(line@.take(4)[1] == line@[1]);
                    assert(line@.take(4)[2] == line@[2]);
                    assert(line@.take(4)[3] == line@[3]);
                }
            }
        }
    }
    r
}

/// Runs the reader over the text of a mesh file.
pub fn scan_msh(content: &str, verdicts: &Vec<VersionClass>) -> (r: MshScan)
    ensures
        scan_matches(r, msh_read(content@, verdicts@)),
{
    let chars = chars_of(content);
    let ls = split_trimmed_lines(&chars);
    proof {
        assert(chars_view(ls@) == trimmed_lines(content@));
    }
    read_lines(&ls, verdicts)
}

} // verus!
