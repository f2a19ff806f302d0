//! Assembly of a mesh from the primitives of a glTF mesh: vertices from the
//! positions and normals of each primitive, indices narrowed to 16 bits, and
//! the name under which the mesh is stored.
//!
//! The attribute values themselves (`P` for positions, `N` for normals) are
//! only carried: nothing here reads them.

use vstd::prelude::*;

verus! {

/// The index list of a primitive as the glTF reader hands it out.
pub enum IndexList {
    /// 8-bit indices; a mesh built here takes none of them.
    U8(Vec<u8>),
    /// 16-bit indices, taken as they are.
    U16(Vec<u16>),
    /// 32-bit indices, each cut to its low 16 bits.
    U32(Vec<u32>),
}

/// What is read from one primitive of a mesh.
pub struct PrimitiveData<P, N> {
    /// Vertex positions.
    pub positions: Vec<P>,
    /// Vertex normals, one for each position (extra ones are not used).
    pub normals: Vec<N>,
    /// The primitive's index list, if it has one.
    pub indices: Option<IndexList>,
}

/// The vertices (position and normal) and 16-bit indices of a mesh.
pub struct MeshData<P, N> {
    pub vertices: Vec<(P, N)>,
    pub indices: Vec<u16>,
}

/// The vertices of one primitive: each position paired with the normal at
/// the same place.
pub open spec fn primitive_vertices<P, N>(p: PrimitiveData<P, N>) -> Seq<(P, N)> {
    Seq::new(p.positions@.len(), |i: int| (p.positions@[i], p.normals@[i]))
}

/// The 16-bit indices that one primitive contributes.
pub open spec fn primitive_indices(indices: Option<IndexList>) -> Seq<u16> {
    match indices {
        Some(IndexList::U16(v)) => v@,
        Some(IndexList::U32(v)) => v@.map_values(|x: u32| x as u16),
        _ => Seq::empty(),
    }
}

/// The vertices of a mesh: those of its primitives one after the other.
pub open spec fn mesh_vertices<P, N>(ps: Seq<PrimitiveData<P, N>>) -> Seq<(P, N)>
    decreases ps.len(),
{
    if ps.len() == 0 {
        Seq::empty()
    } else {
        mesh_vertices(ps.drop_last()) + primitive_vertices(ps.last())
    }
}

/// The indices of a mesh: those of its primitives one after the other, each
/// list as the primitive gives it (not shifted by the vertices before it).
pub open spec fn mesh_indices<P, N>(ps: Seq<PrimitiveData<P, N>>) -> Seq<u16>
    decreases ps.len(),
{
    if ps.len() == 0 {
        Seq::empty()
    } else {
        mesh_indices(ps.drop_last()) + primitive_indices(ps.last().indices)
    }
}

/// Every primitive has a normal for each of its positions.
pub open spec fn normals_cover_positions<P, N>(ps: Seq<PrimitiveData<P, N>>) -> bool {
    forall|i: int| 0 <= i < ps.len() ==> (#[trigger] ps[i]).normals@.len() >= ps[i].positions@.len()
}

/// Appends the 16-bit indices of one primitive.
fn append_indices(out: &mut Vec<u16>, indices: &Option<IndexList>)
    ensures
        final(out)@ == old(out)@ + primitive_indices(*indices),
{
    match indices {
        Some(IndexList::U16(v)) => {
            let n = v.len();
            let mut j: usize = 0;
            while j < n
                invariant
                    n == v@.len(),
                    j <= n,
                    out@ == old(out)@ + v@.take(j as int),
                decreases n - j,
            {
                out.push(v[j]);
                assert(v@.take(j + 1) =~= v@.take(j as int).push(v@[j as int]));
                j = j + 1;
            }
            assert(v@.take(n as int) =~= v@);
        },
        Some(IndexList::U32(v)) => {
            let n = v.len();
            let mut j: usize = 0;
            while j < n
                invariant
                    n == v@.len(),
                    j <= n,
                    out@ == old(out)@ + v@.take(j as int).map_values(|x: u32| x as u16),
                decreases n - j,
            {
                let x: u32 = v[j];
                out.push(x as u16);
                assert(v@.take(j + 1).map_values(|x: u32| x as u16) =~= v@.take(j as int).map_values(
                    |x: u32| x as u16,
                ).push(x as u16));
                j = j + 1;
            }
            assert(v@.take(n as int) =~= v@);
        },
        _ => {
            assert(old(out)@ + Seq::<u16>::empty() =~= old(out)@);
        },
    }
}

/// Builds the vertex and index lists of a mesh from its primitives.
pub fn assemble_mesh<P: Copy, N: Copy>(primitives: &Vec<PrimitiveData<P, N>>) -> (mesh: MeshData<P, N>)
    requires
        normals_cover_positions(primitives@),
    ensures
        mesh.vertices@ == mesh_vertices(primitives@),
        mesh.indices@ == mesh_indices(primitives@),
{
    let mut vertices: Vec<(P, N)> = Vec::new();
    let mut indices: Vec<u16> = Vec::new();
    let count = primitives.len();
    let mut k: usize = 0;
    assert(primitives@.take(0) =~= Seq::<PrimitiveData<P, N>>::empty());
    while k < count
        invariant
            count == primitives@.len(),
            k <= count,
            normals_cover_positions(primitives@),
            vertices@ == mesh_vertices(primitives@.take(k as int)),
            indices@ == mesh_indices(primitives@.take(k as int)),
        decreases count - k,
    {
        let primitive = &primitives[k];
        assert(primitive.normals@.len() >= primitive.positions@.len()) by {
            assert(primitives@[k as int] == *primitive);
        }
        let ghost before = vertices@;
        let n = primitive.positions.len();
        let mut i: usize = 0;
        while i < n
            invariant
                n == primitive.positions@.len(),
                primitive.normals@.len() >= n,
                i <= n,
                vertices@ == before + primitive_vertices(*primitive).take(i as int),
            decreases n - i,
        {
            let position = primitive.positions[i];
            let normal = primitive.normals[i];
            vertices.push((position, normal));
            assert(primitive_vertices(*primitive).take(i + 1) =~= primitive_vertices(*primitive).take(
                i as int,
            ).push((position, normal)));
            i = i + 1;
        }
        assert(primitive_vertices(*primitive).take(n as int) =~= primitive_vertices(*primitive));
        append_indices(&mut indices, &primitive.indices);
        assert(primitives@.take(k + 1).drop_last() =~= primitives@.take(k as int));
        assert(primitives@.take(k + 1).last() == *primitive);
        k = k + 1;
    }
    assert(primitives@.take(count as int) =~= primitives@);
    MeshData { vertices, indices }
}

/// The suffix of the name given to a mesh that has none.
pub open spec fn unnamed_suffix() -> Seq<char> {
    ":no_name"@
}

/// The name under which a mesh is stored: its own name, or the file's path
/// followed by `:no_name`.
pub fn mesh_name(name: Option<&str>, path: &str) -> (stored: String)
    ensures
        stored@ == (match name {
            Some(n) => n@,
            None => path@ + unnamed_suffix(),
        }),
{
    match name {
        Some(n) => String::from_str(n),
        None => {
            let mut stored = String::from_str(path);
            stored.append(":no_name");
            stored
        },
    }
}

} // verus!

verus! {

/// The number of positions over all primitives.
pub open spec fn total_positions<P, N>(ps: Seq<PrimitiveData<P, N>>) -> nat
    decreases ps.len(),
{
    if ps.len() == 0 {
        0
    } else {
        total_positions(ps.drop_last()) + ps.last().positions@.len()
    }
}

/// Law of mesh assembly: the mesh has one vertex per position of its
/// primitives, and the vertices of each primitive follow those of the
/// primitives before it.
pub proof fn law_mesh_vertex_count<P, N>(ps: Seq<PrimitiveData<P, N>>, k: int)
    requires
        0 <= k <= ps.len(),
    ensures
        mesh_vertices(ps).len() == total_positions(ps),
        total_positions(ps.take(k)) <= total_positions(ps),
        mesh_vertices(ps.take(k)) == mesh_vertices(ps).take(total_positions(ps.take(k)) as int),
    decreases ps.len(),
{
    if ps.len() > 0 {
        let rest = ps.drop_last();
        if k == ps.len() {
            law_mesh_vertex_count(rest, 0);
            assert(ps.take(k) =~= ps);
            assert(mesh_vertices(ps).take(mesh_vertices(ps).len() as int) =~= mesh_vertices(ps));
        } else {
            law_mesh_vertex_count(rest, k);
            assert(ps.take(k) =~= rest.take(k));
            let n = total_positions(rest.take(k)) as int;
            assert(mesh_vertices(ps).take(n) =~= mesh_vertices(rest).take(n));
        }
    } else {
        assert(ps.take(k) =~= ps);
    }
}

} // verus!

verus! {

/// Law of the index lists: 16-bit indices are kept as they are, whatever
/// their value; 32-bit indices keep their value modulo 2^16; 8-bit index
/// lists and missing ones give no index.
pub proof fn law_primitive_indices(indices: Option<IndexList>)
    ensures
        ({
            let out = primitive_indices(indices);
            match indices {
                Some(IndexList::U16(v)) => out.len() == v@.len() && forall|i: int|
                    0 <= i < v@.len() ==> out[i] as int == v@[i] as int,
                Some(IndexList::U32(v)) => out.len() == v@.len() && forall|i: int|
                    0 <= i < v@.len() ==> out[i] as int == v@[i] as int % 65536,
                _ => out.len() == 0,
            }
        }),
{
    match indices {
        Some(IndexList::U32(v)) => {
            let out = primitive_indices(indices);
            assert forall|i: int| 0 <= i < v@.len() implies out[i] as int == v@[i] as int % 65536 by {
                let x: u32 = v@[i];
                assert(out[i] == x as u16);
                assert(x as u16 == x % 65536) by (bit_vector);
            }
        },
        _ => {},
    }
}

/// Law of a one-primitive mesh: its vertices are the primitive's positions,
/// each with the normal at the same place, and its indices are the
/// primitive's indices.
pub proof fn law_single_primitive_mesh<P, N>(p: PrimitiveData<P, N>)
    ensures
        mesh_vertices(seq![p]).len() == p.positions@.len(),
        forall|i: int|
            0 <= i < p.positions@.len() ==> #[trigger] mesh_vertices(seq![p])[i] == (
                p.positions@[i],
                p.normals@[i],
            ),
        mesh_indices(seq![p]) == primitive_indices(p.indices),
{
    let ps = seq![p];
    assert(ps.drop_last() =~= Seq::<PrimitiveData<P, N>>::empty());
    assert(ps.last() == p);
    assert(mesh_vertices(ps.drop_last()) == Seq::<(P, N)>::empty());
    assert(mesh_indices(ps.drop_last()) == Seq::<u16>::empty());
    assert(mesh_vertices(ps) =~= primitive_vertices(p));
    assert(mesh_indices(ps) =~= primitive_indices(p.indices));
}

} // verus!

verus! {

/// Law of the stored name of a mesh without a name: the file's path,
/// followed by a colon and `no_name`.
pub proof fn law_unnamed_suffix(path: Seq<char>)
    ensures
        path + unnamed_suffix() =~= path + seq![':', 'n', 'o', '_', 'n', 'a', 'm', 'e'],
{
    reveal_strlit(":no_name");
    assert(unnamed_suffix() =~= seq![':', 'n', 'o', '_', 'n', 'a', 'm', 'e']);
}

} // verus!
