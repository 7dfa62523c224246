//! Mesh data: the fixed vertex layout (position, normal, uv; eight floats,
//! tightly packed), index data, and texture bindings.
use vstd::prelude::*;

verus! {

#[verifier::external_type_specification]
#[verifier::external_body]
pub struct ExVec3(glam::Vec3);

#[verifier::external_type_specification]
#[verifier::external_body]
pub struct ExVec2(glam::Vec2);

/// One vertex: position, normal and texture coordinates.
pub struct Vertex {
    pub position: glam::Vec3,
    pub normal: glam::Vec3,
    pub uv: glam::Vec2,
}

/// The kind of a texture and its slot.
#[allow(non_camel_case_types)]
#[derive(Clone, Copy, PartialEq, Eq, Structural, Debug)]
pub enum TextureType {
    DIFFUSE(i32),
    SPECULAR(i32),
}

/// A texture bound to a mesh.
#[derive(Clone, Copy, PartialEq, Eq, Structural, Debug)]
pub struct Texture {
    pub texture_type: TextureType,
}

/// Bytes in one float of the vertex layout.
pub const FLOAT_BYTES: usize = 4;

/// Bytes from one vertex to the next: eight floats.
pub const VERTEX_STRIDE: usize = 32;

/// Bytes in one index.
pub const INDEX_BYTES: usize = 4;

/// One attribute of the vertex layout: its shader location, how many floats
/// it has, and its byte offset within a vertex.
#[derive(Clone, Copy, PartialEq, Eq, Structural, Debug)]
pub struct VertexAttribute {
    pub location: u32,
    pub components: i32,
    pub offset: i32,
}

/// The layout of a vertex: position (three floats) at location 0, normal
/// (three floats) at location 1, uv (two floats) at location 2, in that order
/// and with no gaps.
pub open spec fn layout_spec() -> Seq<VertexAttribute> {
    seq![
        VertexAttribute { location: 0, components: 3, offset: 0 },
        VertexAttribute { location: 1, components: 3, offset: 12 },
        VertexAttribute { location: 2, components: 2, offset: 24 },
    ]
}

/// The attributes of the vertex layout, in location order.
pub fn vertex_attributes() -> (r: Vec<VertexAttribute>)
    ensures
        r@ == layout_spec(),
{
    let mut r: Vec<VertexAttribute> = Vec::new();
    let mut offset: i32 = 0;
    let mut location: u32 = 0;
    let counts: [i32; 3] = [3, 3, 2];
    while location < 3
        invariant
            location <= 3,
            counts@ == seq![3i32, 3i32, 2i32],
            r@ == layout_spec().take(location as int),
            offset == if location == 0 { 0i32 } else if location == 1 { 12i32 } else if location == 2 { 24i32 } else { 32i32 },
        decreases 3 - location,
    {
        let components = counts[location as usize];
        r.push(VertexAttribute { location, components, offset });
        proof {
            assert(layout_spec().take(location + 1) =~= layout_spec().take(location as int).push(
                layout_spec()[location as int],
            ));
        }
        offset = offset + components * (FLOAT_BYTES as i32);
        location = location + 1;
    }
    proof {
        assert(layout_spec().take(3) =~= layout_spec());
    }
    r
}

/// The size in bytes of `count` vertices, or `None` if it does not fit in
/// `usize`.
pub fn vertex_data_len(count: usize) -> (r: Option<usize>)
    ensures
        count * VERTEX_STRIDE <= usize::MAX ==> r == Some((count * VERTEX_STRIDE) as usize),
        count * VERTEX_STRIDE > usize::MAX ==> r is None,
{
    count.checked_mul(VERTEX_STRIDE)
}

/// The size in bytes of `count` indices, or `None` if it does not fit in
/// `usize`.
pub fn index_data_len(count: usize) -> (r: Option<usize>)
    ensures
        count * INDEX_BYTES <= usize::MAX ==> r == Some((count * INDEX_BYTES) as usize),
        count * INDEX_BYTES > usize::MAX ==> r is None,
{
    count.checked_mul(INDEX_BYTES)
}

/// The element count of an indexed draw of `count` indices, or `None` if it
/// does not fit in the draw call's `i32`.
pub fn draw_index_count(count: usize) -> (r: Option<i32>)
    ensures
        count <= i32::MAX ==> r == Some(count as i32),
        count > i32::MAX ==> r is None,
{
    if count <= i32::MAX as usize {
        Some(count as i32)
    } else {
        None
    }
}

/// The sampler uniform that a texture of kind `t` is bound to.
pub open spec fn texture_uniform_spec(t: TextureType) -> Seq<char> {
    match t {
        TextureType::DIFFUSE(_) => "texture_diffuse"@,
        TextureType::SPECULAR(_) => "texture_specular"@,
    }
}

impl TextureType {
    /// The sampler uniform that a texture of this kind is bound to.
    pub fn uniform_name(&self) -> (r: &'static str)
        ensures
            r@ == texture_uniform_spec(*self),
    {
        match self {
            TextureType::DIFFUSE(_) => {
                proof {
                    reveal_strlit("texture_diffuse");
                }
                "texture_diffuse"
            },
            TextureType::SPECULAR(_) => {
                proof {
                    reveal_strlit("texture_specular");
                }
                "texture_specular"
            },
        }
    }
}

/// The texture unit of the `i`-th texture of a mesh: textures take
/// consecutive units from unit 0, or `None` past the last unit number.
pub fn texture_unit(i: usize) -> (r: Option<u32>)
    ensures
        i <= u32::MAX ==> r == Some(i as u32),
        i > u32::MAX ==> r is None,
{
    if i <= u32::MAX as usize {
        Some(i as u32)
    } else {
        None
    }
}

} // verus!
