use aurion::mesh::{
    draw_index_count, index_data_len, texture_unit, vertex_attributes, vertex_data_len, TextureType,
    VertexAttribute, VERTEX_STRIDE,
};
use aurion::shader::{compile_outcome, link_outcome, program_stages, ShaderStage};

#[test]
fn vertex_layout_is_tightly_packed() {
    let attrs = vertex_attributes();
    assert_eq!(
        attrs,
        vec![
            VertexAttribute { location: 0, components: 3, offset: 0 },
            VertexAttribute { location: 1, components: 3, offset: 12 },
            VertexAttribute { location: 2, components: 2, offset: 24 },
        ]
    );
    assert_eq!(VERTEX_STRIDE, 32);
}

#[test]
fn buffer_sizes() {
    assert_eq!(vertex_data_len(24), Some(768));
    assert_eq!(vertex_data_len(0), Some(0));
    assert_eq!(vertex_data_len(usize::MAX), None);
    assert_eq!(index_data_len(36), Some(144));
    assert_eq!(index_data_len(usize::MAX / 2), None);
}

#[test]
fn draw_count_fits_i32() {
    assert_eq!(draw_index_count(36), Some(36));
    assert_eq!(draw_index_count(i32::MAX as usize), Some(i32::MAX));
    assert_eq!(draw_index_count(i32::MAX as usize + 1), None);
}

#[test]
fn texture_uniforms_and_units() {
    assert_eq!(TextureType::DIFFUSE(0).uniform_name(), "texture_diffuse");
    assert_eq!(TextureType::SPECULAR(3).uniform_name(), "texture_specular");
    assert_eq!(texture_unit(0), Some(0));
    assert_eq!(texture_unit(2), Some(2));
    assert_eq!(texture_unit(u32::MAX as usize + 1), None);
}

#[test]
fn stages_compile_vertex_first() {
    assert_eq!(program_stages(), vec![ShaderStage::Vertex, ShaderStage::Fragment]);
}

#[test]
fn compile_failure_reports_log() {
    assert_eq!(compile_outcome(ShaderStage::Vertex, true, String::new()), Ok(()));
    assert_eq!(
        compile_outcome(ShaderStage::Fragment, false, "0:1: syntax error".to_string()),
        Err("0:1: syntax error".to_string())
    );
}

#[test]
fn compile_failure_without_log_is_not_silent() {
    let v = compile_outcome(ShaderStage::Vertex, false, String::new()).unwrap_err();
    let f = compile_outcome(ShaderStage::Fragment, false, String::new()).unwrap_err();
    assert_eq!(v, "vertex shader failed to compile");
    assert_eq!(f, "fragment shader failed to compile");
}

#[test]
fn link_failure_reports_log() {
    assert_eq!(link_outcome(true, String::new()), Ok(()));
    assert_eq!(link_outcome(false, "missing main".to_string()), Err("missing main".to_string()));
    assert_eq!(link_outcome(false, String::new()), Err("shader program failed to link".to_string()));
}
