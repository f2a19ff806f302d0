use blue_engine_utilities::light::{light_shader_source, uniform_slot, LightManager, ObjectPlan, UniformSlot};
use blue_engine_utilities::order::{compare_names, NameOrder};

fn manager() -> LightManager<u8, (i32, i32)> {
    LightManager::new(9)
}

#[test]
fn new_manager_has_no_lights() {
    let m = manager();
    assert_eq!(*m.ambient(), 9);
    assert!(!m.is_light("sun"));
    assert!(m.primary_light().is_none());
    assert!(m.needs_shader("cube"));
}

#[test]
fn set_object_as_light_adds_and_overwrites() {
    let mut m = manager();
    m.set_object_as_light("light sphere".to_string(), (0, 0));
    assert!(m.is_light("light sphere"));
    assert!(!m.is_light("light"));
    assert_eq!(m.primary_light(), Some(&(0, 0)));
    m.set_object_as_light("light sphere".to_string(), (4, 5));
    assert_eq!(m.primary_light(), Some(&(4, 5)));
}

#[test]
fn primary_light_is_least_name() {
    let mut m = manager();
    m.set_object_as_light("b".to_string(), (2, 0));
    m.set_object_as_light("c".to_string(), (3, 0));
    m.set_object_as_light("ab".to_string(), (1, 0));
    m.set_object_as_light("B".to_string(), (0, 1));
    assert_eq!(m.primary_light(), Some(&(0, 1)));
    m.set_object_as_light("B".to_string(), (7, 7));
    assert_eq!(m.primary_light(), Some(&(7, 7)));
    assert!(m.is_light("ab") && m.is_light("b") && m.is_light("c"));
}

#[test]
fn plan_for_light_updates_it() {
    let mut m = manager();
    m.set_object_as_light("sun".to_string(), (1, 1));
    assert!(matches!(m.plan_object("sun", 0, false, ""), ObjectPlan::UpdateLight));
}

#[test]
fn plan_for_lit_object_first_time_and_after() {
    let mut m = manager();
    m.set_object_as_light("sun".to_string(), (1, 2));
    m.set_object_as_light("moon".to_string(), (3, 4));
    let template = "a //@CAMERAOUT b";
    match m.plan_object("cube", 2, false, template) {
        ObjectPlan::Shade { light, slot, shader } => {
            assert_eq!(*light, (3, 4));
            assert_eq!(slot, UniformSlot::Push);
            assert_eq!(
                shader.as_deref(),
                Some("a out.position = transform_uniform.transform_matrix * vec4<f32>(input.position, 1.0); b")
            );
        }
        ObjectPlan::UpdateLight => panic!("cube is no light"),
    }
    m.mark_affected("cube".to_string());
    assert!(!m.needs_shader("cube"));
    match m.plan_object("cube", 3, false, template) {
        ObjectPlan::Shade { slot, shader, .. } => {
            assert_eq!(slot, UniformSlot::Replace(2));
            assert!(shader.is_none());
        }
        ObjectPlan::UpdateLight => panic!("cube is no light"),
    }
}

#[test]
fn mark_affected_twice_is_once() {
    let mut m = manager();
    m.mark_affected("cube".to_string());
    m.mark_affected("cube".to_string());
    assert!(!m.needs_shader("cube"));
    assert!(m.needs_shader("cube2"));
}

#[test]
fn shader_with_camera_effect() {
    let source = light_shader_source("//@CAMERASTRUCT\nfn f() { //@CAMERAOUT }", true);
    assert_eq!(
        source,
        "\nstruct CameraUniforms {\n    camera_matrix: mat4x4<f32>,\n};\n@group(1) @binding(0)\nvar<uniform> camera_uniform: CameraUniforms;\nfn f() { out.position = camera_uniform.camera_matrix * (transform_uniform.transform_matrix * vec4<f32>(input.position, 1.0)); }"
    );
}

#[test]
fn shader_without_camera_effect_keeps_struct_marker() {
    let source = light_shader_source("//@CAMERASTRUCT //@CAMERAOUT//@CAMERAOUT", false);
    let out = "out.position = transform_uniform.transform_matrix * vec4<f32>(input.position, 1.0);";
    assert_eq!(source, format!("//@CAMERASTRUCT {}{}", out, out));
}

#[test]
fn shader_template_without_markers_is_unchanged() {
    assert_eq!(light_shader_source("plain", true), "plain");
    assert_eq!(light_shader_source("", false), "");
}

#[test]
fn uniform_slot_cases() {
    assert_eq!(uniform_slot(2), UniformSlot::Push);
    assert_eq!(uniform_slot(3), UniformSlot::Replace(2));
    assert_eq!(uniform_slot(7), UniformSlot::Replace(2));
}

#[test]
fn name_order_is_byte_order() {
    assert_eq!(compare_names("a", "b"), NameOrder::Less);
    assert_eq!(compare_names("b", "a"), NameOrder::Greater);
    assert_eq!(compare_names("ab", "ab"), NameOrder::Equal);
    assert_eq!(compare_names("ab", "abc"), NameOrder::Less);
    assert_eq!(compare_names("Z", "a"), NameOrder::Less);
    assert_eq!(compare_names("é", "z"), NameOrder::Greater);
    assert_eq!(compare_names("", ""), NameOrder::Equal);
}

fn run_update(m: &mut LightManager<u8, (i32, i32)>, objects: &[&str]) -> Vec<String> {
    let mut shaded = Vec::new();
    for name in objects {
        let shader = match m.plan_object(name, 2, false, "//@CAMERAOUT") {
            ObjectPlan::UpdateLight => None,
            ObjectPlan::Shade { shader, .. } => shader,
        };
        if shader.is_some() {
            m.mark_affected(name.to_string());
            shaded.push(name.to_string());
        }
    }
    shaded
}

#[test]
fn update_shades_each_non_light_once() {
    let mut m = manager();
    m.set_object_as_light("sun".to_string(), (0, 0));
    let objects = ["b", "sun", "a", "b"];
    assert_eq!(run_update(&mut m, &objects), vec!["b".to_string(), "a".to_string()]);
    assert!(!m.needs_shader("a") && !m.needs_shader("b"));
    assert!(m.needs_shader("sun"));
    assert!(run_update(&mut m, &objects).is_empty());
}
