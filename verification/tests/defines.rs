use std::collections::HashMap;

use preproc::loader::FileLoader;
use preproc::machine::Flaw;
use preproc::preprocessor::PreProcessor;
use preproc::symbols::SymbolSet;

struct Shelf(HashMap<String, String>);

impl FileLoader for Shelf {
    fn load(&self, path: &str) -> Option<String> {
        self.0.get(path).cloned()
    }
}

fn shelf(files: &[(&str, &str)]) -> PreProcessor {
    let mut map = HashMap::new();
    for (path, text) in files {
        map.insert(path.to_string(), text.to_string());
    }
    PreProcessor::with_loader(Box::new(Shelf(map)))
}

fn sorted(set: &SymbolSet) -> Vec<String> {
    let mut names = set.names();
    names.sort();
    names
}

#[test]
fn defines_of_file() {
    let mut pre_processor = shelf(&[
        ("main.c", "#include \"common.h\"\n#if OTHER_DEFINE\nint x;\n#endif\n"),
        ("common.h", "#define COMMON_HEADER\n"),
    ]);

    let mut defines = SymbolSet::new();
    pre_processor.find_defines_of("main.c", &mut defines).expect("file not found");

    for def in ["COMMON_HEADER", "OTHER_DEFINE"] {
        assert!(defines.contains(def), "define `{}` not found in {:?}", def, defines.names());
    }
}

#[test]
fn every_branch_and_every_include_counts() {
    let mut p = shelf(&[
        ("m", "#if A && !B\n#elif C || 1\n#else\n#define D\n#endif\n#include \"n\"\n#undef U\nplain E\n"),
        ("n", "#if 0\n#include \"o\"\n#define F\n#endif\n#if true || G\n#endif\n"),
        ("o", "#define H\n#if false\n#endif\n"),
    ]);
    let mut found = SymbolSet::new();
    p.find_defines_of("m", &mut found).unwrap();
    assert_eq!(sorted(&found), vec!["A", "B", "C", "D", "F", "G", "H"]);
}

#[test]
fn constants_leave_the_set_and_the_rest_stays() {
    let mut p = shelf(&[("m", "#define X\n")]);
    let mut found = SymbolSet::new();
    found.insert("kept");
    found.insert("true");
    found.insert("0");
    p.find_defines_of("m", &mut found).unwrap();
    assert_eq!(sorted(&found), vec!["X", "kept"]);
}

#[test]
fn a_missing_include_is_passed_over() {
    let mut p = shelf(&[("m", "#define A\n#include \"gone\"\n#define B\n#include \"gone\"\n")]);
    let mut found = SymbolSet::new();
    p.find_defines_of("m", &mut found).unwrap();
    assert_eq!(sorted(&found), vec!["A", "B"]);
}

#[test]
fn errors_leave_the_set_as_it_was() {
    let mut p = shelf(&[("m", "#define A\n#include \"m\"\n")]);
    let mut found = SymbolSet::new();
    found.insert("kept");
    let e = p.find_defines_of("m", &mut found).unwrap_err();
    assert_eq!((e.flaw, e.path.as_str(), e.line, e.target.as_str()), (Flaw::Cycle, "m", 2, "m"));
    assert_eq!(sorted(&found), vec!["kept"]);

    let e = p.find_defines_of("gone", &mut found).unwrap_err();
    assert_eq!((e.flaw, e.path.as_str(), e.line), (Flaw::NotFound, "gone", 0));
    assert_eq!(sorted(&found), vec!["kept"]);
}

#[test]
fn symbol_sets() {
    let mut set = SymbolSet::new();
    assert!(set.names().is_empty());
    assert!(set.insert("a"));
    assert!(!set.insert("a"));
    assert!(set.insert("a much longer name than fits in line"));
    assert!(set.contains("a"));
    assert!(!set.contains("b"));
    assert!(set.remove("a"));
    assert!(!set.remove("a"));
    assert!(!set.contains("a"));
    assert_eq!(sorted(&set), vec!["a much longer name than fits in line"]);

    let mut other = SymbolSet::new();
    other.insert("x");
    other.insert("y");
    set.extend(&other);
    assert_eq!(sorted(&set), vec!["a much longer name than fits in line", "x", "y"]);
    set.clear();
    assert!(set.names().is_empty());
    assert!(!set.contains("x"));
}

const BEVY_DEFINES: [&str; 32] = [
    "NO_ARRAY_TEXTURES_SUPPORT",
    "DIRECTIONAL_LIGHT_SHADOW_MAP_DEBUG_CASCADES",
    "PREMULTIPLY_ALPHA",
    "MOTION_VECTOR_PREPASS",
    "LOAD_PREPASS_NORMALS",
    "DEPTH_PREPASS",
    "TONEMAP_METHOD_REINHARD_LUMINANCE",
    "TONEMAP_METHOD_NONE",
    "ENVIRONMENT_MAP",
    "VERTEX_COLORS",
    "TONEMAP_METHOD_REINHARD",
    "TONEMAP_METHOD_SOMEWHAT_BORING_DISPLAY_TRANSFORM",
    "STANDARDMATERIAL_NORMAL_MAP",
    "BLEND_MULTIPLY",
    "NORMAL_PREPASS",
    "VERTEX_TANGENTS",
    "VERTEX_UVS",
    "TONEMAP_METHOD_TONY_MC_MAPFACE",
    "SKINNED",
    "CLUSTERED_FORWARD_DEBUG_Z_SLICES",
    "CLUSTERED_FORWARD_DEBUG_CLUSTER_LIGHT_COMPLEXITY",
    "SIXTEEN_BYTE_ALIGNMENT",
    "TONEMAP_METHOD_AGX",
    "TONEMAP_METHOD_ACES_FITTED",
    "TONEMAP_IN_SHADER",
    "CLUSTERED_FORWARD_DEBUG_CLUSTER_COHERENCY",
    "LIGHTS_USE_STORAGE",
    "PREPASS_FRAGMENT",
    "MULTISAMPLED",
    "DEBAND_DITHER",
    "BLEND_PREMULTIPLIED_ALPHA",
    "TONEMAP_METHOD_BLENDER_FILMIC",
];

fn shader_tree() -> Vec<(String, String)> {
    let mut root = String::from("#include \"pbr/types.wgsl\"\n#include \"pbr/lighting.wgsl\"\n");
    let mut types = String::new();
    let mut lighting = String::new();
    for (i, define) in BEVY_DEFINES.iter().enumerate() {
        let part = match i % 3 {
            0 => &mut root,
            1 => &mut types,
            _ => &mut lighting,
        };
        part.push_str(&format!("#if {}\n    let on_{} = 1.0;\n#else\n    let off_{} = 0.0;\n#endif\n", define, i, i));
    }
    for line in 0..1219 - BEVY_DEFINES.len() {
        root.push_str(&format!("fn filler_{}() {{}}\n", line));
    }
    vec![
        ("pbr/pbr.wgsl".to_string(), root),
        ("pbr/types.wgsl".to_string(), types),
        ("pbr/lighting.wgsl".to_string(), lighting),
    ]
}

#[test]
fn bevy() {
    let tree = shader_tree();
    let files: Vec<(&str, &str)> = tree.iter().map(|(p, t)| (p.as_str(), t.as_str())).collect();
    let mut pre_processor = shelf(&files);

    let mut defines = SymbolSet::new();
    pre_processor.find_defines_of("pbr/pbr.wgsl", &mut defines).expect("file not found");

    for def in BEVY_DEFINES {
        assert!(defines.contains(def), "define `{}` not found", def,);
    }

    let mut output = String::with_capacity(32 * 1024);
    pre_processor.process_to_str("pbr/pbr.wgsl", &mut output).expect("processing failed");

    assert_eq!(pre_processor.outputted_line_count, 1219);
    assert_eq!(output.lines().count(), 1219);
}
