pub mod arith;
pub mod bignat;
pub mod blend;
pub mod blend_laws;
pub mod cascade_fit;
pub mod cascade_state;
pub mod clip;
pub mod collapse;
pub mod csm;
pub mod cube_laws;
pub mod culling;
pub mod decimal;
pub mod demo;
pub mod derived;
pub mod dither;
pub mod encoding;
pub mod fb;
pub mod float;
pub mod font;
pub mod frames;
pub mod gltf;
pub mod ibl;
pub mod ibl_bake;
pub mod ibl_sampling;
pub mod icosphere;
pub mod json;
pub mod json_laws;
pub mod lod;
pub mod lod_laws;
pub mod material;
pub mod math;
pub mod math_laws;
pub mod mesh;
pub mod normal_laws;
pub mod obj;
pub mod obj_asset;
pub mod obj_laws;
pub mod option_laws;
pub mod overlay;
pub mod painting;
pub mod particles;
pub mod qem;
pub mod qem_laws;
pub mod reals;
pub mod record_laws;
pub mod records;
pub mod round;
pub mod rounding;
pub mod rules;
pub mod scenes;
pub mod shadow_laws;
pub mod shapes;
pub mod simplify;
pub mod text;
pub mod texture;
pub mod topology;
pub mod viewer;
