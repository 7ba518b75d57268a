//! A path tracer's geometric core over exact integer arithmetic.
//!
//! Scene coordinates are integers on a fixed grid, ray parameters are exact
//! fractions, and every intersection decision (slab test, sphere roots,
//! closest hit in a bounding volume hierarchy) is proved against a
//! mathematical statement of what it computes.
pub mod vector_3d;
pub mod fraction;
pub mod ray;
pub mod bounding_box;
pub mod hit_record;
pub mod moving_sphere;
pub mod sphere;
pub mod hittable_list;
pub mod bounded_volume_hierarchy;
pub mod color;
