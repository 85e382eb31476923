//! Acoustic ray tracing over fixed-point geometry: a ray–object intersection
//! kernel (triangles and spheres) and a bounce-simulation engine that follows a
//! population of sound rays until each one is captured by a receiver or decays.

pub mod algebra;
pub mod fixed;
pub mod intersect;
pub mod laws;
pub mod products;
pub mod ray;
pub mod scene;
pub mod sphere;
pub mod triangle;
pub mod vec3;

pub use fixed::{AUDIBILITY_THRESHOLD, FULL_INTENSITY, MAX_COORD, MAX_TIME, SCALE, SPEED_OF_SOUND};
pub use intersect::{Hit, Intersect};
pub use products::{CrossProduct, DotProduct};
pub use ray::Ray;
pub use scene::{build_geometry_from_triangle_fan, Emitter, Fate, Interaction, Object, Scene, Sound};
pub use sphere::Sphere;
pub use triangle::Triangle;
pub use vec3::Vec3;
