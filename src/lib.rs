//! The exact core of a Monte Carlo path tracer.
//!
//! Geometry lives on an integer lattice: coordinates are fixed-point
//! integers and ray parameters are fractions, so every intersection test,
//! bounding box and orientation decision is exact. The library covers
//! bounding boxes and the slab test, spheres (static and moving), axis-aligned
//! rectangles, translation and rotation wrappers, object lists, the
//! bounding-volume hierarchy and its construction, orthogonal bases for
//! direction sampling, the Perlin permutation tables, the region a
//! participating medium occupies along a ray, the total-internal-reflection
//! rule of glass, and the step decisions of the integrator. Shading with
//! floating-point colors is left to the renderer that calls it.
//!
//! Besides each function's contract, the library proves that the slab test
//! ignores which corner holds an axis's low end, that the surrounding box
//! holds both boxes, that reported normals oppose the ray, that a box never
//! culls a hit of its object, and that a hierarchy finds the same closest
//! hit as a linear scan of its objects.
pub mod vec3;
pub mod param;
pub mod ray;
pub mod aabb;
pub mod rtweekend;
pub mod hit_record;
pub mod sphere;
pub mod aarect;
pub mod rotate;
pub mod hittable;
pub mod bvh;
pub mod constant_medium;
pub mod onb;
pub mod pdf;
pub mod perlin;
pub mod material;
pub mod culling;
pub mod closest;
pub mod integrator;
