/// Axis-aligned boxes on the fixed-point grid.
pub mod aabb;
/// Morton codes: bit interleaving of quantized coordinates.
pub mod morton;
/// Rays, exact distances along them, and the slab test.
pub mod ray;
/// The bounding-volume hierarchy: agglomerative construction and nearest-hit
/// traversal.
pub mod bvh;
/// Per-pixel running means with a coarse preview.
pub mod estimator;
/// Render requests and results, and the worker's decisions.
pub mod worker;
/// The controller's epoch, request order and result draining.
pub mod renderer;
/// Stratified sample patterns.
pub mod sampling;
/// Frame pacing for the display loop.
pub mod timing;
/// What the leaves of a scene's hierarchy stand for.
pub mod scene;
/// Bookkeeping for models named in a scene.
pub mod model;
