//! Lessons: factories that are known to work, generated from a seed.

pub mod aim;
pub mod canvas;
pub mod carries;
pub mod chaos;
pub mod choices;
pub mod draws;
pub mod generate;
pub mod layouts;
pub mod lesson;
pub mod placing;
pub mod route;
pub mod routed;
pub mod shown;
pub mod templates;
pub mod works;

pub use canvas::{
    Canvas, LessonKind, BANK_LINES, CABLE_FEEDS, DEFAULT_CANVAS_MAX, DEFAULT_CANVAS_MIN,
    SHARED_LINES,
};
pub use generate::generate;
pub use lesson::Sample;
pub use route::canonical_assembler_anchor;
