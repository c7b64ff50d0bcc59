//! Rectangle packing for texture atlases: geometry primitives, three packing
//! strategies behind one `Packer` contract, a multi-heuristic driver and a
//! bin-size optimizer.

pub mod chars;
pub mod driver;
pub mod geometry;
pub mod packer;
pub mod rectpack2d_packer;
pub mod skyline_packer;
pub mod sort;
pub mod split_packer;
pub mod strip_packer;

pub use driver::{pack, try_pack};
pub use geometry::{PackerConfig, Rect, Rectf, Size};
pub use packer::{Packer, RectInput, RectOutput};
pub use skyline_packer::SkylinePacker;
pub use sort::{RectSort, RECT_SORT_FUNCTIONS};
pub use split_packer::SplitPacker;
pub use strip_packer::StripPacker;
