pub mod chars;
pub mod dom;
pub mod locator;
pub mod markup;
pub mod nodes;
pub mod render;
pub mod scan;

pub use dom::Element;
pub use locator::parse_url;
pub use scan::parse_html;
