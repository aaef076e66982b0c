//! A region allocator: values are placed into pages of bytes obtained from a backing
//! allocator, and the pages are grouped into chapters by alignment class.

pub mod allocator;
pub mod binding;
pub mod block;
pub mod chapter;
pub mod error;
pub mod handle;
pub mod laws;
pub mod layout;
pub mod notebook;
pub mod page;
pub mod sharing;
pub mod strategy;
pub mod text;

pub use allocator::std_allocator::StdAllocator;
pub use allocator::BookcaseAllocator;
pub use binding::{Binding, NotebookView};
pub use block::Block;
pub use chapter::Chapter;
pub use error::Error;
pub use handle::Handle;
pub use layout::Layout;
pub use notebook::mono::{MonoNotebook, PersonalMonoNotebook, PublicMonoNotebook};
pub use notebook::multi::{MultiNotebook, PersonalMultiNotebook, PublicMultiNotebook};
pub use notebook::{Notebook, TypedNotebook};
pub use page::{Page, PageView, Pen, Utensil};
pub use sharing::Public;
pub use strategy::{GrowthStrategy, SizeStrategy};
