//! A zero-copy persistent object store: blob layouts with niches, a
//! validate-then-decode protocol, tagged persistent/transient pointers,
//! a resumable flush scheduler and an append-only root log.
pub mod layout;
pub mod marshal;
pub mod scalars;
pub mod option;
pub mod offset;
pub mod zone;
pub mod heap;
pub mod file;
pub mod save;
pub mod bag;
