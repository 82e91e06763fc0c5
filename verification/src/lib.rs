pub mod list_facts;
pub mod mem_manager;
pub mod memalloc;
pub mod steps;
