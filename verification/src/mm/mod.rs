pub mod linklist;
