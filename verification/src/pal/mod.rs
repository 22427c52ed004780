pub mod sys_alloc;
