pub mod flow;
pub mod acl;
pub mod translator;
pub mod coordinator;
pub mod pipeline;
