pub mod epoll;
pub mod http;
pub mod registry;
pub mod event_loop;
