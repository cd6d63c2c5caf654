//! Discover the externally visible IP address of the host, by asking the
//! local Internet Gateway Device and/or public HTTP echo services.
//!
//! A discovery is configured through [`WhatsMyIp`]'s builder methods and run
//! with its `find` method, which returns an ordered, duplicate-free list of
//! addresses, or one aggregate error when every enabled source failed.
//! [`whatsmyip`] is the one-address convenience form.

pub mod addr;
pub mod engine;

pub use addr::MyIp;
pub use addr::ip_from_str;
pub use engine::WhatsMyIp;
pub use engine::http_providers;
pub use engine::http_ip_txt;
pub use engine::igd_ip;
pub use engine::whatsmyip;
