//! An embeddable HTTP/1.1 handler container: response framing, sessions,
//! request accessors, template pages and request dispatch, with their
//! behaviour stated as contracts and proved.

pub mod container;
pub mod dispatch;
pub mod entries;
pub mod error;
pub mod framing;
pub mod request;
pub mod response;
pub mod session;
pub mod template;
pub mod text;

pub use container::{RustletConfig, RustletContainer};
pub use dispatch::RustletAsyncContext;
pub use error::{Error, ErrorKind};
pub use request::RustletRequest;
pub use response::RustletResponse;
pub use session::SessionData;
