pub mod behaviour;
pub mod codec;
pub mod dispatch;
pub mod errors;
pub mod identity;
pub mod store;

pub use errors::BootstrapError;
pub use errors::IdentityError;
pub use identity::NodeIdentity;
