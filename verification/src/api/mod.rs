//! The HTTP front end: request models and the replies that the handlers
//! give around each store call.

pub mod handlers;
pub mod models;

pub use handlers::AppState;
