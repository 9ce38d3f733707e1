//! just-next's justfile logic: dialect detection, the V2 parser, environment
//! setup and recipe planning.
pub mod text;
pub mod v2;
pub mod dispatch;
pub mod detection;
pub mod vars;
pub mod paths;
pub mod search;
pub mod legacy_dotenv;
