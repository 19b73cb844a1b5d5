//! Route, navigation, QR and host-session logic of a declarative native UI
//! framework, with its behaviour stated as Verus contracts.

pub mod clock;
pub mod host;
pub mod keychain;
pub mod location;
pub mod maps;
pub mod navigator;
pub mod pattern;
pub mod platform;
pub mod qr;
pub mod reactor;
pub mod resource;
pub mod route_laws;
pub mod router;
pub mod split;
pub mod sqlite;
pub mod style;
pub mod text;
pub mod trim;
pub mod urlparts;
pub mod widgets;
pub mod gf_algebra;
