pub mod events;
pub mod fonts;
pub mod icon;
pub mod pages;
pub mod results;
pub mod state;
