use vstd::prelude::*;
pub mod text;
pub mod meetings;
pub mod search;
pub mod chunks;
pub mod organize;
pub mod share;
pub mod stamp;
pub mod html;
pub mod ai;
pub mod keys;
pub mod pipeline;
pub mod import;
pub mod models;
pub mod commands;
pub mod bundle;
pub mod notes;
pub mod devices;
pub mod recorder;
pub mod chat;
pub mod settings;
pub mod calendar;
pub mod media;
pub mod live;
pub mod detector;
pub mod windows;
pub mod events;
pub mod guards;
pub mod speakers;
