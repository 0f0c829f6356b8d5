pub mod cli;
pub mod color;
pub mod config;
pub mod conflicts;
pub mod constraints;
pub mod db;
pub mod discovery;
pub mod enabling;
pub mod fonts;
pub mod games;
pub mod health;
pub mod info;
pub mod launcher;
pub mod log;
pub mod maps;
pub mod meta;
pub mod modloader;
pub mod order;
pub mod panels;
pub mod paths;
pub mod profiles;
pub mod registry;
pub mod resolver;
pub mod runner;
pub mod settings;
pub mod text;
pub mod theme;
pub mod transfer;
pub mod userdata;
pub mod view;
