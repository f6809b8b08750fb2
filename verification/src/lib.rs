//! class-dump: reads the Objective-C metadata of a thin Mach-O image and prints
//! it as Objective-C declarations.

pub mod text;

pub mod cursor;
pub mod uleb;
pub mod consts;
pub mod macho;
pub mod loadcmd;
pub mod bind;
pub mod chained;
pub mod objc;
pub mod typ;
pub mod parse;
pub mod render;
pub mod checksum;
pub mod dict;
pub mod table;
pub mod order;
pub mod typecontroller;
pub mod header;
pub mod property;
pub mod output;
pub mod visit;
