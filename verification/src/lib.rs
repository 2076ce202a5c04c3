pub mod aob;
pub mod bytes;
pub mod capture;
pub mod capturepane;
pub mod debugger;
pub mod disasm;
pub mod dump;
pub mod entries;
pub mod hotkeys;
pub mod ieee;
pub mod inject;
pub mod injectpane;
pub mod lcupane;
pub mod memory;
pub mod order;
pub mod pcap;
pub mod pointer;
pub mod pointerpane;
pub mod proxypane;
pub mod rescan;
pub mod route;
pub mod scan;
pub mod scanpane;
pub mod snapshot;
pub mod sweep;
pub mod table;
pub mod tablepane;
pub mod text;
pub mod utf16;
pub mod value;
pub mod viewer;
