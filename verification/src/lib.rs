//! Graphs that are edited live: their content-addressed history, the synth definitions
//! derived from them, and what is shown of them.
//!
//! - Foundations: [`order`], [`table`], [`set`], [`text`], [`walk`], [`topo`], [`value`].
//! - Content and history: [`addr`], [`hash`], [`edge`], [`graph`], [`name`],
//!   [`commit`], [`head`], [`registry`], [`reach`], [`prune`], [`merge`], [`live`],
//!   [`data`], [`sync`], [`fork`], [`identity`], [`settle`], [`recommit`], [`ledger`],
//!   [`navigate`], [`base`].
//! - Persistence: [`armor`], [`storage`], [`saving`], [`loading`], [`roundtrip`].
//! - Collaboration: [`session`], [`proto`], [`store`].
//! - Signal processing: [`dsp`], [`param`], [`mix`], [`node`], [`dsp_node`],
//!   [`control`], [`flow`], [`compile`], [`region`], [`schedule`], [`regions`],
//!   [`buses`], [`uncut`], [`soundness`], [`edge_order`], [`locality`], [`untouched`],
//!   [`meaning`], [`wiring`], [`effect`], [`crossing`], [`sig`], [`monitor`], [`streams`],
//!   [`driver`], [`backend`], [`ref_ext`], [`ports`], [`port_info`], [`cords`], [`sugar`],
//!   [`args`].
//! - Evaluation: [`vm`], [`codec`], [`palette`].
//! - Interface: [`ui_tree`], [`plot`], [`size_sync`], [`socket`], [`describe`], [`inspect`],
//!   [`edge_style`], [`ext_pane`], [`audio_settings`], [`surface`].

pub mod addr;
pub mod args;
pub mod armor;
pub mod audio_settings;
pub mod backend;
pub mod base;
pub mod buses;
pub mod codec;
pub mod commit;
pub mod compile;
pub mod control;
pub mod cords;
pub mod crossing;
pub mod data;
pub mod describe;
pub mod driver;
pub mod dsp;
pub mod dsp_node;
pub mod edge;
pub mod edge_order;
pub mod edge_style;
pub mod effect;
pub mod ext_pane;
pub mod flow;
pub mod fork;
pub mod graph;
pub mod hash;
pub mod head;
pub mod identity;
pub mod inspect;
pub mod ledger;
pub mod live;
pub mod loading;
pub mod locality;
pub mod meaning;
pub mod merge;
pub mod mix;
pub mod monitor;
pub mod name;
pub mod navigate;
pub mod node;
pub mod order;
pub mod palette;
pub mod param;
pub mod plot;
pub mod port_info;
pub mod ports;
pub mod proto;
pub mod prune;
pub mod reach;
pub mod recommit;
pub mod ref_ext;
pub mod region;
pub mod regions;
pub mod registry;
pub mod roundtrip;
pub mod saving;
pub mod schedule;
pub mod session;
pub mod settle;
pub mod set;
pub mod sig;
pub mod size_sync;
pub mod socket;
pub mod soundness;
pub mod storage;
pub mod store;
pub mod streams;
pub mod sugar;
pub mod surface;
pub mod sync;
pub mod table;
pub mod text;
pub mod topo;
pub mod ui_tree;
pub mod uncut;
pub mod untouched;
pub mod value;
pub mod vm;
pub mod walk;
pub mod wiring;
