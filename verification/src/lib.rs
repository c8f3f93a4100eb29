//! GNSS observations: one model that every receiver format converts into and
//! every output format is written from.

pub mod arc;
pub mod ascii_lines;
pub mod calendar;
pub mod cells;
pub mod cli;
pub mod columns;
pub mod crc24q;
pub mod diff;
pub mod diffobs;
pub mod error;
pub mod freq;
pub mod header_contents;
pub mod header_facts;
pub mod header_fit;
pub mod header_lines;
pub mod json;
pub mod keymap;
pub mod labels;
pub mod laws_cli;
pub mod laws_decode;
pub mod laws_diff;
pub mod laws_files;
pub mod laws_header;
pub mod laws_heading;
pub mod laws_msm;
pub mod laws_names;
pub mod laws_obsj;
pub mod laws_packet;
pub mod laws_record;
pub mod laws_rinex;
pub mod laws_rtcm;
pub mod laws_stream;
pub mod laws_time;
pub mod laws_ubx;
pub mod metadata;
pub mod msm;
pub mod obs;
pub mod packet;
pub mod packetlog;
pub mod regroup;
pub mod reheader;
pub mod reread;
pub mod rinex_backend;
pub mod rinex_read;
pub mod rinex_write;
pub mod rinexio;
pub mod rinexobs;
pub mod roundtrip;
pub mod rtcm;
pub mod rtcm_decode;
pub mod rtcm_time;
pub mod sink;
pub mod text;
pub mod ubx;
pub mod ubx_decode;
pub mod ubx_frame;
pub mod week;
