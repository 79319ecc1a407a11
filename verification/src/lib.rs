//! Verified core of a set of packet and file-format tools: CCSDS space packet
//! splitting and building, FITS header generation, hex text decoding, and
//! the glue around the NTP, SNMP, SSH and TLS parsers.
pub mod ccsds;
pub mod fits;
pub mod hexcodec;
pub mod protocols;
pub mod spoof;
pub mod text;
