//! The verified core of a small cluster's daemons: discovery, membership and
//! master election, the control protocol, network boot, and the daemons'
//! decisions.

pub mod addr;
pub mod boot;
pub mod bus;
pub mod clock;
pub mod control;
pub mod dhcp;
pub mod frame;
pub mod hivectl;
pub mod imager;
pub mod mac;
pub mod membership;
pub mod netgate;
pub mod netop;
pub mod node;
pub mod octets;
pub mod orchestrator;
pub mod path;
pub mod payload;
pub mod table;
pub mod text;
pub mod tftp;
pub mod wire;
