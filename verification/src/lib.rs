//! Runtime system-configuration lookups for binaries that run on several host
//! operating systems: the logic that turns what the host reports (the lines of
//! a resolver configuration file, or the adapter records of the Windows IP
//! helper API) into the list of DNS server addresses; and the logic of the
//! portability probe that exercises such binaries (the copy behind its
//! `strerror_r` shim and the text of its report).
pub mod text;
pub mod numeral;
pub mod ip;
pub mod ip_text;
pub mod resolv;
pub mod windows;
pub mod errmsg;
pub mod report;
