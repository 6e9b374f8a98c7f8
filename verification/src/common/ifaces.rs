//! The network interfaces of this box.

use vstd::prelude::*;
use vstd::string::*;

use crate::common::text::opt_text;

verus! {

/// One address of one interface, as the kernel reports it.
#[derive(Debug)]
pub struct IfaceRow {
    pub name: String,
    /// Whether the address is of IPv4.
    pub v4: bool,
    pub addr: Option<String>,
    pub mask: Option<String>,
    /// The broadcast address, or the far end of a point-to-point link.
    pub far: Option<String>,
    pub up: bool,
    pub loopback: bool,
    pub broadcasts: bool,
}

/// An `IfaceRow` as a mathematical value.
pub struct IfaceRowV {
    pub name: Seq<char>,
    pub v4: bool,
    pub addr: Option<Seq<char>>,
    pub mask: Option<Seq<char>>,
    pub far: Option<Seq<char>>,
    pub up: bool,
    pub loopback: bool,
    pub broadcasts: bool,
}

impl View for IfaceRow {
    type V = IfaceRowV;

    open spec fn view(&self) -> IfaceRowV {
        IfaceRowV {
            name: self.name@,
            v4: self.v4,
            addr: opt_text(self.addr),
            mask: opt_text(self.mask),
            far: opt_text(self.far),
            up: self.up,
            loopback: self.loopback,
            broadcasts: self.broadcasts,
        }
    }
}

/// Rows as mathematical values.
pub open spec fn iface_rows(v: Seq<IfaceRow>) -> Seq<IfaceRowV> {
    Seq::new(v.len(), |i: int| v[i]@)
}

/// `getifaddrs::InterfaceFilter::get`, over the addresses of both families: one
/// row for each address, in kernel order, or nothing where the kernel's list
/// cannot be read. What it returns is the machine's to say, and nothing is
/// claimed of it.
#[verifier::external_body]
pub(crate) fn interfaces() -> (r: Option<Vec<IfaceRow>>) {
    let rows = getifaddrs::InterfaceFilter::new().v4().v6().get().ok()?;
    Some(rows.map(|i| IfaceRow {
        v4: i.address.is_ipv4(),
        addr: i.address.ip_addr().map(|a| a.to_string()),
        mask: i.address.netmask().map(|a| a.to_string()),
        far: i.address.associated_address().map(|a| a.to_string()),
        up: i.flags.contains(getifaddrs::InterfaceFlags::UP),
        loopback: i.flags.contains(getifaddrs::InterfaceFlags::LOOPBACK),
        broadcasts: i.flags.contains(getifaddrs::InterfaceFlags::BROADCAST),
        name: i.name,
    }).collect())
}

/// The rows of this box's interfaces, or none where the list cannot be read.
pub fn interface_rows() -> (r: Vec<IfaceRow>) {
    match interfaces() {
        Some(rows) => rows,
        None => Vec::new(),
    }
}

} // verus!
