use crate::address::{Address, AddressType, Ipv4Octets};
use crate::config::{connect_address, connect_address_spec, connect_family, FwdType, MAX_DATA_LEN_TCP};
use vstd::prelude::*;

verus! {

/// Settings of the TCP side, fixed at startup: the remote endpoint, the
/// socket buffer size, the translation mode and an optional interface to
/// bind outbound sockets to.
pub struct TcpHandler {
    pub remote_addr: Address,
    pub socket_buf_size: usize,
    pub fwd_type: FwdType,
    pub bind_interface: Option<String>,
}

impl TcpHandler {
    /// Remote `0.0.0.0:0`, 16 KB buffers, no translation, no interface.
    pub fn new() -> (r: Self)
        ensures
            r.remote_addr == (Address::V4 { ip: Ipv4Octets(0, 0, 0, 0), port: 0 }),
            r.socket_buf_size == MAX_DATA_LEN_TCP,
            r.fwd_type == FwdType::Normal,
            r.bind_interface.is_none(),
    {
        TcpHandler {
            remote_addr: Address::from_ipv4(Ipv4Octets(0, 0, 0, 0), 0),
            socket_buf_size: MAX_DATA_LEN_TCP,
            fwd_type: FwdType::Normal,
            bind_interface: None,
        }
    }

    pub fn set_remote_addr(&mut self, addr: Address)
        ensures
            final(self).remote_addr == addr,
            final(self).socket_buf_size == old(self).socket_buf_size,
            final(self).fwd_type == old(self).fwd_type,
    {
        self.remote_addr = addr;
    }

    pub fn set_buf_size(&mut self, size: usize)
        ensures
            final(self).socket_buf_size == size,
            final(self).remote_addr == old(self).remote_addr,
            final(self).fwd_type == old(self).fwd_type,
    {
        self.socket_buf_size = size;
    }

    pub fn set_fwd_type(&mut self, fwd_type: FwdType)
        ensures
            final(self).fwd_type == fwd_type,
            final(self).remote_addr == old(self).remote_addr,
            final(self).socket_buf_size == old(self).socket_buf_size,
    {
        self.fwd_type = fwd_type;
    }

    pub fn set_bind_interface(&mut self, interface: Option<String>)
        ensures
            final(self).bind_interface == interface,
            final(self).remote_addr == old(self).remote_addr,
            final(self).socket_buf_size == old(self).socket_buf_size,
            final(self).fwd_type == old(self).fwd_type,
    {
        self.bind_interface = interface;
    }

    /// The address outbound sockets connect to.
    pub fn remote_addr_for_connect(&self) -> (r: Address)
        ensures
            r == connect_address_spec(self.remote_addr, self.fwd_type),
    {
        connect_address(&self.remote_addr, self.fwd_type)
    }

    /// The family of outbound sockets.
    pub fn remote_addr_family(&self) -> (r: AddressType)
        ensures
            r == (match self.fwd_type {
                FwdType::FwdType4to6 => AddressType::Ipv6,
                FwdType::FwdType6to4 => AddressType::Ipv4,
                FwdType::Normal => if self.remote_addr is V4 {
                    AddressType::Ipv4
                } else {
                    AddressType::Ipv6
                },
            }),
    {
        connect_family(&self.remote_addr, self.fwd_type)
    }
}

/// Settings of the UDP side: as for TCP, plus whether outbound sockets
/// forbid fragmentation (path MTU discovery).
pub struct UdpHandler {
    pub remote_addr: Address,
    pub socket_buf_size: usize,
    pub fwd_type: FwdType,
    pub enable_fragment: bool,
    pub bind_interface: Option<String>,
}

impl UdpHandler {
    /// Remote `0.0.0.0:0`, 16 KB buffers, no translation, fragmentation
    /// allowed, no interface.
    pub fn new() -> (r: Self)
        ensures
            r.remote_addr == (Address::V4 { ip: Ipv4Octets(0, 0, 0, 0), port: 0 }),
            r.socket_buf_size == MAX_DATA_LEN_TCP,
            r.fwd_type == FwdType::Normal,
            !r.enable_fragment,
            r.bind_interface.is_none(),
    {
        UdpHandler {
            remote_addr: Address::from_ipv4(Ipv4Octets(0, 0, 0, 0), 0),
            socket_buf_size: MAX_DATA_LEN_TCP,
            fwd_type: FwdType::Normal,
            enable_fragment: false,
            bind_interface: None,
        }
    }

    pub fn set_remote_addr(&mut self, addr: Address)
        ensures
            final(self).remote_addr == addr,
            final(self).socket_buf_size == old(self).socket_buf_size,
            final(self).fwd_type == old(self).fwd_type,
            final(self).enable_fragment == old(self).enable_fragment,
    {
        self.remote_addr = addr;
    }

    pub fn set_buf_size(&mut self, size: usize)
        ensures
            final(self).socket_buf_size == size,
            final(self).remote_addr == old(self).remote_addr,
            final(self).fwd_type == old(self).fwd_type,
            final(self).enable_fragment == old(self).enable_fragment,
    {
        self.socket_buf_size = size;
    }

    pub fn set_fwd_type(&mut self, fwd_type: FwdType)
        ensures
            final(self).fwd_type == fwd_type,
            final(self).remote_addr == old(self).remote_addr,
            final(self).socket_buf_size == old(self).socket_buf_size,
            final(self).enable_fragment == old(self).enable_fragment,
    {
        self.fwd_type = fwd_type;
    }

    pub fn set_enable_fragment(&mut self, enable: bool)
        ensures
            final(self).enable_fragment == enable,
            final(self).remote_addr == old(self).remote_addr,
            final(self).socket_buf_size == old(self).socket_buf_size,
            final(self).fwd_type == old(self).fwd_type,
    {
        self.enable_fragment = enable;
    }

    pub fn set_bind_interface(&mut self, interface: Option<String>)
        ensures
            final(self).bind_interface == interface,
            final(self).remote_addr == old(self).remote_addr,
            final(self).socket_buf_size == old(self).socket_buf_size,
            final(self).fwd_type == old(self).fwd_type,
            final(self).enable_fragment == old(self).enable_fragment,
    {
        self.bind_interface = interface;
    }

    /// The address outbound sockets connect to.
    pub fn remote_addr_for_connect(&self) -> (r: Address)
        ensures
            r == connect_address_spec(self.remote_addr, self.fwd_type),
    {
        connect_address(&self.remote_addr, self.fwd_type)
    }

    /// The family of outbound sockets.
    pub fn remote_addr_family(&self) -> (r: AddressType)
        ensures
            r == (match self.fwd_type {
                FwdType::FwdType4to6 => AddressType::Ipv6,
                FwdType::FwdType6to4 => AddressType::Ipv4,
                FwdType::Normal => if self.remote_addr is V4 {
                    AddressType::Ipv4
                } else {
                    AddressType::Ipv6
                },
            }),
    {
        connect_family(&self.remote_addr, self.fwd_type)
    }
}

} // verus!
