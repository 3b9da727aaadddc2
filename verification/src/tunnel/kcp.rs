//! A session of reliable delivery over UDP. It is not for game packets.
use vstd::prelude::*;

verus! {

#[derive(Clone, Copy, Debug)]
pub struct KcpConfig {
    /// The largest packet, in bytes.
    pub mtu: usize,
    pub interval_ms: u32,
    /// Whether acknowledgements go out at once.
    pub nodelay: bool,
    /// After how many later acknowledgements a packet is sent again.
    pub resend: u32,
    pub congestion_control: bool,
}

impl Default for KcpConfig {
    fn default() -> (r: KcpConfig)
        ensures
            r == (KcpConfig {
                mtu: 1400,
                interval_ms: 30,
                nodelay: false,
                resend: 2,
                congestion_control: true,
            }),
    {
        KcpConfig { mtu: 1400, interval_ms: 30, nodelay: false, resend: 2, congestion_control: true }
    }
}

#[derive(Debug)]
pub struct KcpSession {
    config: KcpConfig,
    negotiated_version: u32,
}

impl KcpSession {
    pub closed spec fn settings(&self) -> KcpConfig {
        self.config
    }

    pub closed spec fn negotiated(&self) -> u32 {
        self.negotiated_version
    }

    pub fn open(config: KcpConfig) -> (r: KcpSession)
        ensures
            r.settings() == config,
            r.negotiated() == 1,
    {
        KcpSession { config, negotiated_version: 1 }
    }

    pub fn config(&self) -> (r: &KcpConfig)
        ensures
            *r == self.settings(),
    {
        &self.config
    }

    pub fn version(&self) -> (r: u32)
        ensures
            r == self.negotiated(),
    {
        self.negotiated_version
    }

    /// Whether the session has carried bytes that could be measured: it has
    /// not.
    pub fn is_measurement_ready(&self) -> (r: bool)
        ensures
            !r,
    {
        false
    }
}

} // verus!
