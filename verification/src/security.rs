//! Trust in edges.
//!
//! An edge is used only when protocol version, expiry, host, transports and
//! signature all check out: remote settings are never taken on faith.
use std::sync::Arc;
use vstd::prelude::*;

use crate::edges::supports;
use crate::model::{EdgeInfo, EdgeInfoView, TransportKind};
use crate::text::{before_first, head_before_first, lemma_before_first_at, same};
use crate::views::{view_of, views};

verus! {

/// The protocol version spoken with edges.
pub const CONTROL_PROTOCOL_VERSION: u32 = 1;

/// A host that is trusted to be an edge.
#[derive(Debug)]
pub struct TrustedIdentity {
    pub hostname: String,
    /// SHA-256 pin of the certificate's key, where one is configured.
    pub spki_pin_b64: Option<String>,
}

pub struct TrustedIdentityView {
    pub hostname: Seq<char>,
    pub spki_pin_b64: Option<Seq<char>>,
}

impl View for TrustedIdentity {
    type V = TrustedIdentityView;

    open spec fn view(&self) -> TrustedIdentityView {
        TrustedIdentityView {
            hostname: self.hostname@,
            spki_pin_b64: view_of(self.spki_pin_b64),
        }
    }
}

/// What validation found.
#[allow(inconsistent_fields)]
#[derive(Debug, PartialEq, Eq)]
pub enum ValidationVerdict {
    Accepted,
    ProtocolMismatch { expected: u32, got: u32 },
    UntrustedIdentity { detail: String },
    SignatureInvalid { detail: String },
    Expired,
}

#[allow(inconsistent_fields)]
pub enum VerdictView {
    Accepted,
    ProtocolMismatch { expected: u32, got: u32 },
    UntrustedIdentity { detail: Seq<char> },
    SignatureInvalid { detail: Seq<char> },
    Expired,
}

impl View for ValidationVerdict {
    type V = VerdictView;

    open spec fn view(&self) -> VerdictView {
        match *self {
            ValidationVerdict::Accepted => VerdictView::Accepted,
            ValidationVerdict::ProtocolMismatch { expected, got } => VerdictView::ProtocolMismatch {
                expected,
                got,
            },
            ValidationVerdict::UntrustedIdentity { detail } => VerdictView::UntrustedIdentity {
                detail: detail@,
            },
            ValidationVerdict::SignatureInvalid { detail } => VerdictView::SignatureInvalid {
                detail: detail@,
            },
            ValidationVerdict::Expired => VerdictView::Expired,
        }
    }
}

impl ValidationVerdict {
    pub fn is_ok(&self) -> (r: bool)
        ensures
            r == (self@ is Accepted),
    {
        matches!(self, ValidationVerdict::Accepted)
    }
}

/// Checks signatures over configuration. Implementations bring the
/// cryptography; nothing is taken for granted of what they answer.
pub trait ConfigSigner: Send + Sync {
    /// Whether the signature over the bytes is good.
    fn verify(&self, canonical_json: &[u8], signature_b64: &str) -> bool;
}

/// A signer without keys: rejects everything, unless it was told to take
/// unsigned configuration, which is for local bootstrap only.
#[derive(Clone, Copy, Debug)]
pub struct NoopConfigSigner {
    pub allow_unsigned: bool,
}

impl ConfigSigner for NoopConfigSigner {
    fn verify(&self, _canonical_json: &[u8], _signature_b64: &str) -> (r: bool)
        ensures
            r == self.allow_unsigned,
    {
        self.allow_unsigned
    }
}

pub struct EdgeVerifier<S: ConfigSigner> {
    pub trusted: Vec<TrustedIdentity>,
    pub signer: Arc<S>,
    pub require_signature: bool,
    pub allow_unsigned_locally: bool,
}

/// Whether some trusted identity is the host or the whole address.
pub open spec fn is_trusted(trusted: Seq<TrustedIdentityView>, address: Seq<char>) -> bool {
    exists|i: int|
        0 <= i < trusted.len() && ((#[trigger] trusted[i]).hostname == before_first(address, ':')
            || trusted[i].hostname == address)
}

/// Whether all transports of the edge can be spoken.
pub open spec fn all_supported(kinds: Seq<TransportKind>, supported: Seq<TransportKind>) -> bool {
    forall|i: int| 0 <= i < kinds.len() ==> supported.contains(#[trigger] kinds[i])
}

/// Whether the signer may have answered so for the signature over the bytes.
pub open spec fn may_answer<S: ConfigSigner>(
    signer: &S,
    canonical_json: &[u8],
    signature_b64: Seq<char>,
    answer: bool,
) -> bool {
    exists|signature: &str|
        signature@ == signature_b64 && #[trigger] call_ensures(
            S::verify,
            (signer, canonical_json, signature),
            answer,
        )
}

impl<S: ConfigSigner> EdgeVerifier<S> {
    /// The verdict on an edge, for the signer's answer on its signature where
    /// it has one. The checks come in this order: protocol, expiry, host,
    /// transports, signature.
    pub open spec fn verdict(
        self,
        edge: EdgeInfoView,
        supported: Seq<TransportKind>,
        protocol_version: u32,
        signature_good: bool,
        now: u64,
    ) -> VerdictView {
        if protocol_version != CONTROL_PROTOCOL_VERSION {
            VerdictView::ProtocolMismatch {
                expected: CONTROL_PROTOCOL_VERSION,
                got: protocol_version,
            }
        } else if edge.expires_at <= now {
            VerdictView::Expired
        } else if !is_trusted(views(self.trusted@), edge.address) {
            VerdictView::UntrustedIdentity {
                detail: edge.address + " is not a trusted edge host"@,
            }
        } else if !all_supported(edge.supported_transports, supported) {
            VerdictView::UntrustedIdentity {
                detail: edge.address + " advertises an unsupported transport"@,
            }
        } else {
            match edge.signature_b64 {
                Some(_) => if signature_good {
                    VerdictView::Accepted
                } else {
                    VerdictView::SignatureInvalid { detail: edge.id }
                },
                None => if self.require_signature && !self.allow_unsigned_locally {
                    VerdictView::SignatureInvalid { detail: "missing signature"@ }
                } else {
                    VerdictView::Accepted
                },
            }
        }
    }

    pub fn new(
        trusted: Vec<TrustedIdentity>,
        signer: Arc<S>,
        require_signature: bool,
    ) -> (r: Self)
        ensures
            r.trusted == trusted,
            r.signer == signer,
            r.require_signature == require_signature,
            !r.allow_unsigned_locally,
    {
        EdgeVerifier { trusted, signer, require_signature, allow_unsigned_locally: false }
    }

    fn trusts(&self, address: &str) -> (r: bool)
        ensures
            r == is_trusted(views(self.trusted@), address@),
    {
        let host = head_before_first(address, ':');
        let mut i: usize = 0;
        while i < self.trusted.len()
            invariant
                i <= self.trusted.len(),
                host@ == before_first(address@, ':'),
                forall|j: int|
                    0 <= j < i ==> (#[trigger] views(self.trusted@)[j]).hostname != host@ && views(
                        self.trusted@,
                    )[j].hostname != address@,
            decreases self.trusted.len() - i,
        {
            let t = &self.trusted[i];
            assert(views(self.trusted@)[i as int] == t@);
            if same(&t.hostname, &host) || same(&t.hostname, address) {
                return true;
            }
            i = i + 1;
        }
        false
    }

    /// Whether everything but the signature of the edge is in order; the
    /// verdict where it is not.
    fn refuses(
        &self,
        edge: &EdgeInfo,
        supported_transports: &[TransportKind],
        protocol_version: u32,
        now: u64,
    ) -> (r: Option<ValidationVerdict>)
        ensures
            (match r {
                Some(v) => !(v@ is Accepted) && !(v@ is SignatureInvalid) && forall|good: bool| #[trigger]
                    self.verdict(edge@, supported_transports@, protocol_version, good, now) == v@,
                None => {
                    &&& protocol_version == CONTROL_PROTOCOL_VERSION
                    &&& edge.expires_at > now
                    &&& is_trusted(views(self.trusted@), edge@.address)
                    &&& all_supported(edge@.supported_transports, supported_transports@)
                },
            }),
    {
        if protocol_version != CONTROL_PROTOCOL_VERSION {
            return Some(
                ValidationVerdict::ProtocolMismatch {
                    expected: CONTROL_PROTOCOL_VERSION,
                    got: protocol_version,
                },
            );
        }
        if edge.expires_at <= now {
            return Some(ValidationVerdict::Expired);
        }
        if !self.trusts(&edge.address) {
            let mut detail = edge.address.clone();
            detail.append(" is not a trusted edge host");
            return Some(ValidationVerdict::UntrustedIdentity { detail });
        }
        let mut i: usize = 0;
        while i < edge.supported_transports.len()
            invariant
                i <= edge.supported_transports.len(),
                forall|j: int|
                    0 <= j < i ==> supported_transports@.contains(
                        #[trigger] edge.supported_transports@[j],
                    ),
                protocol_version == CONTROL_PROTOCOL_VERSION,
                edge.expires_at > now,
                is_trusted(views(self.trusted@), edge@.address),
            decreases edge.supported_transports.len() - i,
        {
            if !supports(supported_transports, edge.supported_transports[i]) {
                assert(!all_supported(edge@.supported_transports, supported_transports@));
                let mut detail = edge.address.clone();
                detail.append(" advertises an unsupported transport");
                return Some(ValidationVerdict::UntrustedIdentity { detail });
            }
            i = i + 1;
        }
        None
    }

    /// Checks an edge entry before it is used. The signer is asked only where
    /// the edge has a signature and everything else is in order.
    pub fn validate_edge(
        &self,
        edge: &EdgeInfo,
        supported_transports: &[TransportKind],
        protocol_version: u32,
        canonical_json: &[u8],
        now: u64,
    ) -> (r: ValidationVerdict)
        requires
            forall|signature: &str| #[trigger]
                call_requires(S::verify, (&*self.signer, canonical_json, signature)),
        ensures
            exists|good: bool|
                {
                    &&& r@ == #[trigger] self.verdict(
                        edge@,
                        supported_transports@,
                        protocol_version,
                        good,
                        now,
                    )
                    &&& ((r@ is Accepted || r@ is SignatureInvalid) && edge@.signature_b64 is Some
                        ==> may_answer(
                        &*self.signer,
                        canonical_json,
                        edge@.signature_b64->Some_0,
                        good,
                    ))
                },
    {
        if let Some(v) = self.refuses(edge, supported_transports, protocol_version, now) {
            assert(v@ == self.verdict(edge@, supported_transports@, protocol_version, false, now));
            return v;
        }
        let good = match &edge.signature_b64 {
            Some(signature) => self.signer.verify(canonical_json, signature),
            None => false,
        };
        self.judge(edge, supported_transports, protocol_version, good, now)
    }

    /// The verdict on an edge, for the signer's answer on its signature where
    /// it has one.
    pub fn judge(
        &self,
        edge: &EdgeInfo,
        supported_transports: &[TransportKind],
        protocol_version: u32,
        signature_good: bool,
        now: u64,
    ) -> (r: ValidationVerdict)
        ensures
            r@ == self.verdict(
                edge@,
                supported_transports@,
                protocol_version,
                signature_good,
                now,
            ),
    {
        if let Some(v) = self.refuses(edge, supported_transports, protocol_version, now) {
            return v;
        }
        match &edge.signature_b64 {
            Some(_) => {
                if !signature_good {
                    return ValidationVerdict::SignatureInvalid { detail: edge.id.clone() };
                }
            },
            None => {
                if self.require_signature && !self.allow_unsigned_locally {
                    return ValidationVerdict::SignatureInvalid {
                        detail: "missing signature".to_owned(),
                    };
                }
            },
        }
        ValidationVerdict::Accepted
    }
}

/// The signer for local bootstrap: an explicit setting, never the default.
pub fn dev_bootstrap_signer() -> (r: NoopConfigSigner)
    ensures
        r.allow_unsigned,
{
    NoopConfigSigner { allow_unsigned: true }
}

/// Only an unexpired edge of a trusted host, with transports that can be
/// spoken, over the right protocol, is accepted.
pub proof fn law_accepted_edges_are_sound<S: ConfigSigner>(
    v: EdgeVerifier<S>,
    edge: EdgeInfoView,
    supported: Seq<TransportKind>,
    protocol_version: u32,
    signature_good: bool,
    now: u64,
)
    requires
        v.verdict(edge, supported, protocol_version, signature_good, now) is Accepted,
    ensures
        protocol_version == CONTROL_PROTOCOL_VERSION,
        edge.expires_at > now,
        is_trusted(views(v.trusted@), edge.address),
        all_supported(edge.supported_transports, supported),
        edge.signature_b64 is Some ==> signature_good,
        edge.signature_b64 is None ==> !v.require_signature || v.allow_unsigned_locally,
{
}

/// Where signatures are required, an edge without one is not accepted.
pub proof fn law_unsigned_is_rejected<S: ConfigSigner>(
    v: EdgeVerifier<S>,
    edge: EdgeInfoView,
    supported: Seq<TransportKind>,
    protocol_version: u32,
    signature_good: bool,
    now: u64,
)
    requires
        v.require_signature,
        !v.allow_unsigned_locally,
        edge.signature_b64 is None,
    ensures
        !(v.verdict(edge, supported, protocol_version, signature_good, now) is Accepted),
{
}

/// An edge that is sound in every respect is accepted: the right protocol, not
/// expired, at a trusted host on whatever port, with transports that can be
/// spoken, and signed well, or unsigned where that is allowed.
pub proof fn law_sound_edges_are_accepted<S: ConfigSigner>(
    v: EdgeVerifier<S>,
    edge: EdgeInfoView,
    supported: Seq<TransportKind>,
    signature_good: bool,
    now: u64,
    i: int,
    port: Seq<char>,
)
    requires
        edge.expires_at > now,
        0 <= i < v.trusted@.len(),
        forall|k: int| 0 <= k < v.trusted@[i]@.hostname.len() ==> v.trusted@[i]@.hostname[k] != ':',
        edge.address == v.trusted@[i]@.hostname + seq![':'] + port || edge.address
            == v.trusted@[i]@.hostname,
        forall|k: int|
            0 <= k < edge.supported_transports.len() ==> supported.contains(
                #[trigger] edge.supported_transports[k],
            ),
        edge.signature_b64 is Some ==> signature_good,
        edge.signature_b64 is None ==> !v.require_signature || v.allow_unsigned_locally,
    ensures
        v.verdict(edge, supported, CONTROL_PROTOCOL_VERSION, signature_good, now) is Accepted,
{
    let host = v.trusted@[i]@.hostname;
    assert(views(v.trusted@)[i].hostname == host);
    if edge.address == host + seq![':'] + port {
        let at = host.len() as int;
        assert(edge.address[at] == ':');
        assert forall|j: int| 0 <= j < at implies edge.address[j] != ':' by {
            assert(edge.address[j] == host[j]);
        }
        lemma_before_first_at(edge.address, ':', at);
        assert(edge.address.subrange(0, at) =~= host);
    }
}

/// Each refusal has its own reason, and the reasons are looked for in order:
/// protocol, expiry, host, transports, signature.
pub proof fn law_refusals_have_their_reasons<S: ConfigSigner>(
    v: EdgeVerifier<S>,
    edge: EdgeInfoView,
    supported: Seq<TransportKind>,
    protocol_version: u32,
    signature_good: bool,
    now: u64,
)
    ensures
        ({
            let verdict = v.verdict(edge, supported, protocol_version, signature_good, now);
            let spoken = protocol_version == CONTROL_PROTOCOL_VERSION;
            let fresh = edge.expires_at > now;
            let host = before_first(edge.address, ':');
            let trusted = exists|i: int|
                0 <= i < v.trusted@.len() && ((#[trigger] v.trusted@[i])@.hostname == host
                    || v.trusted@[i]@.hostname == edge.address);
            let able = forall|k: int|
                0 <= k < edge.supported_transports.len() ==> supported.contains(
                    #[trigger] edge.supported_transports[k],
                );
            let signed = if edge.signature_b64 is Some {
                signature_good
            } else {
                !v.require_signature || v.allow_unsigned_locally
            };
            &&& verdict is ProtocolMismatch <==> !spoken
            &&& verdict is Expired <==> spoken && !fresh
            &&& verdict is UntrustedIdentity <==> spoken && fresh && !(trusted && able)
            &&& verdict is SignatureInvalid <==> spoken && fresh && trusted && able && !signed
            &&& verdict is Accepted <==> spoken && fresh && trusted && able && signed
        }),
{
    let host = before_first(edge.address, ':');
    if is_trusted(views(v.trusted@), edge.address) {
        let i = choose|i: int|
            0 <= i < views(v.trusted@).len() && ((#[trigger] views(v.trusted@)[i]).hostname == host
                || views(v.trusted@)[i].hostname == edge.address);
        assert(v.trusted@[i]@.hostname == host || v.trusted@[i]@.hostname == edge.address);
    }
    if exists|i: int|
        0 <= i < v.trusted@.len() && ((#[trigger] v.trusted@[i])@.hostname == host
            || v.trusted@[i]@.hostname == edge.address) {
        let i = choose|i: int|
            0 <= i < v.trusted@.len() && ((#[trigger] v.trusted@[i])@.hostname == host
                || v.trusted@[i]@.hostname == edge.address);
        assert(views(v.trusted@)[i].hostname == v.trusted@[i]@.hostname);
    }
}

} // verus!
