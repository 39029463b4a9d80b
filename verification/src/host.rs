//! Hosts as the parser sees them: what kind of host a text was found to be, and how it
//! is written in a URL. Finding that out is the work of a host parser outside this
//! library.

use vstd::prelude::*;
use vstd::string::StringSliceAdditionalSpecFns;
use vstd::slice::slice_to_vec;

verus! {

/// The kind of the host of a URL.
#[derive(Copy, Clone, Debug, PartialEq, Eq, Structural)]
pub enum HostInternal {
    NoHost,
    Domain,
    Ipv4,
    Ipv6,
}

/// The two readings of a host text: as a domain or address, as special schemes take it;
/// or as an opaque host, as the others do.
#[derive(Copy, Clone, Debug, PartialEq, Eq, Structural)]
pub enum HostKind {
    Domain,
    Opaque,
}

/// The question that the parser has for the host parser: a host text, as UTF-8, and the
/// reading to give it.
#[derive(Debug, Clone, PartialEq, Eq)]
pub struct HostRequest {
    pub text: Vec<u8>,
    pub kind: HostKind,
}

/// What a request stands for.
pub struct HostRequestView {
    pub text: Seq<u8>,
    pub kind: HostKind,
}

impl View for HostRequest {
    type V = HostRequestView;

    open spec fn view(&self) -> HostRequestView {
        HostRequestView { text: self.text@, kind: self.kind }
    }
}

/// Whether `b` may stand in the serialization of a host: a printable ASCII byte that is
/// no space and none of `/`, `?`, `#` and `\`, which end a host.
pub open spec fn is_host_byte(b: u8) -> bool {
    0x21 <= b <= 0x7e && b != 0x2f && b != 0x3f && b != 0x23 && b != 0x5c
}

/// Whether `s` is `localhost`.
pub open spec fn is_localhost(s: Seq<u8>) -> bool {
    s.len() == 9 && s[0] == 0x6c && s[1] == 0x6f && s[2] == 0x63 && s[3] == 0x61 && s[4] == 0x6c
        && s[5] == 0x68 && s[6] == 0x6f && s[7] == 0x73 && s[8] == 0x74
}

/// What a host stands for: its kind, which is not `NoHost`, and its serialization.
pub struct HostView {
    pub kind: HostInternal,
    pub text: Seq<u8>,
}

impl HostView {
    /// The kind is one of a host, the serialization is made of host bytes, and that of
    /// an address is not empty.
    pub open spec fn wf(self) -> bool {
        &&& self.kind != HostInternal::NoHost
        &&& forall|i: int| 0 <= i < self.text.len() ==> is_host_byte(#[trigger] self.text[i])
        &&& (self.kind != HostInternal::Domain ==> self.text.len() > 0)
    }

    /// The kind that a URL with this host records: `NoHost` for a domain without text.
    pub open spec fn internal(self) -> HostInternal {
        if self.kind == HostInternal::Domain && self.text.len() == 0 {
            HostInternal::NoHost
        } else {
            self.kind
        }
    }

    /// Whether the host is a domain without text.
    pub open spec fn is_empty_domain(self) -> bool {
        self.kind == HostInternal::Domain && self.text.len() == 0
    }
}

/// A host that a host parser has made of a text: its kind, and its serialization as it
/// is to stand in a URL.
#[derive(Debug, PartialEq, Eq)]
pub struct Host {
    kind: HostInternal,
    text: Vec<u8>,
}

impl View for Host {
    type V = HostView;

    closed spec fn view(&self) -> HostView {
        HostView { kind: self.kind, text: self.text@ }
    }
}

impl Host {
    #[verifier::type_invariant]
    spec fn inv(self) -> bool {
        self@.wf()
    }

    /// The host of kind `kind` that is written `text`; `None` where `kind` is `NoHost`,
    /// where `text` holds a byte that is no host byte, and where `text` is empty and
    /// `kind` is an address.
    pub fn new(kind: HostInternal, text: &str) -> (r: Option<Host>)
        ensures
            r is Some <==> (HostView { kind, text: text.spec_bytes() }).wf(),
            r matches Some(h) ==> h@ == (HostView { kind, text: text.spec_bytes() }),
    {
        let bytes = text.as_bytes();
        if kind == HostInternal::NoHost {
            return None;
        }
        if kind != HostInternal::Domain && bytes.len() == 0 {
            return None;
        }
        let mut i: usize = 0;
        while i < bytes.len()
            invariant
                i <= bytes@.len(),
                bytes@ == text.spec_bytes(),
                forall|k: int| 0 <= k < i ==> is_host_byte(#[trigger] bytes@[k]),
            decreases bytes@.len() - i,
        {
            let b = bytes[i];
            if !(0x21 <= b && b <= 0x7e && b != 0x2f && b != 0x3f && b != 0x23 && b != 0x5c) {
                proof {
                    let v = HostView { kind, text: text.spec_bytes() };
                    assert(!is_host_byte(v.text[i as int]));
                }
                return None;
            }
            i += 1;
        }
        Some(Host { kind, text: slice_to_vec(bytes) })
    }

    /// The domain without text: the host of `file:///` and of `localhost` in a file URL.
    pub fn empty_domain() -> (r: Host)
        ensures
            r@ == (HostView { kind: HostInternal::Domain, text: Seq::<u8>::empty() }),
            r@.wf(),
    {
        Host { kind: HostInternal::Domain, text: Vec::new() }
    }

    /// The kind of the host.
    pub fn kind(&self) -> (r: HostInternal)
        ensures
            r == self@.kind,
            self@.wf(),
    {
        proof {
            use_type_invariant(self);
        }
        self.kind
    }

    /// The serialization of the host.
    pub fn text(&self) -> (r: &[u8])
        ensures
            r@ == self@.text,
            self@.wf(),
    {
        proof {
            use_type_invariant(self);
        }
        self.text.as_slice()
    }

    /// The kind that a URL with this host records: `NoHost` for a domain without text.
    pub fn internal(&self) -> (r: HostInternal)
        ensures
            r == self@.internal(),
            self@.wf(),
    {
        proof {
            use_type_invariant(self);
        }
        if self.kind == HostInternal::Domain && self.text.len() == 0 {
            HostInternal::NoHost
        } else {
            self.kind
        }
    }

    /// Whether the host is a domain without text.
    pub fn is_empty_domain(&self) -> (r: bool)
        ensures
            r == self@.is_empty_domain(),
            self@.wf(),
    {
        proof {
            use_type_invariant(self);
        }
        self.kind == HostInternal::Domain && self.text.len() == 0
    }

    /// Whether the host is the domain `localhost`.
    pub fn is_localhost(&self) -> (r: bool)
        ensures
            r == (self@.kind == HostInternal::Domain && is_localhost(self@.text)),
            self@.wf(),
    {
        proof {
            use_type_invariant(self);
        }
        let t = &self.text;
        self.kind == HostInternal::Domain && t.len() == 9 && t[0] == 0x6c && t[1] == 0x6f && t[2]
            == 0x63 && t[3] == 0x61 && t[4] == 0x6c && t[5] == 0x68 && t[6] == 0x6f && t[7] == 0x73
            && t[8] == 0x74
    }

    /// A copy of the host.
    pub fn duplicate(&self) -> (r: Host)
        ensures
            r@ == self@,
            self@.wf(),
    {
        proof {
            use_type_invariant(self);
        }
        let text = slice_to_vec(self.text.as_slice());
        Host { kind: self.kind, text }
    }
}

} // verus!
