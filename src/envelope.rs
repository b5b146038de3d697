use crate::utils::{ecdsa_verifies, public_key_der, signature_der, Utils};
use vstd::prelude::*;

verus! {

/// The outer message of every request between peers.
#[derive(Clone, Debug)]
pub struct Request {
    /// The recipient's public key.
    pub to: String,
    /// The sender's public key.
    pub from: String,
    /// Hex DER signature, by the sender, of the text of `from`.
    pub signature: String,
    /// The inner message, handed on unread.
    pub message: String,
}

/// The answer to a request; `status` is 200 on success and 500 on refusal.
#[derive(Clone, Debug)]
pub struct Response {
    pub status: u64,
    pub from: String,
    pub signature: String,
    pub message: String,
}

/// Why an envelope was refused.
#[derive(Debug, Clone, Copy, PartialEq, Eq, Structural)]
pub enum EnvelopeError {
    UnknownRecipient,
    UnknownSender,
    BadEncoding,
    InvalidSignature,
}

/// The peers this node knows: identity and address.
pub struct PeerDirectory {
    peers: Vec<(String, String)>,
}

impl PeerDirectory {
    pub closed spec fn ids(&self) -> Set<Seq<char>> {
        Set::new(|id: Seq<char>| exists|i: int| 0 <= i < self.peers@.len() && #[trigger] self.peers@[i].0@ == id)
    }

    pub closed spec fn entries(&self) -> Seq<(Seq<char>, Seq<char>)> {
        self.peers@.map_values(|p: (String, String)| (p.0@, p.1@))
    }

    /// A directory with no peers.
    pub fn new() -> (r: PeerDirectory)
        ensures
            r.entries().len() == 0,
            r.ids() == Set::<Seq<char>>::empty(),
    {
        let r = PeerDirectory { peers: Vec::new() };
        proof {
            assert(r.ids() =~= Set::<Seq<char>>::empty());
            assert(r.entries() =~= Seq::<(Seq<char>, Seq<char>)>::empty());
        }
        r
    }

    /// Adds a peer at the end.
    pub fn insert(&mut self, id: &str, address: &str)
        ensures
            final(self).entries() == old(self).entries().push((id@, address@)),
            final(self).ids() == old(self).ids().insert(id@),
    {
        let ghost before = self.peers@;
        self.peers.push((id.to_owned(), address.to_owned()));
        proof {
            assert(self.entries() =~= old(self).entries().push((id@, address@)));
            assert forall|x: Seq<char>| self.ids().contains(x) == old(self).ids().insert(id@).contains(x) by {
                if old(self).ids().contains(x) {
                    let i = choose|i: int| 0 <= i < before.len() && #[trigger] before[i].0@ == x;
                    assert(self.peers@[i] == before[i]);
                }
                if x == id@ {
                    assert(self.peers@[before.len() as int].0@ == x);
                }
                if self.ids().contains(x) {
                    let i = choose|i: int| 0 <= i < self.peers@.len() && #[trigger] self.peers@[i].0@ == x;
                    if i < before.len() {
                        assert(self.peers@[i] == before[i]);
                    }
                }
            }
            assert(self.ids() =~= old(self).ids().insert(id@));
        }
    }

    /// Whether `id` is a known peer.
    pub fn contains(&self, id: &str) -> (r: bool)
        ensures
            r == self.ids().contains(id@),
    {
        let key = id.to_owned();
        let mut i: usize = 0;
        while i < self.peers.len()
            invariant
                i <= self.peers@.len(),
                key@ == id@,
                forall|j: int| 0 <= j < i ==> #[trigger] self.peers@[j].0@ != id@,
            decreases self.peers@.len() - i,
        {
            if self.peers[i].0 == key {
                proof {
                    assert(self.ids().contains(id@));
                }
                return true;
            }
            i = i + 1;
        }
        false
    }

    /// How many peers there are.
    pub fn len(&self) -> (r: usize)
        ensures
            r == self.entries().len(),
    {
        self.peers.len()
    }

    /// The identity and the address of peer `i`.
    pub fn get(&self, i: usize) -> (r: (String, String))
        requires
            i < self.entries().len(),
        ensures
            (r.0@, r.1@) == self.entries()[i as int],
    {
        (self.peers[i].0.clone(), self.peers[i].1.clone())
    }
}

/// What the transport decides of an envelope that reaches `node`.
pub open spec fn envelope_result(request: Request, node: Seq<char>, peers: Set<Seq<char>>) -> Result<(), EnvelopeError> {
    if request.to@ != node {
        Err(EnvelopeError::UnknownRecipient)
    } else if !peers.contains(request.from@) {
        Err(EnvelopeError::UnknownSender)
    } else {
        match (public_key_der(request.from@), signature_der(request.signature@)) {
            (Some(k), Some(s)) => if ecdsa_verifies(k, request.from@, s) {
                Ok(())
            } else {
                Err(EnvelopeError::InvalidSignature)
            },
            _ => Err(EnvelopeError::BadEncoding),
        }
    }
}

/// Checks an envelope: it must be meant for `node`, come from a known peer,
/// and carry that peer's signature of its own identity.
pub fn authenticate(request: &Request, node: &str, peers: &PeerDirectory) -> (r: Result<(), EnvelopeError>)
    ensures
        r == envelope_result(*request, node@, peers.ids()),
{
    let local = node.to_owned();
    if request.to != local {
        return Err(EnvelopeError::UnknownRecipient);
    }
    if !peers.contains(request.from.as_str()) {
        return Err(EnvelopeError::UnknownSender);
    }
    let key = match Utils::get_verifying_key(request.from.as_str()) {
        Ok(k) => k,
        Err(_) => return Err(EnvelopeError::BadEncoding),
    };
    let sig = match Utils::decode_signature(request.signature.as_str()) {
        Ok(s) => s,
        Err(_) => return Err(EnvelopeError::BadEncoding),
    };
    if Utils::verify_signature(request.from.as_str(), &sig, &key) {
        Ok(())
    } else {
        Err(EnvelopeError::InvalidSignature)
    }
}

/// The text that a refusal carries.
pub open spec fn refusal_text(e: EnvelopeError) -> Seq<char> {
    match e {
        EnvelopeError::UnknownRecipient => "Unknown recipient"@,
        EnvelopeError::UnknownSender => "Unknown sender"@,
        EnvelopeError::BadEncoding => "Bad encoding"@,
        EnvelopeError::InvalidSignature => "Invalid signature"@,
    }
}

impl EnvelopeError {
    /// The text that a refusal carries.
    pub fn text(&self) -> (r: String)
        ensures
            r@ == refusal_text(*self),
    {
        match self {
            EnvelopeError::UnknownRecipient => "Unknown recipient".to_owned(),
            EnvelopeError::UnknownSender => "Unknown sender".to_owned(),
            EnvelopeError::BadEncoding => "Bad encoding".to_owned(),
            EnvelopeError::InvalidSignature => "Invalid signature".to_owned(),
        }
    }
}

/// Answers an envelope from `node`: status 500 with the reason where it is
/// refused, else status 200 and the inner message to hand to the node loop.
pub fn handle_request(request: &Request, node: &str, peers: &PeerDirectory) -> (r: (Response, Option<String>))
    ensures
        r.0.from@ == node@,
        match envelope_result(*request, node@, peers.ids()) {
            Ok(()) => r.0.status == 200 && r.0.message@ == "OK"@ && r.1 == Some(request.message),
            Err(e) => r.0.status == 500 && r.0.message@ == refusal_text(e) && r.1 is None,
        },
{
    match authenticate(request, node, peers) {
        Ok(()) => {
            (
                Response {
                    status: 200,
                    from: node.to_owned(),
                    signature: String::new(),
                    message: "OK".to_owned(),
                },
                Some(request.message.clone()),
            )
        },
        Err(e) => {
            (
                Response {
                    status: 500,
                    from: node.to_owned(),
                    signature: String::new(),
                    message: e.text(),
                },
                None,
            )
        },
    }
}

} // verus!
