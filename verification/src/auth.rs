//! What a host makes of the vouch that a joining player presents.
//!
//! A node vouches for its own users: the chain of capabilities starts at the node, which is the
//! authority for that one vouch, and has to grant a login and the name that the player claims. The host
//! decodes the chain and checks the grants; what follows from that is decided here.
use vstd::prelude::*;
use vstd::string::*;

use crate::text::digit;

verus! {

/// The id of a node: its public key.
pub type NodeKey = [u8; 32];

/// A capability of a chain: who gave it to whom.
#[derive(Debug, Clone, Copy)]
pub struct CapLink {
    pub issuer: NodeKey,
    pub audience: NodeKey,
}

/// A vouch that holds: the node, in hexadecimal, and the name.
#[derive(Debug, PartialEq, Eq)]
pub struct Vouch {
    pub node: String,
    pub name: String,
}

/// Why a vouch does not hold.
#[derive(Debug, PartialEq, Eq)]
pub enum JoinFault {
    /// The chain could not be decoded.
    Malformed { reason: String },
    /// The chain is empty.
    Empty,
    /// A grant is missing.
    Refused { reason: String },
}

/// What a fault says.
pub open spec fn said(f: JoinFault) -> Seq<char> {
    match f {
        JoinFault::Malformed { reason } => "malformed vouch cap: "@ + reason@,
        JoinFault::Empty => "empty vouch chain"@,
        JoinFault::Refused { reason } => reason@,
    }
}

impl JoinFault {
    /// The fault in words that may be logged.
    pub fn message(&self) -> (s: String)
        ensures
            s@ == said(*self),
    {
        match self {
            JoinFault::Malformed { reason } => {
                let mut s: String = "malformed vouch cap: ".to_string();
                s.append(reason.as_str());
                s
            },
            JoinFault::Empty => "empty vouch chain".to_string(),
            JoinFault::Refused { reason } => reason.clone(),
        }
    }
}

/// The ability to log in.
pub const ABILITY_LOGIN: &'static str = "account:login";

/// The ability that binds a name.
pub fn ability_name(name: &str) -> (s: String)
    ensures
        s@ == "account:name:"@ + name@,
{
    let mut s: String = "account:name:".to_string();
    s.append(name);
    s
}

/// What the host has to check: that the root grants the audience both abilities.
#[derive(Debug)]
pub struct VouchCheck {
    pub root: NodeKey,
    pub audience: NodeKey,
    pub login: String,
    pub named: String,
}

/// What to check of a chain for a name: its first link names the root, its last one the audience. An
/// empty chain vouches for nobody.
pub fn checks_for(name: &str, chain: &Vec<CapLink>) -> (r: Result<VouchCheck, JoinFault>)
    ensures
        match r {
            Ok(c) => {
                &&& chain@.len() > 0
                &&& c.root == chain@[0].issuer
                &&& c.audience == chain@.last().audience
                &&& c.login@ == ABILITY_LOGIN@
                &&& c.named@ == "account:name:"@ + name@
            },
            Err(e) => chain@.len() == 0 && e == JoinFault::Empty,
        },
{
    if chain.len() == 0 {
        return Err(JoinFault::Empty);
    }
    Ok(
        VouchCheck {
            root: chain[0].issuer,
            audience: chain[chain.len() - 1].audience,
            login: ABILITY_LOGIN.to_string(),
            named: ability_name(name),
        },
    )
}

/// Bytes in hexadecimal: two digits each, in lower case.
pub open spec fn hex_text(bytes: Seq<u8>) -> Seq<char>
    decreases bytes.len(),
{
    if bytes.len() == 0 {
        Seq::empty()
    } else {
        hex_text(bytes.drop_last()).push(digit(bytes.last() as int / 16)).push(
            digit(bytes.last() as int % 16),
        )
    }
}

/// `hex::encode`: two lower-case hexadecimal digits for every byte, the high one first.
#[verifier::external_body]
fn hex_encode(bytes: &NodeKey) -> (s: String)
    ensures
        s@ == hex_text(bytes@),
{
    hex::encode(bytes)
}

/// The outcome of a vouch: the chain as it was decoded, and whether the two abilities are granted.
pub open spec fn is_outcome(
    r: Result<Vouch, JoinFault>,
    name: Seq<char>,
    decoded: Result<Vec<CapLink>, String>,
    login: Result<(), String>,
    named: Result<(), String>,
) -> bool {
    match decoded {
        Err(e) => r matches Err(JoinFault::Malformed { reason }) && reason@ == e@,
        Ok(chain) => if chain@.len() == 0 {
            r == Err::<Vouch, JoinFault>(JoinFault::Empty)
        } else {
            match (login, named) {
                (Err(e), _) => r matches Err(JoinFault::Refused { reason }) && reason@ == e@,
                (Ok(u), Err(e)) => r matches Err(JoinFault::Refused { reason }) && reason@ == e@,
                (Ok(u), Ok(v)) => r matches Ok(vouch) && vouch.node@ == hex_text(
                    chain@[0].issuer@,
                ) && vouch.name@ == name,
            }
        },
    }
}

/// Verifies a vouch for a name. `decoded` is the chain or why it could not be decoded, `login` and
/// `named` are the outcomes of the two checks.
pub fn verify_join(
    name: &str,
    decoded: Result<Vec<CapLink>, String>,
    login: Result<(), String>,
    named: Result<(), String>,
) -> (r: Result<Vouch, JoinFault>)
    ensures
        is_outcome(r, name@, decoded, login, named),
{
    let chain: Vec<CapLink> = match decoded {
        Ok(c) => c,
        Err(e) => {
            return Err(JoinFault::Malformed { reason: e });
        },
    };
    let check: VouchCheck = match checks_for(name, &chain) {
        Ok(c) => c,
        Err(e) => {
            return Err(e);
        },
    };
    match login {
        Ok(u) => {},
        Err(e) => {
            return Err(JoinFault::Refused { reason: e });
        },
    }
    match named {
        Ok(u) => {},
        Err(e) => {
            return Err(JoinFault::Refused { reason: e });
        },
    }
    Ok(Vouch { node: hex_encode(&check.root), name: name.to_string() })
}

/// A vouch holds only for the name that was checked, and only where both abilities were granted.
pub proof fn law_no_vouch_without_grants(
    r: Result<Vouch, JoinFault>,
    name: Seq<char>,
    decoded: Result<Vec<CapLink>, String>,
    login: Result<(), String>,
    named: Result<(), String>,
)
    requires
        is_outcome(r, name, decoded, login, named),
        r is Ok,
    ensures
        decoded is Ok,
        login is Ok,
        named is Ok,
        r->Ok_0.name@ == name,
{
}

/// Why a join is refused, the first reason that holds: the chain cannot be read, it is empty, it does not grant a login, or it does not grant the
/// name. Where none holds it is vouched for, by the node that issued the first link.
pub proof fn law_reasons_of_refusal(
    r: Result<Vouch, JoinFault>,
    name: Seq<char>,
    decoded: Result<Vec<CapLink>, String>,
    login: Result<(), String>,
    named: Result<(), String>,
)
    requires
        is_outcome(r, name, decoded, login, named),
    ensures
        decoded is Err <==> (r matches Err(f) && f is Malformed),
        (decoded matches Ok(c) && c@.len() == 0) <==> r == Err::<Vouch, JoinFault>(JoinFault::Empty),
        (decoded matches Ok(c) && c@.len() > 0) && login is Err ==> (r matches Err(JoinFault::Refused {
            reason,
        }) && reason@ == login->Err_0@),
        (decoded matches Ok(c) && c@.len() > 0) && login is Ok && named is Err ==> (r matches Err(
            JoinFault::Refused { reason },
        ) && reason@ == named->Err_0@),
        (decoded matches Ok(c) && c@.len() > 0) && login is Ok && named is Ok ==> (r matches Ok(v)
            && v.name@ == name && v.node@ == hex_text(decoded->Ok_0@[0].issuer@)),
{
}

/// A key is told in two digits for each byte, the high one first.
pub proof fn law_keys_in_hexadecimal(bytes: Seq<u8>, b: u8)
    ensures
        hex_text(bytes).len() == 2 * bytes.len(),
        hex_text(bytes.push(b)).len() == hex_text(bytes).len() + 2,
        hex_text(bytes.push(b))[hex_text(bytes).len() as int] == digit(b as int / 16),
        hex_text(bytes.push(b)).last() == digit(b as int % 16),
        hex_text(bytes.push(b)).take(hex_text(bytes).len() as int) == hex_text(bytes),
    decreases bytes.len(),
{
    assert(bytes.push(b).drop_last() =~= bytes);
    assert(hex_text(bytes.push(b)).take(hex_text(bytes).len() as int) =~= hex_text(bytes));
    if bytes.len() > 0 {
        law_keys_in_hexadecimal(bytes.drop_last(), b);
    }
}

} // verus!
