//! Governance-facing message and status types, and link validation for
//! proposal submissions.

use vstd::prelude::*;

verus! {

/// Queries the governance layer answers, mostly by weighing votes with
/// voting-power queries against the escrow core.
#[derive(Clone, Debug, PartialEq)]
pub enum QueryMsg {
    /// Return the contract's configuration.
    Config,
    /// Return the current list of proposals.
    Proposals {
        /// Id from which to start querying.
        start: Option<u64>,
        /// The number of proposals to return.
        limit: Option<u32>,
    },
    /// Return information about a specific proposal.
    Proposal {
        /// The proposal's id.
        proposal_id: u64,
    },
    /// Return information about the votes cast on a specific proposal.
    ProposalVotes {
        /// The proposal's id.
        proposal_id: u64,
    },
    /// Return an account's voting power for a specific proposal.
    UserVotingPower {
        /// The account.
        user: String,
        /// The proposal's id.
        proposal_id: u64,
    },
    /// Return the total voting power for a specific proposal.
    TotalVotingPower {
        /// The proposal's id.
        proposal_id: u64,
    },
}

/// Parameters of a governance configuration update; a field left empty
/// keeps its current value.
#[derive(Clone, Debug, PartialEq)]
pub struct UpdateConfig {
    /// Deposit token address.
    pub xastro_token_addr: Option<String>,
    /// Escrow token address.
    pub vxastro_token_addr: Option<String>,
    /// Builder unlock contract address.
    pub builder_unlock_addr: Option<String>,
    /// Proposal voting period.
    pub proposal_voting_period: Option<u64>,
    /// Proposal effective delay.
    pub proposal_effective_delay: Option<u64>,
    /// Proposal expiration period.
    pub proposal_expiration_period: Option<u64>,
    /// Proposal required deposit.
    pub proposal_required_deposit: Option<u128>,
    /// Proposal required quorum.
    pub proposal_required_quorum: Option<String>,
    /// Proposal required threshold.
    pub proposal_required_threshold: Option<String>,
    /// Links to remove from the whitelist.
    pub whitelist_remove: Option<Vec<String>>,
    /// Links to add to the whitelist.
    pub whitelist_add: Option<Vec<String>>,
}

/// Lifecycle states of a proposal.
#[derive(Clone, Copy, Debug, PartialEq, Eq, Structural)]
pub enum ProposalStatus {
    /// Open for voting.
    Active,
    /// Accepted and awaiting execution.
    Passed,
    /// Voted down.
    Rejected,
    /// Carried out.
    Executed,
    /// Passed but no longer executable.
    Expired,
}

impl ProposalStatus {
    /// The status, in words.
    pub fn text(&self) -> (r: String)
        ensures
            r@ == match self {
                ProposalStatus::Active => "active"@,
                ProposalStatus::Passed => "passed"@,
                ProposalStatus::Rejected => "rejected"@,
                ProposalStatus::Executed => "executed"@,
                ProposalStatus::Expired => "expired"@,
            },
    {
        match self {
            ProposalStatus::Active => "active".to_owned(),
            ProposalStatus::Passed => "passed".to_owned(),
            ProposalStatus::Rejected => "rejected".to_owned(),
            ProposalStatus::Executed => "executed".to_owned(),
            ProposalStatus::Expired => "expired".to_owned(),
        }
    }
}

/// The two ways to vote on a proposal.
#[derive(Clone, Copy, Debug, PartialEq, Eq, Structural)]
pub enum ProposalVoteOption {
    /// In favour.
    For,
    /// Opposed.
    Against,
}

impl ProposalVoteOption {
    /// The vote, in words.
    pub fn text(&self) -> (r: String)
        ensures
            r@ == match self {
                ProposalVoteOption::For => "for"@,
                ProposalVoteOption::Against => "against"@,
            },
    {
        match self {
            ProposalVoteOption::For => "for".to_owned(),
            ProposalVoteOption::Against => "against".to_owned(),
        }
    }
}

/// Is `c` acceptable in a proposal link: an ASCII letter or digit, or
/// one of the unreserved and reserved URL punctuation characters.
pub open spec fn safe_link_char(c: char) -> bool {
    ||| ('a' as u32) <= (c as u32) <= ('z' as u32)
    ||| ('A' as u32) <= (c as u32) <= ('Z' as u32)
    ||| ('0' as u32) <= (c as u32) <= ('9' as u32)
    ||| c == '-' || c == '_' || c == ':' || c == '/' || c == '?' || c == '#' || c == '@'
        || c == '!' || c == '$' || c == '&' || c == '(' || c == ')' || c == '*' || c == '+'
        || c == ',' || c == ';' || c == '=' || c == '.' || c == '~' || c == '[' || c == ']'
        || c == '\'' || c == '%'
}

/// A link is safe when every one of its characters is.
pub open spec fn spec_safe_link(s: Seq<char>) -> bool {
    forall|i: int| 0 <= i < s.len() ==> safe_link_char(#[trigger] s[i])
}

/// Checks that the link contains only characters acceptable in a
/// proposal link.
pub fn is_safe_link(link: &str) -> (r: bool)
    ensures
        r == spec_safe_link(link@),
{
    let n = link.unicode_len();
    let mut i: usize = 0;
    while i < n
        invariant
            n == link@.len(),
            0 <= i <= n,
            forall|j: int| 0 <= j < i ==> safe_link_char(#[trigger] link@[j]),
        decreases n - i,
    {
        let c = link.get_char(i);
        let u = c as u32;
        let ok = (97 <= u && u <= 122) || (65 <= u && u <= 90) || (48 <= u && u <= 57) || c
            == '-' || c == '_' || c == ':' || c == '/' || c == '?' || c == '#' || c == '@' || c
            == '!' || c == '$' || c == '&' || c == '(' || c == ')' || c == '*' || c == '+' || c
            == ',' || c == ';' || c == '=' || c == '.' || c == '~' || c == '[' || c == ']' || c
            == '\'' || c == '%';
        if !ok {
            return false;
        }
        i += 1;
    }
    true
}

/// Checks a list of links: each must be safe and end with a slash.
pub fn validate_links(links: &Vec<String>) -> (r: bool)
    ensures
        r == forall|k: int|
            0 <= k < links@.len() ==> spec_safe_link((#[trigger] links@[k])@) && (
            links@[k])@.len() >= 1 && (links@[k])@.last() == '/',
{
    let mut k: usize = 0;
    while k < links.len()
        invariant
            0 <= k <= links@.len(),
            forall|j: int|
                0 <= j < k ==> spec_safe_link((#[trigger] links@[j])@) && (links@[j])@.len()
                    >= 1 && (links@[j])@.last() == '/',
        decreases links@.len() - k,
    {
        let link = &links[k];
        if !is_safe_link(link.as_str()) {
            return false;
        }
        let n = link.as_str().unicode_len();
        if n == 0 {
            return false;
        }
        let last = link.as_str().get_char(n - 1);
        if last != '/' {
            return false;
        }
        k += 1;
    }
    true
}

} // verus!
