//! Distributions, claim records and the instructions that change them.
use vstd::prelude::*;
use crate::merkle_proof::{
    bytes_eq, compute_root, entry_leaves, leaf_hash, leaf_of, lemma_every_entry_has_a_proof,
    tree_proof, tree_root, verify, HashValue,
};

verus! {

/// A 32-byte account key.
pub type Pubkey = [u8; 32];

/// How an entitlement may be redeemed.
#[derive(Clone, Copy, Debug, PartialEq, Eq, Structural)]
pub enum ClaimPolicy {
    /// The whole amount, once.
    OneShot,
    /// Any number of times, each request naming a larger cumulative amount;
    /// only the increase is paid out.
    Cumulative,
}

/// State of one distribution.
#[derive(Clone, Copy, Debug, PartialEq, Eq)]
pub struct MerkleDistributor {
    /// Base key used to derive the distributor's address.
    pub base: Pubkey,
    /// Key allowed to update the distribution, rotate itself and reclaim funds.
    pub authority: Pubkey,
    /// Bump seed of the distributor's address.
    pub bump: u8,
    /// The 256-bit Merkle root of the entitlements.
    pub root: HashValue,
    /// Mint of the token distributed.
    pub mint: Pubkey,
    /// Most tokens that can ever be claimed under the current root.
    pub max_total_claim: u64,
    /// Most entitlements that can ever be claimed under the current root.
    pub max_num_nodes: u64,
    /// Tokens claimed so far.
    pub total_amount_claimed: u64,
    /// Entitlements claimed so far.
    pub num_nodes_claimed: u64,
    /// How each entitlement may be redeemed.
    pub policy: ClaimPolicy,
}

impl MerkleDistributor {
    /// The counters stay within the caps.
    pub open spec fn wf(&self) -> bool {
        &&& self.total_amount_claimed <= self.max_total_claim
        &&& self.num_nodes_claimed <= self.max_num_nodes
    }
}

/// Claim record of one entitlement.
#[derive(Clone, Copy, Debug, PartialEq, Eq)]
pub struct ClaimStatus {
    /// Whether any tokens have been claimed.
    pub is_claimed: bool,
    /// Who claimed first.
    pub claimant: Pubkey,
    /// When the first claim was made.
    pub claimed_at: i64,
    /// Tokens claimed so far (the cumulative amount under the cumulative policy).
    pub amount: u64,
}

impl ClaimStatus {
    /// A record on which nothing has been claimed.
    pub open spec fn is_fresh(&self) -> bool {
        &&& !self.is_claimed
        &&& self.claimed_at == 0
        &&& self.amount == 0
    }

    /// The record of an entitlement that nobody has claimed yet.
    pub fn unclaimed() -> (r: ClaimStatus)
        ensures
            r.is_fresh(),
            forall|i: int| 0 <= i < 32 ==> r.claimant[i] == 0,
    {
        ClaimStatus { is_claimed: false, claimant: [0u8; 32], claimed_at: 0, amount: 0 }
    }
}

/// Emitted when tokens are claimed.
#[derive(Clone, Copy, Debug, PartialEq, Eq)]
pub struct ClaimedEvent {
    /// Index of the entitlement.
    pub index: u64,
    /// Who claimed.
    pub claimant: Pubkey,
    /// Tokens paid out by this claim.
    pub amount: u64,
}

/// Why an instruction failed.
#[derive(Clone, Copy, Debug, PartialEq, Eq, Structural)]
pub enum ErrorCode {
    /// The proof does not lead from the entitlement's leaf to the root.
    InvalidProof,
    /// The entitlement was already claimed.
    DropAlreadyClaimed,
    /// The claim would take the total claimed past its cap.
    ExceededMaxClaim,
    /// The claim would take the number of claimed entitlements past its cap.
    ExceededMaxNumNodes,
    /// The caller is not allowed to do this.
    Unauthorized,
    /// A token account is not owned by the key it must belong to.
    OwnerMismatch,
    /// The source token account holds another mint than the distributed one.
    MintMismatch,
    /// Source and destination are the same account.
    KeysMustNotMatch,
    /// The requested cumulative amount is not above what was claimed already.
    NoClaimableAmount,
    /// A counter would overflow.
    ArithmeticOverflow,
    /// A cap of a new distribution is zero.
    InvalidConfiguration,
    /// The token transfer failed.
    TransferFailed,
}

/// What a new distribution is created from.
#[derive(Clone, Copy, Debug, PartialEq, Eq)]
pub struct NewDistributor {
    /// Authority of the distribution.
    pub authority: Pubkey,
    /// Base key used to derive the distributor's address.
    pub base: Pubkey,
    /// Bump seed of the distributor's address.
    pub bump: u8,
    /// Mint of the token to distribute.
    pub mint: Pubkey,
}

/// A token account as the instructions see it.
#[derive(Clone, Copy, Debug, PartialEq, Eq)]
pub struct TokenAccount {
    /// Address of the account.
    pub key: Pubkey,
    /// Mint of the tokens it holds.
    pub mint: Pubkey,
    /// Owner of the account.
    pub owner: Pubkey,
    /// Tokens it holds.
    pub amount: u64,
}

/// The accounts of a claim.
#[derive(Clone, Copy, Debug, PartialEq, Eq)]
pub struct Claim {
    /// Address of the distributor.
    pub distributor_key: Pubkey,
    /// The distributor.
    pub distributor: MerkleDistributor,
    /// Claim record of the entitlement.
    pub claim_status: ClaimStatus,
    /// The distributor's token account that pays.
    pub from: TokenAccount,
    /// The token account that receives.
    pub to: TokenAccount,
    /// Who claims.
    pub claimant: Pubkey,
    /// Whether the claimant signed the request.
    pub claimant_is_signer: bool,
}

/// What a successful claim commits once its transfer has gone through.
#[derive(Clone, Copy, Debug, PartialEq, Eq)]
pub struct ClaimReceipt {
    /// The distributor with its counters advanced.
    pub distributor: MerkleDistributor,
    /// The updated claim record.
    pub claim_status: ClaimStatus,
    /// The event to emit; its amount is what to transfer.
    pub event: ClaimedEvent,
}

/// The accounts of a surrender of the remaining tokens.
#[derive(Clone, Copy, Debug, PartialEq, Eq)]
pub struct SurrenderTokens {
    /// Who asks.
    pub authority: Pubkey,
    /// Whether the asker signed the request.
    pub authority_is_signer: bool,
    /// Address of the distributor.
    pub distributor_key: Pubkey,
    /// The distributor.
    pub distributor: MerkleDistributor,
    /// The distributor's token account to empty.
    pub from: TokenAccount,
    /// The authority's token account to refund.
    pub to: TokenAccount,
}

/// Whether the caps of a distribution are usable.
pub open spec fn caps_valid(max_total_claim: u64, max_num_nodes: u64) -> bool {
    max_total_claim > 0 && max_num_nodes > 0
}

/// Creates a distribution with zeroed counters.
pub fn new_distributor(
    ctx: &NewDistributor,
    root: HashValue,
    max_total_claim: u64,
    max_num_nodes: u64,
    policy: ClaimPolicy,
) -> (r: Result<MerkleDistributor, ErrorCode>)
    ensures
        !caps_valid(max_total_claim, max_num_nodes) ==> r == Err::<MerkleDistributor, ErrorCode>(
            ErrorCode::InvalidConfiguration,
        ),
        caps_valid(max_total_claim, max_num_nodes) ==> r == Ok::<MerkleDistributor, ErrorCode>(
            (MerkleDistributor {
                base: ctx.base,
                authority: ctx.authority,
                bump: ctx.bump,
                root,
                mint: ctx.mint,
                max_total_claim,
                max_num_nodes,
                total_amount_claimed: 0,
                num_nodes_claimed: 0,
                policy,
            }),
        ),
        r matches Ok(d) ==> d.wf(),
{
    if max_total_claim == 0 || max_num_nodes == 0 {
        return Err(ErrorCode::InvalidConfiguration);
    }
    Ok(
        MerkleDistributor {
            base: ctx.base,
            authority: ctx.authority,
            bump: ctx.bump,
            root,
            mint: ctx.mint,
            max_total_claim,
            max_num_nodes,
            total_amount_claimed: 0,
            num_nodes_claimed: 0,
            policy,
        },
    )
}

/// The outcome of a claim request for `amount` on a record: the new record
/// and the payout, or the policy's refusal.
pub open spec fn record_outcome(
    status: ClaimStatus,
    policy: ClaimPolicy,
    claimant: Pubkey,
    amount: u64,
    now: i64,
) -> Result<(ClaimStatus, u64), ErrorCode> {
    match policy {
        ClaimPolicy::OneShot => {
            if status.is_claimed || status.claimed_at != 0 {
                Err(ErrorCode::DropAlreadyClaimed)
            } else {
                Ok((ClaimStatus { is_claimed: true, claimant, claimed_at: now, amount }, amount))
            }
        },
        ClaimPolicy::Cumulative => {
            if amount <= status.amount {
                Err(ErrorCode::NoClaimableAmount)
            } else if status.is_claimed {
                Ok(
                    (
                        ClaimStatus { amount, ..status },
                        (amount - status.amount) as u64,
                    ),
                )
            } else {
                Ok(
                    (
                        ClaimStatus { is_claimed: true, claimant, claimed_at: now, amount },
                        (amount - status.amount) as u64,
                    ),
                )
            }
        },
    }
}

/// Applies a claim request to a claim record under `policy`.
pub fn record_claim(
    status: &ClaimStatus,
    policy: ClaimPolicy,
    claimant: &Pubkey,
    amount: u64,
    now: i64,
) -> (r: Result<(ClaimStatus, u64), ErrorCode>)
    ensures
        r == record_outcome(*status, policy, *claimant, amount, now),
{
    match policy {
        ClaimPolicy::OneShot => {
            if status.is_claimed || status.claimed_at != 0 {
                Err(ErrorCode::DropAlreadyClaimed)
            } else {
                Ok(
                    (
                        ClaimStatus { is_claimed: true, claimant: *claimant, claimed_at: now, amount },
                        amount,
                    ),
                )
            }
        },
        ClaimPolicy::Cumulative => {
            if amount <= status.amount {
                Err(ErrorCode::NoClaimableAmount)
            } else if status.is_claimed {
                Ok(
                    (
                        ClaimStatus {
                            is_claimed: status.is_claimed,
                            claimant: status.claimant,
                            claimed_at: status.claimed_at,
                            amount,
                        },
                        amount - status.amount,
                    ),
                )
            } else {
                Ok(
                    (
                        ClaimStatus { is_claimed: true, claimant: *claimant, claimed_at: now, amount },
                        amount - status.amount,
                    ),
                )
            }
        },
    }
}

/// Whether a claim on `status` counts a new entitlement.
pub open spec fn is_new_entry(status: ClaimStatus, policy: ClaimPolicy) -> bool {
    policy == ClaimPolicy::OneShot || !status.is_claimed
}

/// The distributor after paying `payout`, or why the caps refuse it.
pub open spec fn counters_outcome(d: MerkleDistributor, payout: u64, new_entry: bool) -> Result<
    MerkleDistributor,
    ErrorCode,
> {
    let total = d.total_amount_claimed + payout;
    let nodes = d.num_nodes_claimed + if new_entry {
        1int
    } else {
        0int
    };
    if total > u64::MAX {
        Err(ErrorCode::ArithmeticOverflow)
    } else if total > d.max_total_claim {
        Err(ErrorCode::ExceededMaxClaim)
    } else if nodes > u64::MAX {
        Err(ErrorCode::ArithmeticOverflow)
    } else if nodes > d.max_num_nodes {
        Err(ErrorCode::ExceededMaxNumNodes)
    } else {
        Ok(
            MerkleDistributor {
                total_amount_claimed: total as u64,
                num_nodes_claimed: nodes as u64,
                ..d
            },
        )
    }
}

/// Adds a payout to the distributor's counters, within the caps.
fn advance_counters(d: &MerkleDistributor, payout: u64, new_entry: bool) -> (r: Result<
    MerkleDistributor,
    ErrorCode,
>)
    ensures
        r == counters_outcome(*d, payout, new_entry),
{
    let total = match d.total_amount_claimed.checked_add(payout) {
        Some(t) => t,
        None => {
            return Err(ErrorCode::ArithmeticOverflow);
        },
    };
    if total > d.max_total_claim {
        return Err(ErrorCode::ExceededMaxClaim);
    }
    let step: u64 = if new_entry {
        1
    } else {
        0
    };
    let nodes = match d.num_nodes_claimed.checked_add(step) {
        Some(n) => n,
        None => {
            return Err(ErrorCode::ArithmeticOverflow);
        },
    };
    if nodes > d.max_num_nodes {
        return Err(ErrorCode::ExceededMaxNumNodes);
    }
    let mut next = *d;
    next.total_amount_claimed = total;
    next.num_nodes_claimed = nodes;
    Ok(next)
}

/// The outcome of a claim of `amount` on entitlement `index` with `proof`,
/// made at time `now`: the first check that fails, in order, or what to commit.
pub open spec fn claim_outcome(
    ctx: Claim,
    index: u64,
    amount: u64,
    proof: Seq<HashValue>,
    now: i64,
) -> Result<ClaimReceipt, ErrorCode> {
    let d = ctx.distributor;
    if compute_root(leaf_of(index, ctx.claimant, amount), proof) != d.root {
        Err(ErrorCode::InvalidProof)
    } else if !ctx.claimant_is_signer {
        Err(ErrorCode::Unauthorized)
    } else if ctx.from.owner != ctx.distributor_key {
        Err(ErrorCode::OwnerMismatch)
    } else if ctx.from.mint != d.mint {
        Err(ErrorCode::MintMismatch)
    } else if ctx.to.owner != ctx.claimant {
        Err(ErrorCode::OwnerMismatch)
    } else if ctx.from.key == ctx.to.key {
        Err(ErrorCode::KeysMustNotMatch)
    } else {
        match record_outcome(ctx.claim_status, d.policy, ctx.claimant, amount, now) {
            Err(e) => Err(e),
            Ok((status, payout)) => match counters_outcome(
                d,
                payout,
                is_new_entry(ctx.claim_status, d.policy),
            ) {
                Err(e) => Err(e),
                Ok(next) => Ok(
                    ClaimReceipt {
                        distributor: next,
                        claim_status: status,
                        event: ClaimedEvent { index, claimant: ctx.claimant, amount: payout },
                    },
                ),
            },
        }
    }
}

/// Checks a claim and computes what it commits: the advanced distributor, the
/// updated claim record, and the event whose amount is to be transferred from
/// `ctx.from` to `ctx.to`. Nothing is changed here; see `settle_claim`.
pub fn claim(ctx: &Claim, index: u64, amount: u64, proof: Vec<HashValue>, now: i64) -> (r: Result<
    ClaimReceipt,
    ErrorCode,
>)
    ensures
        r == claim_outcome(*ctx, index, amount, proof@, now),
{
    let d = &ctx.distributor;
    let leaf = leaf_hash(index, &ctx.claimant, amount);
    if !verify(proof, d.root, leaf) {
        return Err(ErrorCode::InvalidProof);
    }
    if !ctx.claimant_is_signer {
        return Err(ErrorCode::Unauthorized);
    }
    if !bytes_eq(&ctx.from.owner, &ctx.distributor_key) {
        return Err(ErrorCode::OwnerMismatch);
    }
    if !bytes_eq(&ctx.from.mint, &d.mint) {
        return Err(ErrorCode::MintMismatch);
    }
    if !bytes_eq(&ctx.to.owner, &ctx.claimant) {
        return Err(ErrorCode::OwnerMismatch);
    }
    if bytes_eq(&ctx.from.key, &ctx.to.key) {
        return Err(ErrorCode::KeysMustNotMatch);
    }
    let (status, payout) = match record_claim(&ctx.claim_status, d.policy, &ctx.claimant, amount, now) {
        Ok(o) => o,
        Err(e) => {
            return Err(e);
        },
    };
    let new_entry = match d.policy {
        ClaimPolicy::OneShot => true,
        ClaimPolicy::Cumulative => !ctx.claim_status.is_claimed,
    };
    let next = match advance_counters(d, payout, new_entry) {
        Ok(n) => n,
        Err(e) => {
            return Err(e);
        },
    };
    Ok(
        ClaimReceipt {
            distributor: next,
            claim_status: status,
            event: ClaimedEvent { index, claimant: ctx.claimant, amount: payout },
        },
    )
}

/// Commits a checked claim once the transfer of its payout is known: all of
/// it when the transfer succeeded, none of it when it failed.
pub fn settle_claim(ctx: &mut Claim, receipt: &ClaimReceipt, transfer_succeeded: bool) -> (r: Result<
    ClaimedEvent,
    ErrorCode,
>)
    ensures
        transfer_succeeded ==> r == Ok::<ClaimedEvent, ErrorCode>(receipt.event) && *final(ctx) == (Claim {
            distributor: receipt.distributor,
            claim_status: receipt.claim_status,
            ..*old(ctx)
        }),
        !transfer_succeeded ==> r == Err::<ClaimedEvent, ErrorCode>(ErrorCode::TransferFailed)
            && *final(ctx) == *old(ctx),
{
    if !transfer_succeeded {
        return Err(ErrorCode::TransferFailed);
    }
    ctx.distributor = receipt.distributor;
    ctx.claim_status = receipt.claim_status;
    Ok(receipt.event)
}

/// Replaces the root and the caps. Both counters start again from zero under
/// the new root. Only the authority may do this, and the caps must be usable.
pub fn update_distribution(
    d: &mut MerkleDistributor,
    signer: &Pubkey,
    new_root: HashValue,
    new_max_total_claim: u64,
    new_max_num_nodes: u64,
) -> (r: Result<(), ErrorCode>)
    ensures
        *signer != old(d).authority ==> r == Err::<(), ErrorCode>(ErrorCode::Unauthorized),
        *signer == old(d).authority && !caps_valid(new_max_total_claim, new_max_num_nodes) ==> r
            == Err::<(), ErrorCode>(ErrorCode::InvalidConfiguration),
        r is Err ==> *final(d) == *old(d),
        r is Ok ==> *final(d) == (MerkleDistributor {
            root: new_root,
            max_total_claim: new_max_total_claim,
            max_num_nodes: new_max_num_nodes,
            total_amount_claimed: 0,
            num_nodes_claimed: 0,
            ..*old(d)
        }),
        r is Ok <==> *signer == old(d).authority && caps_valid(new_max_total_claim, new_max_num_nodes),
        r is Ok ==> final(d).wf(),
{
    if !bytes_eq(signer, &d.authority) {
        return Err(ErrorCode::Unauthorized);
    }
    if new_max_total_claim == 0 || new_max_num_nodes == 0 {
        return Err(ErrorCode::InvalidConfiguration);
    }
    d.root = new_root;
    d.max_total_claim = new_max_total_claim;
    d.max_num_nodes = new_max_num_nodes;
    d.total_amount_claimed = 0;
    d.num_nodes_claimed = 0;
    Ok(())
}

/// Hands the authority over to `new_authority`; only the authority may do this.
pub fn rotate_admin(d: &mut MerkleDistributor, signer: &Pubkey, new_authority: &Pubkey) -> (r:
    Result<(), ErrorCode>)
    ensures
        *signer != old(d).authority ==> r == Err::<(), ErrorCode>(ErrorCode::Unauthorized)
            && *final(d) == *old(d),
        *signer == old(d).authority ==> r == Ok::<(), ErrorCode>(()) && *final(d) == (
        MerkleDistributor { authority: *new_authority, ..*old(d) }),
{
    if !bytes_eq(signer, &d.authority) {
        return Err(ErrorCode::Unauthorized);
    }
    d.authority = *new_authority;
    Ok(())
}

/// The outcome of a surrender: the first check that fails, in order, or the
/// amount to move from `ctx.from` back to `ctx.to` before the distribution is
/// closed.
pub open spec fn surrender_outcome(ctx: SurrenderTokens) -> Result<u64, ErrorCode> {
    if !ctx.authority_is_signer || ctx.authority != ctx.distributor.authority {
        Err(ErrorCode::Unauthorized)
    } else if ctx.from.owner != ctx.distributor_key || ctx.to.owner != ctx.authority {
        Err(ErrorCode::OwnerMismatch)
    } else if ctx.from.key == ctx.to.key {
        Err(ErrorCode::KeysMustNotMatch)
    } else {
        Ok(ctx.from.amount)
    }
}

/// Checks a surrender of the unclaimed tokens and returns the refund: all the
/// distributor's token account holds.
pub fn surrender_tokens(ctx: &SurrenderTokens) -> (r: Result<u64, ErrorCode>)
    ensures
        r == surrender_outcome(*ctx),
{
    if !ctx.authority_is_signer || !bytes_eq(&ctx.authority, &ctx.distributor.authority) {
        return Err(ErrorCode::Unauthorized);
    }
    if !bytes_eq(&ctx.from.owner, &ctx.distributor_key) || !bytes_eq(&ctx.to.owner, &ctx.authority) {
        return Err(ErrorCode::OwnerMismatch);
    }
    if bytes_eq(&ctx.from.key, &ctx.to.key) {
        return Err(ErrorCode::KeysMustNotMatch);
    }
    Ok(ctx.from.amount)
}

/// One-shot policy: once a claim on an entitlement has been committed, the
/// same request made again fails with `DropAlreadyClaimed`, and no request on
/// that entitlement succeeds any more.
pub proof fn lemma_one_shot_claims_once(
    ctx: Claim,
    index: u64,
    amount: u64,
    proof: Seq<HashValue>,
    now: i64,
    later: i64,
)
    requires
        ctx.distributor.policy == ClaimPolicy::OneShot,
        claim_outcome(ctx, index, amount, proof, now) is Ok,
    ensures
        ({
            let receipt = claim_outcome(ctx, index, amount, proof, now)->Ok_0;
            let after = Claim {
                distributor: receipt.distributor,
                claim_status: receipt.claim_status,
                ..ctx
            };
            &&& claim_outcome(after, index, amount, proof, later) == Err::<ClaimReceipt, ErrorCode>(
                ErrorCode::DropAlreadyClaimed,
            )
            &&& forall|i: u64, a: u64, p: Seq<HashValue>, t: i64|
                !(#[trigger] claim_outcome(after, i, a, p, t) is Ok)
        }),
{
}

/// `ctx` after a claim request: what the claim commits, or `ctx` as it was
/// if the claim is refused.
pub open spec fn after_claim(
    ctx: Claim,
    index: u64,
    amount: u64,
    proof: Seq<HashValue>,
    now: i64,
) -> Claim {
    match claim_outcome(ctx, index, amount, proof, now) {
        Ok(receipt) => Claim {
            distributor: receipt.distributor,
            claim_status: receipt.claim_status,
            ..ctx
        },
        Err(_) => ctx,
    }
}

/// `ctx` after the same claim request made at each of `times` in turn.
pub open spec fn after_repeated_claims(
    ctx: Claim,
    index: u64,
    amount: u64,
    proof: Seq<HashValue>,
    times: Seq<i64>,
) -> Claim
    decreases times.len(),
{
    if times.len() == 0 {
        ctx
    } else {
        after_claim(
            after_repeated_claims(ctx, index, amount, proof, times.drop_last()),
            index,
            amount,
            proof,
            times.last(),
        )
    }
}

proof fn lemma_one_shot_run_state(
    ctx: Claim,
    index: u64,
    amount: u64,
    proof: Seq<HashValue>,
    times: Seq<i64>,
)
    requires
        ctx.distributor.policy == ClaimPolicy::OneShot,
        times.len() >= 1,
        claim_outcome(ctx, index, amount, proof, times[0]) is Ok,
    ensures
        after_repeated_claims(ctx, index, amount, proof, times) == after_claim(
            ctx,
            index,
            amount,
            proof,
            times[0],
        ),
    decreases times.len(),
{
    let first = after_claim(ctx, index, amount, proof, times[0]);
    let prefix = times.drop_last();
    if times.len() == 1 {
        assert(prefix =~= Seq::<i64>::empty());
        assert(after_repeated_claims(ctx, index, amount, proof, prefix) == ctx);
        assert(times.last() == times[0]);
    } else {
        assert(prefix[0] == times[0]);
        lemma_one_shot_run_state(ctx, index, amount, proof, prefix);
        lemma_one_shot_claims_once(ctx, index, amount, proof, times[0], times.last());
        assert(claim_outcome(first, index, amount, proof, times.last()) is Err);
        assert(after_claim(first, index, amount, proof, times.last()) == first);
    }
}

/// One-shot policy, the same request made again and again: the first claim
/// succeeds, pays `amount` and counts one entry; every later one fails with
/// `DropAlreadyClaimed`; after the whole run the state is the state after
/// the first claim.
pub proof fn lemma_one_shot_run(
    ctx: Claim,
    index: u64,
    amount: u64,
    proof: Seq<HashValue>,
    times: Seq<i64>,
)
    requires
        ctx.distributor.policy == ClaimPolicy::OneShot,
        times.len() >= 1,
        claim_outcome(ctx, index, amount, proof, times[0]) is Ok,
    ensures
        claim_outcome(ctx, index, amount, proof, times[0])->Ok_0.event.amount == amount,
        forall|k: int|
            1 <= k < times.len() ==> #[trigger] claim_outcome(
                after_repeated_claims(ctx, index, amount, proof, times.take(k)),
                index,
                amount,
                proof,
                times[k],
            ) == Err::<ClaimReceipt, ErrorCode>(ErrorCode::DropAlreadyClaimed),
        ({
            let end = after_repeated_claims(ctx, index, amount, proof, times);
            &&& end == after_claim(ctx, index, amount, proof, times[0])
            &&& end.distributor.total_amount_claimed == ctx.distributor.total_amount_claimed + amount
            &&& end.distributor.num_nodes_claimed == ctx.distributor.num_nodes_claimed + 1
        }),
{
    lemma_one_shot_run_state(ctx, index, amount, proof, times);
    assert forall|k: int| 1 <= k < times.len() implies #[trigger] claim_outcome(
        after_repeated_claims(ctx, index, amount, proof, times.take(k)),
        index,
        amount,
        proof,
        times[k],
    ) == Err::<ClaimReceipt, ErrorCode>(ErrorCode::DropAlreadyClaimed) by {
        let prefix = times.take(k);
        assert(prefix[0] == times[0]);
        lemma_one_shot_run_state(ctx, index, amount, proof, prefix);
        lemma_one_shot_claims_once(ctx, index, amount, proof, times[0], times[k]);
    }
}

/// Every committed entry can be claimed: when the distribution's root is the
/// root of the tree over `entries`, the claim of entry `i` with the tree's
/// proof succeeds and pays the entry's amount, provided the entry's claimant
/// signs and owns the destination, the source is the distributor's account of
/// its mint, the record is fresh and both caps leave room. Under the
/// cumulative policy the amount must be positive.
pub proof fn lemma_committed_entry_claims(
    ctx: Claim,
    entries: Seq<(u64, Pubkey, u64)>,
    i: int,
    now: i64,
)
    requires
        0 <= i < entries.len(),
        ctx.distributor.root == tree_root(entry_leaves(entries)),
        ctx.claimant == entries[i].1,
        ctx.claimant_is_signer,
        ctx.from.owner == ctx.distributor_key,
        ctx.from.mint == ctx.distributor.mint,
        ctx.to.owner == ctx.claimant,
        ctx.from.key != ctx.to.key,
        ctx.claim_status.is_fresh(),
        ctx.distributor.policy == ClaimPolicy::OneShot || entries[i].2 > 0,
        ctx.distributor.total_amount_claimed + entries[i].2 <= ctx.distributor.max_total_claim,
        ctx.distributor.num_nodes_claimed + 1 <= ctx.distributor.max_num_nodes,
    ensures
        claim_outcome(ctx, entries[i].0, entries[i].2, tree_proof(entry_leaves(entries), i), now) is Ok,
        claim_outcome(
            ctx,
            entries[i].0,
            entries[i].2,
            tree_proof(entry_leaves(entries), i),
            now,
        )->Ok_0.event.amount == entries[i].2,
{
    lemma_every_entry_has_a_proof(entries, i);
}

/// The claim record after each of `amounts` is requested in turn under the
/// cumulative policy; a refused request leaves the record as it was.
pub open spec fn cumulative_record(
    status: ClaimStatus,
    claimant: Pubkey,
    amounts: Seq<u64>,
    now: i64,
) -> ClaimStatus
    decreases amounts.len(),
{
    if amounts.len() == 0 {
        status
    } else {
        let prev = cumulative_record(status, claimant, amounts.drop_last(), now);
        match record_outcome(prev, ClaimPolicy::Cumulative, claimant, amounts.last(), now) {
            Ok((next, _)) => next,
            Err(_) => prev,
        }
    }
}

/// What one cumulative request on `status` pays out (nothing if refused).
pub open spec fn cumulative_payout(status: ClaimStatus, claimant: Pubkey, amount: u64, now: i64) -> nat {
    match record_outcome(status, ClaimPolicy::Cumulative, claimant, amount, now) {
        Ok((_, payout)) => payout as nat,
        Err(_) => 0,
    }
}

/// Everything paid out when each of `amounts` is requested in turn.
pub open spec fn cumulative_paid(status: ClaimStatus, claimant: Pubkey, amounts: Seq<u64>, now: i64) -> nat
    decreases amounts.len(),
{
    if amounts.len() == 0 {
        0
    } else {
        cumulative_paid(status, claimant, amounts.drop_last(), now) + cumulative_payout(
            cumulative_record(status, claimant, amounts.drop_last(), now),
            claimant,
            amounts.last(),
            now,
        )
    }
}

/// Whether `amounts` never decreases.
pub open spec fn non_decreasing(amounts: Seq<u64>) -> bool {
    forall|i: int, j: int| 0 <= i <= j < amounts.len() ==> amounts[i] <= amounts[j]
}

/// The amount before request `i` of a run: what the previous request named.
pub open spec fn previous_amount(amounts: Seq<u64>, i: int) -> nat {
    if i == 0 {
        0
    } else {
        amounts[i - 1] as nat
    }
}

proof fn lemma_cumulative_run(status: ClaimStatus, claimant: Pubkey, amounts: Seq<u64>, now: i64)
    requires
        status.is_fresh(),
        non_decreasing(amounts),
    ensures
        cumulative_record(status, claimant, amounts, now).amount == previous_amount(
            amounts,
            amounts.len() as int,
        ),
        cumulative_paid(status, claimant, amounts, now) == previous_amount(
            amounts,
            amounts.len() as int,
        ),
    decreases amounts.len(),
{
    if amounts.len() > 0 {
        let prefix = amounts.drop_last();
        lemma_cumulative_run(status, claimant, prefix, now);
    }
}

/// Cumulative policy: when a claimant requests a non-decreasing run of
/// cumulative amounts on a fresh record, each request pays out the increase
/// over the previous one, and the run pays out the last amount in all.
pub proof fn lemma_cumulative_payouts(
    status: ClaimStatus,
    claimant: Pubkey,
    amounts: Seq<u64>,
    now: i64,
)
    requires
        status.is_fresh(),
        non_decreasing(amounts),
    ensures
        forall|i: int|
            0 <= i < amounts.len() ==> #[trigger] cumulative_payout(
                cumulative_record(status, claimant, amounts.take(i), now),
                claimant,
                amounts[i],
                now,
            ) == amounts[i] - previous_amount(amounts, i),
        amounts.len() > 0 ==> cumulative_paid(status, claimant, amounts, now) == amounts.last(),
{
    lemma_cumulative_run(status, claimant, amounts, now);
    assert forall|i: int| 0 <= i < amounts.len() implies #[trigger] cumulative_payout(
        cumulative_record(status, claimant, amounts.take(i), now),
        claimant,
        amounts[i],
        now,
    ) == amounts[i] - previous_amount(amounts, i) by {
        let prefix = amounts.take(i);
        assert(non_decreasing(prefix));
        lemma_cumulative_run(status, claimant, prefix, now);
        if i > 0 {
            assert(prefix.last() == amounts[i - 1]);
        }
    }
}

/// What a claim request pays out (nothing if refused).
pub open spec fn claim_payout(
    ctx: Claim,
    index: u64,
    amount: u64,
    proof: Seq<HashValue>,
    now: i64,
) -> nat {
    match claim_outcome(ctx, index, amount, proof, now) {
        Ok(receipt) => receipt.event.amount as nat,
        Err(_) => 0,
    }
}

/// The accounts of request `q` with `status` as the claim record.
pub open spec fn with_status(q: (Claim, u64, u64, Seq<HashValue>, i64), status: ClaimStatus) -> Claim {
    Claim { claim_status: status, ..q.0 }
}

/// The claim record after each of `requests` in turn on one entitlement.
/// A request is the claim's accounts, the index, the amount, the proof and
/// the time; its record is the one left by the requests before it.
pub open spec fn status_after_claims(
    status: ClaimStatus,
    requests: Seq<(Claim, u64, u64, Seq<HashValue>, i64)>,
) -> ClaimStatus
    decreases requests.len(),
{
    if requests.len() == 0 {
        status
    } else {
        let prev = status_after_claims(status, requests.drop_last());
        let q = requests.last();
        after_claim(with_status(q, prev), q.1, q.2, q.3, q.4).claim_status
    }
}

/// Everything that `requests` pay out in turn on one entitlement.
pub open spec fn paid_by_claims(
    status: ClaimStatus,
    requests: Seq<(Claim, u64, u64, Seq<HashValue>, i64)>,
) -> nat
    decreases requests.len(),
{
    if requests.len() == 0 {
        0
    } else {
        let prev = status_after_claims(status, requests.drop_last());
        let q = requests.last();
        paid_by_claims(status, requests.drop_last()) + claim_payout(
            with_status(q, prev),
            q.1,
            q.2,
            q.3,
            q.4,
        )
    }
}

/// The amounts that `requests` name.
pub open spec fn request_amounts(requests: Seq<(Claim, u64, u64, Seq<HashValue>, i64)>) -> Seq<u64> {
    requests.map_values(|q: (Claim, u64, u64, Seq<HashValue>, i64)| q.2)
}

/// Whether request `k` of a run on `status` is a cumulative claim that
/// succeeds whenever its record accepts it: its proof, signer, accounts and
/// the caps are in order.
pub open spec fn ready_cumulative_request(
    status: ClaimStatus,
    requests: Seq<(Claim, u64, u64, Seq<HashValue>, i64)>,
    k: int,
) -> bool {
    let q = requests[k];
    let s = status_after_claims(status, requests.take(k));
    &&& q.0.distributor.policy == ClaimPolicy::Cumulative
    &&& record_outcome(s, ClaimPolicy::Cumulative, q.0.claimant, q.2, q.4) is Ok ==> claim_outcome(
        with_status(q, s),
        q.1,
        q.2,
        q.3,
        q.4,
    ) is Ok
}

proof fn lemma_cumulative_claim_step(q: (Claim, u64, u64, Seq<HashValue>, i64), s: ClaimStatus)
    requires
        q.0.distributor.policy == ClaimPolicy::Cumulative,
        record_outcome(s, ClaimPolicy::Cumulative, q.0.claimant, q.2, q.4) is Ok ==> claim_outcome(
            with_status(q, s),
            q.1,
            q.2,
            q.3,
            q.4,
        ) is Ok,
    ensures
        s.amount < q.2 ==> claim_payout(with_status(q, s), q.1, q.2, q.3, q.4) == q.2 - s.amount
            && after_claim(with_status(q, s), q.1, q.2, q.3, q.4).claim_status.amount == q.2,
        s.amount >= q.2 ==> claim_payout(with_status(q, s), q.1, q.2, q.3, q.4) == 0 && after_claim(
            with_status(q, s),
            q.1,
            q.2,
            q.3,
            q.4,
        ).claim_status == s,
{
}

proof fn lemma_cumulative_claims_run(
    status: ClaimStatus,
    requests: Seq<(Claim, u64, u64, Seq<HashValue>, i64)>,
)
    requires
        status.is_fresh(),
        non_decreasing(request_amounts(requests)),
        forall|k: int| 0 <= k < requests.len() ==> ready_cumulative_request(status, requests, k),
    ensures
        status_after_claims(status, requests).amount == previous_amount(
            request_amounts(requests),
            requests.len() as int,
        ),
        paid_by_claims(status, requests) == previous_amount(
            request_amounts(requests),
            requests.len() as int,
        ),
    decreases requests.len(),
{
    if requests.len() > 0 {
        let n = requests.len() - 1;
        let prefix = requests.drop_last();
        assert(request_amounts(prefix) =~= request_amounts(requests).drop_last());
        assert forall|k: int| 0 <= k < prefix.len() implies ready_cumulative_request(
            status,
            prefix,
            k,
        ) by {
            assert(prefix.take(k) =~= requests.take(k));
            assert(ready_cumulative_request(status, requests, k));
        }
        lemma_cumulative_claims_run(status, prefix);
        assert(requests.take(n) =~= prefix);
        assert(ready_cumulative_request(status, requests, n));
        lemma_cumulative_claim_step(requests.last(), status_after_claims(status, prefix));
        if n > 0 {
            assert(request_amounts(requests)[n - 1] <= request_amounts(requests)[n]);
        }
    }
}

/// Cumulative policy, a run of claims on one entitlement: when the amounts
/// never decrease and each claim succeeds whenever its record accepts it,
/// each claim pays out the increase over the previous amount (nothing when
/// it is no larger: the claim fails with `NoClaimableAmount` or earlier), the
/// run pays out the last amount in all, and the record holds it.
pub proof fn lemma_cumulative_claims_pay_increases(
    status: ClaimStatus,
    requests: Seq<(Claim, u64, u64, Seq<HashValue>, i64)>,
)
    requires
        status.is_fresh(),
        non_decreasing(request_amounts(requests)),
        forall|k: int| 0 <= k < requests.len() ==> ready_cumulative_request(status, requests, k),
    ensures
        forall|k: int|
            0 <= k < requests.len() ==> #[trigger] claim_payout(
                with_status(requests[k], status_after_claims(status, requests.take(k))),
                requests[k].1,
                requests[k].2,
                requests[k].3,
                requests[k].4,
            ) == requests[k].2 - previous_amount(request_amounts(requests), k),
        requests.len() > 0 ==> paid_by_claims(status, requests) == requests.last().2
            && status_after_claims(status, requests).amount == requests.last().2,
{
    lemma_cumulative_claims_run(status, requests);
    assert forall|k: int| 0 <= k < requests.len() implies #[trigger] claim_payout(
        with_status(requests[k], status_after_claims(status, requests.take(k))),
        requests[k].1,
        requests[k].2,
        requests[k].3,
        requests[k].4,
    ) == requests[k].2 - previous_amount(request_amounts(requests), k) by {
        let prefix = requests.take(k);
        assert(request_amounts(prefix) =~= request_amounts(requests).take(k));
        assert forall|m: int| 0 <= m < prefix.len() implies ready_cumulative_request(
            status,
            prefix,
            m,
        ) by {
            assert(prefix.take(m) =~= requests.take(m));
            assert(ready_cumulative_request(status, requests, m));
        }
        lemma_cumulative_claims_run(status, prefix);
        assert(ready_cumulative_request(status, requests, k));
        lemma_cumulative_claim_step(requests[k], status_after_claims(status, prefix));
        if k > 0 {
            assert(request_amounts(requests)[k - 1] <= request_amounts(requests)[k]);
        }
    }
}

/// The distributor after each request of `requests` in turn; a refused
/// request leaves it as it was. A request is the claim's other accounts,
/// the index, the amount, the proof and the time.
pub open spec fn distributor_after_claims(
    d: MerkleDistributor,
    requests: Seq<(Claim, u64, u64, Seq<HashValue>, i64)>,
) -> MerkleDistributor
    decreases requests.len(),
{
    if requests.len() == 0 {
        d
    } else {
        let prev = distributor_after_claims(d, requests.drop_last());
        let q = requests.last();
        match claim_outcome(Claim { distributor: prev, ..q.0 }, q.1, q.2, q.3, q.4) {
            Ok(receipt) => receipt.distributor,
            Err(_) => prev,
        }
    }
}

/// One claim never lowers the counters, keeps them within the caps and
/// changes nothing else of the distributor.
pub proof fn lemma_claim_advances_counters(
    ctx: Claim,
    index: u64,
    amount: u64,
    proof: Seq<HashValue>,
    now: i64,
)
    ensures
        claim_outcome(ctx, index, amount, proof, now) matches Ok(receipt) ==> {
            let (d, next) = (ctx.distributor, receipt.distributor);
            &&& next.wf()
            &&& d.total_amount_claimed <= next.total_amount_claimed
            &&& d.num_nodes_claimed <= next.num_nodes_claimed
            &&& next == (MerkleDistributor {
                total_amount_claimed: next.total_amount_claimed,
                num_nodes_claimed: next.num_nodes_claimed,
                ..d
            })
        },
{
}

/// Over any run of claims, the counters never decrease, never exceed the
/// caps, and the caps stay as they were.
pub proof fn lemma_claims_keep_counters_in_caps(
    d: MerkleDistributor,
    requests: Seq<(Claim, u64, u64, Seq<HashValue>, i64)>,
)
    requires
        d.wf(),
    ensures
        forall|i: int, j: int|
            0 <= i <= j <= requests.len() ==> {
                let (a, b) = (
                    #[trigger] distributor_after_claims(d, requests.take(i)),
                    #[trigger] distributor_after_claims(d, requests.take(j)),
                );
                &&& b.wf()
                &&& a.total_amount_claimed <= b.total_amount_claimed
                &&& a.num_nodes_claimed <= b.num_nodes_claimed
                &&& b.max_total_claim == d.max_total_claim
                &&& b.max_num_nodes == d.max_num_nodes
            },
    decreases requests.len(),
{
    if requests.len() > 0 {
        let prefix = requests.drop_last();
        lemma_claims_keep_counters_in_caps(d, prefix);
        let n = requests.len() as int;
        assert(requests.take(n) =~= requests);
        assert forall|i: int| 0 <= i < n implies requests.take(i) =~= prefix.take(i) by {}
        assert(prefix.take(n - 1) =~= prefix);
        let q = requests.last();
        lemma_claim_advances_counters(
            Claim { distributor: distributor_after_claims(d, prefix), ..q.0 },
            q.1,
            q.2,
            q.3,
            q.4,
        );
    } else {
        assert(requests.take(0) =~= requests);
    }
}

} // verus!
