use merkle_distributor::distributor::{
    claim, new_distributor, record_claim, rotate_admin, settle_claim, surrender_tokens,
    update_distribution, Claim, ClaimPolicy, ClaimStatus, ErrorCode, MerkleDistributor,
    NewDistributor, SurrenderTokens, TokenAccount,
};
use merkle_distributor::merkle_proof::{leaf_hash, merkle_proof_for, merkle_root, HashValue};

const AUTHORITY: [u8; 32] = [0xA0; 32];
const DISTRIBUTOR: [u8; 32] = [0xD0; 32];
const MINT: [u8; 32] = [0xE0; 32];
const VAULT: [u8; 32] = [0xF0; 32];

fn claimant(i: u64) -> [u8; 32] {
    [i as u8 + 1; 32]
}

fn leaves_of(amounts: &[u64]) -> Vec<HashValue> {
    amounts
        .iter()
        .enumerate()
        .map(|(i, a)| leaf_hash(i as u64, &claimant(i as u64), *a))
        .collect()
}

fn distributor(root: HashValue, max_total: u64, max_nodes: u64, policy: ClaimPolicy) -> MerkleDistributor {
    let ctx = NewDistributor {
        authority: AUTHORITY,
        base: [0xB0; 32],
        bump: 254,
        mint: MINT,
    };
    new_distributor(&ctx, root, max_total, max_nodes, policy).unwrap()
}

fn claim_ctx(d: MerkleDistributor, index: u64) -> Claim {
    Claim {
        distributor_key: DISTRIBUTOR,
        distributor: d,
        claim_status: ClaimStatus::unclaimed(),
        from: TokenAccount { key: VAULT, mint: MINT, owner: DISTRIBUTOR, amount: 1_000_000 },
        to: TokenAccount {
            key: [0x10 + index as u8; 32],
            mint: MINT,
            owner: claimant(index),
            amount: 0,
        },
        claimant: claimant(index),
        claimant_is_signer: true,
    }
}

#[test]
fn claim_pays_once_then_refuses() {
    let amounts = [100, 200, 300, 400];
    let leaves = leaves_of(&amounts);
    let d = distributor(merkle_root(&leaves), 10_000, 10, ClaimPolicy::OneShot);
    let proof = merkle_proof_for(&leaves, 2);
    let mut ctx = claim_ctx(d, 2);

    let receipt = claim(&ctx, 2, 300, proof.clone(), 1_700_000_000).unwrap();
    assert_eq!(receipt.event.amount, 300);
    assert_eq!(receipt.event.index, 2);
    assert_eq!(receipt.event.claimant, claimant(2));
    let event = settle_claim(&mut ctx, &receipt, true).unwrap();
    assert_eq!(event.amount, 300);
    assert_eq!(ctx.distributor.total_amount_claimed, 300);
    assert_eq!(ctx.distributor.num_nodes_claimed, 1);
    assert!(ctx.claim_status.is_claimed);
    assert_eq!(ctx.claim_status.amount, 300);
    assert_eq!(ctx.claim_status.claimed_at, 1_700_000_000);
    assert_eq!(ctx.claim_status.claimant, claimant(2));

    assert_eq!(
        claim(&ctx, 2, 300, proof, 1_700_000_001),
        Err(ErrorCode::DropAlreadyClaimed)
    );
}

#[test]
fn claim_over_total_cap_changes_nothing() {
    let amounts = [100, 200, 300, 300];
    let leaves = leaves_of(&amounts);
    let d = distributor(merkle_root(&leaves), 500, 10, ClaimPolicy::OneShot);

    let mut first = claim_ctx(d, 2);
    let receipt = claim(&first, 2, 300, merkle_proof_for(&leaves, 2), 10).unwrap();
    settle_claim(&mut first, &receipt, true).unwrap();
    assert_eq!(first.distributor.total_amount_claimed, 300);

    let second = claim_ctx(first.distributor, 3);
    let before = second;
    assert_eq!(
        claim(&second, 3, 300, merkle_proof_for(&leaves, 3), 11),
        Err(ErrorCode::ExceededMaxClaim)
    );
    assert_eq!(second, before);
    assert_eq!(second.distributor.total_amount_claimed, 300);
    assert_eq!(second.distributor.num_nodes_claimed, 1);
}

#[test]
fn claim_over_entry_cap_fails() {
    let leaves = leaves_of(&[1, 2]);
    let d = distributor(merkle_root(&leaves), 100, 1, ClaimPolicy::OneShot);
    let mut first = claim_ctx(d, 0);
    let receipt = claim(&first, 0, 1, merkle_proof_for(&leaves, 0), 1).unwrap();
    settle_claim(&mut first, &receipt, true).unwrap();
    let second = claim_ctx(first.distributor, 1);
    assert_eq!(
        claim(&second, 1, 2, merkle_proof_for(&leaves, 1), 2),
        Err(ErrorCode::ExceededMaxNumNodes)
    );
}

#[test]
fn claim_errors_in_order() {
    let leaves = leaves_of(&[100, 200]);
    let d = distributor(merkle_root(&leaves), 1_000, 10, ClaimPolicy::OneShot);
    let proof = merkle_proof_for(&leaves, 1);

    let mut same = claim_ctx(d, 1);
    same.to.key = same.from.key;
    assert_eq!(claim(&same, 1, 200, proof.clone(), 0), Err(ErrorCode::KeysMustNotMatch));

    let ok = claim_ctx(d, 1);
    assert_eq!(claim(&ok, 1, 201, proof.clone(), 0), Err(ErrorCode::InvalidProof));
    assert_eq!(claim(&ok, 0, 200, proof.clone(), 0), Err(ErrorCode::InvalidProof));

    let mut unsigned = claim_ctx(d, 1);
    unsigned.claimant_is_signer = false;
    assert_eq!(claim(&unsigned, 1, 200, proof.clone(), 0), Err(ErrorCode::Unauthorized));

    let mut foreign_vault = claim_ctx(d, 1);
    foreign_vault.from.owner = [0x33; 32];
    assert_eq!(claim(&foreign_vault, 1, 200, proof.clone(), 0), Err(ErrorCode::OwnerMismatch));

    let mut other_mint = claim_ctx(d, 1);
    other_mint.from.mint = [0x44; 32];
    assert_eq!(claim(&other_mint, 1, 200, proof.clone(), 0), Err(ErrorCode::MintMismatch));

    let mut other_owner = claim_ctx(d, 1);
    other_owner.to.owner = [0x55; 32];
    assert_eq!(claim(&other_owner, 1, 200, proof.clone(), 0), Err(ErrorCode::OwnerMismatch));

    assert!(claim(&ok, 1, 200, proof, 0).is_ok());
}

#[test]
fn claim_total_overflow_is_reported() {
    let leaves = leaves_of(&[100]);
    let mut d = distributor(merkle_root(&leaves), u64::MAX, 10, ClaimPolicy::OneShot);
    d.total_amount_claimed = u64::MAX - 10;
    let ctx = claim_ctx(d, 0);
    assert_eq!(
        claim(&ctx, 0, 100, merkle_proof_for(&leaves, 0), 0),
        Err(ErrorCode::ArithmeticOverflow)
    );
}

#[test]
fn failed_transfer_commits_nothing() {
    let leaves = leaves_of(&[100, 200]);
    let d = distributor(merkle_root(&leaves), 1_000, 10, ClaimPolicy::OneShot);
    let mut ctx = claim_ctx(d, 0);
    let before = ctx;
    let receipt = claim(&ctx, 0, 100, merkle_proof_for(&leaves, 0), 5).unwrap();
    assert_eq!(settle_claim(&mut ctx, &receipt, false), Err(ErrorCode::TransferFailed));
    assert_eq!(ctx, before);
    assert!(claim(&ctx, 0, 100, merkle_proof_for(&leaves, 0), 6).is_ok());
}

#[test]
fn cumulative_claims_pay_the_increase() {
    let who = claimant(0);
    let mut status = ClaimStatus::unclaimed();
    let mut paid = 0u64;
    let requests = [100u64, 250, 250, 400];
    let expected = [Ok(100u64), Ok(150), Err(ErrorCode::NoClaimableAmount), Ok(150)];
    for (i, amount) in requests.iter().enumerate() {
        match record_claim(&status, ClaimPolicy::Cumulative, &who, *amount, 7 + i as i64) {
            Ok((next, payout)) => {
                assert_eq!(Ok(payout), expected[i]);
                paid += payout;
                status = next;
            }
            Err(e) => assert_eq!(Err(e), expected[i]),
        }
    }
    assert_eq!(paid, 400);
    assert_eq!(status.amount, 400);
    assert_eq!(status.claimed_at, 7);
    assert!(status.is_claimed);
}

#[test]
fn cumulative_claim_counts_the_entry_once() {
    let first = leaves_of(&[100]);
    let d = distributor(merkle_root(&first), 1_000, 5, ClaimPolicy::Cumulative);
    let mut ctx = claim_ctx(d, 0);
    let receipt = claim(&ctx, 0, 100, merkle_proof_for(&first, 0), 1).unwrap();
    settle_claim(&mut ctx, &receipt, true).unwrap();
    assert_eq!(ctx.distributor.num_nodes_claimed, 1);

    let raised = leaves_of(&[250]);
    let mut d2 = ctx.distributor;
    d2.root = merkle_root(&raised);
    ctx.distributor = d2;
    assert_eq!(
        claim(&ctx, 0, 100, merkle_proof_for(&first, 0), 2),
        Err(ErrorCode::InvalidProof)
    );
    let receipt = claim(&ctx, 0, 250, merkle_proof_for(&raised, 0), 2).unwrap();
    assert_eq!(receipt.event.amount, 150);
    settle_claim(&mut ctx, &receipt, true).unwrap();
    assert_eq!(ctx.distributor.total_amount_claimed, 250);
    assert_eq!(ctx.distributor.num_nodes_claimed, 1);
    assert_eq!(ctx.claim_status.amount, 250);
    assert_eq!(ctx.claim_status.claimed_at, 1);
    assert_eq!(
        claim(&ctx, 0, 250, merkle_proof_for(&raised, 0), 3),
        Err(ErrorCode::NoClaimableAmount)
    );
}

#[test]
fn one_shot_record_refuses_second_claim() {
    let who = claimant(1);
    let (status, payout) =
        record_claim(&ClaimStatus::unclaimed(), ClaimPolicy::OneShot, &who, 50, 3).unwrap();
    assert_eq!(payout, 50);
    assert_eq!(
        record_claim(&status, ClaimPolicy::OneShot, &who, 50, 4),
        Err(ErrorCode::DropAlreadyClaimed)
    );
    assert_eq!(
        record_claim(&status, ClaimPolicy::OneShot, &who, 60, 4),
        Err(ErrorCode::DropAlreadyClaimed)
    );
}

#[test]
fn counters_grow_within_caps() {
    let amounts = [10, 20, 30, 40, 50];
    let leaves = leaves_of(&amounts);
    let mut d = distributor(merkle_root(&leaves), 100, 3, ClaimPolicy::OneShot);
    let mut last = (0u64, 0u64);
    for i in 0..amounts.len() {
        let mut ctx = claim_ctx(d, i as u64);
        if let Ok(receipt) = claim(&ctx, i as u64, amounts[i], merkle_proof_for(&leaves, i), 0) {
            settle_claim(&mut ctx, &receipt, true).unwrap();
        }
        d = ctx.distributor;
        assert!(d.total_amount_claimed >= last.0);
        assert!(d.num_nodes_claimed >= last.1);
        assert!(d.total_amount_claimed <= d.max_total_claim);
        assert!(d.num_nodes_claimed <= d.max_num_nodes);
        last = (d.total_amount_claimed, d.num_nodes_claimed);
    }
    assert_eq!(last, (60, 3));
}

#[test]
fn new_distributor_rejects_zero_caps() {
    let ctx = NewDistributor { authority: AUTHORITY, base: [1; 32], bump: 1, mint: MINT };
    assert_eq!(
        new_distributor(&ctx, [0; 32], 100, 0, ClaimPolicy::OneShot),
        Err(ErrorCode::InvalidConfiguration)
    );
    assert_eq!(
        new_distributor(&ctx, [0; 32], 0, 5, ClaimPolicy::OneShot),
        Err(ErrorCode::InvalidConfiguration)
    );
    let d = new_distributor(&ctx, [7; 32], 100, 5, ClaimPolicy::Cumulative).unwrap();
    assert_eq!(d.root, [7; 32]);
    assert_eq!(d.authority, AUTHORITY);
    assert_eq!(d.mint, MINT);
    assert_eq!(d.total_amount_claimed, 0);
    assert_eq!(d.num_nodes_claimed, 0);
    assert_eq!(d.policy, ClaimPolicy::Cumulative);
}

#[test]
fn update_distribution_resets_counters() {
    let mut d = distributor([1; 32], 100, 5, ClaimPolicy::OneShot);
    d.total_amount_claimed = 40;
    d.num_nodes_claimed = 2;
    let before = d;
    assert_eq!(update_distribution(&mut d, &[9; 32], [2; 32], 200, 6), Err(ErrorCode::Unauthorized));
    assert_eq!(d, before);
    assert_eq!(
        update_distribution(&mut d, &AUTHORITY, [2; 32], 200, 0),
        Err(ErrorCode::InvalidConfiguration)
    );
    assert_eq!(d, before);
    assert_eq!(update_distribution(&mut d, &AUTHORITY, [2; 32], 200, 6), Ok(()));
    assert_eq!(d.root, [2; 32]);
    assert_eq!(d.max_total_claim, 200);
    assert_eq!(d.max_num_nodes, 6);
    assert_eq!(d.total_amount_claimed, 0);
    assert_eq!(d.num_nodes_claimed, 0);
}

#[test]
fn rotate_admin_requires_current_authority() {
    let mut d = distributor([1; 32], 100, 5, ClaimPolicy::OneShot);
    assert_eq!(rotate_admin(&mut d, &[9; 32], &[8; 32]), Err(ErrorCode::Unauthorized));
    assert_eq!(d.authority, AUTHORITY);
    assert_eq!(rotate_admin(&mut d, &AUTHORITY, &[8; 32]), Ok(()));
    assert_eq!(d.authority, [8; 32]);
    assert_eq!(rotate_admin(&mut d, &AUTHORITY, &[7; 32]), Err(ErrorCode::Unauthorized));
}

#[test]
fn surrender_returns_the_vault_balance() {
    let d = distributor([1; 32], 100, 5, ClaimPolicy::OneShot);
    let ctx = SurrenderTokens {
        authority: AUTHORITY,
        authority_is_signer: true,
        distributor_key: DISTRIBUTOR,
        distributor: d,
        from: TokenAccount { key: VAULT, mint: MINT, owner: DISTRIBUTOR, amount: 777 },
        to: TokenAccount { key: [0x11; 32], mint: MINT, owner: AUTHORITY, amount: 3 },
    };
    assert_eq!(surrender_tokens(&ctx), Ok(777));

    let mut same = ctx;
    same.to.key = VAULT;
    assert_eq!(surrender_tokens(&same), Err(ErrorCode::KeysMustNotMatch));
    let mut stranger = ctx;
    stranger.authority = [0x22; 32];
    stranger.to.owner = [0x22; 32];
    assert_eq!(surrender_tokens(&stranger), Err(ErrorCode::Unauthorized));
    let mut unsigned = ctx;
    unsigned.authority_is_signer = false;
    assert_eq!(surrender_tokens(&unsigned), Err(ErrorCode::Unauthorized));
    let mut wrong_to = ctx;
    wrong_to.to.owner = [0x22; 32];
    assert_eq!(surrender_tokens(&wrong_to), Err(ErrorCode::OwnerMismatch));
}

#[test]
fn surrender_checks_caller_before_keys() {
    let d = distributor([1; 32], 100, 5, ClaimPolicy::OneShot);
    let ctx = SurrenderTokens {
        authority: [0x22; 32],
        authority_is_signer: true,
        distributor_key: DISTRIBUTOR,
        distributor: d,
        from: TokenAccount { key: VAULT, mint: MINT, owner: DISTRIBUTOR, amount: 777 },
        to: TokenAccount { key: VAULT, mint: MINT, owner: DISTRIBUTOR, amount: 777 },
    };
    assert_eq!(surrender_tokens(&ctx), Err(ErrorCode::Unauthorized));

    let mut wrong_owner = ctx;
    wrong_owner.authority = AUTHORITY;
    assert_eq!(surrender_tokens(&wrong_owner), Err(ErrorCode::OwnerMismatch));
}

#[test]
fn claim_checks_proof_before_keys() {
    let leaves = leaves_of(&[100, 200]);
    let d = distributor(merkle_root(&leaves), 1_000, 10, ClaimPolicy::OneShot);
    let mut same = claim_ctx(d, 1);
    same.to.key = same.from.key;
    assert_eq!(
        claim(&same, 1, 999, merkle_proof_for(&leaves, 1), 0),
        Err(ErrorCode::InvalidProof)
    );
    same.claimant_is_signer = false;
    assert_eq!(
        claim(&same, 1, 200, merkle_proof_for(&leaves, 1), 0),
        Err(ErrorCode::Unauthorized)
    );
}
