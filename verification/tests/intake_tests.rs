use wallet::intake::{IntakeStep, WadIntake};
use wallet::receive::ReceiveError;
use wallet::types::{KeysetId, Proof, ProofState, PublicKey};
use wallet::wad::{create_wad_from_proofs, CompactKeysetProofs, CompactProof, NodeUrl};

fn key(n: u8) -> PublicKey {
    let mut bytes = [0u8; 33];
    bytes[0] = 3;
    bytes[1] = n;
    PublicKey { bytes }
}

fn keyset(n: u8) -> KeysetId {
    KeysetId { bytes: [0, 0, 0, 0, 0, 0, 0, n] }
}

fn group(ks: u8, amounts: &[u64]) -> CompactKeysetProofs {
    CompactKeysetProofs {
        keyset_id: keyset(ks),
        proofs: amounts
            .iter()
            .enumerate()
            .map(|(i, a)| CompactProof { amount: *a, secret: format!("s{}-{}", ks, i), c: key(i as u8) })
            .collect(),
    }
}

/// Runs an intake with lookups answered from `lookups` (by keyset byte) and
/// `y`s made from the secret's length.
fn run(unit: &str, groups: Vec<CompactKeysetProofs>, lookups: &[(u8, &str, u64)]) -> Result<(u64, usize), ReceiveError> {
    let mut intake = WadIntake::new(unit.to_string(), 9, groups);
    let mut hashed = 0u8;
    loop {
        match intake.next_step()? {
            IntakeStep::LookupKeyset { keyset_id } => {
                let (_, u, m) = lookups.iter().find(|(k, _, _)| keyset(*k) == keyset_id).unwrap();
                intake = intake.keyset_looked_up(u.to_string(), *m)?;
            }
            IntakeStep::HashSecret { secret: _ } => {
                hashed += 1;
                intake = intake.secret_hashed(key(100 + hashed))?;
            }
            IntakeStep::Done => break,
        }
    }
    let batch = intake.finish();
    let (ys, total, inputs, rows) = batch.into_parts();
    assert_eq!(ys.len(), rows.len());
    assert_eq!(inputs.len(), rows.len());
    assert!(rows.iter().all(|r| r.state == ProofState::Pending && r.node_id == 9));
    Ok((total, rows.len()))
}

#[test]
fn intake_accepts_valid_wad() {
    let groups = vec![group(1, &[4, 2]), group(2, &[1])];
    assert_eq!(run("sat", groups, &[(1, "sat", 8), (2, "sat", 4)]), Ok((7, 3)));
}

#[test]
fn intake_steps_in_order() {
    let groups = vec![group(1, &[2]), group(2, &[])];
    let mut intake = WadIntake::new("sat".to_string(), 1, groups);
    assert_eq!(intake.next_step(), Ok(IntakeStep::LookupKeyset { keyset_id: keyset(1) }));
    intake = intake.keyset_looked_up("sat".to_string(), 4).unwrap();
    assert_eq!(intake.next_step(), Ok(IntakeStep::HashSecret { secret: "s1-0".to_string() }));
    intake = intake.secret_hashed(key(7)).unwrap();
    assert_eq!(intake.next_step(), Ok(IntakeStep::LookupKeyset { keyset_id: keyset(2) }));
    intake = intake.keyset_looked_up("sat".to_string(), 4).unwrap();
    assert_eq!(intake.next_step(), Ok(IntakeStep::Done));
    let (ys, total, _, rows) = intake.finish().into_parts();
    assert_eq!(ys, vec![key(7)]);
    assert_eq!(total, 2);
    assert_eq!(rows[0].keyset_id, keyset(1));
    assert_eq!(rows[0].secret, "s1-0");
}

#[test]
fn intake_refuses_other_unit() {
    let groups = vec![group(1, &[4]), group(2, &[1])];
    assert_eq!(
        run("sat", groups, &[(1, "sat", 8), (2, "usd", 4)]),
        Err(ReceiveError::UnitMismatch { keyset_unit: "usd".to_string(), unit: "sat".to_string() })
    );
}

#[test]
fn intake_refuses_amount_not_power_of_two() {
    let groups = vec![group(1, &[4, 3])];
    assert_eq!(
        run("sat", groups, &[(1, "sat", 8)]),
        Err(ReceiveError::AmountNotPowerOfTwo { amount: 3 })
    );
}

#[test]
fn intake_refuses_amount_at_max_order() {
    let groups = vec![group(5, &[8])];
    assert_eq!(
        run("sat", groups, &[(5, "sat", 8)]),
        Err(ReceiveError::AmountNotBelowMaxOrder { amount: 8, max_order: 8, keyset_id: keyset(5) })
    );
}

#[test]
fn intake_refuses_overflowing_total() {
    let big = 1u64 << 63;
    let groups = vec![group(1, &[big]), group(2, &[big])];
    assert_eq!(
        run("sat", groups, &[(1, "sat", u64::MAX), (2, "sat", u64::MAX)]),
        Err(ReceiveError::AmountOverflow)
    );
}

#[test]
fn intake_of_empty_wad() {
    assert_eq!(run("sat", vec![], &[]), Ok((0, 0)));
}

#[test]
fn received_wad_credits_what_was_packed() {
    let proofs: Vec<Proof> = [(4u64, 1u8), (2, 1), (8, 2), (1, 1)]
        .iter()
        .enumerate()
        .map(|(i, (a, k))| Proof {
            amount: *a,
            keyset_id: keyset(*k),
            secret: format!("p{}", i),
            c: key(i as u8),
        })
        .collect();
    let packed: u64 = proofs.iter().map(|p| p.amount).sum();
    let wad = create_wad_from_proofs(NodeUrl { url: "https://n".to_string() }, (), None, proofs);
    assert_eq!(wad.proofs.len(), 3);
    assert_eq!(run("sat", wad.proofs, &[(1, "sat", 64), (2, "sat", 64)]), Ok((packed, 4)));
}
