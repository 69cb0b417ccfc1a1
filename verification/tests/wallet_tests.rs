use wallet::convert::{convert_inputs, convert_outputs};
use wallet::keyset::{keyset_to_import, max_key_amount, NodeKey, NodeKeyset};
use wallet::receive::{
    check_keyset_unit, check_proof_amount, is_power_of_two, receive_follow_up, ReceiveBatch,
    ReceiveError, ReceiveFollowUp,
};
use wallet::select::{begin_selection, take_from_swapped_tokens, ProofSelection, SelectionOutcome};
use wallet::store::{new_token_record, pair_pre_mints_with_signatures, proofs_from_rows, PreMint};
use wallet::swap::{swap_inputs, swapped_proof_state};
use wallet::tls::accept_peer_certificate;
use wallet::types::{BlindedMessage, KeysetId, Proof, ProofState, PublicKey, SecretKey};
use wallet::wad::{create_wad_from_proofs, CompactProof, NodeUrl};

fn key(n: u8) -> PublicKey {
    let mut bytes = [0u8; 33];
    bytes[0] = 2;
    bytes[32] = n;
    PublicKey { bytes }
}

fn keyset(n: u8) -> KeysetId {
    KeysetId { bytes: [0, 1, 2, 3, 4, 5, 6, n] }
}

fn mk_proof(amount: u64, ks: u8, secret: &str, c: u8) -> Proof {
    Proof { amount, keyset_id: keyset(ks), secret: secret.to_string(), c: key(c) }
}

fn run_selection(target: u64, rows: &[(PublicKey, u64)]) -> SelectionOutcome {
    let mut sel = ProofSelection::new(target);
    for (y, a) in rows {
        sel = sel.consider(*y, *a);
        if sel.is_stopped() {
            break;
        }
    }
    sel.finish()
}

#[test]
fn convert_inputs_keeps_order_and_bytes() {
    let inputs = vec![mk_proof(8, 1, "s1", 10), mk_proof(2, 2, "s2", 11)];
    let wire = convert_inputs(&inputs);
    assert_eq!(wire.len(), 2);
    assert_eq!(wire[0].amount, 8);
    assert_eq!(wire[0].keyset_id, vec![0, 1, 2, 3, 4, 5, 6, 1]);
    assert_eq!(wire[0].secret, "s1");
    assert_eq!(wire[0].unblind_signature, key(10).bytes.to_vec());
    assert_eq!(wire[1].amount, 2);
    assert_eq!(wire[1].secret, "s2");
    assert_eq!(wire[1].unblind_signature.len(), 33);
}

#[test]
fn convert_outputs_keeps_order_and_bytes() {
    let outputs = vec![
        BlindedMessage { amount: 4, keyset_id: keyset(3), blinded_secret: key(7) },
        BlindedMessage { amount: 1, keyset_id: keyset(4), blinded_secret: key(9) },
    ];
    let wire = convert_outputs(&outputs);
    assert_eq!(wire.len(), 2);
    assert_eq!(wire[0].amount, 4);
    assert_eq!(wire[0].keyset_id, vec![0, 1, 2, 3, 4, 5, 6, 3]);
    assert_eq!(wire[1].blinded_secret, key(9).bytes.to_vec());
    assert!(convert_outputs(&[]).is_empty());
}

#[test]
fn selection_refused_when_not_enough_available() {
    assert!(begin_selection(5, 6).is_none());
    assert!(begin_selection(6, 6).is_some());
}

#[test]
fn selection_takes_proofs_that_fit() {
    let rows = [(key(1), 8), (key(2), 4), (key(3), 2), (key(4), 1)];
    assert_eq!(
        run_selection(6, &rows),
        SelectionOutcome::Complete { proofs_ids: vec![key(2), key(3)] }
    );
    assert_eq!(
        run_selection(5, &rows),
        SelectionOutcome::Complete { proofs_ids: vec![key(2), key(4)] }
    );
}

#[test]
fn selection_stops_on_exact_match() {
    let mut sel = ProofSelection::new(4);
    sel = sel.consider(key(1), 8);
    assert!(!sel.is_stopped());
    assert_eq!(sel.remaining(), 4);
    sel = sel.consider(key(2), 4);
    assert!(sel.is_stopped());
    assert_eq!(sel.remaining(), 0);
    sel = sel.consider(key(3), 1);
    assert_eq!(sel.finish(), SelectionOutcome::Complete { proofs_ids: vec![key(2)] });
}

#[test]
fn selection_splits_smallest_proof_set_aside() {
    let rows = [(key(1), 16), (key(2), 8), (key(3), 2)];
    assert_eq!(
        run_selection(7, &rows),
        SelectionOutcome::NeedsSwap {
            proofs_ids: vec![key(3)],
            remaining: 5,
            proof_to_swap: (key(2), 8),
        }
    );
}

#[test]
fn selection_without_candidate() {
    let rows = [(key(1), 2)];
    assert_eq!(run_selection(5, &rows), SelectionOutcome::NoSwapCandidate);
}

#[test]
fn swapped_tokens_taken_from_the_end() {
    let tokens = vec![(key(5), 1), (key(6), 2), (key(7), 4)];
    let ids = take_from_swapped_tokens(vec![key(1)], 3, &tokens);
    assert_eq!(ids, vec![key(1), key(6), key(5)]);
    let ids = take_from_swapped_tokens(vec![], 4, &tokens);
    assert_eq!(ids, vec![key(7)]);
    let ids = take_from_swapped_tokens(vec![], 0, &tokens);
    assert!(ids.is_empty());
}

#[test]
fn selected_inputs_never_exceed_target() {
    let rows = [(key(1), 16), (key(2), 8), (key(3), 2)];
    let target = 7;
    match run_selection(target, &rows) {
        SelectionOutcome::NeedsSwap { proofs_ids, remaining, .. } => {
            let swapped = vec![(key(8), 1), (key(9), 2), (key(10), 5)];
            let ids = take_from_swapped_tokens(proofs_ids, remaining, &swapped);
            assert_eq!(ids, vec![key(3), key(10)]);
            let paid: u64 = 2 + 5;
            assert!(paid <= target);
        }
        other => panic!("unexpected outcome {:?}", other),
    }
}

#[test]
fn powers_of_two() {
    assert!(!is_power_of_two(0));
    assert!(is_power_of_two(1));
    assert!(is_power_of_two(2));
    assert!(!is_power_of_two(3));
    assert!(is_power_of_two(1 << 63));
    assert!(!is_power_of_two(u64::MAX));
}

#[test]
fn proof_amount_checks() {
    let ks = keyset(1);
    assert_eq!(check_proof_amount(4, 8, ks), Ok(()));
    assert_eq!(check_proof_amount(0, 8, ks), Err(ReceiveError::AmountNotPowerOfTwo { amount: 0 }));
    assert_eq!(check_proof_amount(6, 8, ks), Err(ReceiveError::AmountNotPowerOfTwo { amount: 6 }));
    assert_eq!(
        check_proof_amount(8, 8, ks),
        Err(ReceiveError::AmountNotBelowMaxOrder { amount: 8, max_order: 8, keyset_id: ks })
    );
}

#[test]
fn keyset_unit_check() {
    assert_eq!(check_keyset_unit("sat".to_string(), &"sat".to_string()), Ok(()));
    assert_eq!(
        check_keyset_unit("usd".to_string(), &"sat".to_string()),
        Err(ReceiveError::UnitMismatch { keyset_unit: "usd".to_string(), unit: "sat".to_string() })
    );
}

#[test]
fn receive_batch_totals_and_inputs() {
    let mut batch = ReceiveBatch::new();
    let p1 = CompactProof { amount: 4, secret: "a".to_string(), c: key(1) };
    let p2 = CompactProof { amount: 2, secret: "b".to_string(), c: key(2) };
    batch = batch.push_proof(7, keyset(1), p1, key(11)).unwrap();
    batch = batch.push_proof(7, keyset(1), p2, key(12)).unwrap();
    assert_eq!(batch.total(), 6);
    let (ys, total, inputs, rows) = batch.into_parts();
    assert_eq!(ys, vec![key(11), key(12)]);
    assert_eq!(total, 6);
    assert_eq!(inputs.len(), 2);
    assert_eq!(inputs[1].secret, "b");
    assert_eq!(inputs[0].keyset_id, vec![0, 1, 2, 3, 4, 5, 6, 1]);
    assert_eq!(rows[0].state, ProofState::Pending);
    assert_eq!(rows[1].node_id, 7);
    assert_eq!(rows[1].unblind_signature, key(2));
}

#[test]
fn receive_batch_overflow() {
    let mut batch = ReceiveBatch::new();
    let p1 = CompactProof { amount: 1 << 63, secret: "a".to_string(), c: key(1) };
    let p2 = CompactProof { amount: 1 << 63, secret: "b".to_string(), c: key(2) };
    batch = batch.push_proof(1, keyset(1), p1, key(11)).unwrap();
    assert_eq!(batch.push_proof(1, keyset(1), p2, key(12)).err(), Some(ReceiveError::AmountOverflow));
}

#[test]
fn follow_ups_after_swap() {
    assert_eq!(receive_follow_up(true), ReceiveFollowUp::MarkSpentAndStore);
    assert_eq!(receive_follow_up(false), ReceiveFollowUp::DeletePending);
    assert_eq!(swapped_proof_state(true), ProofState::Spent);
    assert_eq!(swapped_proof_state(false), ProofState::Unspent);
}

#[test]
fn swap_inputs_hold_one_proof() {
    let inputs = swap_inputs(16, keyset(2), key(3), &"sec".to_string());
    assert_eq!(inputs.len(), 1);
    assert_eq!(inputs[0].amount, 16);
    assert_eq!(inputs[0].keyset_id, vec![0, 1, 2, 3, 4, 5, 6, 2]);
    assert_eq!(inputs[0].secret, "sec");
    assert_eq!(inputs[0].unblind_signature, key(3).bytes.to_vec());
}

#[test]
fn wad_groups_runs_of_keysets() {
    let proofs = vec![
        mk_proof(1, 1, "a", 1),
        mk_proof(2, 1, "b", 2),
        mk_proof(4, 2, "c", 3),
        mk_proof(8, 1, "d", 4),
    ];
    let url = NodeUrl { url: "https://node.example".to_string() };
    let wad = create_wad_from_proofs(url, "sat".to_string(), Some("hi".to_string()), proofs);
    assert_eq!(wad.node_url.url, "https://node.example");
    assert_eq!(wad.unit, "sat");
    assert_eq!(wad.memo, Some("hi".to_string()));
    assert_eq!(wad.proofs.len(), 3);
    assert_eq!(wad.proofs[0].keyset_id, keyset(1));
    assert_eq!(wad.proofs[0].proofs.len(), 2);
    assert_eq!(wad.proofs[0].proofs[1].secret, "b");
    assert_eq!(wad.proofs[1].keyset_id, keyset(2));
    assert_eq!(wad.proofs[1].proofs[0].amount, 4);
    assert_eq!(wad.proofs[2].keyset_id, keyset(1));
    assert_eq!(wad.proofs[2].proofs[0].c, key(4));
}

#[test]
fn empty_wad() {
    let url = NodeUrl { url: "https://node.example".to_string() };
    let wad = create_wad_from_proofs(url, 3u8, None, vec![]);
    assert!(wad.proofs.is_empty());
    assert_eq!(wad.unit, 3);
}

#[test]
fn keyset_import_takes_first_and_max() {
    assert_eq!(
        max_key_amount(&vec![
            NodeKey { amount: 2, pubkey: "b".to_string() },
            NodeKey { amount: 64, pubkey: "c".to_string() },
            NodeKey { amount: 1, pubkey: "a".to_string() },
        ]),
        64
    );
    let keysets = vec![
        NodeKeyset {
            id: vec![1],
            unit: "sat".to_string(),
            active: true,
            keys: vec![
                NodeKey { amount: 1, pubkey: "a".to_string() },
                NodeKey { amount: 4, pubkey: "b".to_string() },
            ],
        },
        NodeKeyset { id: vec![2], unit: "usd".to_string(), active: false, keys: vec![] },
    ];
    let k = keyset_to_import(&keysets);
    assert_eq!(k.unit, "sat");
    assert!(k.active);
    assert_eq!(k.max_order, 4);
    assert_eq!(k.keys, vec![(1, "a".to_string()), (4, "b".to_string())]);
}

#[test]
fn pre_mints_paired_with_signatures() {
    let pms = vec![
        PreMint { amount: 1, secret: "x".to_string(), r: SecretKey { bytes: [1; 32] } },
        PreMint { amount: 2, secret: "y".to_string(), r: SecretKey { bytes: [2; 32] } },
        PreMint { amount: 4, secret: "z".to_string(), r: SecretKey { bytes: [3; 32] } },
    ];
    let sigs = vec![vec![9u8, 9], vec![8u8]];
    let pairs = pair_pre_mints_with_signatures(&pms, &sigs);
    assert_eq!(pairs.len(), 2);
    assert_eq!(pairs[0], (vec![9u8, 9], "x".to_string(), SecretKey { bytes: [1; 32] }, 1));
    assert_eq!(pairs[1].0, vec![8u8]);
    assert_eq!(pairs[1].3, 2);
    assert!(pair_pre_mints_with_signatures(&vec![], &sigs).is_empty());
}

#[test]
fn new_token_is_stored_unspent() {
    let (row, token) = new_token_record(key(1), 3, keyset(1), 8, "s".to_string(), key(2));
    assert_eq!(row.state, ProofState::Unspent);
    assert_eq!(row.amount, 8);
    assert_eq!(row.unblind_signature, key(2));
    assert_eq!(token, (key(1), 8));
}

#[test]
fn proofs_read_back_from_store() {
    let rows = vec![(8, keyset(1), key(1), "s1".to_string()), (2, keyset(2), key(2), "s2".to_string())];
    let proofs = proofs_from_rows(rows);
    assert_eq!(proofs.len(), 2);
    assert_eq!(proofs[0].amount, 8);
    assert_eq!(proofs[0].c, key(1));
    assert_eq!(proofs[1].secret, "s2");
    assert_eq!(proofs[1].keyset_id, keyset(2));
}

#[test]
fn peer_certificate_acceptance() {
    assert!(accept_peer_certificate(true, 0, false));
    assert!(!accept_peer_certificate(false, 18, false));
    assert!(accept_peer_certificate(false, 18, true));
    assert!(!accept_peer_certificate(false, 10, true));
}
