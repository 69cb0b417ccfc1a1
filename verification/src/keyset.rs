use vstd::prelude::*;

verus! {

/// A key of a keyset as the node lists it: the amount it signs and its
/// public key in hex.
#[derive(Clone, Debug)]
pub struct NodeKey {
    pub amount: u64,
    pub pubkey: String,
}

/// A keyset as the node lists it.
#[derive(Clone, Debug)]
pub struct NodeKeyset {
    pub id: Vec<u8>,
    pub unit: String,
    pub active: bool,
    pub keys: Vec<NodeKey>,
}

/// What the wallet records of a keyset it learns from the node.
pub struct ImportedKeyset {
    pub unit: String,
    pub active: bool,
    /// The largest amount the keyset signs.
    pub max_order: u64,
    /// The keyset's keys: amount and public key, in the node's order.
    pub keys: Vec<(u64, String)>,
}

/// `m` is the largest amount among `keys`.
pub open spec fn is_max_amount(keys: Seq<NodeKey>, m: u64) -> bool {
    &&& exists|i: int| 0 <= i < keys.len() && (#[trigger] keys[i]).amount == m
    &&& forall|i: int| 0 <= i < keys.len() ==> (#[trigger] keys[i]).amount <= m
}

/// The largest amount a nonempty list of keys signs.
pub fn max_key_amount(keys: &Vec<NodeKey>) -> (m: u64)
    requires
        keys.len() > 0,
    ensures
        is_max_amount(keys@, m),
{
    let mut m: u64 = keys[0].amount;
    let mut i: usize = 1;
    while i < keys.len()
        invariant
            1 <= i <= keys.len(),
            exists|j: int| 0 <= j < i && (#[trigger] keys@[j]).amount == m,
            forall|j: int| 0 <= j < i ==> (#[trigger] keys@[j]).amount <= m,
        decreases keys.len() - i,
    {
        if keys[i].amount > m {
            m = keys[i].amount;
        }
        i = i + 1;
    }
    m
}

/// The keyset the node answered with: the first of its list, which must have
/// a key. Its unit and activity are kept, its keys copied and the largest
/// amount it signs is its max order.
pub fn keyset_to_import(keysets: &Vec<NodeKeyset>) -> (k: ImportedKeyset)
    requires
        keysets.len() > 0,
        keysets[0].keys.len() > 0,
    ensures
        k.unit@ == keysets[0].unit@,
        k.active == keysets[0].active,
        is_max_amount(keysets[0].keys@, k.max_order),
        k.keys.len() == keysets[0].keys.len(),
        forall|i: int|
            0 <= i < k.keys.len() ==> (#[trigger] k.keys[i]).0 == keysets[0].keys[i].amount
                && k.keys[i].1@ == keysets[0].keys[i].pubkey@,
{
    let keyset = &keysets[0];
    let max_order = max_key_amount(&keyset.keys);
    let mut keys: Vec<(u64, String)> = Vec::new();
    let mut i: usize = 0;
    while i < keyset.keys.len()
        invariant
            i <= keyset.keys.len(),
            keys.len() == i,
            forall|j: int|
                0 <= j < i ==> (#[trigger] keys@[j]).0 == keyset.keys@[j].amount && keys@[j].1@
                    == keyset.keys@[j].pubkey@,
        decreases keyset.keys.len() - i,
    {
        keys.push((keyset.keys[i].amount, keyset.keys[i].pubkey.clone()));
        i = i + 1;
    }
    ImportedKeyset { unit: keyset.unit.clone(), active: keyset.active, max_order, keys }
}

} // verus!
