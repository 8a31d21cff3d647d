//! The transaction-proposal message: plain data records, plus the stable
//! names of the value-pool and fee-rule enumerations.
use vstd::prelude::*;
use vstd::utf8::encode_utf8_decode_utf8;

verus! {

/// A data structure that describes the inputs to be consumed and outputs to
/// be produced in a proposed transaction.
#[derive(Clone, Debug, PartialEq)]
pub struct Proposal {
    pub proto_version: u32,
    /// ZIP 321 serialized transaction request
    pub transaction_request: String,
    /// The anchor height to be used in creating the transaction, if any.
    /// Setting the anchor height to zero will disallow the use of any shielded
    /// inputs.
    pub anchor_height: u32,
    /// The inputs to be used in creating the transaction.
    pub inputs: Vec<ProposedInput>,
    /// The total value, fee value, and change outputs of the proposed
    /// transaction
    pub balance: Option<TransactionBalance>,
    /// The fee rule used in constructing this proposal
    pub fee_rule: i32,
    /// The target height for which the proposal was constructed
    pub min_target_height: u32,
    /// Whether the proposal is for a shielding transaction.
    pub is_shielding: bool,
}

/// The unique identifier and value for each proposed input.
#[derive(Clone, Debug, PartialEq)]
pub struct ProposedInput {
    pub txid: Vec<u8>,
    pub value_pool: i32,
    pub index: u32,
    pub value: u64,
}

/// The proposed change outputs and fee value.
#[derive(Clone, Debug, PartialEq)]
pub struct TransactionBalance {
    pub proposed_change: Vec<ChangeValue>,
    pub fee_required: u64,
}

/// A proposed change output. If the transparent value pool is selected,
/// the `memo` field must be null.
#[derive(Clone, Debug, PartialEq)]
pub struct ChangeValue {
    pub value: u64,
    pub value_pool: i32,
    pub memo: Option<MemoBytes>,
}

/// An object wrapper for memo bytes, to facilitate representing the
/// `change_memo == None` case.
#[derive(Clone, Debug, PartialEq)]
pub struct MemoBytes {
    pub value: Vec<u8>,
}

/// The value pool that an input is drawn from or a change output goes to.
#[derive(Clone, Copy, Debug, PartialEq, Eq, Structural, Hash, PartialOrd, Ord)]
pub enum ValuePool {
    /// No pool selected; treated as an error by consumers.
    PoolNotSpecified,
    /// The transparent value pool (P2SH is not distinguished from P2PKH)
    Transparent,
    /// The Sapling value pool
    Sapling,
    /// The Orchard value pool
    Orchard,
}

/// The fee rule used in constructing a Proposal
#[derive(Clone, Copy, Debug, PartialEq, Eq, Structural, Hash, PartialOrd, Ord)]
pub enum FeeRule {
    /// No fee rule selected; treated as an error by consumers.
    NotSpecified,
    /// 10000 ZAT
    PreZip313,
    /// 1000 ZAT
    Zip313,
    /// MAX(10000, 5000 * logical_actions) ZAT
    Zip317,
}

/// The stable field name of each value pool.
pub open spec fn value_pool_name(p: ValuePool) -> Seq<char> {
    match p {
        ValuePool::PoolNotSpecified => "PoolNotSpecified"@,
        ValuePool::Transparent => "Transparent"@,
        ValuePool::Sapling => "Sapling"@,
        ValuePool::Orchard => "Orchard"@,
    }
}

/// The value pool with the given field name, if any.
pub open spec fn value_pool_named(s: Seq<char>) -> Option<ValuePool> {
    if s == "PoolNotSpecified"@ {
        Some(ValuePool::PoolNotSpecified)
    } else if s == "Transparent"@ {
        Some(ValuePool::Transparent)
    } else if s == "Sapling"@ {
        Some(ValuePool::Sapling)
    } else if s == "Orchard"@ {
        Some(ValuePool::Orchard)
    } else {
        None
    }
}

/// The fee rule with the given field name, if any.
pub open spec fn fee_rule_named(s: Seq<char>) -> Option<FeeRule> {
    if s == "FeeRuleNotSpecified"@ {
        Some(FeeRule::NotSpecified)
    } else if s == "PreZip313"@ {
        Some(FeeRule::PreZip313)
    } else if s == "Zip313"@ {
        Some(FeeRule::Zip313)
    } else if s == "Zip317"@ {
        Some(FeeRule::Zip317)
    } else {
        None
    }
}

/// The stable field name of each fee rule.
pub open spec fn fee_rule_name(f: FeeRule) -> Seq<char> {
    match f {
        FeeRule::NotSpecified => "FeeRuleNotSpecified"@,
        FeeRule::PreZip313 => "PreZip313"@,
        FeeRule::Zip313 => "Zip313"@,
        FeeRule::Zip317 => "Zip317"@,
    }
}

/// Whether two byte slices hold the same bytes.
fn bytes_eq(a: &[u8], b: &[u8]) -> (r: bool)
    ensures
        r == (a@ == b@),
{
    if a.len() != b.len() {
        return false;
    }
    let mut i: usize = 0;
    while i < a.len()
        invariant
            a@.len() == b@.len(),
            i <= a@.len(),
            forall|j: int| 0 <= j < i ==> a@[j] == b@[j],
        decreases a@.len() - i,
    {
        if a[i] != b[i] {
            return false;
        }
        i = i + 1;
    }
    assert(a@ =~= b@);
    true
}

/// Whether a string slice reads exactly as the given name.
fn str_is(value: &str, name: &str) -> (r: bool)
    ensures
        r == (value@ == name@),
{
    let r = bytes_eq(value.as_bytes(), name.as_bytes());
    proof {
        encode_utf8_decode_utf8(value@);
        encode_utf8_decode_utf8(name@);
    }
    r
}

impl ValuePool {
    /// String value of the enum field names used in the ProtoBuf definition.
    pub fn as_str_name(&self) -> (r: &'static str)
        ensures
            r@ == value_pool_name(*self),
    {
        match self {
            ValuePool::PoolNotSpecified => "PoolNotSpecified",
            ValuePool::Transparent => "Transparent",
            ValuePool::Sapling => "Sapling",
            ValuePool::Orchard => "Orchard",
        }
    }

    /// Creates an enum from field names used in the ProtoBuf definition.
    pub fn from_str_name(value: &str) -> (r: Option<Self>)
        ensures
            r == value_pool_named(value@),
    {
        if str_is(value, "PoolNotSpecified") {
            Some(Self::PoolNotSpecified)
        } else if str_is(value, "Transparent") {
            Some(Self::Transparent)
        } else if str_is(value, "Sapling") {
            Some(Self::Sapling)
        } else if str_is(value, "Orchard") {
            Some(Self::Orchard)
        } else {
            None
        }
    }
}

impl FeeRule {
    /// String value of the enum field names used in the ProtoBuf definition.
    pub fn as_str_name(&self) -> (r: &'static str)
        ensures
            r@ == fee_rule_name(*self),
    {
        match self {
            FeeRule::NotSpecified => "FeeRuleNotSpecified",
            FeeRule::PreZip313 => "PreZip313",
            FeeRule::Zip313 => "Zip313",
            FeeRule::Zip317 => "Zip317",
        }
    }

    /// Creates an enum from field names used in the ProtoBuf definition.
    pub fn from_str_name(value: &str) -> (r: Option<Self>)
        ensures
            r == fee_rule_named(value@),
    {
        if str_is(value, "FeeRuleNotSpecified") {
            Some(Self::NotSpecified)
        } else if str_is(value, "PreZip313") {
            Some(Self::PreZip313)
        } else if str_is(value, "Zip313") {
            Some(Self::Zip313)
        } else if str_is(value, "Zip317") {
            Some(Self::Zip317)
        } else {
            None
        }
    }
}

} // verus!
