//! Bundles: transactions that are executed together, in order, or not at all.

use vstd::prelude::*;

use crate::bundle_storage::BundleStorage;
use crate::keys::{contains_key, is_zero_key, system_program_id, Pubkey};
use crate::packet::{CompiledInstruction, ImmutableDeserializedPacket};

verus! {

/// A bundle whose packets were parsed.
#[derive(Debug)]
pub struct ImmutableDeserializedBundle {
    pub bundle_id: String,
    pub packets: Vec<ImmutableDeserializedPacket>,
}

impl ImmutableDeserializedBundle {
    /// How many packets the bundle has.
    pub fn len(&self) -> (len: usize)
        ensures
            len == self.packets@.len(),
    {
        self.packets.len()
    }

    /// The bundle's name.
    pub fn bundle_id(&self) -> (id: &str)
        ensures
            id@ == self.bundle_id@,
    {
        self.bundle_id.as_str()
    }

    /// The bundle's packets.
    pub fn packets(&self) -> (packets: &Vec<ImmutableDeserializedPacket>)
        ensures
            *packets == self.packets,
    {
        &self.packets
    }
}

/// What executing a transaction of a bundle costs and brings: its compute units as the cost model
/// counts them, and the part of its fees that the leader keeps.
#[derive(Clone, Copy, Debug, PartialEq, Eq, Structural)]
pub struct BundleTransaction {
    pub cost: u64,
    pub reward: u64,
}

/// A bundle whose transactions passed sanitization.
#[derive(Debug)]
pub struct SanitizedBundle {
    pub transactions: Vec<BundleTransaction>,
    pub bundle_id: String,
}

/// Why executing the transactions of a bundle failed.
#[derive(Clone, Copy, Debug, PartialEq, Eq, Structural)]
pub enum LoadAndExecuteBundleError {
    ProcessingTimeExceeded,
    LockError,
    TransactionError,
    InvalidPreOrPostAccounts,
}

/// Why a bundle was not executed.
#[derive(Clone, Copy, Debug, PartialEq, Eq, Structural)]
pub enum BundleExecutionError {
    /// The ledger takes no more entries in this slot.
    PohRecordError,
    /// The bank's time is up.
    BankProcessingTimeLimitReached,
    /// The block has no room for the bundle.
    ExceedsCostModel,
    /// A transaction failed.
    TransactionFailure(LoadAndExecuteBundleError),
    /// The tip accounts could not be set up.
    TipError,
    /// The locks of a transaction are not valid.
    LockError,
    /// The bundle runs ahead of another one.
    FrontRun,
}

/// Number of bytes of a system transfer: the instruction's tag and the amount.
pub const TRANSFER_DATA_LEN: usize = 12;

/// The tag of the system program's transfer instruction.
pub const TRANSFER_TAG: u32 = 2;

/// Four bytes as a little-endian number.
pub open spec fn le_u32(data: Seq<u8>, at: int) -> int {
    data[at] + data[at + 1] * 0x100 + data[at + 2] * 0x1_0000 + data[at + 3] * 0x100_0000
}

/// Eight bytes as a little-endian number.
pub open spec fn le_u64(data: Seq<u8>, at: int) -> int {
    le_u32(data, at) + le_u32(data, at + 4) * 0x1_0000_0000
}

/// Four bytes as a little-endian number.
fn read_le_u32(data: &Vec<u8>, at: usize) -> (value: u32)
    requires
        at + 4 <= data.len(),
    ensures
        value == le_u32(data@, at as int),
{
    data[at] as u32 + data[at + 1] as u32 * 0x100 + data[at + 2] as u32 * 0x1_0000 + data[at
        + 3] as u32 * 0x100_0000
}

/// Eight bytes as a little-endian number.
fn read_le_u64(data: &Vec<u8>, at: usize) -> (value: u64)
    requires
        at + 8 <= data.len(),
    ensures
        value == le_u64(data@, at as int),
{
    read_le_u32(data, at) as u64 + read_le_u32(data, at + 4) as u64 * 0x1_0000_0000
}

/// Where an instruction of the given program transfers lamports to, and how many: the transfer of
/// the system program to the second of its accounts.
pub open spec fn transfer_in(
    account_keys: Seq<Pubkey>,
    program_id: Pubkey,
    ix: CompiledInstruction,
) -> Option<(Pubkey, u64)> {
    if is_zero_key(program_id) && ix.data@.len() >= TRANSFER_DATA_LEN && le_u32(ix.data@, 0)
        == TRANSFER_TAG && ix.accounts@.len() > 1 && ix.accounts@[1] < account_keys.len() {
        Some((account_keys[ix.accounts@[1] as int], le_u64(ix.data@, 4) as u64))
    } else {
        None
    }
}

/// What the first instructions of a packet transfer to tip accounts.
pub open spec fn tips_of(
    packet: ImmutableDeserializedPacket,
    tip_accounts: Seq<Pubkey>,
    count: int,
) -> int
    decreases count,
{
    if count <= 0 {
        0
    } else {
        let keys = packet.message.account_keys@;
        let ix = packet.message.instructions@[count - 1];
        let before = tips_of(packet, tip_accounts, count - 1);
        match transfer_in(keys, keys[ix.program_id_index as int], ix) {
            Some((destination, amount)) => if tip_accounts.contains(destination) {
                before + amount
            } else {
                before
            },
            None => before,
        }
    }
}

/// What a packet transfers to tip accounts.
pub open spec fn packet_tips(
    packet: ImmutableDeserializedPacket,
    tip_accounts: Seq<Pubkey>,
) -> int {
    tips_of(packet, tip_accounts, packet.message.instructions@.len() as int)
}

/// Tips only add up.
pub proof fn lemma_tips_of(
    packet: ImmutableDeserializedPacket,
    tip_accounts: Seq<Pubkey>,
    less: int,
    more: int,
)
    requires
        0 <= less <= more,
    ensures
        0 <= tips_of(packet, tip_accounts, less) <= tips_of(packet, tip_accounts, more),
    decreases more,
{
    if less < more {
        lemma_tips_of(packet, tip_accounts, less, more - 1);
    } else if more > 0 {
        lemma_tips_of(packet, tip_accounts, more - 1, more - 1);
    }
}

/// A transfer is read off the bytes: the program has the address of zeros, the data starts with the
/// tag two in four bytes, the lowest first, and holds eight more of the amount, and the second
/// account of the instruction is a place in the list of keys. Whatever else the instruction holds
/// does not count.
pub proof fn law_transfer_is_read_off_the_bytes(
    account_keys: Seq<Pubkey>,
    program_id: Pubkey,
    ix: CompiledInstruction,
)
    ensures
        transfer_in(account_keys, program_id, ix) is Some <==> {
            &&& forall|i: int| 0 <= i < 32 ==> #[trigger] program_id.bytes[i] == 0
            &&& ix.data@.len() >= 12
            &&& ix.data@[0] == 2 && ix.data@[1] == 0 && ix.data@[2] == 0 && ix.data@[3] == 0
            &&& ix.accounts@.len() >= 2
            &&& ix.accounts@[1] < account_keys.len()
        },
        transfer_in(account_keys, program_id, ix) matches Some((destination, amount)) ==> {
            &&& destination == account_keys[ix.accounts@[1] as int]
            &&& amount == ix.data@[4] + 0x100 * ix.data@[5] + 0x1_0000 * ix.data@[6] + 0x100_0000
                * ix.data@[7] + 0x1_0000_0000 * ix.data@[8] + 0x100_0000_0000 * ix.data@[9]
                + 0x1_0000_0000_0000 * ix.data@[10] + 0x100_0000_0000_0000 * ix.data@[11]
        },
{
}

/// Each instruction counts by itself, wherever it stands: behind it the tips are higher by the
/// amount where it is a transfer of the system program to a tip account, and the same otherwise.
/// Before the first instruction there are none.
pub proof fn law_each_instruction_counts(
    packet: ImmutableDeserializedPacket,
    tip_accounts: Seq<Pubkey>,
    i: int,
)
    requires
        0 <= i < packet.message.instructions@.len(),
    ensures
        tips_of(packet, tip_accounts, 0) == 0,
        ({
            let keys = packet.message.account_keys@;
            let ix = packet.message.instructions@[i];
            let program = keys[ix.program_id_index as int];
            let is_tip = {
                &&& forall|k: int| 0 <= k < 32 ==> #[trigger] program.bytes[k] == 0
                &&& ix.data@.len() >= 12
                &&& ix.data@[0] == 2 && ix.data@[1] == 0 && ix.data@[2] == 0 && ix.data@[3] == 0
                &&& ix.accounts@.len() >= 2
                &&& ix.accounts@[1] < keys.len()
                &&& tip_accounts.contains(keys[ix.accounts@[1] as int])
            };
            tips_of(packet, tip_accounts, i + 1) - tips_of(packet, tip_accounts, i) == if is_tip {
                ix.data@[4] + 0x100 * ix.data@[5] + 0x1_0000 * ix.data@[6] + 0x100_0000
                    * ix.data@[7] + 0x1_0000_0000 * ix.data@[8] + 0x100_0000_0000 * ix.data@[9]
                    + 0x1_0000_0000_0000 * ix.data@[10] + 0x100_0000_0000_0000 * ix.data@[11]
            } else {
                0
            }
        }),
{
    let keys = packet.message.account_keys@;
    let ix = packet.message.instructions@[i];
    law_transfer_is_read_off_the_bytes(keys, keys[ix.program_id_index as int], ix);
}

/// What a packet transfers to tip accounts is no less than what any one of its instructions
/// transfers there.
pub proof fn law_every_transfer_is_a_tip(
    packet: ImmutableDeserializedPacket,
    tip_accounts: Seq<Pubkey>,
    i: int,
    destination: Pubkey,
    amount: u64,
)
    requires
        0 <= i < packet.message.instructions@.len(),
        transfer_in(
            packet.message.account_keys@,
            packet.message.account_keys@[packet.message.instructions@[i].program_id_index as int],
            packet.message.instructions@[i],
        ) == Some((destination, amount)),
        tip_accounts.contains(destination),
    ensures
        packet_tips(packet, tip_accounts) >= amount,
{
    let all = packet.message.instructions@.len() as int;
    lemma_tips_of(packet, tip_accounts, i, i);
    lemma_tips_of(packet, tip_accounts, i + 1, all);
}

/// What one instruction transfers to tip accounts.
spec fn tip_in(keys: Seq<Pubkey>, tip_accounts: Seq<Pubkey>, ix: CompiledInstruction) -> int {
    match transfer_in(keys, keys[ix.program_id_index as int], ix) {
        Some((destination, amount)) if tip_accounts.contains(destination) => amount as int,
        _ => 0,
    }
}

/// What instructions transfer to tip accounts.
spec fn tips_in(
    keys: Seq<Pubkey>,
    tip_accounts: Seq<Pubkey>,
    instructions: Seq<CompiledInstruction>,
) -> int
    decreases instructions.len(),
{
    if instructions.len() == 0 {
        0
    } else {
        tips_in(keys, tip_accounts, instructions.drop_last()) + tip_in(
            keys,
            tip_accounts,
            instructions.last(),
        )
    }
}

/// The tips of a packet are those of its instructions.
proof fn lemma_tips_in(
    packet: ImmutableDeserializedPacket,
    tip_accounts: Seq<Pubkey>,
    count: int,
)
    requires
        0 <= count <= packet.message.instructions@.len(),
    ensures
        tips_of(packet, tip_accounts, count) == tips_in(
            packet.message.account_keys@,
            tip_accounts,
            packet.message.instructions@.take(count),
        ),
    decreases count,
{
    if count > 0 {
        let instructions = packet.message.instructions@;
        lemma_tips_in(packet, tip_accounts, count - 1);
        assert(instructions.take(count).drop_last() =~= instructions.take(count - 1));
    }
}

/// One instruction less, wherever it stood.
proof fn lemma_tips_without(
    keys: Seq<Pubkey>,
    tip_accounts: Seq<Pubkey>,
    instructions: Seq<CompiledInstruction>,
    i: int,
)
    requires
        0 <= i < instructions.len(),
    ensures
        tips_in(keys, tip_accounts, instructions) == tips_in(
            keys,
            tip_accounts,
            instructions.remove(i),
        ) + tip_in(keys, tip_accounts, instructions[i]),
    decreases instructions.len(),
{
    if i == instructions.len() - 1 {
        assert(instructions.remove(i) =~= instructions.drop_last());
    } else {
        lemma_tips_without(keys, tip_accounts, instructions.drop_last(), i);
        assert(instructions.remove(i).drop_last() =~= instructions.drop_last().remove(i));
        assert(instructions.remove(i).last() == instructions.last());
    }
}

/// The same instructions in another order transfer as much.
proof fn lemma_tips_reordered(
    keys: Seq<Pubkey>,
    tip_accounts: Seq<Pubkey>,
    a: Seq<CompiledInstruction>,
    b: Seq<CompiledInstruction>,
)
    requires
        a.to_multiset() == b.to_multiset(),
    ensures
        tips_in(keys, tip_accounts, a) == tips_in(keys, tip_accounts, b),
    decreases a.len(),
{
    a.to_multiset_ensures();
    b.to_multiset_ensures();
    if a.len() > 0 {
        let last = a.len() - 1;
        assert(a.to_multiset().contains(a[last]));
        assert(b.contains(a[last]));
        let i = choose|i: int| 0 <= i < b.len() && b[i] == a[last];
        lemma_tips_without(keys, tip_accounts, a, last);
        lemma_tips_without(keys, tip_accounts, b, i);
        lemma_tips_reordered(keys, tip_accounts, a.remove(last), b.remove(i));
    }
}

/// The order of the instructions does not count: two packets with the same keys and the same
/// instructions in another order transfer as much to tip accounts.
pub proof fn law_order_of_instructions_does_not_count(
    packet: ImmutableDeserializedPacket,
    other: ImmutableDeserializedPacket,
    tip_accounts: Seq<Pubkey>,
)
    requires
        packet.message.account_keys@ == other.message.account_keys@,
        packet.message.instructions@.to_multiset() == other.message.instructions@.to_multiset(),
    ensures
        packet_tips(packet, tip_accounts) == packet_tips(other, tip_accounts),
{
    let a = packet.message.instructions@;
    let b = other.message.instructions@;
    lemma_tips_in(packet, tip_accounts, a.len() as int);
    lemma_tips_in(other, tip_accounts, b.len() as int);
    assert(a.take(a.len() as int) =~= a);
    assert(b.take(b.len() as int) =~= b);
    lemma_tips_reordered(packet.message.account_keys@, tip_accounts, a, b);
}

impl BundleStorage {
    /// Where the instruction transfers lamports to, and how many.
    pub fn extract_transfer<'a>(
        account_keys: &'a Vec<Pubkey>,
        program_id: &Pubkey,
        ix: &CompiledInstruction,
    ) -> (transfer: Option<(&'a Pubkey, u64)>)
        ensures
            match transfer {
                Some((destination, amount)) => transfer_in(account_keys@, *program_id, *ix) == Some(
                    (*destination, amount),
                ),
                None => transfer_in(account_keys@, *program_id, *ix) is None,
            },
    {
        let system_program = system_program_id();
        let is_system = program_id.same_as(&system_program);
        proof {
            if is_zero_key(*program_id) {
                assert(program_id.bytes =~= system_program.bytes);
            }
        }
        if is_system && ix.data.len() >= TRANSFER_DATA_LEN && read_le_u32(&ix.data, 0) == TRANSFER_TAG {
            if ix.accounts.len() <= 1 {
                return None;
            }
            let place = ix.accounts[1] as usize;
            if place >= account_keys.len() {
                return None;
            }
            let amount = read_le_u64(&ix.data, 4);
            Some((&account_keys[place], amount))
        } else {
            None
        }
    }

    /// What a packet transfers to tip accounts.
    pub fn extract_tips_from_packet(
        packet: &ImmutableDeserializedPacket,
        tip_accounts: &Vec<Pubkey>,
    ) -> (tips: u64)
        requires
            packet.message.wf(),
            packet_tips(*packet, tip_accounts@) <= u64::MAX,
        ensures
            tips == packet_tips(*packet, tip_accounts@),
    {
        let account_keys = &packet.message.account_keys;
        let mut tips: u64 = 0;
        let mut i: usize = 0;
        while i < packet.message.instructions.len()
            invariant
                i <= packet.message.instructions@.len(),
                packet.message.wf(),
                *account_keys == packet.message.account_keys,
                packet_tips(*packet, tip_accounts@) <= u64::MAX,
                tips == tips_of(*packet, tip_accounts@, i as int),
            decreases packet.message.instructions.len() - i,
        {
            let ix = &packet.message.instructions[i];
            proof {
                lemma_tips_of(
                    *packet,
                    tip_accounts@,
                    i + 1,
                    packet.message.instructions@.len() as int,
                );
            }
            let program_id = &account_keys[ix.program_id_index as usize];
            if let Some((destination, amount)) = Self::extract_transfer(account_keys, program_id, ix) {
                if contains_key(tip_accounts, destination) {
                    tips = tips + amount;
                }
            }
            i += 1;
        }
        tips
    }
}

} // verus!
