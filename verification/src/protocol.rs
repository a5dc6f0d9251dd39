use crate::amount::Amount;
use crate::bytesrepr;
use crate::bytesrepr::{deserialize, whole_frame, FromBytes, ToBytes};
use crate::config::Config;
use crate::error::Error;
use crate::queue::{matured, unmatured, views, EntryView, Queue, QueueEntry};
use crate::stakes::{
    amount_view, bonding_verdict, lemma_with_stake_sound, positive, stake_of, unbonding_verdict,
    with_stake, StakeLedger,
};
use vstd::string::StringSliceAdditionalSpecFns;
use vstd::utf8::encode_utf8_decode_utf8;
use crate::validator::ValidatorId;
use vstd::prelude::*;

verus! {

/// A movement of funds that an invocation asks for.
#[derive(Debug, Clone, Copy, PartialEq, Eq, Structural)]
pub enum TransferKind {
    /// The bonded amount moves from the validator into the contract's holding.
    Escrow,
    /// A trial of the later payout: nothing moves, the destination and the amount
    /// are checked.
    DryRun,
    /// The unbonded amount moves from the contract's holding to the validator.
    Payout,
}

/// What a transfer says.
pub struct TransferView {
    pub kind: TransferKind,
    pub validator: Seq<u8>,
    pub amount: nat,
}

/// A movement of funds to be made by the caller. An invocation whose transfer fails
/// has failed as a whole.
#[derive(Debug, PartialEq, Eq)]
pub struct Transfer {
    pub kind: TransferKind,
    pub validator: ValidatorId,
    pub amount: Amount,
}

impl View for Transfer {
    type V = TransferView;

    open spec fn view(&self) -> TransferView {
        TransferView { kind: self.kind, validator: self.validator@, amount: self.amount@ }
    }
}

/// What each of `transfers` says, in the same order.
pub open spec fn transfer_views(transfers: Seq<Transfer>) -> Seq<TransferView> {
    Seq::new(transfers.len(), |i: int| transfers[i]@)
}

/// The payouts of unbonding requests that have come due, one for each, in their order.
pub open spec fn payouts(unbonds: Seq<EntryView>) -> Seq<TransferView> {
    Seq::new(
        unbonds.len(),
        |i: int|
            TransferView {
                kind: TransferKind::Payout,
                validator: unbonds[i].validator,
                amount: unbonds[i].amount,
            },
    )
}

/// What an invocation did: which of the three stored values it changed, and the
/// transfers it asks for.
#[derive(Debug, PartialEq, Eq)]
pub struct Outcome {
    pub ledger_changed: bool,
    pub bonding_changed: bool,
    pub unbonding_changed: bool,
    pub transfers: Vec<Transfer>,
}

/// What the three stored values hold.
pub struct StateView {
    pub ledger: Option<Map<Seq<u8>, nat>>,
    pub bonding: Seq<EntryView>,
    pub unbonding: Seq<EntryView>,
}

/// The three stored values as an invocation finds them: the stake ledger, if it was
/// ever stored, and the queues of pending bonding and unbonding requests.
#[derive(Debug, PartialEq, Eq)]
pub struct State {
    pub ledger: Option<StakeLedger>,
    pub bonding: Queue,
    pub unbonding: Queue,
}

impl View for State {
    type V = StateView;

    open spec fn view(&self) -> StateView {
        StateView {
            ledger: match self.ledger {
                Some(ledger) => Some(ledger@),
                None => None,
            },
            bonding: self.bonding@,
            unbonding: self.unbonding@,
        }
    }
}

/// Whether the ledger, where there is one, has finitely many entries, each greater
/// than zero.
pub open spec fn ledger_sound(ledger: Option<Map<Seq<u8>, nat>>) -> bool {
    match ledger {
        Some(l) => l.dom().finite() && positive(l),
        None => true,
    }
}

/// `ledger` after the bonding requests `bonds` have been added to it, the earliest
/// first.
pub open spec fn settled(ledger: Map<Seq<u8>, nat>, bonds: Seq<EntryView>) -> Map<Seq<u8>, nat>
    decreases bonds.len(),
{
    if bonds.len() == 0 {
        ledger
    } else {
        let before = settled(ledger, bonds.drop_last());
        let last = bonds.last();
        with_stake(before, last.validator, stake_of(before, last.validator) + last.amount)
    }
}

/// Settling bonding requests keeps every entry of the ledger greater than zero:
/// no sequence of requests leaves an entry of zero.
pub proof fn lemma_settled_sound(ledger: Map<Seq<u8>, nat>, bonds: Seq<EntryView>)
    requires
        ledger.dom().finite(),
        positive(ledger),
    ensures
        settled(ledger, bonds).dom().finite(),
        positive(settled(ledger, bonds)),
    decreases bonds.len(),
{
    if bonds.len() > 0 {
        let before = settled(ledger, bonds.drop_last());
        let last = bonds.last();
        lemma_settled_sound(ledger, bonds.drop_last());
        lemma_with_stake_sound(before, last.validator, stake_of(before, last.validator) + last.amount);
    }
}

/// Whether a bonding request is accepted, and why not where it is refused: the
/// queue is full; the ledger was never stored; or the request, judged against the
/// ledger as it will be once all pending bonding requests are added, breaks a limit.
pub open spec fn bond_verdict(
    state: StateView,
    capacity: usize,
    validator: Seq<u8>,
    amount: nat,
    config: &Config,
) -> Result<(), Error> {
    if state.bonding.len() >= capacity {
        Err(Error::QueueFull)
    } else {
        match state.ledger {
            None => Err(Error::LedgerUninitialized),
            Some(ledger) => bonding_verdict(
                settled(ledger, state.bonding),
                validator,
                amount,
                config,
            ),
        }
    }
}

/// The payout of an unbonding request, and why it is refused where it is: the queue
/// is full; the ledger was never stored; or the ledger refuses the request.
pub open spec fn unbond_verdict(
    state: StateView,
    capacity: usize,
    validator: Seq<u8>,
    maybe_amount: Option<nat>,
    config: &Config,
) -> Result<nat, Error> {
    if state.unbonding.len() >= capacity {
        Err(Error::QueueFull)
    } else {
        match state.ledger {
            None => Err(Error::LedgerUninitialized),
            Some(ledger) => unbonding_verdict(ledger, validator, maybe_amount, config),
        }
    }
}

/// Adds the bonding requests `bonds` to `ledger`, the earliest first.
pub fn settle(ledger: &mut StakeLedger, bonds: &Vec<QueueEntry>)
    ensures
        final(ledger)@ == settled(old(ledger)@, views(bonds@)),
        final(ledger)@.dom().finite(),
        positive(final(ledger)@),
{
    ledger.sound();
    let mut i: usize = 0;
    assert(views(bonds@).take(0) =~= Seq::<EntryView>::empty());
    while i < bonds.len()
        invariant
            i <= bonds@.len(),
            ledger@ == settled(old(ledger)@, views(bonds@).take(i as int)),
            ledger@.dom().finite(),
            positive(ledger@),
        decreases bonds@.len() - i,
    {
        proof {
            let longer = views(bonds@).take(i + 1);
            assert(longer.drop_last() =~= views(bonds@).take(i as int));
            assert(longer.last() == bonds@[i as int]@);
        }
        ledger.bond(&bonds[i].validator, &bonds[i].amount);
        i = i + 1;
    }
    assert(views(bonds@).take(i as int) =~= views(bonds@));
}

/// Queues a request of `validator` to add `amount` to its stake. The stake ledger is
/// not changed: the amount counts as stake once the request is settled by `step`.
/// Pending requests count when the limits are tried, so that requests cannot pass
/// one by one that would break a limit together. A request that is refused changes
/// nothing. On success the caller is to move the amount into the contract's holding.
pub fn bond(
    state: &mut State,
    config: &Config,
    amount: Amount,
    validator: ValidatorId,
    timestamp: u64,
) -> (r: Result<Outcome, Error>)
    ensures
        match r {
            Ok(outcome) => {
                &&& bond_verdict(
                    old(state)@,
                    old(state).bonding.capacity,
                    validator@,
                    amount@,
                    config,
                ) == Ok::<(), Error>(())
                &&& final(state)@.bonding == old(state)@.bonding.push(
                    EntryView { validator: validator@, amount: amount@, timestamp },
                )
                &&& final(state)@.ledger == old(state)@.ledger
                &&& final(state)@.unbonding == old(state)@.unbonding
                &&& !outcome.ledger_changed && outcome.bonding_changed
                    && !outcome.unbonding_changed
                &&& transfer_views(outcome.transfers@) == seq![
                    TransferView {
                        kind: TransferKind::Escrow,
                        validator: validator@,
                        amount: amount@,
                    },
                ]
                &&& outcome.transfers@.len() == 1
            },
            Err(e) => {
                &&& bond_verdict(
                    old(state)@,
                    old(state).bonding.capacity,
                    validator@,
                    amount@,
                    config,
                ) == Err::<(), Error>(e)
                &&& *final(state) == *old(state)
            },
        },
        final(state).bonding.capacity == old(state).bonding.capacity,
        final(state).unbonding.capacity == old(state).unbonding.capacity,
        ledger_sound(final(state)@.ledger),
{
    match &state.ledger {
        Some(ledger) => {
            ledger.sound();
        },
        None => {},
    }
    if state.bonding.is_full() {
        return Err(Error::QueueFull);
    }
    let verdict = match &state.ledger {
        None => Err(Error::LedgerUninitialized),
        Some(ledger) => {
            let mut simulated = ledger.duplicate();
            settle(&mut simulated, &state.bonding.entries);
            simulated.validate_bonding(&validator, &amount, config)
        },
    };
    match verdict {
        Err(e) => {
            return Err(e);
        },
        Ok(()) => {},
    }
    let escrow = Transfer { kind: TransferKind::Escrow, validator, amount: amount.duplicate() };
    let _pushed = state.bonding.push(validator, amount, timestamp);
    let mut transfers: Vec<Transfer> = Vec::new();
    transfers.push(escrow);
    assert(transfer_views(transfers@) =~= seq![escrow@]);
    Ok(
        Outcome {
            ledger_changed: false,
            bonding_changed: true,
            unbonding_changed: false,
            transfers,
        },
    )
}

/// Takes stake from `validator` at once and queues its payout: the amount named, or
/// the whole stake where none is named. The ledger changes in the same invocation
/// that queues the payout; the funds move when `step` settles the request. A request
/// that is refused changes nothing. On success the caller is to try the payout dry.
pub fn unbond(
    state: &mut State,
    config: &Config,
    maybe_amount: Option<Amount>,
    validator: ValidatorId,
    timestamp: u64,
) -> (r: Result<Outcome, Error>)
    ensures
        match r {
            Ok(outcome) => {
                &&& unbond_verdict(
                    old(state)@,
                    old(state).unbonding.capacity,
                    validator@,
                    amount_view(maybe_amount),
                    config,
                ) is Ok
                &&& old(state)@.ledger is Some
                &&& ({
                    let payout = unbond_verdict(
                        old(state)@,
                        old(state).unbonding.capacity,
                        validator@,
                        amount_view(maybe_amount),
                        config,
                    )->Ok_0;
                    let ledger = old(state)@.ledger->Some_0;
                    &&& final(state)@.ledger == Some(
                        with_stake(
                            ledger,
                            validator@,
                            (stake_of(ledger, validator@) - payout) as nat,
                        ),
                    )
                    &&& final(state)@.unbonding == old(state)@.unbonding.push(
                        EntryView { validator: validator@, amount: payout, timestamp },
                    )
                    &&& transfer_views(outcome.transfers@) == seq![
                        TransferView {
                            kind: TransferKind::DryRun,
                            validator: validator@,
                            amount: payout,
                        },
                    ]
                })
                &&& final(state)@.bonding == old(state)@.bonding
                &&& outcome.ledger_changed && !outcome.bonding_changed
                    && outcome.unbonding_changed
                &&& outcome.transfers@.len() == 1
            },
            Err(e) => {
                &&& unbond_verdict(
                    old(state)@,
                    old(state).unbonding.capacity,
                    validator@,
                    amount_view(maybe_amount),
                    config,
                ) == Err::<nat, Error>(e)
                &&& final(state)@ == old(state)@
            },
        },
        final(state).bonding.capacity == old(state).bonding.capacity,
        final(state).unbonding.capacity == old(state).unbonding.capacity,
        ledger_sound(final(state)@.ledger),
{
    match &state.ledger {
        Some(ledger) => {
            ledger.sound();
        },
        None => {},
    }
    if state.unbonding.is_full() {
        return Err(Error::QueueFull);
    }
    let payout = match &mut state.ledger {
        None => {
            return Err(Error::LedgerUninitialized);
        },
        Some(ledger) => match ledger.unbond(&validator, maybe_amount, config) {
            Err(e) => {
                return Err(e);
            },
            Ok(payout) => payout,
        },
    };
    let trial = Transfer { kind: TransferKind::DryRun, validator, amount: payout.duplicate() };
    let _pushed = state.unbonding.push(validator, payout, timestamp);
    let mut transfers: Vec<Transfer> = Vec::new();
    transfers.push(trial);
    assert(transfer_views(transfers@) =~= seq![trial@]);
    Ok(
        Outcome {
            ledger_changed: true,
            bonding_changed: false,
            unbonding_changed: true,
            transfers,
        },
    )
}

/// Settles what has matured at `timestamp`. A request has matured once its delay has
/// passed: it was made at a time `t` with `t + delay <= timestamp`. The matured
/// bonding requests leave their queue and are added to the ledger, the earliest
/// first. The matured unbonding requests leave theirs, and the caller is to pay each
/// of them out, in their order. Where nothing has matured, nothing changes. All of
/// it happens or none: where bonding requests have matured and the ledger was never
/// stored, nothing changes.
pub fn step(state: &mut State, config: &Config, timestamp: u64) -> (r: Result<Outcome, Error>)
    ensures
        match r {
            Ok(outcome) => {
                let bonds = old(state)@.bonding.filter(
                    matured(timestamp, config.bond_delay),
                );
                let unbonds = old(state)@.unbonding.filter(
                    matured(timestamp, config.unbond_delay),
                );
                &&& bonds.len() > 0 ==> old(state)@.ledger is Some
                &&& final(state)@.bonding == old(state)@.bonding.filter(
                    unmatured(timestamp, config.bond_delay),
                )
                &&& final(state)@.unbonding == old(state)@.unbonding.filter(
                    unmatured(timestamp, config.unbond_delay),
                )
                &&& final(state)@.ledger == match old(state)@.ledger {
                    Some(ledger) => Some(settled(ledger, bonds)),
                    None => None,
                }
                &&& outcome.ledger_changed == (bonds.len() > 0)
                &&& outcome.bonding_changed == (bonds.len() > 0)
                &&& outcome.unbonding_changed == (unbonds.len() > 0)
                &&& transfer_views(outcome.transfers@) == payouts(unbonds)
                &&& outcome.transfers@.len() == unbonds.len()
            },
            Err(e) => {
                &&& e == Error::LedgerUninitialized
                &&& old(state)@.ledger is None
                &&& old(state)@.bonding.filter(
                    matured(timestamp, config.bond_delay),
                ).len() > 0
                &&& *final(state) == *old(state)
            },
        },
        final(state).bonding.capacity == old(state).bonding.capacity,
        final(state).unbonding.capacity == old(state).unbonding.capacity,
        ledger_sound(final(state)@.ledger),
{
    match &state.ledger {
        Some(ledger) => {
            ledger.sound();
        },
        None => {
            if state.bonding.count_matured(timestamp, config.bond_delay) > 0 {
                return Err(Error::LedgerUninitialized);
            }
        },
    }
    let bonds = state.bonding.pop_matured(timestamp, config.bond_delay);
    let unbonds = state.unbonding.pop_matured(timestamp, config.unbond_delay);
    match &mut state.ledger {
        Some(ledger) => {
            settle(ledger, &bonds);
        },
        None => {},
    }
    let mut transfers: Vec<Transfer> = Vec::new();
    let mut i: usize = 0;
    while i < unbonds.len()
        invariant
            i <= unbonds@.len(),
            transfers@.len() == i,
            forall|j: int|
                0 <= j < i ==> (#[trigger] transfers@[j])@ == payouts(views(unbonds@))[j],
        decreases unbonds@.len() - i,
    {
        transfers.push(
            Transfer {
                kind: TransferKind::Payout,
                validator: unbonds[i].validator,
                amount: unbonds[i].amount.duplicate(),
            },
        );
        i = i + 1;
    }
    assert(transfer_views(transfers@) =~= payouts(views(unbonds@)));
    Ok(
        Outcome {
            ledger_changed: bonds.len() > 0,
            bonding_changed: bonds.len() > 0,
            unbonding_changed: unbonds.len() > 0,
            transfers,
        },
    )
}

/// Whether every transfer that an invocation asked for was made: `succeeded` holds,
/// for each transfer in turn, whether it went through. One failure fails the
/// invocation.
fn confirm_transfers(succeeded: &[bool]) -> (r: Result<(), Error>)
    ensures
        r == if forall|i: int| 0 <= i < succeeded@.len() ==> succeeded@[i] {
            Ok::<(), Error>(())
        } else {
            Err::<(), Error>(Error::TransferFailed)
        },
{
    let mut i: usize = 0;
    while i < succeeded.len()
        invariant
            i <= succeeded@.len(),
            forall|j: int| 0 <= j < i ==> succeeded@[j],
        decreases succeeded@.len() - i,
    {
        if !succeeded[i] {
            return Err(Error::TransferFailed);
        }
        i = i + 1;
    }
    Ok(())
}

/// What an invocation asks for.
#[derive(Debug, Clone, Copy, PartialEq, Eq, Structural)]
pub enum Method {
    /// Queue a request to add to the stake.
    Bond,
    /// Take from the stake and queue the payout.
    Unbond,
    /// Settle what has come due.
    Step,
}

/// The method that goes by `name`.
pub open spec fn method_of(name: Seq<char>) -> Option<Method> {
    if name == "bond"@ {
        Some(Method::Bond)
    } else if name == "unbond"@ {
        Some(Method::Unbond)
    } else if name == "step"@ {
        Some(Method::Step)
    } else {
        None
    }
}

/// The method that an invocation names, or none where the name is not that of a
/// method: such an invocation does nothing.
pub fn method_named(name: &str) -> (r: Option<Method>)
    ensures
        r == method_of(name@),
{
    proof {
        encode_utf8_decode_utf8(name@);
        encode_utf8_decode_utf8("bond"@);
        encode_utf8_decode_utf8("unbond"@);
        encode_utf8_decode_utf8("step"@);
    }
    let bytes = name.as_bytes();
    if bytesrepr::bytes_equal(bytes, "bond".as_bytes()) {
        Some(Method::Bond)
    } else if bytesrepr::bytes_equal(bytes, "unbond".as_bytes()) {
        Some(Method::Unbond)
    } else if bytesrepr::bytes_equal(bytes, "step".as_bytes()) {
        Some(Method::Step)
    } else {
        None
    }
}

/// The bytes stored at the three places of the contract: the stake ledger, the queue
/// of bonding requests and the queue of unbonding requests. A place where nothing
/// was stored yet is `None`.
#[derive(Debug, PartialEq, Eq)]
pub struct Slots {
    pub ledger: Option<Vec<u8>>,
    pub bonding: Option<Vec<u8>>,
    pub unbonding: Option<Vec<u8>>,
}

/// The bytes of a stored value.
pub open spec fn blob_view(blob: Option<Vec<u8>>) -> Option<Seq<u8>> {
    match blob {
        Some(bytes) => Some(bytes@),
        None => None,
    }
}

/// Why the bytes stored at a place are not a value of type `T`, if they are not. A
/// place where nothing is stored has no fault.
pub open spec fn blob_fault<T: FromBytes>(blob: Option<Seq<u8>>) -> Option<bytesrepr::Error> {
    match blob {
        None => None,
        Some(bytes) => match whole_frame(T::frame(bytes), bytes.len()) {
            Ok(_) => None,
            Err(code) => Some(code),
        },
    }
}

/// The fault that stops the loading of the three stored values: that of the bonding
/// queue, else that of the unbonding queue, else that of the ledger.
pub open spec fn slots_fault(slots: Slots) -> Option<bytesrepr::Error> {
    if blob_fault::<Vec<QueueEntry>>(blob_view(slots.bonding)) is Some {
        blob_fault::<Vec<QueueEntry>>(blob_view(slots.bonding))
    } else if blob_fault::<Vec<QueueEntry>>(blob_view(slots.unbonding)) is Some {
        blob_fault::<Vec<QueueEntry>>(blob_view(slots.unbonding))
    } else {
        blob_fault::<StakeLedger>(blob_view(slots.ledger))
    }
}

/// Whether `queue` is what `blob` holds: the queue whose layout the bytes are, or
/// the empty queue where nothing is stored.
pub open spec fn queue_loaded(queue: Queue, blob: Option<Seq<u8>>) -> bool {
    match blob {
        None => queue@ == Seq::<EntryView>::empty(),
        Some(bytes) => queue.entries.encodable() && queue.entries.encoding() == bytes,
    }
}

/// Whether `ledger` is what `blob` holds: the ledger whose layout the bytes are, or
/// none where nothing is stored.
pub open spec fn ledger_loaded(ledger: Option<StakeLedger>, blob: Option<Seq<u8>>) -> bool {
    match blob {
        None => ledger is None,
        Some(bytes) => ledger is Some && ledger->Some_0.encodable()
            && ledger->Some_0.encoding() == bytes,
    }
}

impl State {
    /// Decodes the three stored values. A queue that was never stored is empty; a
    /// ledger that was never stored is absent, which `bond`, `unbond` and `step`
    /// report when they need it. The queues get their capacities from `config`.
    pub fn load(slots: &Slots, config: &Config) -> (r: Result<State, Error>)
        ensures
            match r {
                Ok(state) => {
                    &&& slots_fault(*slots) is None
                    &&& queue_loaded(state.bonding, blob_view(slots.bonding))
                    &&& queue_loaded(state.unbonding, blob_view(slots.unbonding))
                    &&& ledger_loaded(state.ledger, blob_view(slots.ledger))
                    &&& state.bonding.capacity == config.max_bond_len
                    &&& state.unbonding.capacity == config.max_unbond_len
                },
                Err(e) => slots_fault(*slots) is Some && e == Error::SerializationError(
                    slots_fault(*slots)->Some_0,
                ),
            },
    {
        let bonding = match &slots.bonding {
            None => Queue::new(config.max_bond_len),
            Some(bytes) => match deserialize::<Vec<QueueEntry>>(bytes.as_slice()) {
                Err(code) => {
                    return Err(Error::SerializationError(code));
                },
                Ok(entries) => Queue { entries, capacity: config.max_bond_len },
            },
        };
        let unbonding = match &slots.unbonding {
            None => Queue::new(config.max_unbond_len),
            Some(bytes) => match deserialize::<Vec<QueueEntry>>(bytes.as_slice()) {
                Err(code) => {
                    return Err(Error::SerializationError(code));
                },
                Ok(entries) => Queue { entries, capacity: config.max_unbond_len },
            },
        };
        let ledger = match &slots.ledger {
            None => None,
            Some(bytes) => match deserialize::<StakeLedger>(bytes.as_slice()) {
                Err(code) => {
                    return Err(Error::SerializationError(code));
                },
                Ok(ledger) => Some(ledger),
            },
        };
        Ok(State { ledger, bonding, unbonding })
    }

    /// Whether `after` holds what is stored once the state is saved over `before`:
    /// the encodings of the values that `outcome` marks as changed, and the bytes of
    /// `before` in the other places.
    pub open spec fn saved(&self, outcome: &Outcome, before: Slots, after: Slots) -> bool {
        &&& outcome.unbonding_changed ==> blob_view(after.unbonding) == Some(
            self.unbonding.entries.encoding(),
        )
        &&& !outcome.unbonding_changed ==> after.unbonding == before.unbonding
        &&& outcome.bonding_changed ==> blob_view(after.bonding) == Some(
            self.bonding.entries.encoding(),
        )
        &&& !outcome.bonding_changed ==> after.bonding == before.bonding
        &&& outcome.ledger_changed && self.ledger is Some ==> blob_view(after.ledger) == Some(
            self.ledger->Some_0.encoding(),
        )
        &&& !(outcome.ledger_changed && self.ledger is Some) ==> after.ledger == before.ledger
    }

    /// Ends an invocation once its transfers have been tried: `succeeded` holds, for
    /// each transfer that `outcome` asks for, in their order, whether it went
    /// through. Where every transfer went through, the values that the invocation
    /// changed are encoded and put in their places: the unbonding queue first, then
    /// the bonding queue, then the ledger. Where one transfer failed, or the results
    /// are not those of the transfers asked for, the invocation has failed as a
    /// whole: nothing is stored, every request stays as it was stored before, and
    /// the transfers that did go through are for the caller to undo together with
    /// the invocation.
    pub fn commit(&self, outcome: &Outcome, succeeded: &[bool], slots: &mut Slots) -> (r: Result<
        (),
        Error,
    >)
        ensures
            r is Ok <==> succeeded@.len() == outcome.transfers@.len() && forall|i: int|
                0 <= i < succeeded@.len() ==> succeeded@[i],
            r is Err ==> r->Err_0 == Error::TransferFailed && *final(slots) == *old(slots),
            r is Ok ==> self.saved(outcome, *old(slots), *final(slots)),
    {
        if succeeded.len() != outcome.transfers.len() {
            return Err(Error::TransferFailed);
        }
        match confirm_transfers(succeeded) {
            Err(e) => Err(e),
            Ok(()) => {
                self.save(outcome, slots);
                Ok(())
            },
        }
    }

    /// Encodes the values that `outcome` marks as changed and puts them in their
    /// places. The other places keep their bytes.
    fn save(&self, outcome: &Outcome, slots: &mut Slots)
        ensures
            self.saved(outcome, *old(slots), *final(slots)),
    {
        if outcome.unbonding_changed {
            slots.unbonding = Some(self.unbonding.write());
        }
        if outcome.bonding_changed {
            slots.bonding = Some(self.bonding.write());
        }
        if outcome.ledger_changed {
            match &self.ledger {
                Some(ledger) => {
                    slots.ledger = Some(ledger.write());
                },
                None => {},
            }
        }
    }
}

} // verus!
