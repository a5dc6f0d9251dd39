use crate::amount::Amount;
use crate::bytesrepr;
use crate::bytesrepr::{
    counted_encodable, counted_encoding, deserialize, lemma_counted_unique, whole_frame, FromBytes,
    ToBytes,
};
use crate::config::{Config, MILLION};
use crate::error::{Error, Rule};
use crate::ordered::{
    ascending, distinct, lemma_distinct_drop_last, lemma_map_absent, lemma_map_at,
    lemma_map_finite, lemma_map_frame, lemma_map_index, lemma_same_rows, map_frame, map_of,
    OrderedMap, Row,
};
use crate::validator::ValidatorId;
use vstd::prelude::*;

verus! {

/// The stake that `ledger` records for the validator `key`: zero where it has no entry.
pub open spec fn stake_of(ledger: Map<Seq<u8>, nat>, key: Seq<u8>) -> nat {
    if ledger.dom().contains(key) {
        ledger[key]
    } else {
        0
    }
}

/// Whether every entry of `ledger` is greater than zero.
pub open spec fn positive(ledger: Map<Seq<u8>, nat>) -> bool {
    forall|key: Seq<u8>| #[trigger] ledger.dom().contains(key) ==> ledger[key] > 0
}

/// `ledger` with the stake of `key` set to `stake`; a stake of zero leaves no entry.
pub open spec fn with_stake(ledger: Map<Seq<u8>, nat>, key: Seq<u8>, stake: nat) -> Map<
    Seq<u8>,
    nat,
> {
    if stake == 0 {
        ledger.remove(key)
    } else {
        ledger.insert(key, stake)
    }
}

/// The sum of all stakes in `ledger`.
pub open spec fn total_stake(ledger: Map<Seq<u8>, nat>) -> nat
    decreases ledger.dom().len(),
    when ledger.dom().finite()
{
    if ledger.dom().len() == 0 {
        0
    } else {
        let key = ledger.dom().choose();
        ledger[key] + total_stake(ledger.remove(key))
    }
}

/// The total is the stake of any one entry plus the total of the others.
pub proof fn lemma_total_remove(ledger: Map<Seq<u8>, nat>, key: Seq<u8>)
    requires
        ledger.dom().finite(),
        ledger.dom().contains(key),
    ensures
        total_stake(ledger) == ledger[key] + total_stake(ledger.remove(key)),
    decreases ledger.dom().len(),
{
    let chosen = ledger.dom().choose();
    if chosen != key {
        lemma_total_remove(ledger.remove(chosen), key);
        lemma_total_remove(ledger.remove(key), chosen);
        assert(ledger.remove(chosen).remove(key) =~= ledger.remove(key).remove(chosen));
    }
}

/// Setting one stake changes the total by the difference.
pub proof fn lemma_total_with_stake(ledger: Map<Seq<u8>, nat>, key: Seq<u8>, stake: nat)
    requires
        ledger.dom().finite(),
    ensures
        with_stake(ledger, key, stake).dom().finite(),
        total_stake(with_stake(ledger, key, stake)) + stake_of(ledger, key) == total_stake(ledger)
            + stake,
{
    let after = with_stake(ledger, key, stake);
    if ledger.dom().contains(key) {
        lemma_total_remove(ledger, key);
    } else {
        assert(ledger.remove(key) =~= ledger);
    }
    if stake != 0 {
        lemma_total_remove(after, key);
        assert(after.remove(key) =~= ledger.remove(key));
    }
}

/// Whether no two stakes in `ledger` differ by more than `ceiling`.
pub open spec fn spread_within(ledger: Map<Seq<u8>, nat>, ceiling: nat) -> bool {
    forall|a: Seq<u8>, b: Seq<u8>|
        #[trigger] ledger.dom().contains(a) && #[trigger] ledger.dom().contains(b) ==> ledger[a]
            <= ledger[b] + ceiling
}

/// Whether a validator may add `amount` to its stake in `ledger`, and the limit that
/// the request breaks where it may not. The limits are tried in this order: the
/// largest increase, the largest increase relative to the total stake, the largest
/// spread of the stakes once the amount is added.
pub open spec fn bonding_verdict(
    ledger: Map<Seq<u8>, nat>,
    key: Seq<u8>,
    amount: nat,
    config: &Config,
) -> Result<(), Error> {
    if amount > config.max_increase@ {
        Err(Error::ValidationFailed(Rule::AbsoluteIncrease))
    } else if amount * MILLION > total_stake(ledger) * config.max_rel_increase {
        Err(Error::ValidationFailed(Rule::RelativeIncrease))
    } else if !spread_within(
        with_stake(ledger, key, stake_of(ledger, key) + amount),
        config.max_spread@,
    ) {
        Err(Error::ValidationFailed(Rule::Spread))
    } else {
        Ok(())
    }
}

/// What an unbonding request takes out of the stake: the amount named, or the whole
/// stake where none is named.
pub open spec fn unbonding_payout(
    ledger: Map<Seq<u8>, nat>,
    key: Seq<u8>,
    maybe_amount: Option<nat>,
) -> nat {
    match maybe_amount {
        None => stake_of(ledger, key),
        Some(amount) => amount,
    }
}

/// The payout of an unbonding request, or why it is refused. More than the stake
/// cannot be unbonded; then the limits are tried in this order: the largest
/// decrease, the largest decrease relative to the total stake.
pub open spec fn unbonding_verdict(
    ledger: Map<Seq<u8>, nat>,
    key: Seq<u8>,
    maybe_amount: Option<nat>,
    config: &Config,
) -> Result<nat, Error> {
    let payout = unbonding_payout(ledger, key, maybe_amount);
    if payout > stake_of(ledger, key) {
        Err(Error::InsufficientStake)
    } else if payout > config.max_decrease@ {
        Err(Error::ValidationFailed(Rule::AbsoluteDecrease))
    } else if payout * MILLION > total_stake(ledger) * config.max_rel_decrease {
        Err(Error::ValidationFailed(Rule::RelativeDecrease))
    } else {
        Ok(payout)
    }
}

/// The number that an optional amount stands for.
pub open spec fn amount_view(maybe_amount: Option<Amount>) -> Option<nat> {
    match maybe_amount {
        None => None,
        Some(amount) => Some(amount@),
    }
}

/// Setting a stake keeps every entry greater than zero, and the entries finitely many.
pub proof fn lemma_with_stake_sound(ledger: Map<Seq<u8>, nat>, key: Seq<u8>, stake: nat)
    requires
        ledger.dom().finite(),
        positive(ledger),
    ensures
        with_stake(ledger, key, stake).dom().finite(),
        positive(with_stake(ledger, key, stake)),
{
    let after = with_stake(ledger, key, stake);
    assert forall|k: Seq<u8>| #[trigger] after.dom().contains(k) implies after[k] > 0 by {
        if k != key {
            assert(ledger.dom().contains(k));
        }
    }
}

/// Taking a payout greater than zero out of a stake changes the ledger.
pub proof fn lemma_payout_changes_ledger(ledger: Map<Seq<u8>, nat>, key: Seq<u8>, payout: nat)
    requires
        0 < payout <= stake_of(ledger, key),
    ensures
        with_stake(ledger, key, (stake_of(ledger, key) - payout) as nat) != ledger,
{
    let after = with_stake(ledger, key, (stake_of(ledger, key) - payout) as nat);
    assert(stake_of(after, key) != stake_of(ledger, key));
}

/// Whether every stake in `rows` is greater than zero.
pub open spec fn amounts_positive(rows: Seq<Row<ValidatorId, Amount>>) -> bool {
    forall|i: int| 0 <= i < rows.len() ==> (#[trigger] rows[i]).value@ > 0
}

/// Whether `rows` can be the rows of a ledger: the keys ascend and no stake is zero.
pub open spec fn canonical(rows: Seq<Row<ValidatorId, Amount>>) -> bool {
    ascending(rows) && amounts_positive(rows)
}

/// The sum of the stakes in `rows`.
spec fn sum_amounts(rows: Seq<Row<ValidatorId, Amount>>) -> nat
    decreases rows.len(),
{
    if rows.len() == 0 {
        0
    } else {
        sum_amounts(rows.drop_last()) + rows.last().value@
    }
}

proof fn lemma_total_of_rows(rows: Seq<Row<ValidatorId, Amount>>)
    requires
        distinct(rows),
    ensures
        total_stake(map_of(rows)) == sum_amounts(rows),
    decreases rows.len(),
{
    lemma_map_finite(rows);
    if rows.len() > 0 {
        let rest = rows.drop_last();
        let key = rows.last().key@;
        lemma_distinct_drop_last(rows);
        lemma_map_absent(rest, key);
        lemma_total_remove(map_of(rows), key);
        assert(map_of(rows).remove(key) =~= map_of(rest));
        lemma_total_of_rows(rest);
    } else {
        assert(map_of(rows).dom() =~= Set::<Seq<u8>>::empty());
    }
}

/// Rows whose stakes are greater than zero stand for a mapping whose entries are.
proof fn lemma_positive(rows: Seq<Row<ValidatorId, Amount>>)
    requires
        amounts_positive(rows),
    ensures
        positive(map_of(rows)),
    decreases rows.len(),
{
    if rows.len() > 0 {
        let rest = rows.drop_last();
        assert forall|i: int| 0 <= i < rest.len() implies (#[trigger] rest[i]).value@ > 0 by {
            assert(rest[i] == rows[i]);
        }
        lemma_positive(rest);
        assert(rows[rows.len() - 1].value@ > 0);
    }
}

/// Rows that stand for a mapping whose entries are greater than zero hold no stake
/// of zero.
proof fn lemma_positive_rows(rows: Seq<Row<ValidatorId, Amount>>)
    requires
        distinct(rows),
        positive(map_of(rows)),
    ensures
        amounts_positive(rows),
{
    assert forall|i: int| 0 <= i < rows.len() implies (#[trigger] rows[i]).value@ > 0 by {
        lemma_map_at(rows, i);
    }
}

/// The stake of each validator. A validator without stake has no entry.
#[derive(Debug, PartialEq, Eq)]
pub struct StakeLedger {
    map: OrderedMap<ValidatorId, Amount>,
}

impl View for StakeLedger {
    type V = Map<Seq<u8>, nat>;

    open spec fn view(&self) -> Map<Seq<u8>, nat> {
        map_of(self.rows())
    }
}

impl StakeLedger {
    #[verifier::type_invariant]
    spec fn well_formed(&self) -> bool {
        positive(self.map@)
    }

    /// The rows of the ledger, in the order of their keys.
    pub closed spec fn rows(&self) -> Seq<Row<ValidatorId, Amount>> {
        self.map.rows()
    }

    /// A ledger without entries.
    pub fn new() -> (r: StakeLedger)
        ensures
            r@ == Map::<Seq<u8>, nat>::empty(),
    {
        StakeLedger { map: OrderedMap::new() }
    }

    /// What holds of every ledger: it has finitely many entries, each greater than
    /// zero, and its rows stand in the order of their keys.
    pub fn sound(&self)
        ensures
            self@.dom().finite(),
            positive(self@),
            canonical(self.rows()),
    {
        self.map.sound();
        proof {
            use_type_invariant(self);
            lemma_positive_rows(self.map.rows());
        }
    }

    /// The number of validators with stake.
    pub fn len(&self) -> (r: usize)
        ensures
            r == self@.dom().len(),
    {
        self.map.len()
    }

    /// The stake of `validator`: zero where it has no entry.
    pub fn stake(&self, validator: &ValidatorId) -> (r: Amount)
        ensures
            r@ == stake_of(self@, validator@),
    {
        match self.map.get(validator) {
            Some(amount) => amount.duplicate(),
            None => Amount::zero(),
        }
    }

    /// The sum of all stakes.
    pub fn total(&self) -> (r: Amount)
        ensures
            r@ == total_stake(self@),
    {
        self.map.sound();
        proof {
            lemma_total_of_rows(self.map.rows());
        }
        let n: usize = self.map.len();
        let mut sum = Amount::zero();
        let mut i: usize = 0;
        while i < n
            invariant
                i <= n,
                n == self.map.rows().len(),
                sum@ == sum_amounts(self.map.rows().take(i as int)),
            decreases n - i,
        {
            proof {
                assert(self.map.rows().take(i + 1).drop_last() =~= self.map.rows().take(i as int));
            }
            match self.map.row(i) {
                Some(row) => {
                    sum = sum.add(&row.value);
                },
                None => {},
            }
            i = i + 1;
        }
        assert(self.map.rows().take(i as int) =~= self.map.rows());
        sum
    }

    /// A copy of the ledger.
    pub fn duplicate(&self) -> (r: StakeLedger)
        ensures
            r@ == self@,
    {
        self.sound();
        let n: usize = self.map.len();
        let mut copy: OrderedMap<ValidatorId, Amount> = OrderedMap::new();
        let mut i: usize = 0;
        assert(self.map.rows().take(0) =~= Seq::<Row<ValidatorId, Amount>>::empty());
        while i < n
            invariant
                i <= n,
                n == self.map.rows().len(),
                copy@ == map_of(self.map.rows().take(i as int)),
            decreases n - i,
        {
            proof {
                let longer = self.map.rows().take(i + 1);
                assert(longer.drop_last() =~= self.map.rows().take(i as int));
                assert(longer.last() == self.map.rows()[i as int]);
            }
            match self.map.row(i) {
                Some(row) => {
                    copy.set(row.key, row.value.duplicate());
                },
                None => {},
            }
            i = i + 1;
        }
        assert(self.map.rows().take(i as int) =~= self.map.rows());
        StakeLedger { map: copy }
    }

    /// Sets the stake of `validator` to `stake`; a stake of zero leaves no entry.
    fn set_stake(&mut self, validator: &ValidatorId, stake: Amount)
        ensures
            final(self)@ == with_stake(old(self)@, validator@, stake@),
    {
        self.sound();
        proof {
            lemma_with_stake_sound(self@, validator@, stake@);
        }
        let mut map: OrderedMap<ValidatorId, Amount> = OrderedMap::new();
        core::mem::swap(&mut self.map, &mut map);
        if stake.is_zero() {
            map.remove(validator);
        } else {
            map.set(*validator, stake);
        }
        self.map = map;
    }

    /// Adds `amount` to the stake of `validator`, with a new entry where it had none.
    /// Adding nothing to a validator without stake leaves no entry.
    pub fn bond(&mut self, validator: &ValidatorId, amount: &Amount)
        ensures
            final(self)@ == with_stake(
                old(self)@,
                validator@,
                stake_of(old(self)@, validator@) + amount@,
            ),
            final(self)@.dom().finite(),
            positive(final(self)@),
            total_stake(final(self)@) == total_stake(old(self)@) + amount@,
    {
        let ghost before = self@;
        self.sound();
        let stake = self.stake(validator).add(amount);
        self.set_stake(validator, stake);
        self.sound();
        proof {
            lemma_total_with_stake(before, validator@, stake@);
        }
    }

    /// Whether no two stakes differ by more than `ceiling`.
    pub fn spread_ok(&self, ceiling: &Amount) -> (r: bool)
        ensures
            r == spread_within(self@, ceiling@),
    {
        self.map.sound();
        let n: usize = self.map.len();
        let mut lo = Amount::zero();
        let mut hi = Amount::zero();
        let ghost mut lo_at: int = 0;
        let ghost mut hi_at: int = 0;
        let mut i: usize = 0;
        while i < n
            invariant
                i <= n,
                n == self.map.rows().len(),
                i > 0 ==> 0 <= lo_at < i && 0 <= hi_at < i,
                i > 0 ==> self.map.rows()[lo_at].value@ == lo@,
                i > 0 ==> self.map.rows()[hi_at].value@ == hi@,
                forall|j: int|
                    0 <= j < i ==> lo@ <= (#[trigger] self.map.rows()[j]).value@ <= hi@,
            decreases n - i,
        {
            match self.map.row(i) {
                Some(row) => {
                    if i == 0 || row.value.lt(&lo) {
                        lo = row.value.duplicate();
                        proof {
                            lo_at = i as int;
                        }
                    }
                    if i == 0 || hi.lt(&row.value) {
                        hi = row.value.duplicate();
                        proof {
                            hi_at = i as int;
                        }
                    }
                },
                None => {},
            }
            i = i + 1;
        }
        if n == 0 {
            assert(self@.dom() =~= Set::<Seq<u8>>::empty());
            return true;
        }
        let bound = lo.add(ceiling);
        let r = hi.le(&bound);
        proof {
            let rows = self.map.rows();
            lemma_map_at(rows, lo_at);
            lemma_map_at(rows, hi_at);
            if r {
                assert forall|a: Seq<u8>, b: Seq<u8>| #[trigger]
                    self@.dom().contains(a) && #[trigger] self@.dom().contains(b) implies self@[a]
                    <= self@[b] + ceiling@ by {
                    let ia = lemma_map_index(rows, a);
                    let ib = lemma_map_index(rows, b);
                    lemma_map_at(rows, ia);
                    lemma_map_at(rows, ib);
                }
            } else {
                let a = rows[hi_at].key@;
                let b = rows[lo_at].key@;
                assert(self@.dom().contains(a) && self@.dom().contains(b));
                assert(self@[a] > self@[b] + ceiling@);
            }
        }
        r
    }

    /// Whether `validator` may add `amount` to its stake, by the limits of `config`.
    /// The ledger is not changed.
    pub fn validate_bonding(&self, validator: &ValidatorId, amount: &Amount, config: &Config) -> (r:
        Result<(), Error>)
        ensures
            r == bonding_verdict(self@, validator@, amount@, config),
    {
        if config.max_increase.lt(amount) {
            return Err(Error::ValidationFailed(Rule::AbsoluteIncrease));
        }
        let asked = amount.mul_u64(MILLION);
        let allowed = self.total().mul_u64(config.max_rel_increase);
        if allowed.lt(&asked) {
            return Err(Error::ValidationFailed(Rule::RelativeIncrease));
        }
        let mut after = self.duplicate();
        after.bond(validator, amount);
        if !after.spread_ok(&config.max_spread) {
            return Err(Error::ValidationFailed(Rule::Spread));
        }
        Ok(())
    }

    /// Takes stake from `validator` and returns what was taken: the amount named, or
    /// the whole stake where none is named. A validator left without stake has no
    /// entry. A request that is refused changes nothing.
    pub fn unbond(&mut self, validator: &ValidatorId, maybe_amount: Option<Amount>, config: &Config) -> (r:
        Result<Amount, Error>)
        ensures
            match r {
                Ok(payout) => {
                    &&& unbonding_verdict(
                        old(self)@,
                        validator@,
                        amount_view(maybe_amount),
                        config,
                    ) == Ok::<nat, Error>(payout@)
                    &&& final(self)@ == with_stake(
                        old(self)@,
                        validator@,
                        (stake_of(old(self)@, validator@) - payout@) as nat,
                    )
                    &&& total_stake(final(self)@) + payout@ == total_stake(old(self)@)
                },
                Err(e) => {
                    &&& unbonding_verdict(
                        old(self)@,
                        validator@,
                        amount_view(maybe_amount),
                        config,
                    ) == Err::<nat, Error>(e)
                    &&& final(self)@ == old(self)@
                },
            },
            final(self)@.dom().finite(),
            positive(final(self)@),
    {
        let ghost before = self@;
        self.sound();
        let stake = self.stake(validator);
        let payout = match maybe_amount {
            None => stake.duplicate(),
            Some(amount) => amount,
        };
        let left = match stake.checked_sub(&payout) {
            None => {
                return Err(Error::InsufficientStake);
            },
            Some(left) => left,
        };
        if config.max_decrease.lt(&payout) {
            return Err(Error::ValidationFailed(Rule::AbsoluteDecrease));
        }
        let asked = payout.mul_u64(MILLION);
        let allowed = self.total().mul_u64(config.max_rel_decrease);
        if allowed.lt(&asked) {
            return Err(Error::ValidationFailed(Rule::RelativeDecrease));
        }
        self.set_stake(validator, left);
        self.sound();
        proof {
            lemma_total_with_stake(before, validator@, left@);
        }
        Ok(payout)
    }
}

/// Whether no stake in `map` is zero.
fn all_positive(map: &OrderedMap<ValidatorId, Amount>) -> (r: bool)
    ensures
        r == amounts_positive(map.rows()),
{
    let n: usize = map.len();
    let mut i: usize = 0;
    while i < n
        invariant
            i <= n,
            n == map.rows().len(),
            forall|j: int| 0 <= j < i ==> (#[trigger] map.rows()[j]).value@ > 0,
        decreases n - i,
    {
        match map.row(i) {
            Some(row) => {
                if row.value.is_zero() {
                    assert(!(map.rows()[i as int].value@ > 0));
                    return false;
                }
            },
            None => {},
        }
        i = i + 1;
    }
    true
}

impl DeepView for StakeLedger {
    type V = Map<Seq<u8>, nat>;

    open spec fn deep_view(&self) -> Map<Seq<u8>, nat> {
        self@
    }
}

impl ToBytes for StakeLedger {
    /// The layout of a map from validators to amounts: a four-byte count of rows,
    /// then the rows in the ascending order of their keys.
    open spec fn encoding(&self) -> Seq<u8> {
        counted_encoding(self.rows())
    }

    open spec fn encodable(&self) -> bool {
        canonical(self.rows()) && counted_encodable(self.rows())
    }

    fn to_bytes(&self) -> (bytes: Vec<u8>) {
        self.map.to_bytes()
    }
}

/// Whether `bytes` are the layout of the rows of a ledger.
pub open spec fn ledger_layout(bytes: Seq<u8>) -> bool {
    exists|rows: Seq<Row<ValidatorId, Amount>>|
        canonical(rows) && counted_encodable(rows) && #[trigger] counted_encoding(rows) == bytes
}

impl FromBytes for StakeLedger {
    /// A ledger is framed as a map from validators to amounts; a map with a stake
    /// of zero is no ledger.
    open spec fn frame(bytes: Seq<u8>) -> Result<nat, bytesrepr::Error> {
        match map_frame::<ValidatorId, Amount>(bytes) {
            Err(e) => Err(e),
            Ok(n) => if ledger_layout(bytes.take(n as int)) {
                Ok(n)
            } else {
                Err(bytesrepr::Error::FormattingError)
            },
        }
    }

    fn from_bytes(bytes: &[u8]) -> (r: Result<(Self, &[u8]), bytesrepr::Error>) {
        match OrderedMap::<ValidatorId, Amount>::from_bytes(bytes) {
            Err(e) => Err(e),
            Ok((map, rem)) => {
                let ghost n = map.encoding().len();
                assert(bytes@.take(n as int) =~= map.encoding());
                if all_positive(&map) {
                    proof {
                        lemma_positive(map.rows());
                    }
                    Ok((StakeLedger { map }, rem))
                } else {
                    proof {
                        assert forall|other: Seq<Row<ValidatorId, Amount>>|
                            canonical(other) && counted_encodable(other)
                                && #[trigger] counted_encoding(other) == bytes@.take(
                                n as int,
                            ) implies false by {
                            lemma_counted_unique::<Row<ValidatorId, Amount>>(other, map.rows());
                            assert forall|i: int| 0 <= i < map.rows().len() implies (
                            #[trigger] map.rows()[i]).value@ > 0 by {
                                assert(other[i].deep_view() == map.rows()[i].deep_view());
                                assert(other[i].value@ > 0);
                            }
                        }
                    }
                    Err(bytesrepr::Error::FormattingError)
                }
            },
        }
    }

    proof fn lemma_frame_within(bytes: Seq<u8>) {
        OrderedMap::<ValidatorId, Amount>::lemma_frame_within(bytes);
    }

    proof fn lemma_frame_of_encoding(&self, rest: Seq<u8>) {
        let all = self.encoding() + rest;
        lemma_map_frame::<ValidatorId, Amount>(self.rows(), rest);
        assert(all.take(self.encoding().len() as int) =~= counted_encoding(self.rows()));
    }

    proof fn lemma_encoding_unique(&self, other: &Self) {
        lemma_counted_unique::<Row<ValidatorId, Amount>>(self.rows(), other.rows());
        lemma_same_rows(self.rows(), other.rows());
    }
}

impl StakeLedger {
    /// The ledger stored in `blob`. A ledger that was never stored is an error: it is
    /// not taken for an empty one.
    pub fn read(blob: Option<&[u8]>) -> (r: Result<StakeLedger, Error>)
        ensures
            match blob {
                None => r is Err && r->Err_0 == Error::LedgerUninitialized,
                Some(bytes) => match r {
                    Ok(ledger) => ledger.encodable() && ledger.encoding() == bytes@,
                    Err(e) => exists|code: bytesrepr::Error|
                        e == Error::SerializationError(code) && whole_frame(
                            StakeLedger::frame(bytes@),
                            bytes@.len(),
                        ) == Err::<nat, bytesrepr::Error>(code),
                },
            },
    {
        match blob {
            None => Err(Error::LedgerUninitialized),
            Some(bytes) => match deserialize::<StakeLedger>(bytes) {
                Err(code) => Err(Error::SerializationError(code)),
                Ok(ledger) => Ok(ledger),
            },
        }
    }

    /// The bytes to store for the ledger.
    pub fn write(&self) -> (bytes: Vec<u8>)
        ensures
            bytes@ == self.encoding(),
    {
        self.to_bytes()
    }
}

} // verus!
