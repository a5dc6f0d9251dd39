use crate::bytesrepr;
use crate::bytesrepr::{
    counted_encodable, counted_encoding, lemma_counted_frame, lemma_counted_unique,
    lemma_round_trip, FromBytes, ToBytes,
};
use vstd::prelude::*;

verus! {

/// Where a key stands relative to another in the order of keys.
#[derive(Debug, Clone, Copy, PartialEq, Eq, Structural)]
pub enum Rank {
    /// The key comes before the other.
    Before,
    /// The keys are the same.
    Same,
    /// The key comes after the other.
    After,
}

/// A key with an order: of two different keys one comes before the other.
pub trait Ordered: DeepView + Sized {
    /// Whether the key `a` comes before the key `b`.
    spec fn before(a: <Self as DeepView>::V, b: <Self as DeepView>::V) -> bool;

    /// Where this key stands relative to `other`.
    fn rank(&self, other: &Self) -> (r: Rank)
        ensures
            r == Rank::Before <==> Self::before(self.deep_view(), other.deep_view()),
            r == Rank::Same <==> self.deep_view() == other.deep_view(),
            r == Rank::After <==> Self::before(other.deep_view(), self.deep_view()),
    ;

    /// No key comes before itself, and of two keys at most one comes before the other.
    proof fn lemma_before_asymmetric(a: <Self as DeepView>::V, b: <Self as DeepView>::V)
        ensures
            !(Self::before(a, b) && Self::before(b, a)),
            Self::before(a, b) ==> a != b,
    ;

    /// The order of keys is transitive.
    proof fn lemma_before_transitive(
        a: <Self as DeepView>::V,
        b: <Self as DeepView>::V,
        c: <Self as DeepView>::V,
    )
        requires
            Self::before(a, b),
            Self::before(b, c),
        ensures
            Self::before(a, c),
    ;
}

impl Ordered for u8 {
    open spec fn before(a: u8, b: u8) -> bool {
        a < b
    }

    fn rank(&self, other: &Self) -> (r: Rank) {
        if *self < *other {
            Rank::Before
        } else if *self == *other {
            Rank::Same
        } else {
            Rank::After
        }
    }

    proof fn lemma_before_asymmetric(a: u8, b: u8) {
    }

    proof fn lemma_before_transitive(a: u8, b: u8, c: u8) {
    }
}

impl Ordered for u32 {
    open spec fn before(a: u32, b: u32) -> bool {
        a < b
    }

    fn rank(&self, other: &Self) -> (r: Rank) {
        if *self < *other {
            Rank::Before
        } else if *self == *other {
            Rank::Same
        } else {
            Rank::After
        }
    }

    proof fn lemma_before_asymmetric(a: u32, b: u32) {
    }

    proof fn lemma_before_transitive(a: u32, b: u32, c: u32) {
    }
}

impl Ordered for u64 {
    open spec fn before(a: u64, b: u64) -> bool {
        a < b
    }

    fn rank(&self, other: &Self) -> (r: Rank) {
        if *self < *other {
            Rank::Before
        } else if *self == *other {
            Rank::Same
        } else {
            Rank::After
        }
    }

    proof fn lemma_before_asymmetric(a: u64, b: u64) {
    }

    proof fn lemma_before_transitive(a: u64, b: u64, c: u64) {
    }
}

/// A key with the value that belongs to it.
#[derive(Debug, PartialEq, Eq)]
pub struct Row<K, V> {
    pub key: K,
    pub value: V,
}

impl<K: DeepView, V: DeepView> DeepView for Row<K, V> {
    type V = (K::V, V::V);

    open spec fn deep_view(&self) -> (K::V, V::V) {
        (self.key.deep_view(), self.value.deep_view())
    }
}

impl<K: ToBytes, V: ToBytes> ToBytes for Row<K, V> {
    /// The key, then the value.
    open spec fn encoding(&self) -> Seq<u8> {
        self.key.encoding() + self.value.encoding()
    }

    open spec fn encodable(&self) -> bool {
        self.key.encodable() && self.value.encodable()
    }

    fn to_bytes(&self) -> (bytes: Vec<u8>) {
        let mut result = self.key.to_bytes();
        let mut value = self.value.to_bytes();
        result.append(&mut value);
        result
    }
}

impl<K: FromBytes, V: FromBytes> FromBytes for Row<K, V> {
    open spec fn frame(bytes: Seq<u8>) -> Result<nat, bytesrepr::Error> {
        match K::frame(bytes) {
            Err(e) => Err(e),
            Ok(a) => match V::frame(bytes.skip(a as int)) {
                Err(e) => Err(e),
                Ok(b) => Ok(a + b),
            },
        }
    }

    fn from_bytes(bytes: &[u8]) -> (r: Result<(Self, &[u8]), bytesrepr::Error>) {
        match K::from_bytes(bytes) {
            Err(e) => Err(e),
            Ok((key, after_key)) => {
                assert(bytes@.skip(key.encoding().len() as int) =~= after_key@);
                match V::from_bytes(after_key) {
                    Err(e) => Err(e),
                    Ok((value, rem)) => {
                        let row = Row { key, value };
                        assert(bytes@ =~= row.encoding() + rem@);
                        Ok((row, rem))
                    },
                }
            },
        }
    }

    proof fn lemma_frame_within(bytes: Seq<u8>) {
        K::lemma_frame_within(bytes);
        if let Ok(a) = K::frame(bytes) {
            V::lemma_frame_within(bytes.skip(a as int));
        }
    }

    proof fn lemma_frame_of_encoding(&self, rest: Seq<u8>) {
        let k = self.key.encoding();
        let v = self.value.encoding();
        let all = self.encoding() + rest;
        self.key.lemma_frame_of_encoding(v + rest);
        assert(all =~= k + (v + rest));
        assert(all.skip(k.len() as int) =~= v + rest);
        self.value.lemma_frame_of_encoding(rest);
    }

    proof fn lemma_encoding_unique(&self, other: &Self) {
        lemma_round_trip::<K>(self.key, self.value.encoding(), other.key, other.value.encoding());
        self.value.lemma_encoding_unique(&other.value);
    }
}

/// Whether the keys of `rows` ascend strictly.
pub open spec fn ascending<K: Ordered, V: DeepView>(rows: Seq<Row<K, V>>) -> bool {
    forall|i: int, j: int|
        0 <= i < j < rows.len() ==> K::before(
            (#[trigger] rows[i]).key.deep_view(),
            (#[trigger] rows[j]).key.deep_view(),
        )
}

/// Whether no two of `rows` have the same key.
pub open spec fn distinct<K: Ordered, V: DeepView>(rows: Seq<Row<K, V>>) -> bool {
    forall|i: int, j: int|
        0 <= i < j < rows.len() ==> (#[trigger] rows[i]).key.deep_view() != (
        #[trigger] rows[j]).key.deep_view()
}

/// Whether `key` is the key of none of `rows`.
pub open spec fn absent<K: Ordered, V: DeepView>(
    rows: Seq<Row<K, V>>,
    key: <K as DeepView>::V,
) -> bool {
    forall|i: int| 0 <= i < rows.len() ==> (#[trigger] rows[i]).key.deep_view() != key
}

/// The mapping that `rows` stand for: each key with the value of its row.
pub open spec fn map_of<K: Ordered, V: DeepView>(rows: Seq<Row<K, V>>) -> Map<
    <K as DeepView>::V,
    <V as DeepView>::V,
>
    decreases rows.len(),
{
    if rows.len() == 0 {
        Map::empty()
    } else {
        map_of(rows.drop_last()).insert(
            rows.last().key.deep_view(),
            rows.last().value.deep_view(),
        )
    }
}

/// Keys that ascend are distinct.
pub proof fn lemma_ascending_distinct<K: Ordered, V: DeepView>(rows: Seq<Row<K, V>>)
    requires
        ascending(rows),
    ensures
        distinct(rows),
{
    assert forall|i: int, j: int| 0 <= i < j < rows.len() implies (#[trigger] rows[i]).key.deep_view()
        != (#[trigger] rows[j]).key.deep_view() by {
        K::lemma_before_asymmetric(rows[i].key.deep_view(), rows[j].key.deep_view());
    }
}

/// Rows without their last are distinct as the rows were, and do not hold its key.
pub proof fn lemma_distinct_drop_last<K: Ordered, V: DeepView>(rows: Seq<Row<K, V>>)
    requires
        distinct(rows),
        rows.len() > 0,
    ensures
        distinct(rows.drop_last()),
        absent(rows.drop_last(), rows.last().key.deep_view()),
{
    let rest = rows.drop_last();
    assert forall|i: int, j: int| 0 <= i < j < rest.len() implies (#[trigger] rest[i]).key.deep_view()
        != (#[trigger] rest[j]).key.deep_view() by {
        assert(rest[i] == rows[i] && rest[j] == rows[j]);
    }
    assert forall|i: int| 0 <= i < rest.len() implies (#[trigger] rest[i]).key.deep_view()
        != rows.last().key.deep_view() by {
        assert(rest[i] == rows[i]);
        assert(rows[i].key.deep_view() != rows[rows.len() - 1].key.deep_view());
    }
}

/// The mapping of finitely many rows has finitely many entries.
pub proof fn lemma_map_finite<K: Ordered, V: DeepView>(rows: Seq<Row<K, V>>)
    ensures
        map_of(rows).dom().finite(),
    decreases rows.len(),
{
    if rows.len() > 0 {
        lemma_map_finite(rows.drop_last());
    }
}

/// A key of none of the rows is no key of their mapping.
pub proof fn lemma_map_absent<K: Ordered, V: DeepView>(
    rows: Seq<Row<K, V>>,
    key: <K as DeepView>::V,
)
    requires
        absent(rows, key),
    ensures
        !map_of(rows).dom().contains(key),
    decreases rows.len(),
{
    if rows.len() > 0 {
        let rest = rows.drop_last();
        assert(rows[rows.len() - 1].key.deep_view() != key);
        assert forall|i: int| 0 <= i < rest.len() implies (#[trigger] rest[i]).key.deep_view()
            != key by {
            assert(rest[i] == rows[i]);
        }
        lemma_map_absent(rest, key);
    }
}

/// A key of the mapping is the key of one of the rows.
pub proof fn lemma_map_index<K: Ordered, V: DeepView>(
    rows: Seq<Row<K, V>>,
    key: <K as DeepView>::V,
) -> (i: int)
    requires
        map_of(rows).dom().contains(key),
    ensures
        0 <= i < rows.len(),
        rows[i].key.deep_view() == key,
    decreases rows.len(),
{
    if rows.last().key.deep_view() == key {
        rows.len() - 1
    } else {
        lemma_map_index(rows.drop_last(), key)
    }
}

/// The mapping gives each key the value of its row.
pub proof fn lemma_map_at<K: Ordered, V: DeepView>(rows: Seq<Row<K, V>>, i: int)
    requires
        distinct(rows),
        0 <= i < rows.len(),
    ensures
        map_of(rows).dom().contains(rows[i].key.deep_view()),
        map_of(rows)[rows[i].key.deep_view()] == rows[i].value.deep_view(),
    decreases rows.len(),
{
    if i < rows.len() - 1 {
        let rest = rows.drop_last();
        assert(rows[i].key.deep_view() != rows[rows.len() - 1].key.deep_view());
        lemma_distinct_drop_last(rows);
        lemma_map_at(rest, i);
    }
}

/// A mapping has as many entries as the rows that stand for it.
pub proof fn lemma_map_len<K: Ordered, V: DeepView>(rows: Seq<Row<K, V>>)
    requires
        distinct(rows),
    ensures
        map_of(rows).dom().finite(),
        map_of(rows).dom().len() == rows.len(),
    decreases rows.len(),
{
    lemma_map_finite(rows);
    if rows.len() > 0 {
        let rest = rows.drop_last();
        lemma_distinct_drop_last(rows);
        lemma_map_absent(rest, rows.last().key.deep_view());
        lemma_map_len(rest);
        lemma_map_finite(rest);
    }
}

/// Rows with the same keys and values stand for the same mapping, and ascend alike.
pub proof fn lemma_same_rows<K: Ordered, V: DeepView>(a: Seq<Row<K, V>>, b: Seq<Row<K, V>>)
    requires
        a.len() == b.len(),
        forall|j: int| 0 <= j < a.len() ==> (#[trigger] a[j]).deep_view() == b[j].deep_view(),
    ensures
        map_of(a) == map_of(b),
        ascending(a) ==> ascending(b),
    decreases a.len(),
{
    if a.len() > 0 {
        assert(a[a.len() - 1].deep_view() == b[b.len() - 1].deep_view());
        assert forall|j: int| 0 <= j < a.drop_last().len() implies (
        #[trigger] a.drop_last()[j]).deep_view() == b.drop_last()[j].deep_view() by {
            assert(a[j].deep_view() == b[j].deep_view());
        }
        lemma_same_rows(a.drop_last(), b.drop_last());
    }
    if ascending(a) {
        assert forall|i: int, j: int| 0 <= i < j < b.len() implies K::before(
            (#[trigger] b[i]).key.deep_view(),
            (#[trigger] b[j]).key.deep_view(),
        ) by {
            assert(a[i].deep_view() == b[i].deep_view());
            assert(a[j].deep_view() == b[j].deep_view());
            assert(K::before(a[i].key.deep_view(), a[j].key.deep_view()));
        }
    }
}

proof fn lemma_map_insert<K: Ordered, V: DeepView>(rows: Seq<Row<K, V>>, p: int, row: Row<K, V>)
    requires
        0 <= p <= rows.len(),
        absent(rows, row.key.deep_view()),
    ensures
        map_of(rows.insert(p, row)) == map_of(rows).insert(
            row.key.deep_view(),
            row.value.deep_view(),
        ),
    decreases rows.len() - p,
{
    let longer = rows.insert(p, row);
    if p == rows.len() {
        assert(longer.drop_last() =~= rows);
    } else {
        let rest = rows.drop_last();
        assert(longer.drop_last() =~= rest.insert(p, row));
        assert(longer.last() == rows.last());
        assert(rows[rows.len() - 1].key.deep_view() != row.key.deep_view());
        assert forall|i: int| 0 <= i < rest.len() implies (#[trigger] rest[i]).key.deep_view()
            != row.key.deep_view() by {
            assert(rest[i] == rows[i]);
        }
        lemma_map_insert(rest, p, row);
        assert(map_of(longer) =~= map_of(rows).insert(row.key.deep_view(), row.value.deep_view()));
    }
}

proof fn lemma_map_update<K: Ordered, V: DeepView>(rows: Seq<Row<K, V>>, i: int, row: Row<K, V>)
    requires
        0 <= i < rows.len(),
        distinct(rows),
        rows[i].key.deep_view() == row.key.deep_view(),
    ensures
        map_of(rows.update(i, row)) == map_of(rows).insert(
            row.key.deep_view(),
            row.value.deep_view(),
        ),
    decreases rows.len(),
{
    let changed = rows.update(i, row);
    let rest = rows.drop_last();
    if i == rows.len() - 1 {
        assert(changed.drop_last() =~= rest);
        assert(map_of(changed) =~= map_of(rows).insert(row.key.deep_view(), row.value.deep_view()));
    } else {
        assert(changed.drop_last() =~= rest.update(i, row));
        assert(changed.last() == rows.last());
        assert(rows[i].key.deep_view() != rows[rows.len() - 1].key.deep_view());
        lemma_distinct_drop_last(rows);
        lemma_map_update(rest, i, row);
        assert(map_of(changed) =~= map_of(rows).insert(row.key.deep_view(), row.value.deep_view()));
    }
}

proof fn lemma_map_remove<K: Ordered, V: DeepView>(rows: Seq<Row<K, V>>, i: int)
    requires
        0 <= i < rows.len(),
        distinct(rows),
    ensures
        map_of(rows.remove(i)) == map_of(rows).remove(rows[i].key.deep_view()),
    decreases rows.len(),
{
    let shorter = rows.remove(i);
    let rest = rows.drop_last();
    lemma_distinct_drop_last(rows);
    if i == rows.len() - 1 {
        assert(shorter =~= rest);
        lemma_map_absent(rest, rows[i].key.deep_view());
        assert(map_of(shorter) =~= map_of(rows).remove(rows[i].key.deep_view()));
    } else {
        assert(shorter.drop_last() =~= rest.remove(i));
        assert(shorter.last() == rows.last());
        assert(rows[i].key.deep_view() != rows[rows.len() - 1].key.deep_view());
        lemma_map_remove(rest, i);
        assert(map_of(shorter) =~= map_of(rows).remove(rows[i].key.deep_view()));
    }
}

/// Where a key stands among the rows of a map.
enum Place {
    /// The row with the key.
    At(usize),
    /// The position at which a row with the key would be inserted.
    Gap(usize),
}

/// A mapping from keys to values, held as rows in the ascending order of their keys.
/// No key has two rows.
#[derive(Debug, PartialEq, Eq)]
pub struct OrderedMap<K: Ordered, V: DeepView> {
    rows: Vec<Row<K, V>>,
}

impl<K: Ordered, V: DeepView> View for OrderedMap<K, V> {
    type V = Map<<K as DeepView>::V, <V as DeepView>::V>;

    open spec fn view(&self) -> Map<<K as DeepView>::V, <V as DeepView>::V> {
        map_of(self.rows())
    }
}

impl<K: Ordered, V: DeepView> DeepView for OrderedMap<K, V> {
    type V = Map<<K as DeepView>::V, <V as DeepView>::V>;

    open spec fn deep_view(&self) -> Map<<K as DeepView>::V, <V as DeepView>::V> {
        self@
    }
}

impl<K: Ordered, V: DeepView> OrderedMap<K, V> {
    #[verifier::type_invariant]
    spec fn well_formed(&self) -> bool {
        ascending(self.rows@)
    }

    /// The rows of the map, in the order of their keys.
    pub closed spec fn rows(&self) -> Seq<Row<K, V>> {
        self.rows@
    }

    /// A map without rows.
    pub fn new() -> (r: OrderedMap<K, V>)
        ensures
            r@ == Map::<<K as DeepView>::V, <V as DeepView>::V>::empty(),
            r.rows() == Seq::<Row<K, V>>::empty(),
    {
        let r = OrderedMap { rows: Vec::new() };
        assert(r.rows() =~= Seq::<Row<K, V>>::empty());
        r
    }

    /// What holds of every map: its keys ascend, and it has finitely many entries.
    pub fn sound(&self)
        ensures
            ascending(self.rows()),
            distinct(self.rows()),
            self@.dom().finite(),
            self@.dom().len() == self.rows().len(),
    {
        proof {
            use_type_invariant(self);
            lemma_ascending_distinct(self.rows@);
            lemma_map_len(self.rows@);
        }
    }

    /// The number of rows.
    pub fn len(&self) -> (r: usize)
        ensures
            r == self.rows().len(),
            r == self@.dom().len(),
    {
        self.sound();
        self.rows.len()
    }

    /// The row at position `i` in the order of the keys, if there are that many.
    pub fn row(&self, i: usize) -> (r: Option<&Row<K, V>>)
        ensures
            i < self.rows().len() ==> r == Some(&self.rows()[i as int]),
            i >= self.rows().len() ==> r is None,
    {
        if i < self.rows.len() {
            Some(&self.rows[i])
        } else {
            None
        }
    }

    fn find(&self, key: &K) -> (r: Place)
        ensures
            match r {
                Place::At(i) => i < self.rows@.len() && self.rows@[i as int].key.deep_view()
                    == key.deep_view(),
                Place::Gap(p) => {
                    &&& p <= self.rows@.len()
                    &&& absent(self.rows@, key.deep_view())
                    &&& forall|j: int|
                        0 <= j < p ==> K::before(
                            (#[trigger] self.rows@[j]).key.deep_view(),
                            key.deep_view(),
                        )
                    &&& forall|j: int|
                        p <= j < self.rows@.len() ==> K::before(
                            key.deep_view(),
                            (#[trigger] self.rows@[j]).key.deep_view(),
                        )
                },
            },
    {
        proof {
            use_type_invariant(self);
        }
        let mut i: usize = 0;
        while i < self.rows.len()
            invariant
                i <= self.rows@.len(),
                ascending(self.rows@),
                forall|j: int|
                    0 <= j < i ==> K::before(
                        (#[trigger] self.rows@[j]).key.deep_view(),
                        key.deep_view(),
                    ),
            decreases self.rows@.len() - i,
        {
            match self.rows[i].key.rank(key) {
                Rank::Before => {},
                Rank::Same => {
                    return Place::At(i);
                },
                Rank::After => {
                    proof {
                        let here = self.rows@[i as int].key.deep_view();
                        assert forall|j: int| i <= j < self.rows@.len() implies K::before(
                            key.deep_view(),
                            (#[trigger] self.rows@[j]).key.deep_view(),
                        ) by {
                            if j > i {
                                assert(K::before(here, self.rows@[j].key.deep_view()));
                                K::lemma_before_transitive(
                                    key.deep_view(),
                                    here,
                                    self.rows@[j].key.deep_view(),
                                );
                            }
                        }
                        assert forall|j: int| 0 <= j < self.rows@.len() implies (
                        #[trigger] self.rows@[j]).key.deep_view() != key.deep_view() by {
                            K::lemma_before_asymmetric(
                                self.rows@[j].key.deep_view(),
                                key.deep_view(),
                            );
                            K::lemma_before_asymmetric(
                                key.deep_view(),
                                self.rows@[j].key.deep_view(),
                            );
                        }
                    }
                    return Place::Gap(i);
                },
            }
            i = i + 1;
        }
        proof {
            assert forall|j: int| 0 <= j < self.rows@.len() implies (
            #[trigger] self.rows@[j]).key.deep_view() != key.deep_view() by {
                K::lemma_before_asymmetric(self.rows@[j].key.deep_view(), key.deep_view());
            }
        }
        Place::Gap(i)
    }

    /// The value of `key`, if the map has one.
    pub fn get(&self, key: &K) -> (r: Option<&V>)
        ensures
            match r {
                Some(value) => self@.dom().contains(key.deep_view()) && self@[key.deep_view()]
                    == value.deep_view(),
                None => !self@.dom().contains(key.deep_view()),
            },
    {
        proof {
            use_type_invariant(self);
            lemma_ascending_distinct(self.rows@);
        }
        match self.find(key) {
            Place::At(i) => {
                proof {
                    lemma_map_at(self.rows@, i as int);
                }
                Some(&self.rows[i].value)
            },
            Place::Gap(_) => {
                proof {
                    lemma_map_absent(self.rows@, key.deep_view());
                }
                None
            },
        }
    }

    /// Gives `key` the value `value`, in place of the value it had, if it had one.
    pub fn set(&mut self, key: K, value: V)
        ensures
            final(self)@ == old(self)@.insert(key.deep_view(), value.deep_view()),
    {
        proof {
            use_type_invariant(&*self);
            lemma_ascending_distinct(self.rows@);
        }
        let place = self.find(&key);
        let row = Row { key, value };
        match place {
            Place::At(i) => {
                proof {
                    lemma_map_update(self.rows@, i as int, row);
                    let changed = self.rows@.update(i as int, row);
                    assert forall|a: int, b: int| 0 <= a < b < changed.len() implies K::before(
                        (#[trigger] changed[a]).key.deep_view(),
                        (#[trigger] changed[b]).key.deep_view(),
                    ) by {
                        assert(K::before(
                            self.rows@[a].key.deep_view(),
                            self.rows@[b].key.deep_view(),
                        ));
                    }
                }
                let mut rows: Vec<Row<K, V>> = Vec::new();
                core::mem::swap(&mut self.rows, &mut rows);
                rows[i] = row;
                self.rows = rows;
            },
            Place::Gap(p) => {
                proof {
                    lemma_map_insert(self.rows@, p as int, row);
                    let longer = self.rows@.insert(p as int, row);
                    assert forall|a: int, b: int| 0 <= a < b < longer.len() implies K::before(
                        (#[trigger] longer[a]).key.deep_view(),
                        (#[trigger] longer[b]).key.deep_view(),
                    ) by {
                        if b < p {
                            assert(K::before(
                                self.rows@[a].key.deep_view(),
                                self.rows@[b].key.deep_view(),
                            ));
                        } else if b == p {
                            assert(K::before(self.rows@[a].key.deep_view(), row.key.deep_view()));
                        } else if a < p {
                            assert(K::before(
                                self.rows@[a].key.deep_view(),
                                self.rows@[b - 1].key.deep_view(),
                            ));
                        } else if a == p {
                            assert(K::before(
                                row.key.deep_view(),
                                self.rows@[b - 1].key.deep_view(),
                            ));
                        } else {
                            assert(K::before(
                                self.rows@[a - 1].key.deep_view(),
                                self.rows@[b - 1].key.deep_view(),
                            ));
                        }
                    }
                }
                let mut rows: Vec<Row<K, V>> = Vec::new();
                core::mem::swap(&mut self.rows, &mut rows);
                rows.insert(p, row);
                self.rows = rows;
            },
        }
    }

    /// Takes the row of `key` out of the map, if it has one.
    pub fn remove(&mut self, key: &K)
        ensures
            final(self)@ == old(self)@.remove(key.deep_view()),
    {
        proof {
            use_type_invariant(&*self);
            lemma_ascending_distinct(self.rows@);
        }
        match self.find(key) {
            Place::At(i) => {
                proof {
                    lemma_map_remove(self.rows@, i as int);
                    let shorter = self.rows@.remove(i as int);
                    assert forall|a: int, b: int| 0 <= a < b < shorter.len() implies K::before(
                        (#[trigger] shorter[a]).key.deep_view(),
                        (#[trigger] shorter[b]).key.deep_view(),
                    ) by {
                        let from_a = if a < i {
                            a
                        } else {
                            a + 1
                        };
                        let from_b = if b < i {
                            b
                        } else {
                            b + 1
                        };
                        assert(K::before(
                            self.rows@[from_a].key.deep_view(),
                            self.rows@[from_b].key.deep_view(),
                        ));
                    }
                }
                let mut rows: Vec<Row<K, V>> = Vec::new();
                core::mem::swap(&mut self.rows, &mut rows);
                rows.remove(i);
                self.rows = rows;
            },
            Place::Gap(_) => {
                proof {
                    lemma_map_absent(self.rows@, key.deep_view());
                    assert(self@.remove(key.deep_view()) =~= self@);
                }
            },
        }
    }
}

/// Whether `bytes` are the layout of the rows of a map: a count, then rows whose
/// keys ascend.
pub open spec fn map_layout<K: Ordered + FromBytes, V: FromBytes>(bytes: Seq<u8>) -> bool {
    exists|rows: Seq<Row<K, V>>|
        ascending(rows) && counted_encodable(rows) && #[trigger] counted_encoding(rows) == bytes
}

/// How a map is framed at the front of `bytes`: its rows are framed as a sequence,
/// and rows whose keys do not ascend are no map.
pub open spec fn map_frame<K: Ordered + FromBytes, V: FromBytes>(bytes: Seq<u8>) -> Result<
    nat,
    bytesrepr::Error,
> {
    match Vec::<Row<K, V>>::frame(bytes) {
        Err(e) => Err(e),
        Ok(n) => if map_layout::<K, V>(bytes.take(n as int)) {
            Ok(n)
        } else {
            Err(bytesrepr::Error::FormattingError)
        },
    }
}

/// The layout of rows whose keys ascend, whatever follows it, is framed as a map
/// and as exactly itself.
pub proof fn lemma_map_frame<K: Ordered + FromBytes, V: FromBytes>(
    rows: Seq<Row<K, V>>,
    rest: Seq<u8>,
)
    requires
        ascending(rows),
        counted_encodable(rows),
    ensures
        map_frame::<K, V>(counted_encoding(rows) + rest) == Ok::<nat, bytesrepr::Error>(
            counted_encoding(rows).len(),
        ),
{
    let all = counted_encoding(rows) + rest;
    lemma_counted_frame::<Row<K, V>>(rows, rest);
    assert(all.take(counted_encoding(rows).len() as int) =~= counted_encoding(rows));
}

/// Whether the keys of `rows` ascend strictly.
fn is_ascending<K: Ordered, V: DeepView>(rows: &Vec<Row<K, V>>) -> (r: bool)
    ensures
        r == ascending(rows@),
{
    let mut i: usize = 1;
    while i < rows.len()
        invariant
            1 <= i,
            forall|a: int, b: int|
                0 <= a < b < i && b < rows@.len() ==> K::before(
                    (#[trigger] rows@[a]).key.deep_view(),
                    (#[trigger] rows@[b]).key.deep_view(),
                ),
        decreases rows@.len() - i,
    {
        match rows[i - 1].key.rank(&rows[i].key) {
            Rank::Before => {
                proof {
                    assert forall|a: int| 0 <= a < i implies K::before(
                        (#[trigger] rows@[a]).key.deep_view(),
                        rows@[i as int].key.deep_view(),
                    ) by {
                        if a < i - 1 {
                            assert(K::before(
                                rows@[a].key.deep_view(),
                                rows@[i - 1].key.deep_view(),
                            ));
                            K::lemma_before_transitive(
                                rows@[a].key.deep_view(),
                                rows@[i - 1].key.deep_view(),
                                rows@[i as int].key.deep_view(),
                            );
                        }
                    }
                }
            },
            _ => {
                assert(!K::before(rows@[i - 1].key.deep_view(), rows@[i as int].key.deep_view()));
                return false;
            },
        }
        i = i + 1;
    }
    true
}

impl<K: Ordered + ToBytes, V: ToBytes> ToBytes for OrderedMap<K, V> {
    /// A four-byte count of rows, then the rows in the ascending order of their keys.
    open spec fn encoding(&self) -> Seq<u8> {
        counted_encoding(self.rows())
    }

    open spec fn encodable(&self) -> bool {
        ascending(self.rows()) && counted_encodable(self.rows())
    }

    fn to_bytes(&self) -> (bytes: Vec<u8>) {
        self.rows.to_bytes()
    }
}

impl<K: Ordered + FromBytes, V: FromBytes> FromBytes for OrderedMap<K, V> {
    open spec fn frame(bytes: Seq<u8>) -> Result<nat, bytesrepr::Error> {
        map_frame::<K, V>(bytes)
    }

    fn from_bytes(bytes: &[u8]) -> (r: Result<(Self, &[u8]), bytesrepr::Error>) {
        match Vec::<Row<K, V>>::from_bytes(bytes) {
            Err(e) => Err(e),
            Ok((rows, rem)) => {
                let ghost n = rows.encoding().len();
                assert(bytes@.take(n as int) =~= rows.encoding());
                if is_ascending(&rows) {
                    Ok((OrderedMap { rows }, rem))
                } else {
                    proof {
                        assert forall|other: Seq<Row<K, V>>|
                            ascending(other) && counted_encodable(other)
                                && #[trigger] counted_encoding(other) == bytes@.take(
                                n as int,
                            ) implies false by {
                            lemma_counted_unique::<Row<K, V>>(other, rows@);
                            lemma_same_rows(other, rows@);
                        }
                    }
                    Err(bytesrepr::Error::FormattingError)
                }
            },
        }
    }

    proof fn lemma_frame_within(bytes: Seq<u8>) {
        Vec::<Row<K, V>>::lemma_frame_within(bytes);
    }

    proof fn lemma_frame_of_encoding(&self, rest: Seq<u8>) {
        lemma_map_frame::<K, V>(self.rows(), rest);
    }

    proof fn lemma_encoding_unique(&self, other: &Self) {
        lemma_counted_unique::<Row<K, V>>(self.rows(), other.rows());
        lemma_same_rows(self.rows(), other.rows());
    }
}

} // verus!
