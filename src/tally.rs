//! Per-record card tallies: the summed copy count of each card name, in first-seen order.
use vstd::prelude::*;
use vstd::hash_map::{HashMapWithView, StringHashMap};
use crate::date::{path_age, path_age_days, DAY_INPUT_LIMIT};
use crate::record::{board, decks_of, record_matches, record_selected, Card, Deck, DecklistFile};

verus! {

/// Addition that stops at `u64::MAX`.
pub open spec fn sat_add(a: u64, b: u64) -> u64 {
    if a + b > u64::MAX {
        u64::MAX
    } else {
        (a + b) as u64
    }
}

/// The count recorded for `k`, zero where there is none.
pub open spec fn count_or_zero(m: Map<Seq<char>, u64>, k: Seq<char>) -> u64 {
    if m.contains_key(k) {
        m[k]
    } else {
        0
    }
}

/// `m` with `c` more copies of `name`.
pub open spec fn tally_add(m: Map<Seq<char>, u64>, name: Seq<char>, c: u64) -> Map<Seq<char>, u64> {
    m.insert(name, sat_add(count_or_zero(m, name), c))
}

/// `m` with every card line of `cards` added, in order.
pub open spec fn add_cards(m: Map<Seq<char>, u64>, cards: Seq<Card>) -> Map<Seq<char>, u64>
    decreases cards.len(),
{
    if cards.len() == 0 {
        m
    } else {
        tally_add(add_cards(m, cards.drop_last()), cards.last().name@, cards.last().count as u64)
    }
}

/// `m` with the mainboard and then the sideboard of every deck of `decks` added, in order.
pub open spec fn add_decks(m: Map<Seq<char>, u64>, decks: Seq<Deck>) -> Map<Seq<char>, u64>
    decreases decks.len(),
{
    if decks.len() == 0 {
        m
    } else {
        add_cards(
            add_cards(add_decks(m, decks.drop_last()), board(decks.last().mainboard)),
            board(decks.last().sideboard),
        )
    }
}

/// The card counts of a whole record.
pub open spec fn record_tally(f: DecklistFile) -> Map<Seq<char>, u64> {
    add_decks(Map::empty(), decks_of(f))
}

/// Sum by name over the union of names.
pub open spec fn sum_tallies(a: Map<Seq<char>, u64>, b: Map<Seq<char>, u64>) -> Map<Seq<char>, u64> {
    Map::new(
        |k: Seq<char>| a.contains_key(k) || b.contains_key(k),
        |k: Seq<char>| sat_add(count_or_zero(a, k), count_or_zero(b, k)),
    )
}

/// Summed copy counts by exact card name. `names` keeps each name once, in the order in which
/// it was first added; `counts` holds the totals.
pub struct CardTally {
    names: Vec<String>,
    counts: StringHashMap<u64>,
}

impl View for CardTally {
    type V = Map<Seq<char>, u64>;

    closed spec fn view(&self) -> Map<Seq<char>, u64> {
        self.counts@
    }
}

impl CardTally {
    /// The names, in first-seen order.
    pub closed spec fn order(&self) -> Seq<Seq<char>> {
        Seq::new(self.names@.len(), |i: int| self.names@[i]@)
    }

    /// Each name is listed once, and the listed names are exactly the counted ones.
    pub closed spec fn wf(&self) -> bool {
        &&& forall|i: int| 0 <= i < self.names@.len() ==> self.counts@.contains_key(#[trigger] self.names@[i]@)
        &&& forall|k: Seq<char>|
            #[trigger] self.counts@.contains_key(k) ==> exists|i: int|
                0 <= i < self.names@.len() && #[trigger] self.names@[i]@ == k
        &&& forall|i: int, j: int|
            0 <= i < j < self.names@.len() ==> self.names@[i]@ != self.names@[j]@
    }

    pub fn new() -> (r: CardTally)
        ensures
            r.wf(),
            r@ == Map::<Seq<char>, u64>::empty(),
            r.order() == Seq::<Seq<char>>::empty(),
    {
        let r = CardTally { names: Vec::new(), counts: StringHashMap::new() };
        assert(r.order() =~= Seq::<Seq<char>>::empty());
        r
    }

    /// Adds `c` copies of `name`; a new name goes to the end of the order.
    pub fn add(&mut self, name: &String, c: u64)
        requires
            old(self).wf(),
        ensures
            final(self).wf(),
            final(self)@ == tally_add(old(self)@, name@, c),
            old(self)@.contains_key(name@) ==> final(self).order() == old(self).order(),
            !old(self)@.contains_key(name@) ==> final(self).order() == old(self).order().push(
                name@,
            ),
    {
        match self.counts.get(name.as_str()) {
            Some(v) => {
                let n = v.saturating_add(c);
                self.counts.insert(name.clone(), n);
                assert(self.order() =~= old(self).order());
            },
            None => {
                self.names.push(name.clone());
                self.counts.insert(name.clone(), c);
                assert(self.order() =~= old(self).order().push(name@));
                assert forall|k: Seq<char>| #[trigger]
                    self.counts@.contains_key(k) implies exists|i: int|
                    0 <= i < self.names@.len() && #[trigger] self.names@[i]@ == k by {
                    if k != name@ {
                        let i = choose|i: int|
                            0 <= i < old(self).names@.len() && #[trigger] old(self).names@[i]@
                                == k;
                        assert(self.names@[i] == old(self).names@[i]);
                    } else {
                        assert(self.names@[self.names@.len() - 1]@ == k);
                    }
                }
            },
        }
    }

    /// The total for `name`, if it was ever added.
    pub fn count(&self, name: &str) -> (r: Option<u64>)
        ensures
            r == (if self@.contains_key(name@) {
                Some(self@[name@])
            } else {
                None::<u64>
            }),
    {
        match self.counts.get(name) {
            Some(v) => Some(*v),
            None => None,
        }
    }

    /// The number of distinct names.
    pub fn len(&self) -> (r: usize)
        requires
            self.wf(),
        ensures
            r == self.order().len(),
    {
        self.names.len()
    }

    /// Each name with its total, in first-seen order.
    pub fn entries(&self) -> (r: Vec<(String, u64)>)
        requires
            self.wf(),
        ensures
            r@.len() == self.order().len(),
            forall|i: int|
                0 <= i < r@.len() ==> (#[trigger] r@[i]).0@ == self.order()[i] && r@[i].1
                    == self@[self.order()[i]],
    {
        let mut r: Vec<(String, u64)> = Vec::new();
        let mut i: usize = 0;
        while i < self.names.len()
            invariant
                self.wf(),
                i <= self.names@.len(),
                r@.len() == i,
                forall|j: int|
                    0 <= j < i ==> (#[trigger] r@[j]).0@ == self.order()[j] && r@[j].1
                        == self@[self.order()[j]],
            decreases self.names@.len() - i,
        {
            let name = &self.names[i];
            assert(self.counts@.contains_key(self.names@[i as int]@));
            let v = match self.counts.get(name.as_str()) {
                Some(v) => *v,
                None => 0,
            };
            r.push((name.clone(), v));
            i = i + 1;
        }
        r
    }

    /// Adds every count of `other`; names new to `self` go to the end, in `other`'s order.
    pub fn merge(&mut self, other: &CardTally)
        requires
            old(self).wf(),
            other.wf(),
        ensures
            final(self).wf(),
            final(self)@ == sum_tallies(old(self)@, other@),
    {
        let ghost mut seen: Set<Seq<char>> = Set::empty();
        let mut i: usize = 0;
        while i < other.names.len()
            invariant
                self.wf(),
                other.wf(),
                i <= other.names@.len(),
                forall|k: Seq<char>| seen.contains(k) ==> other@.contains_key(k),
                forall|j: int| 0 <= j < i ==> seen.contains(#[trigger] other.names@[j]@),
                forall|j: int|
                    i <= j < other.names@.len() ==> !seen.contains(#[trigger] other.names@[j]@),
                self@ == sum_tallies(old(self)@, other@.restrict(seen)),
            decreases other.names@.len() - i,
        {
            let name = &other.names[i];
            assert(other.counts@.contains_key(name@));
            let c = match other.counts.get(name.as_str()) {
                Some(v) => *v,
                None => 0,
            };
            let ghost before = self@;
            self.add(name, c);
            proof {
                seen = seen.insert(name@);
                assert(self@ =~= sum_tallies(old(self)@, other@.restrict(seen)));
                assert forall|j: int| i + 1 <= j < other.names@.len() implies !seen.contains(
                    #[trigger] other.names@[j]@,
                ) by {
                    assert(other.names@[j]@ != other.names@[i as int]@);
                }
            }
            i = i + 1;
        }
        assert(other@.restrict(seen) =~= other@);
    }

    proof fn lemma_entries_list(&self, rows: Seq<(String, u64)>)
        requires
            self.wf(),
            rows.len() == self.order().len(),
            forall|i: int|
                0 <= i < rows.len() ==> (#[trigger] rows[i]).0@ == self.order()[i] && rows[i].1
                    == self@[self.order()[i]],
        ensures
            lists_tally(rows, self@),
    {
        assert forall|k: Seq<char>| self@.contains_key(k) implies exists|i: int|
            0 <= i < rows.len() && #[trigger] rows[i].0@ == k by {
            let i = choose|i: int| 0 <= i < self.names@.len() && #[trigger] self.names@[i]@ == k;
            assert(rows[i].0@ == k);
        }
    }

    /// Adds every card line of `cards`, in order.
    pub fn add_board(&mut self, cards: &Vec<Card>)
        requires
            old(self).wf(),
        ensures
            final(self).wf(),
            final(self)@ == add_cards(old(self)@, cards@),
    {
        let mut j: usize = 0;
        while j < cards.len()
            invariant
                self.wf(),
                j <= cards@.len(),
                self@ == add_cards(old(self)@, cards@.subrange(0, j as int)),
            decreases cards@.len() - j,
        {
            let card = &cards[j];
            self.add(&card.name, card.count as u64);
            assert(cards@.subrange(0, j + 1).drop_last() =~= cards@.subrange(0, j as int));
            j = j + 1;
        }
        assert(cards@.subrange(0, cards@.len() as int) =~= cards@);
    }
}

/// The card counts of every deck of a record, mainboard and sideboard alike.
pub fn tally_record(data: &DecklistFile) -> (r: CardTally)
    ensures
        r.wf(),
        r@ == record_tally(*data),
{
    let mut t = CardTally::new();
    match &data.decks {
        None => {},
        Some(decks) => {
            let mut i: usize = 0;
            while i < decks.len()
                invariant
                    t.wf(),
                    i <= decks@.len(),
                    decks_of(*data) == decks@,
                    t@ == add_decks(Map::empty(), decks@.subrange(0, i as int)),
                decreases decks@.len() - i,
            {
                let deck = &decks[i];
                let ghost before = t@;
                match &deck.mainboard {
                    Some(b) => t.add_board(b),
                    None => {},
                }
                assert(t@ == add_cards(before, board(deck.mainboard)));
                let ghost mid = t@;
                match &deck.sideboard {
                    Some(b) => t.add_board(b),
                    None => {},
                }
                assert(t@ == add_cards(mid, board(deck.sideboard)));
                assert(decks@.subrange(0, i + 1).drop_last() =~= decks@.subrange(0, i as int));
                i = i + 1;
            }
            assert(decks@.subrange(0, decks@.len() as int) =~= decks@);
        },
    }
    t
}

/// What one record contributes to the ranking: its age in days and its card counts.
pub struct FileTally {
    pub age: i64,
    pub cards: CardTally,
}

/// The contribution of the record `data` stored at `path`, or `None` where it contributes
/// nothing: its path holds no date, it is older than `max_age` days, or its format is absent or
/// matches none of `format_patterns`.
pub fn process_file(
    path: &str,
    data: &DecklistFile,
    format_patterns: &[String],
    today: i64,
    max_age: i64,
) -> (r: Option<FileTally>)
    requires
        -DAY_INPUT_LIMIT <= today <= DAY_INPUT_LIMIT,
    ensures
        r is Some <==> {
            &&& path_age(path@, today as int) is Some
            &&& path_age(path@, today as int).unwrap() <= max_age
            &&& record_selected(*data, format_patterns@)
        },
        r is Some ==> r.unwrap().age == path_age(path@, today as int).unwrap(),
        r is Some ==> r.unwrap().cards.wf() && r.unwrap().cards@ == record_tally(*data),
{
    let age = match path_age_days(path, today) {
        Some(a) => a,
        None => return None,
    };
    if age > max_age {
        return None;
    }
    if !record_matches(data, format_patterns) {
        return None;
    }
    Some(FileTally { age, cards: tally_record(data) })
}

/// The counts of the records aged `age` days, empty where there are none.
pub open spec fn tally_at(m: Map<i64, Map<Seq<char>, u64>>, age: i64) -> Map<Seq<char>, u64> {
    if m.contains_key(age) {
        m[age]
    } else {
        Map::empty()
    }
}

/// Sum by age and name over the union of both.
pub open spec fn sum_aged(
    a: Map<i64, Map<Seq<char>, u64>>,
    b: Map<i64, Map<Seq<char>, u64>>,
) -> Map<i64, Map<Seq<char>, u64>> {
    Map::new(
        |x: i64| a.contains_key(x) || b.contains_key(x),
        |x: i64| sum_tallies(tally_at(a, x), tally_at(b, x)),
    )
}

/// Card counts of many records, grouped by the records' age in days, so that a weight that
/// depends on the age alone can be applied once per group. `ages` keeps each age once, in the
/// order in which it was first added.
pub struct AgedTally {
    ages: Vec<i64>,
    groups: HashMapWithView<i64, CardTally>,
}

impl View for AgedTally {
    type V = Map<i64, Map<Seq<char>, u64>>;

    closed spec fn view(&self) -> Map<i64, Map<Seq<char>, u64>> {
        Map::new(|x: i64| self.groups@.contains_key(x), |x: i64| self.groups@[x]@)
    }
}

impl AgedTally {
    /// Each age is listed once, the listed ages are exactly the grouped ones, and every group is
    /// well formed.
    pub closed spec fn wf(&self) -> bool {
        &&& forall|i: int| 0 <= i < self.ages@.len() ==> self.groups@.contains_key(#[trigger] self.ages@[i])
        &&& forall|x: i64|
            #[trigger] self.groups@.contains_key(x) ==> exists|i: int|
                0 <= i < self.ages@.len() && #[trigger] self.ages@[i] == x
        &&& forall|i: int, j: int| 0 <= i < j < self.ages@.len() ==> self.ages@[i] != self.ages@[j]
        &&& forall|x: i64| #[trigger] self.groups@.contains_key(x) ==> self.groups@[x].wf()
    }

    /// A tally of no records.
    pub fn new() -> (r: AgedTally)
        ensures
            r.wf(),
            r@ == Map::<i64, Map<Seq<char>, u64>>::empty(),
    {
        broadcast use vstd::std_specs::hash::group_hash_axioms;

        let r = AgedTally { ages: Vec::new(), groups: HashMapWithView::new() };
        assert(r@ =~= Map::<i64, Map<Seq<char>, u64>>::empty());
        r
    }

    /// Adds the counts `cards` of a record aged `age` days.
    pub fn add_group(&mut self, age: i64, cards: CardTally)
        requires
            old(self).wf(),
            cards.wf(),
        ensures
            final(self).wf(),
            final(self)@ == old(self)@.insert(age, sum_tallies(tally_at(old(self)@, age), cards@)),
    {
        match self.groups.remove(&age) {
            Some(existing) => {
                let mut t = existing;
                t.merge(&cards);
                self.groups.insert(age, t);
                assert(self@ =~= old(self)@.insert(
                    age,
                    sum_tallies(tally_at(old(self)@, age), cards@),
                ));
            },
            None => {
                let mut t = CardTally::new();
                t.merge(&cards);
                self.ages.push(age);
                self.groups.insert(age, t);
                assert(self@ =~= old(self)@.insert(
                    age,
                    sum_tallies(tally_at(old(self)@, age), cards@),
                ));
                assert forall|x: i64| #[trigger]
                    self.groups@.contains_key(x) implies exists|i: int|
                    0 <= i < self.ages@.len() && #[trigger] self.ages@[i] == x by {
                    if x != age {
                        let i = choose|i: int|
                            0 <= i < old(self).ages@.len() && #[trigger] old(self).ages@[i] == x;
                        assert(self.ages@[i] == old(self).ages@[i]);
                    } else {
                        assert(self.ages@[self.ages@.len() - 1] == x);
                    }
                }
            },
        }
    }

    /// The tally of the one record `f`.
    pub fn from_file(f: FileTally) -> (r: AgedTally)
        requires
            f.cards.wf(),
        ensures
            r.wf(),
            r@ == Map::<i64, Map<Seq<char>, u64>>::empty().insert(f.age, f.cards@),
    {
        let mut r = AgedTally::new();
        r.add_group(f.age, f.cards);
        proof {
            lemma_sum_tallies_identity(f.cards@);
        }
        r
    }

    /// Adds every group of `other`.
    pub fn merge(&mut self, other: AgedTally)
        requires
            old(self).wf(),
            other.wf(),
        ensures
            final(self).wf(),
            final(self)@ == sum_aged(old(self)@, other@),
    {
        let mut rest = other;
        let ghost mut seen: Set<i64> = Set::empty();
        proof {
            assert(other@.restrict(seen) =~= Map::empty());
            lemma_sum_aged_identity(old(self)@);
        }
        let mut i: usize = 0;
        while i < rest.ages.len()
            invariant
                self.wf(),
                other.wf(),
                rest.ages@ == other.ages@,
                i <= rest.ages@.len(),
                forall|x: i64| seen.contains(x) ==> other@.contains_key(x),
                forall|j: int| 0 <= j < i ==> seen.contains(#[trigger] other.ages@[j]),
                forall|j: int|
                    i <= j < other.ages@.len() ==> !seen.contains(#[trigger] other.ages@[j]),
                forall|j: int|
                    i <= j < other.ages@.len() ==> rest.groups@.contains_key(#[trigger] other.ages@[j]),
                forall|x: i64| #[trigger] rest.groups@.contains_key(x) ==> rest.groups@[x].wf(),
                forall|x: i64|
                    #[trigger] rest.groups@.contains_key(x) ==> other.groups@.contains_key(x)
                        && rest.groups@[x]@ == other.groups@[x]@,
                self@ == sum_aged(old(self)@, other@.restrict(seen)),
            decreases other.ages@.len() - i,
        {
            let age = rest.ages[i];
            assert(rest.groups@.contains_key(other.ages@[i as int]));
            match rest.groups.remove(&age) {
                Some(t) => {
                    let ghost before = self@;
                    self.add_group(age, t);
                    proof {
                        lemma_sum_tallies_identity_right(tally_at(old(self)@, age));
                        assert(tally_at(before, age) == tally_at(old(self)@, age));
                        seen = seen.insert(age);
                        let target = sum_aged(old(self)@, other@.restrict(seen));
                        assert forall|x: i64| #[trigger] target.contains_key(x) implies self@.contains_key(x) && self@[x] == target[x] by {
                            if x != age {
                                assert(tally_at(other@.restrict(seen), x) == tally_at(other@.restrict(seen.remove(age)), x));
                            }
                        }
                        assert(self@ =~= target);
                        assert forall|j: int| i + 1 <= j < other.ages@.len() implies !seen.contains(
                            #[trigger] other.ages@[j],
                        ) by {
                            assert(other.ages@[j] != other.ages@[i as int]);
                        }
                    }
                },
                None => {},
            }
            i = i + 1;
        }
        assert forall|x: i64| #[trigger] other@.contains_key(x) implies seen.contains(x) by {
            let j = choose|j: int| 0 <= j < other.ages@.len() && #[trigger] other.ages@[j] == x;
        }
        assert(other@.restrict(seen) =~= other@);
    }

    /// Each age group, in first-seen order, with the totals of its names.
    pub fn groups(&self) -> (r: Vec<(i64, Vec<(String, u64)>)>)
        requires
            self.wf(),
        ensures
            forall|i: int, j: int| 0 <= i < j < r@.len() ==> r@[i].0 != r@[j].0,
            forall|x: i64| self@.contains_key(x) <==> exists|i: int| 0 <= i < r@.len() && #[trigger] r@[i].0 == x,
            forall|i: int|
                0 <= i < r@.len() ==> self@.contains_key((#[trigger] r@[i]).0) && lists_tally(
                    r@[i].1@,
                    self@[r@[i].0],
                ),
    {
        let mut r: Vec<(i64, Vec<(String, u64)>)> = Vec::new();
        let mut i: usize = 0;
        while i < self.ages.len()
            invariant
                self.wf(),
                i <= self.ages@.len(),
                r@.len() == i,
                forall|j: int| 0 <= j < i ==> (#[trigger] r@[j]).0 == self.ages@[j],
                forall|j: int|
                    0 <= j < i ==> self@.contains_key((#[trigger] r@[j]).0) && lists_tally(
                        r@[j].1@,
                        self@[r@[j].0],
                    ),
            decreases self.ages@.len() - i,
        {
            let age = self.ages[i];
            assert(self.groups@.contains_key(age));
            let rows = match self.groups.get(&age) {
                Some(t) => {
                    let rows = t.entries();
                    proof {
                        t.lemma_entries_list(rows@);
                    }
                    rows
                },
                None => Vec::new(),
            };
            r.push((age, rows));
            i = i + 1;
        }
        assert forall|x: i64| self@.contains_key(x) implies exists|i: int|
            0 <= i < r@.len() && #[trigger] r@[i].0 == x by {
            let j = choose|j: int| 0 <= j < self.ages@.len() && #[trigger] self.ages@[j] == x;
            assert(r@[j].0 == x);
        }
        r
    }
}

/// `rows` lists the names of `m`, each once, with its total.
pub open spec fn lists_tally(rows: Seq<(String, u64)>, m: Map<Seq<char>, u64>) -> bool {
    &&& forall|i: int, j: int| 0 <= i < j < rows.len() ==> rows[i].0@ != rows[j].0@
    &&& forall|k: Seq<char>| m.contains_key(k) <==> exists|i: int| 0 <= i < rows.len() && #[trigger] rows[i].0@ == k
    &&& forall|i: int|
        0 <= i < rows.len() ==> m.contains_key((#[trigger] rows[i]).0@) && rows[i].1 == m[rows[i].0@]
}

proof fn lemma_sum_tallies_identity_right(t: Map<Seq<char>, u64>)
    ensures
        sum_tallies(t, Map::empty()) == t,
{
    assert(sum_tallies(t, Map::empty()) =~= t);
}

proof fn lemma_sum_aged_identity(a: Map<i64, Map<Seq<char>, u64>>)
    ensures
        sum_aged(a, Map::empty()) == a,
{
    assert forall|x: i64| #[trigger] a.contains_key(x) implies sum_aged(a, Map::empty())[x] == a[x] by {
        lemma_sum_tallies_identity_right(a[x]);
        assert(tally_at(Map::<i64, Map<Seq<char>, u64>>::empty(), x) =~= Map::empty());
    }
    assert(sum_aged(a, Map::empty()) =~= a);
}

proof fn lemma_sum_tallies_identity(t: Map<Seq<char>, u64>)
    ensures
        sum_tallies(Map::empty(), t) == t,
{
    assert(sum_tallies(Map::empty(), t) =~= t);
}

/// Merging two partial tallies gives the same counts, by age and name, in either order.
pub proof fn lemma_merge_commutative(a: AgedTally, b: AgedTally)
    ensures
        sum_aged(a@, b@) == sum_aged(b@, a@),
{
    assert forall|x: i64| #[trigger] sum_aged(a@, b@).contains_key(x) implies sum_aged(a@, b@)[x]
        == sum_aged(b@, a@)[x] by {
        assert(sum_tallies(tally_at(a@, x), tally_at(b@, x)) =~= sum_tallies(
            tally_at(b@, x),
            tally_at(a@, x),
        ));
    }
    assert(sum_aged(a@, b@) =~= sum_aged(b@, a@));
}

/// Merging three partial tallies gives the same counts however the merges are grouped.
pub proof fn lemma_merge_associative(a: AgedTally, b: AgedTally, c: AgedTally)
    ensures
        sum_aged(sum_aged(a@, b@), c@) == sum_aged(a@, sum_aged(b@, c@)),
{
    let l = sum_aged(sum_aged(a@, b@), c@);
    let r = sum_aged(a@, sum_aged(b@, c@));
    assert forall|x: i64| #[trigger] l.contains_key(x) implies l[x] == r[x] by {
        let (ta, tb, tc) = (tally_at(a@, x), tally_at(b@, x), tally_at(c@, x));
        assert(tally_at(sum_aged(a@, b@), x) =~= sum_tallies(ta, tb));
        assert(tally_at(sum_aged(b@, c@), x) =~= sum_tallies(tb, tc));
        assert(sum_tallies(sum_tallies(ta, tb), tc) =~= sum_tallies(ta, sum_tallies(tb, tc)));
    }
    assert(l =~= r);
}

} // verus!
