use vstd::prelude::*;

use crate::state::CardState;

verus! {

/// A reviewable item.
#[derive(Debug, PartialEq, Eq)]
pub struct Card {
    /// Identifier of the item, unique among the items of a session.
    pub filename: String,
    pub title: String,
    pub body: String,
}

/// The map that a sequence of key/value pairs builds when each pair is
/// inserted in turn, a later pair replacing an earlier one of the same key.
pub open spec fn keyed<V>(s: Seq<(Seq<char>, V)>) -> Map<Seq<char>, V>
    decreases s.len(),
{
    if s.len() == 0 {
        Map::empty()
    } else {
        keyed(s.drop_last()).insert(s.last().0, s.last().1)
    }
}

/// No key occurs twice.
pub open spec fn unique_keys<V>(s: Seq<(Seq<char>, V)>) -> bool {
    forall|i: int, j: int| 0 <= i < s.len() && 0 <= j < s.len() && s[i].0 == s[j].0 ==> i == j
}

/// Pairs of identifier and record, as plain values.
pub open spec fn entries_view(s: Seq<(String, CardState)>) -> Seq<(Seq<char>, CardState)> {
    s.map_values(|e: (String, CardState)| (e.0@, e.1))
}

/// Items keyed by their identifiers.
pub open spec fn cards_view(s: Seq<Card>) -> Seq<(Seq<char>, Card)> {
    s.map_values(|c: Card| (c.filename@, c))
}

/// The records of `base`, plus a fresh record anchored at `now` for each of
/// `ids` that `base` lacks.
pub open spec fn with_defaults(
    base: Map<Seq<char>, CardState>,
    ids: Set<Seq<char>>,
    now: i128,
) -> Map<Seq<char>, CardState> {
    Map::new(
        |k: Seq<char>| base.contains_key(k) || ids.contains(k),
        |k: Seq<char>|
            if base.contains_key(k) {
                base[k]
            } else {
                CardState::initial(now)
            },
    )
}

/// A key is in the built map exactly when some pair carries it.
proof fn lemma_keyed_contains<V>(s: Seq<(Seq<char>, V)>, k: Seq<char>)
    ensures
        keyed(s).contains_key(k) <==> exists|i: int| 0 <= i < s.len() && s[i].0 == k,
    decreases s.len(),
{
    if s.len() > 0 {
        lemma_keyed_contains(s.drop_last(), k);
        if keyed(s).contains_key(k) && s.last().0 != k {
            let i = choose|i: int| 0 <= i < s.len() - 1 && s.drop_last()[i].0 == k;
            assert(s[i].0 == k);
        }
        if exists|i: int| 0 <= i < s.len() && s[i].0 == k {
            let i = choose|i: int| 0 <= i < s.len() && s[i].0 == k;
            if i < s.len() - 1 {
                assert(s.drop_last()[i].0 == k);
            }
        }
    }
}

/// Where keys are unique, each pair gives its key's value in the built map.
proof fn lemma_keyed_value<V>(s: Seq<(Seq<char>, V)>, i: int)
    requires
        unique_keys(s),
        0 <= i < s.len(),
    ensures
        keyed(s).contains_key(s[i].0),
        keyed(s)[s[i].0] == s[i].1,
    decreases s.len(),
{
    if i < s.len() - 1 {
        let t = s.drop_last();
        assert(t[i] == s[i]);
        assert(unique_keys(t));
        lemma_keyed_value(t, i);
        assert(s.last().0 != s[i].0);
    }
}

/// Replacing the value of a key that occurs once changes only that key.
proof fn lemma_keyed_update<V>(s: Seq<(Seq<char>, V)>, i: int, v: V)
    requires
        unique_keys(s),
        0 <= i < s.len(),
    ensures
        keyed(s.update(i, (s[i].0, v))) == keyed(s).insert(s[i].0, v),
        unique_keys(s.update(i, (s[i].0, v))),
    decreases s.len(),
{
    let u = s.update(i, (s[i].0, v));
    if i == s.len() - 1 {
        assert(u.drop_last() =~= s.drop_last());
        assert(keyed(u) =~= keyed(s).insert(s[i].0, v));
    } else {
        let t = s.drop_last();
        assert(unique_keys(t));
        lemma_keyed_update(t, i, v);
        assert(u.drop_last() =~= t.update(i, (t[i].0, v)));
        assert(s.last().0 != s[i].0);
        assert(keyed(u) =~= keyed(s).insert(s[i].0, v));
    }
}

/// Appending a pair of a new key inserts it.
proof fn lemma_keyed_push<V>(s: Seq<(Seq<char>, V)>, e: (Seq<char>, V))
    requires
        unique_keys(s),
        !keyed(s).contains_key(e.0),
    ensures
        keyed(s.push(e)) == keyed(s).insert(e.0, e.1),
        unique_keys(s.push(e)),
{
    assert(s.push(e).drop_last() =~= s);
    lemma_keyed_contains(s, e.0);
    assert forall|i: int, j: int|
        0 <= i < s.len() + 1 && 0 <= j < s.len() + 1 && s.push(e)[i].0 == s.push(e)[j].0 implies i
        == j by {
        if i < s.len() && j == s.len() {
            assert(s[i].0 == e.0);
        }
        if j < s.len() && i == s.len() {
            assert(s[j].0 == e.0);
        }
    }
}

/// A due item, and its record open to grading.
#[derive(Debug)]
pub struct Review<'a> {
    pub card: &'a Card,
    pub state: &'a mut CardState,
}

/// The records of all items ever seen, and the items of this session.
///
/// Each vector holds at most one entry per identifier, and every item of the
/// session has a record.
#[derive(Debug)]
pub struct Database {
    state: Vec<(String, CardState)>,
    cards: Vec<Card>,
}

/// A copy of `c`, field by field.
fn copy_card(c: &Card) -> (r: Card)
    ensures
        r == *c,
{
    Card { filename: c.filename.clone(), title: c.title.clone(), body: c.body.clone() }
}

/// Position of the pair of identifier `id`.
fn find_entry(v: &Vec<(String, CardState)>, id: &String) -> (r: Option<usize>)
    ensures
        r matches Some(i) ==> i < v@.len() && v@[i as int].0@ == id@,
        r is None ==> forall|i: int| 0 <= i < v@.len() ==> v@[i].0@ != id@,
{
    let mut i: usize = 0;
    while i < v.len()
        invariant
            i <= v@.len(),
            forall|j: int| 0 <= j < i ==> v@[j].0@ != id@,
        decreases v@.len() - i,
    {
        if v[i].0 == *id {
            return Some(i);
        }
        i = i + 1;
    }
    None
}

/// Position of the item of identifier `id`.
fn find_card(v: &Vec<Card>, id: &String) -> (r: Option<usize>)
    ensures
        r matches Some(i) ==> i < v@.len() && v@[i as int].filename@ == id@,
        r is None ==> forall|i: int| 0 <= i < v@.len() ==> v@[i].filename@ != id@,
{
    let mut i: usize = 0;
    while i < v.len()
        invariant
            i <= v@.len(),
            forall|j: int| 0 <= j < i ==> v@[j].filename@ != id@,
        decreases v@.len() - i,
    {
        if v[i].filename == *id {
            return Some(i);
        }
        i = i + 1;
    }
    None
}

impl Database {
    /// Records by identifier.
    pub closed spec fn state_map(&self) -> Map<Seq<char>, CardState> {
        keyed(entries_view(self.state@))
    }

    /// Items of the session by identifier.
    pub closed spec fn card_map(&self) -> Map<Seq<char>, Card> {
        keyed(cards_view(self.cards@))
    }

    /// One entry per identifier in each vector, and a record for every item.
    pub closed spec fn wf(&self) -> bool {
        &&& unique_keys(entries_view(self.state@))
        &&& unique_keys(cards_view(self.cards@))
        &&& forall|k: Seq<char>| self.card_map().contains_key(k) ==> self.state_map().contains_key(k)
    }

    /// Builds the store from the records of a saved snapshot (empty where
    /// there is none) and the items of the session; each item without a record
    /// gets a fresh one anchored at `now`.
    pub fn open(snapshot: Vec<(String, CardState)>, now: i128, candidates: Vec<Card>) -> (r: Database)
        ensures
            r.wf(),
            r.state_map() == with_defaults(
                keyed(entries_view(snapshot@)),
                keyed(cards_view(candidates@)).dom(),
                now,
            ),
            r.card_map() == keyed(cards_view(candidates@)),
    {
        let mut state: Vec<(String, CardState)> = Vec::new();
        let mut i: usize = 0;
        while i < snapshot.len()
            invariant
                i <= snapshot@.len(),
                unique_keys(entries_view(state@)),
                keyed(entries_view(state@)) == keyed(entries_view(snapshot@.take(i as int))),
            decreases snapshot@.len() - i,
        {
            let e = &snapshot[i];
            let ghost before = entries_view(state@);
            assert(entries_view(snapshot@.take(i + 1)).drop_last() =~= entries_view(
                snapshot@.take(i as int),
            ));
            match find_entry(&state, &e.0) {
                Some(j) => {
                    proof {
                        lemma_keyed_update(before, j as int, e.1);
                    }
                    state.set(j, (e.0.clone(), e.1));
                    assert(entries_view(state@) =~= before.update(j as int, (before[j as int].0, e.1)));
                },
                None => {
                    proof {
                        lemma_keyed_contains(before, e.0@);
                        lemma_keyed_push(before, (e.0@, e.1));
                    }
                    state.push((e.0.clone(), e.1));
                    assert(entries_view(state@) =~= before.push((e.0@, e.1)));
                },
            }
            i = i + 1;
        }
        assert(snapshot@.take(snapshot@.len() as int) =~= snapshot@);
        let ghost base = keyed(entries_view(snapshot@));
        let mut cards: Vec<Card> = Vec::new();
        let mut i: usize = 0;
        while i < candidates.len()
            invariant
                i <= candidates@.len(),
                base == keyed(entries_view(snapshot@)),
                unique_keys(entries_view(state@)),
                unique_keys(cards_view(cards@)),
                keyed(cards_view(cards@)) == keyed(cards_view(candidates@.take(i as int))),
                keyed(entries_view(state@)) == with_defaults(
                    base,
                    keyed(cards_view(candidates@.take(i as int))).dom(),
                    now,
                ),
            decreases candidates@.len() - i,
        {
            let c = copy_card(&candidates[i]);
            let ghost ids = keyed(cards_view(candidates@.take(i as int))).dom();
            assert(cards_view(candidates@.take(i + 1)).drop_last() =~= cards_view(
                candidates@.take(i as int),
            ));
            assert(keyed(cards_view(candidates@.take(i + 1))).dom() =~= ids.insert(c.filename@));
            let ghost before = entries_view(state@);
            match find_entry(&state, &c.filename) {
                Some(j) => {
                    proof {
                        lemma_keyed_value(before, j as int);
                    }
                    assert(with_defaults(base, ids.insert(c.filename@), now) =~= with_defaults(
                        base,
                        ids,
                        now,
                    ));
                },
                None => {
                    proof {
                        lemma_keyed_contains(before, c.filename@);
                        lemma_keyed_push(before, (c.filename@, CardState::initial(now)));
                    }
                    state.push((c.filename.clone(), CardState::new(now)));
                    assert(entries_view(state@) =~= before.push(
                        (c.filename@, CardState::initial(now)),
                    ));
                    assert(with_defaults(base, ids.insert(c.filename@), now) =~= with_defaults(
                        base,
                        ids,
                        now,
                    ).insert(c.filename@, CardState::initial(now)));
                },
            }
            let ghost cbefore = cards_view(cards@);
            match find_card(&cards, &c.filename) {
                Some(j) => {
                    proof {
                        lemma_keyed_update(cbefore, j as int, c);
                    }
                    cards.set(j, c);
                    assert(cards_view(cards@) =~= cbefore.update(j as int, (cbefore[j as int].0, c)));
                },
                None => {
                    proof {
                        lemma_keyed_contains(cbefore, c.filename@);
                        lemma_keyed_push(cbefore, (c.filename@, c));
                    }
                    cards.push(c);
                    assert(cards_view(cards@) =~= cbefore.push((c.filename@, c)));
                },
            }
            i = i + 1;
        }
        assert(candidates@.take(candidates@.len() as int) =~= candidates@);
        Database { state, cards }
    }

    /// Positions of an item that is due at `now` and of its record.
    fn find_due(&self, now: i128) -> (r: Option<(usize, usize)>)
        requires
            self.wf(),
        ensures
            r is None <==> (forall|k: Seq<char>|
                self.card_map().contains_key(k) ==> !self.state_map()[k].due(now)),
            r matches Some((i, j)) ==> {
                let id = self.cards@[i as int].filename@;
                &&& i < self.cards@.len()
                &&& j < self.state@.len()
                &&& self.state@[j as int].0@ == id
                &&& self.card_map().contains_key(id)
                &&& self.card_map()[id] == self.cards@[i as int]
                &&& self.state_map()[id] == self.state@[j as int].1
                &&& self.state@[j as int].1.due(now)
            },
    {
        let ghost sv = entries_view(self.state@);
        let ghost cv = cards_view(self.cards@);
        let mut i: usize = 0;
        while i < self.cards.len()
            invariant
                self.wf(),
                sv == entries_view(self.state@),
                cv == cards_view(self.cards@),
                i <= self.cards@.len(),
                forall|j: int|
                    0 <= j < i ==> !self.state_map()[self.cards@[j].filename@].due(now),
            decreases self.cards@.len() - i,
        {
            let c = &self.cards[i];
            proof {
                assert(cv[i as int].0 == c.filename@);
                lemma_keyed_value(cv, i as int);
                lemma_keyed_contains(sv, c.filename@);
                assert(self.card_map().contains_key(c.filename@));
                assert(self.state_map().contains_key(c.filename@));
            }
            match find_entry(&self.state, &c.filename) {
                Some(j) => {
                    let st = self.state[j].1;
                    proof {
                        assert(sv[j as int].0 == c.filename@);
                        lemma_keyed_value(sv, j as int);
                    }
                    if st.needs_review(now) {
                        assert(self.card_map().contains_key(c.filename@));
                        assert(self.card_map()[c.filename@] == *c);
                        return Some((i, j));
                    }
                },
                None => {
                    proof {
                        let j = choose|j: int| 0 <= j < sv.len() && sv[j].0 == c.filename@;
                        assert(self.state@[j].0@ == c.filename@);
                    }
                },
            }
            i = i + 1;
        }
        proof {
            assert forall|k: Seq<char>| self.card_map().contains_key(k) implies !self.state_map()[k].due(
                now,
            ) by {
                lemma_keyed_contains(cv, k);
                let j = choose|j: int| 0 <= j < cv.len() && cv[j].0 == k;
                assert(self.cards@[j].filename@ == k);
            }
        }
        None
    }

    /// An item of the session that is due at `now`, if there is one, with
    /// its record open to grading. Which of several due items comes first is
    /// not promised.
    pub fn candidate(&mut self, now: i128) -> (r: Option<Review<'_>>)
        requires
            old(self).wf(),
        ensures
            r is None <==> (forall|k: Seq<char>|
                old(self).card_map().contains_key(k) ==> !old(self).state_map()[k].due(now)),
            r is None ==> *final(self) == *old(self),
            r matches Some(rv) ==> {
                let id = rv.card.filename@;
                &&& old(self).card_map().contains_key(id)
                &&& old(self).card_map()[id] == *rv.card
                &&& old(self).state_map()[id] == *rv.state
                &&& rv.state.due(now)
                &&& final(self).wf()
                &&& final(self).card_map() == old(self).card_map()
                &&& final(self).state_map() == old(self).state_map().insert(id, *final(rv.state))
            },
    {
        match self.find_due(now) {
            Some((i, j)) => {
                let ghost sv = entries_view(self.state@);
                let ghost cv = cards_view(self.cards@);
                let ghost id = self.cards@[i as int].filename@;
                let card = &self.cards[i];
                let entry = &mut self.state[j];
                let state = &mut entry.1;
                proof {
                    assert(sv[j as int].0 == id);
                    lemma_entries_set_state(old(self).state@, j as int);
                }
                Some(Review { card, state })
            },
            None => None,
        }
    }

    /// The record of identifier `id`, if there is one.
    pub fn state_of(&self, id: &String) -> (r: Option<CardState>)
        requires
            self.wf(),
        ensures
            r is None <==> !self.state_map().contains_key(id@),
            r matches Some(st) ==> self.state_map()[id@] == st,
    {
        let ghost sv = entries_view(self.state@);
        proof {
            lemma_keyed_contains(sv, id@);
        }
        match find_entry(&self.state, id) {
            Some(j) => {
                proof {
                    assert(sv[j as int].0 == id@);
                    lemma_keyed_value(sv, j as int);
                }
                Some(self.state[j].1)
            },
            None => {
                proof {
                    if self.state_map().contains_key(id@) {
                        let j = choose|j: int| 0 <= j < sv.len() && sv[j].0 == id@;
                        assert(self.state@[j].0@ == id@);
                    }
                }
                None
            },
        }
    }

    /// The records to save: every record of the store, one pair per
    /// identifier.
    pub fn snapshot(&self) -> (r: Vec<(String, CardState)>)
        requires
            self.wf(),
        ensures
            keyed(entries_view(r@)) == self.state_map(),
            unique_keys(entries_view(r@)),
    {
        let mut out: Vec<(String, CardState)> = Vec::new();
        let mut i: usize = 0;
        while i < self.state.len()
            invariant
                i <= self.state@.len(),
                out@.len() == i,
                forall|j: int|
                    0 <= j < i ==> out@[j].0@ == self.state@[j].0@ && out@[j].1 == self.state@[j].1,
            decreases self.state@.len() - i,
        {
            out.push((self.state[i].0.clone(), self.state[i].1));
            i = i + 1;
        }
        assert(entries_view(out@) =~= entries_view(self.state@));
        out
    }
}

/// Setting the record of the pair at `j` changes that identifier's record
/// only, whatever the new record.
proof fn lemma_entries_set_state(t: Seq<(String, CardState)>, j: int)
    requires
        unique_keys(entries_view(t)),
        0 <= j < t.len(),
    ensures
        forall|v: CardState|
            #![trigger t.update(j, (t[j].0, v))]
            keyed(entries_view(t.update(j, (t[j].0, v)))) == keyed(entries_view(t)).insert(t[j].0@, v)
                && unique_keys(entries_view(t.update(j, (t[j].0, v)))),
{
    assert forall|v: CardState|
        #![trigger t.update(j, (t[j].0, v))]
        keyed(entries_view(t.update(j, (t[j].0, v)))) == keyed(entries_view(t)).insert(t[j].0@, v)
            && unique_keys(entries_view(t.update(j, (t[j].0, v)))) by {
        let sv = entries_view(t);
        lemma_keyed_update(sv, j, v);
        assert(entries_view(t.update(j, (t[j].0, v))) =~= sv.update(j, (sv[j].0, v)));
    }
}

/// Saving the records and opening the store again with the same items, at
/// any time, gives back the records that were saved.
pub proof fn lemma_reopen_round_trip(
    db: Database,
    saved: Seq<(String, CardState)>,
    candidates: Seq<Card>,
    now: i128,
)
    requires
        db.wf(),
        keyed(entries_view(saved)) == db.state_map(),
        keyed(cards_view(candidates)) == db.card_map(),
    ensures
        with_defaults(keyed(entries_view(saved)), keyed(cards_view(candidates)).dom(), now)
            == db.state_map(),
{
    assert(with_defaults(keyed(entries_view(saved)), keyed(cards_view(candidates)).dom(), now)
        =~= db.state_map());
}

/// On opening, an item that the snapshot has no record of gets the fresh
/// record anchored at `now`, and each record of the snapshot is kept.
pub proof fn lemma_open_new_items(
    saved: Seq<(String, CardState)>,
    candidates: Seq<Card>,
    now: i128,
    k: Seq<char>,
)
    ensures
        (exists|i: int| 0 <= i < candidates.len() && candidates[i].filename@ == k) && !keyed(
            entries_view(saved),
        ).contains_key(k) ==> {
            let m = with_defaults(keyed(entries_view(saved)), keyed(cards_view(candidates)).dom(), now);
            &&& m.contains_key(k)
            &&& m[k] == CardState::initial(now)
            &&& m[k].num_recalled == 0
            &&& m[k].easiness_factor == 250
            &&& m[k].interval == 0
            &&& m[k].failed
            &&& m[k].last_reviewed == now
        },
        keyed(entries_view(saved)).contains_key(k) ==> with_defaults(
            keyed(entries_view(saved)),
            keyed(cards_view(candidates)).dom(),
            now,
        )[k] == keyed(entries_view(saved))[k],
{
    let cv = cards_view(candidates);
    lemma_keyed_contains(cv, k);
    if exists|i: int| 0 <= i < candidates.len() && candidates[i].filename@ == k {
        let i = choose|i: int| 0 <= i < candidates.len() && candidates[i].filename@ == k;
        assert(cv[i].0 == k);
    }
}

} // verus!
