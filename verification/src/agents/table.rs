//! The table-driven agent: the action is looked up under the whole history.
//!
//! The agent keeps every percept it has received, in order, and answers each
//! new percept with the action that a table holds for the complete history.
//! The table is finite and supplied by the caller; the agent never adds to it.

use vstd::laws_eq::obeys_concrete_eq;
use vstd::prelude::*;

verus! {

/// The one way in which a table-driven agent fails.
#[derive(PartialEq, Eq, Structural, Clone, Copy, Debug)]
pub enum LookupError {
    /// The table holds no entry for the history received so far.
    NotFound,
}

/// Tells whether two percept sequences are the same sequence.
pub fn same_history<Percept: Eq>(left: &Vec<Percept>, right: &Vec<Percept>) -> (same: bool)
    requires
        obeys_concrete_eq::<Percept>(),
    ensures
        same == (left@ == right@),
{
    if left.len() != right.len() {
        return false;
    }
    let mut i: usize = 0;
    while i < left.len()
        invariant
            obeys_concrete_eq::<Percept>(),
            left.len() == right.len(),
            i <= left.len(),
            forall|j: int| 0 <= j < i ==> left@[j] == right@[j],
        decreases left.len() - i,
    {
        proof {
            reveal(obeys_concrete_eq);
        }
        if left[i] != right[i] {
            return false;
        }
        i += 1;
    }
    assert(left@ =~= right@);
    true
}

/// The histories of a list of entries, in the order of the list.
spec fn keys_of<Percept, Action>(entries: Seq<(Vec<Percept>, Action)>) -> Seq<
    Seq<Percept>,
> {
    Seq::new(entries.len(), |i: int| entries[i].0@)
}

/// The mapping that a list of entries stands for.
spec fn mapping_of<Percept, Action>(entries: Seq<(Vec<Percept>, Action)>) -> Map<
    Seq<Percept>,
    Action,
> {
    Map::new(
        |history: Seq<Percept>| keys_of(entries).contains(history),
        |history: Seq<Percept>| entries[keys_of(entries).index_of(history)].1,
    )
}

/// Of a list of entries with distinct histories: the mapping's domain is the
/// set of those histories, as large as the list is long, and each history is
/// mapped to the action listed beside it.
proof fn lemma_mapping_of<Percept, Action>(entries: Seq<(Vec<Percept>, Action)>)
    requires
        keys_of(entries).no_duplicates(),
    ensures
        mapping_of(entries).dom().finite(),
        mapping_of(entries).dom().len() == entries.len(),
        forall|i: int|
            0 <= i < entries.len() ==> mapping_of(entries).contains_key(
                #[trigger] keys_of(entries)[i],
            ) && mapping_of(entries)[keys_of(entries)[i]] == entries[i].1,
{
    let keys = keys_of(entries);
    keys.unique_seq_to_set();
    vstd::seq_lib::seq_to_set_is_finite(keys);
    assert(mapping_of(entries).dom() =~= keys.to_set());
    assert forall|i: int| 0 <= i < entries.len() implies mapping_of(entries).contains_key(
        #[trigger] keys[i],
    ) && mapping_of(entries)[keys[i]] == entries[i].1 by {
        assert(keys.contains(keys[i]));
        let j = keys.index_of(keys[i]);
        assert(0 <= j < keys.len() && keys[j] == keys[i]);
    }
}

/// Where the entry for `history` stands in the list, if there is one.
fn position<Percept: Eq, Action>(
    entries: &Vec<(Vec<Percept>, Action)>,
    history: &Vec<Percept>,
) -> (found: Option<usize>)
    requires
        obeys_concrete_eq::<Percept>(),
    ensures
        match found {
            Some(i) => i < entries@.len() && keys_of(entries@)[i as int] == history@,
            None => !keys_of(entries@).contains(history@),
        },
{
    let mut i: usize = 0;
    while i < entries.len()
        invariant
            obeys_concrete_eq::<Percept>(),
            i <= entries@.len(),
            forall|j: int| 0 <= j < i ==> keys_of(entries@)[j] != history@,
        decreases entries@.len() - i,
    {
        if same_history(&entries[i].0, history) {
            return Some(i);
        }
        i += 1;
    }
    None
}

/// A finite mapping from complete percept histories to actions.
///
/// No history occurs twice in it, and the order in which the entries were
/// inserted plays no part: its view is a `Map` from sequences to actions.
pub struct Table<Percept: Eq, Action> {
    entries: Vec<(Vec<Percept>, Action)>,
}

impl<Percept: Eq, Action> View for Table<Percept, Action> {
    type V = Map<Seq<Percept>, Action>;

    closed spec fn view(&self) -> Map<Seq<Percept>, Action> {
        mapping_of(self.entries@)
    }
}

impl<Percept: Eq, Action> Table<Percept, Action> {
    #[verifier::type_invariant]
    closed spec fn keys_are_distinct(&self) -> bool {
        keys_of(self.entries@).no_duplicates()
    }

    /// Makes a table with no entries.
    pub fn new() -> (table: Self)
        ensures
            table@ == Map::<Seq<Percept>, Action>::empty(),
    {
        let table = Table { entries: Vec::new() };
        assert(table@ =~= Map::<Seq<Percept>, Action>::empty());
        table
    }

    /// The number of entries.
    pub fn len(&self) -> (count: usize)
        ensures
            self@.dom().finite(),
            count == self@.len(),
    {
        proof {
            use_type_invariant(self);
            lemma_mapping_of(self.entries@);
        }
        self.entries.len()
    }

    /// Stores `action` for `history`. An entry that the table already held
    /// for this history is replaced, and its action is handed back.
    pub fn insert(&mut self, history: Vec<Percept>, action: Action) -> (previous: Option<Action>)
        requires
            obeys_concrete_eq::<Percept>(),
        ensures
            final(self)@ == old(self)@.insert(history@, action),
            previous == if old(self)@.contains_key(history@) {
                Some(old(self)@[history@])
            } else {
                None
            },
    {
        proof {
            use_type_invariant(&*self);
            lemma_mapping_of(self.entries@);
        }
        let ghost before = self.entries@;
        let ghost key = history@;
        let found = position(&self.entries, &history);
        let mut entries: Vec<(Vec<Percept>, Action)> = Vec::new();
        core::mem::swap(&mut self.entries, &mut entries);
        let ghost given = action;
        let mut held = action;
        let previous = match found {
            Some(i) => {
                core::mem::swap(&mut entries[i].1, &mut held);
                assert(keys_of(entries@) =~= keys_of(before));
                Some(held)
            },
            None => {
                entries.push((history, held));
                assert(keys_of(entries@) =~= keys_of(before).push(key));
                None
            },
        };
        proof {
            let after = entries@;
            let place = if found is Some {
                found->0 as int
            } else {
                after.len() - 1
            };
            assert(keys_of(after)[place] == key);
            assert(keys_of(after).no_duplicates());
            lemma_mapping_of(after);
            assert forall|k: Seq<Percept>| mapping_of(after).contains_key(k) <==> mapping_of(
                before,
            ).insert(key, given).contains_key(k) by {
                if mapping_of(after).contains_key(k) && k != key {
                    let at = keys_of(after).index_of(k);
                    assert(keys_of(before)[at] == k);
                }
                if mapping_of(before).contains_key(k) {
                    let at = keys_of(before).index_of(k);
                    assert(keys_of(after)[at] == k);
                }
            }
            assert forall|k: Seq<Percept>| mapping_of(after).contains_key(k) implies mapping_of(
                after,
            )[k] == mapping_of(before).insert(key, given)[k] by {
                if k != key {
                    let at = keys_of(before).index_of(k);
                    assert(keys_of(after)[at] == k);
                }
            }
            assert(mapping_of(after) =~= mapping_of(before).insert(key, given));
        }
        self.entries = entries;
        previous
    }

    /// Looks up the action stored for exactly this history.
    pub fn get(&self, history: &Vec<Percept>) -> (found: Option<&Action>)
        requires
            obeys_concrete_eq::<Percept>(),
        ensures
            match found {
                Some(action) => self@.contains_key(history@) && *action == self@[history@],
                None => !self@.contains_key(history@),
            },
    {
        proof {
            use_type_invariant(self);
            lemma_mapping_of(self.entries@);
        }
        match position(&self.entries, history) {
            Some(i) => Some(&self.entries[i].1),
            None => None,
        }
    }
}

/// An agent that stores every percept and answers with the action that its
/// table holds for the complete sequence of percepts received.
pub struct TableDrivenAgent<Percept: Eq, Action> {
    percepts: Vec<Percept>,
    table: Table<Percept, Action>,
}

impl<Percept: Eq, Action> TableDrivenAgent<Percept, Action> {
    /// The percepts received so far, oldest first.
    pub closed spec fn history(&self) -> Seq<Percept> {
        self.percepts@
    }

    /// The table that the agent was made with.
    pub closed spec fn table(&self) -> Map<Seq<Percept>, Action> {
        self.table@
    }

    /// Makes an agent that owns `table` and has received no percept yet.
    pub fn new(table: Table<Percept, Action>) -> (agent: Self)
        ensures
            agent.history() == Seq::<Percept>::empty(),
            agent.table() == table@,
    {
        TableDrivenAgent { table, percepts: Vec::new() }
    }

    /// Appends the percept to the history, then looks the whole history up.
    ///
    /// The percept is kept whether or not the lookup succeeds, and the table
    /// is never changed. Where the table has no entry for the history as it
    /// now stands, the call fails with `NotFound`: an entry for a shorter or
    /// longer history is no match, and no action is made up.
    pub fn run(&mut self, percept: Percept) -> (outcome: Result<&Action, LookupError>)
        requires
            obeys_concrete_eq::<Percept>(),
        ensures
            final(self).history() == old(self).history().push(percept),
            final(self).table() == old(self).table(),
            match outcome {
                Ok(action) => old(self).table().contains_key(final(self).history()) && *action
                    == old(self).table()[final(self).history()],
                Err(error) => !old(self).table().contains_key(final(self).history()) && error
                    == LookupError::NotFound,
            },
    {
        self.percepts.push(percept);
        match self.table.get(&self.percepts) {
            Some(action) => Ok(action),
            None => Err(LookupError::NotFound),
        }
    }
}

} // verus!
