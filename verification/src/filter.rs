//! Field equality filters.

use crate::json::{equal, get, is_object, json_eq, json_of, member, Json};
use crate::reading::found;
use crate::text::same;
use serde_json::Value;
use vstd::prelude::*;

verus! {

/// The map that a list of names and values stands for.
pub open spec fn entries_map(entries: Seq<(String, Value)>) -> Map<Seq<char>, Json> {
    Map::new(
        |k: Seq<char>| exists|i: int| 0 <= i < entries.len() && (#[trigger] entries[i]).0@ == k,
        |k: Seq<char>|
            json_of(
                entries[choose|i: int| 0 <= i < entries.len() && (#[trigger] entries[i]).0@ == k].1,
            ),
    )
}

/// No name occurs twice in the list.
pub open spec fn distinct_names(entries: Seq<(String, Value)>) -> bool {
    forall|i: int, j: int|
        0 <= i < j < entries.len() ==> (#[trigger] entries[i]).0@ != (#[trigger] entries[j]).0@
}

/// Whether a document passes a filter: it is an object, and each field that the filter names
/// equals the filter's value.
pub open spec fn passes(doc: Json, filter: Map<Seq<char>, Json>) -> bool {
    &&& doc is Object
    &&& forall|k: Seq<char>| #[trigger]
        filter.contains_key(k) ==> (member(doc, k) matches Some(v) && json_eq(v, filter[k]))
}

/// Whether a document passes a filter, where there is one.
pub open spec fn passes_any(doc: Json, filter: Option<Map<Seq<char>, Json>>) -> bool {
    match filter {
        Some(f) => passes(doc, f),
        None => true,
    }
}

/// Values that fields must have, by the fields' names. No field occurs twice.
pub struct Filter {
    fields: Vec<(String, Value)>,
}

impl View for Filter {
    type V = Map<Seq<char>, Json>;

    closed spec fn view(&self) -> Map<Seq<char>, Json> {
        entries_map(self.fields@)
    }
}

/// What an optional filter demands.
pub open spec fn demands(filter: Option<&Filter>) -> Option<Map<Seq<char>, Json>> {
    match filter {
        Some(f) => Some(f@),
        None => None,
    }
}

/// In a list without repeated names, each entry is found under its name.
proof fn lemma_entries_map(entries: Seq<(String, Value)>, i: int)
    requires
        distinct_names(entries),
        0 <= i < entries.len(),
    ensures
        entries_map(entries).contains_key(entries[i].0@),
        entries_map(entries)[entries[i].0@] == json_of(entries[i].1),
{
    let k = entries[i].0@;
    let c = choose|c: int| 0 <= c < entries.len() && (#[trigger] entries[c]).0@ == k;
    assert(c == i);
}

impl Filter {
    #[verifier::type_invariant]
    spec fn distinct(self) -> bool {
        distinct_names(self.fields@)
    }

    /// A filter that demands nothing.
    pub fn new() -> (res: Filter)
        ensures
            res@ == Map::<Seq<char>, Json>::empty(),
    {
        let res = Filter { fields: Vec::new() };
        assert(res@ =~= Map::<Seq<char>, Json>::empty());
        res
    }

    /// The filter that also demands `value` in the field `name`, in place of what it demanded
    /// there.
    pub fn with(self, name: String, value: Value) -> (res: Filter)
        ensures
            res@ == self@.insert(name@, json_of(value)),
    {
        proof {
            use_type_invariant(&self);
        }
        let mut fields = self.fields;
        let mut i: usize = 0;
        while i < fields.len()
            invariant
                i <= fields@.len(),
                fields@ == self.fields@,
                distinct_names(fields@),
                forall|k: int| 0 <= k < i ==> (#[trigger] fields@[k]).0@ != name@,
            decreases fields@.len() - i,
        {
            if same(fields[i].0.as_str(), name.as_str()) {
                let ghost before = fields@;
                fields.set(i, (name, value));
                proof {
                    assert(fields@ =~= before.update(i as int, (name, value)));
                    assert(distinct_names(fields@));
                    assert forall|k: Seq<char>| entries_map(fields@).contains_key(k)
                        == entries_map(before).insert(name@, json_of(value)).contains_key(k) by {
                        if entries_map(before).contains_key(k) {
                            let c = choose|c: int|
                                0 <= c < before.len() && (#[trigger] before[c]).0@ == k;
                            assert(fields@[c].0@ == k);
                        }
                        if entries_map(fields@).contains_key(k) {
                            let c = choose|c: int|
                                0 <= c < fields@.len() && (#[trigger] fields@[c]).0@ == k;
                            assert(before[c].0@ == k);
                        }
                    }
                    assert forall|k: Seq<char>| entries_map(fields@).contains_key(k) implies
                        entries_map(fields@)[k] == entries_map(before).insert(
                        name@,
                        json_of(value),
                    )[k] by {
                        let c = choose|c: int|
                            0 <= c < fields@.len() && (#[trigger] fields@[c]).0@ == k;
                        lemma_entries_map(fields@, c);
                        lemma_entries_map(before, c);
                    }
                    assert(entries_map(fields@) =~= entries_map(before).insert(
                        name@,
                        json_of(value),
                    ));
                }
                return Filter { fields };
            }
            i = i + 1;
        }
        let ghost before = fields@;
        fields.push((name, value));
        proof {
            assert(fields@ =~= before.push((name, value)));
            assert forall|k: Seq<char>| entries_map(fields@).contains_key(k) == entries_map(
                before,
            ).insert(name@, json_of(value)).contains_key(k) by {
                if entries_map(before).contains_key(k) {
                    let c = choose|c: int| 0 <= c < before.len() && (#[trigger] before[c]).0@ == k;
                    assert(fields@[c].0@ == k);
                }
                if k == name@ {
                    assert(fields@[before.len() as int].0@ == k);
                }
                if entries_map(fields@).contains_key(k) && k != name@ {
                    let c = choose|c: int|
                        0 <= c < fields@.len() && (#[trigger] fields@[c]).0@ == k;
                    assert(before[c].0@ == k);
                }
            }
            assert forall|k: Seq<char>| entries_map(fields@).contains_key(k) implies entries_map(
                fields@,
            )[k] == entries_map(before).insert(name@, json_of(value))[k] by {
                let c = choose|c: int| 0 <= c < fields@.len() && (#[trigger] fields@[c]).0@ == k;
                lemma_entries_map(fields@, c);
                if c < before.len() {
                    lemma_entries_map(before, c);
                }
            }
            assert(entries_map(fields@) =~= entries_map(before).insert(name@, json_of(value)));
        }
        Filter { fields }
    }

    /// The filter that a list of names and values stands for.
    pub(crate) fn from_entries(fields: Vec<(String, Value)>) -> (res: Filter)
        requires
            distinct_names(fields@),
        ensures
            res@ == entries_map(fields@),
    {
        Filter { fields }
    }

    /// The names and the values, each name once.
    pub(crate) fn entries(&self) -> (res: &Vec<(String, Value)>)
        ensures
            distinct_names(res@),
            self@ == entries_map(res@),
            forall|i: int|
                0 <= i < res@.len() ==> self@.contains_key((#[trigger] res@[i]).0@)
                    && self@[res@[i].0@] == json_of(res@[i].1),
    {
        proof {
            use_type_invariant(self);
            assert forall|i: int| 0 <= i < self.fields@.len() implies self@.contains_key(
                (#[trigger] self.fields@[i]).0@,
            ) && self@[self.fields@[i].0@] == json_of(self.fields@[i].1) by {
                lemma_entries_map(self.fields@, i);
            }
        }
        &self.fields
    }

    /// Whether the filter demands nothing.
    pub fn is_empty(&self) -> (res: bool)
        ensures
            res == (self@ == Map::<Seq<char>, Json>::empty()),
    {
        if self.fields.len() == 0 {
            assert(self@ =~= Map::<Seq<char>, Json>::empty());
            true
        } else {
            assert(self@.contains_key(self.fields@[0].0@));
            false
        }
    }

    /// Whether a document passes.
    pub fn matches_filter(&self, doc: &Value) -> (res: bool)
        ensures
            res == passes(json_of(*doc), self@),
            res == (json_of(*doc) matches Json::Object(m) && forall|k: Seq<char>| #[trigger]
                self@.contains_key(k) ==> m.contains_key(k) && json_eq(m[k], self@[k])),
    {
        if !is_object(doc) {
            return false;
        }
        let entries = self.entries();
        let mut i: usize = 0;
        while i < entries.len()
            invariant
                i <= entries@.len(),
                json_of(*doc) is Object,
                self@ == entries_map(entries@),
                forall|k: int|
                    0 <= k < entries@.len() ==> self@.contains_key((#[trigger] entries@[k]).0@)
                        && self@[entries@[k].0@] == json_of(entries@[k].1),
                forall|k: int|
                    0 <= k < i ==> (member(json_of(*doc), (#[trigger] entries@[k]).0@) matches Some(
                        v,
                    ) && json_eq(v, json_of(entries@[k].1))),
            decreases entries@.len() - i,
        {
            let found = match get(doc, entries[i].0.as_str()) {
                Some(v) => equal(v, &entries[i].1),
                None => false,
            };
            if !found {
                assert(self@.contains_key(entries@[i as int].0@));
                return false;
            }
            i = i + 1;
        }
        proof {
            assert forall|k: Seq<char>| #[trigger] self@.contains_key(k) implies (member(
                json_of(*doc),
                k,
            ) matches Some(v) && json_eq(v, self@[k])) by {
                let c = choose|c: int| 0 <= c < entries@.len() && (#[trigger] entries@[c]).0@ == k;
                assert(entries@[c].0@ == k);
            }
        }
        true
    }
}

/// All that a filter demands must hold: one more demand lets pass those documents that passed
/// before and meet it.
pub proof fn law_demands_add_up(
    doc: Json,
    filter: Map<Seq<char>, Json>,
    name: Seq<char>,
    value: Json,
)
    requires
        !filter.contains_key(name),
    ensures
        passes(doc, filter.insert(name, value)) <==> passes(doc, filter) && (member(doc, name)
            matches Some(v) && json_eq(v, value)),
{
    let more = filter.insert(name, value);
    if passes(doc, more) {
        assert(more.contains_key(name));
        assert forall|k: Seq<char>| #[trigger] filter.contains_key(k) implies (member(doc, k)
            matches Some(v) && json_eq(v, filter[k])) by {
            assert(more.contains_key(k));
        }
    }
}

} // verus!
