//! Bibliographic records and the set that holds them by id.

use crate::error::ConfigurationError;
use crate::ordered_map::OrderedStringMap;
use vstd::prelude::*;

verus! {

/// One bibliographic record.
#[derive(Debug, Clone)]
pub struct Record {
    /// The key of the record.
    pub id: String,
    /// The title of the work.
    pub title: String,
    /// The authors, separated by commas.
    pub authors: String,
    /// Where the work appeared.
    pub venue: String,
}

/// A record as plain text.
pub struct RecordView {
    pub id: Seq<char>,
    pub title: Seq<char>,
    pub authors: Seq<char>,
    pub venue: Seq<char>,
}

/// One of the four fields of a record.
#[derive(Debug, Clone, Copy, PartialEq, Eq, Structural)]
pub enum Field {
    Id,
    Title,
    Authors,
    Venue,
}

/// The field that `name` selects, if it is the name of a field.
pub open spec fn field_named(name: Seq<char>) -> Result<Field, ConfigurationError> {
    if name == "id"@ {
        Ok(Field::Id)
    } else if name == "title"@ {
        Ok(Field::Title)
    } else if name == "authors"@ {
        Ok(Field::Authors)
    } else if name == "venue"@ {
        Ok(Field::Venue)
    } else {
        Err(ConfigurationError::UnknownField)
    }
}

impl Field {
    /// Selects a field by its name: `id`, `title`, `authors` or `venue`.
    /// Any other name is refused.
    pub fn from_name(name: &str) -> (result: Result<Field, ConfigurationError>)
        ensures
            result == field_named(name@),
    {
        let name = name.to_owned();
        if name == "id".to_owned() {
            Ok(Field::Id)
        } else if name == "title".to_owned() {
            Ok(Field::Title)
        } else if name == "authors".to_owned() {
            Ok(Field::Authors)
        } else if name == "venue".to_owned() {
            Ok(Field::Venue)
        } else {
            Err(ConfigurationError::UnknownField)
        }
    }
}

impl RecordView {
    /// The text of one field.
    pub open spec fn field(self, field: Field) -> Seq<char> {
        match field {
            Field::Id => self.id,
            Field::Title => self.title,
            Field::Authors => self.authors,
            Field::Venue => self.venue,
        }
    }
}

impl View for Record {
    type V = RecordView;

    open spec fn view(&self) -> RecordView {
        RecordView { id: self.id@, title: self.title@, authors: self.authors@, venue: self.venue@ }
    }
}

impl Record {
    /// The text of one field.
    pub fn field(&self, field: Field) -> (text: &String)
        ensures
            text@ == self@.field(field),
    {
        match field {
            Field::Id => &self.id,
            Field::Title => &self.title,
            Field::Authors => &self.authors,
            Field::Venue => &self.venue,
        }
    }
}

/// The views of a list of records.
pub open spec fn record_views(records: Seq<Record>) -> Seq<RecordView> {
    records.map_values(|r: Record| r@)
}

/// The views of a list of borrowed records.
pub open spec fn borrowed_views(records: Seq<&Record>) -> Seq<RecordView> {
    records.map_values(|r: &Record| r@)
}

/// A listing after `record` was put into it: in the place of the record
/// with its id, or at the end where the listing has none.
pub open spec fn listed_with(listing: Seq<RecordView>, record: RecordView) -> Seq<RecordView> {
    if exists|i: int| 0 <= i < listing.len() && #[trigger] listing[i].id == record.id {
        let i = choose|i: int| 0 <= i < listing.len() && #[trigger] listing[i].id == record.id;
        listing.update(i, record)
    } else {
        listing.push(record)
    }
}

/// A listing after `records` were put into it one after the other.
pub open spec fn listed_with_all(listing: Seq<RecordView>, records: Seq<RecordView>) -> Seq<
    RecordView,
>
    decreases records.len(),
{
    if records.len() == 0 {
        listing
    } else {
        listed_with(listed_with_all(listing, records.drop_last()), records.last())
    }
}

/// A set of records, each held under its id.
pub struct RecordSet {
    map: OrderedStringMap<Record>,
}

impl View for RecordSet {
    type V = Map<Seq<char>, RecordView>;

    closed spec fn view(&self) -> Map<Seq<char>, RecordView> {
        Map::new(|id: Seq<char>| self.map@.contains_key(id), |id: Seq<char>| self.map@[id]@)
    }
}

impl RecordSet {
    #[verifier::type_invariant]
    spec fn well_formed(self) -> bool {
        &&& self.map.coherent()
        &&& forall|id: Seq<char>| #[trigger] self.map@.contains_key(id) ==> self.map@[id].id@ == id
    }

    /// The records in the order in which their ids first came.
    pub closed spec fn listing(&self) -> Seq<RecordView> {
        record_views(self.map.values_in_order())
    }

    /// How the set and its listing belong together: the listing names each
    /// record of the set once, and each record is held under its own id.
    pub open spec fn coherent(&self) -> bool {
        &&& forall|id: Seq<char>| #[trigger] self@.contains_key(id) ==> self@[id].id == id
        &&& forall|i: int|
            0 <= i < self.listing().len() ==> self@.contains_key(#[trigger] self.listing()[i].id)
                && self@[self.listing()[i].id] == self.listing()[i]
        &&& forall|id: Seq<char>| #[trigger]
            self@.contains_key(id) ==> exists|i: int|
                0 <= i < self.listing().len() && #[trigger] self.listing()[i].id == id
        &&& forall|i: int, j: int|
            0 <= i < j < self.listing().len() ==> self.listing()[i].id != self.listing()[j].id
    }

    proof fn lemma_coherent(self)
        requires
            self.well_formed(),
        ensures
            self.coherent(),
    {
        let order = self.map.order();
        let values = self.map.values_in_order();
        assert forall|i: int| 0 <= i < self.listing().len() implies self@.contains_key(
            #[trigger] self.listing()[i].id,
        ) && self@[self.listing()[i].id] == self.listing()[i] && self.listing()[i].id == order[i] by {
            assert(order.to_set().contains(order[i]));
            assert(self.map@[order[i]] == values[i]);
        }
        assert forall|id: Seq<char>| #[trigger] self@.contains_key(id) implies exists|i: int|
            0 <= i < self.listing().len() && #[trigger] self.listing()[i].id == id by {
            assert(order.to_set().contains(id));
            let i = choose|i: int| 0 <= i < order.len() && order[i] == id;
            assert(self.listing()[i].id == id);
        }
    }

    /// The empty set.
    pub fn new() -> (set: Self)
        ensures
            set@ == Map::<Seq<char>, RecordView>::empty(),
            set.listing() == Seq::<RecordView>::empty(),
            set.coherent(),
    {
        let set = RecordSet { map: OrderedStringMap::new() };
        proof {
            assert(set@ =~= Map::<Seq<char>, RecordView>::empty());
            assert(set.listing() =~= Seq::<RecordView>::empty());
            set.lemma_coherent();
        }
        set
    }

    /// The number of records.
    pub fn len(&self) -> (count: usize)
        ensures
            count == self.listing().len(),
            self.coherent(),
    {
        proof {
            use_type_invariant(self);
            self.lemma_coherent();
        }
        self.map.len()
    }

    /// The record with the given id, if the set holds one.
    pub fn get(&self, id: &str) -> (record: Option<&Record>)
        ensures
            self.coherent(),
            record is Some <==> self@.contains_key(id@),
            record matches Some(r) ==> r@ == self@[id@],
    {
        proof {
            use_type_invariant(self);
            self.lemma_coherent();
        }
        self.map.get(id)
    }

    /// Puts `record` into the set under its id, in place of a record that
    /// the set held under that id.
    pub fn insert(&mut self, record: Record)
        ensures
            final(self).coherent(),
            final(self)@ == old(self)@.insert(record.id@, record@),
            final(self).listing() == listed_with(old(self).listing(), record@),
    {
        proof {
            use_type_invariant(&*self);
            self.lemma_coherent();
        }
        let mut taken = RecordSet::new();
        std::mem::swap(self, &mut taken);
        let ghost before = taken;
        let RecordSet { mut map } = taken;
        map.insert(record.id.clone(), record);
        let set = RecordSet { map };
        proof {
            assert(set@ =~= before@.insert(record.id@, record@));
            set.lemma_coherent();
            let listing = before.listing();
            let order = before.map.order();
            assert forall|i: int| 0 <= i < listing.len() implies #[trigger] listing[i].id
                == order[i] by {
                assert(order.to_set().contains(order[i]));
                assert(before.map@[order[i]] == before.map.values_in_order()[i]);
            }
            if exists|i: int| 0 <= i < listing.len() && #[trigger] listing[i].id == record.id@ {
                let i = choose|i: int|
                    0 <= i < listing.len() && #[trigger] listing[i].id == record.id@;
                assert(order[i] == record.id@);
                assert(set.listing() =~= listing.update(i, record@));
            } else {
                if before.map@.contains_key(record.id@) {
                    assert(order.to_set().contains(record.id@));
                    let i = choose|i: int| 0 <= i < order.len() && order[i] == record.id@;
                    assert(listing[i].id == record.id@);
                }
                assert(set.listing() =~= listing.push(record@));
            }
        }
        *self = set;
    }

    /// Moves the records of `other` into the set, each under its id. Where
    /// both sets hold a record under one id, the record of `other` stays.
    pub fn extend(&mut self, other: RecordSet)
        ensures
            final(self).coherent(),
            final(self)@ == old(self)@.union_prefer_right(other@),
            final(self).listing() == listed_with_all(old(self).listing(), other.listing()),
    {
        proof {
            use_type_invariant(&other);
            other.lemma_coherent();
            use_type_invariant(&*self);
            self.lemma_coherent();
        }
        let ghost theirs = other.listing();
        let RecordSet { map } = other;
        let values = map.into_values();
        let ghost all = values@;
        assert(theirs.subrange(0, 0) =~= Seq::<RecordView>::empty());
        for record in it: values.into_iter()
            invariant
                it.seq() == all,
                record_views(all) == theirs,
                self.coherent(),
                self.listing() == listed_with_all(
                    old(self).listing(),
                    theirs.subrange(0, it.index() as int),
                ),
                forall|i: int, j: int| 0 <= i < j < theirs.len() ==> theirs[i].id != theirs[j].id,
                forall|id: Seq<char>| #[trigger]
                    self@.contains_key(id) <==> old(self)@.contains_key(id) || exists|i: int|
                        0 <= i < it.index() && #[trigger] theirs[i].id == id,
                forall|i: int| 0 <= i < it.index() ==> self@[#[trigger] theirs[i].id] == theirs[i],
                forall|id: Seq<char>| #[trigger]
                    self@.contains_key(id) && !(exists|i: int|
                        0 <= i < it.index() && #[trigger] theirs[i].id == id)
                        ==> self@[id] == old(self)@[id],
        {
            let ghost k = it.index();
            assert(record@ == theirs[k]);
            self.insert(record);
            proof {
                assert(theirs.subrange(0, k + 1).drop_last() =~= theirs.subrange(0, k as int));
                assert(theirs.subrange(0, k + 1).last() == theirs[k]);
                assert forall|id: Seq<char>| #[trigger]
                    self@.contains_key(id) <==> old(self)@.contains_key(id) || exists|i: int|
                        0 <= i < k + 1 && #[trigger] theirs[i].id == id by {
                    if exists|i: int| 0 <= i < k + 1 && #[trigger] theirs[i].id == id {
                        let i = choose|i: int| 0 <= i < k + 1 && #[trigger] theirs[i].id == id;
                        if i < k {
                            assert(theirs[i].id == id);
                        }
                    }
                }
            }
        }
        proof {
            assert forall|id: Seq<char>| #[trigger]
                other@.contains_key(id) <==> exists|i: int|
                    0 <= i < theirs.len() && #[trigger] theirs[i].id == id by {
                if exists|i: int| 0 <= i < theirs.len() && #[trigger] theirs[i].id == id {
                    let i = choose|i: int| 0 <= i < theirs.len() && #[trigger] theirs[i].id == id;
                    assert(other@.contains_key(theirs[i].id));
                }
            }
            assert forall|id: Seq<char>| #[trigger] other@.contains_key(id) implies self@[id]
                == other@[id] by {
                let i = choose|i: int| 0 <= i < theirs.len() && #[trigger] theirs[i].id == id;
                assert(self@[theirs[i].id] == theirs[i]);
            }
            assert(self@ =~= old(self)@.union_prefer_right(other@));
            assert(theirs.subrange(0, theirs.len() as int) =~= theirs);
        }
    }

    /// The records of the set, in the order in which their ids first came.
    pub fn records(&self) -> (records: Vec<&Record>)
        ensures
            self.coherent(),
            borrowed_views(records@) == self.listing(),
    {
        proof {
            use_type_invariant(self);
            self.lemma_coherent();
        }
        let values = self.map.values();
        let mut records: Vec<&Record> = Vec::new();
        let mut i: usize = 0;
        while i < values.len()
            invariant
                i <= values.len(),
                records.len() == i,
                forall|k: int| 0 <= k < i ==> records[k]@ == #[trigger] values[k]@,
            decreases values.len() - i,
        {
            records.push(&values[i]);
            i = i + 1;
        }
        assert(borrowed_views(records@) =~= self.listing());
        records
    }
}

} // verus!
