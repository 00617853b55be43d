//! The blocking index: from each shingle to the ids of the records whose
//! signature holds it.

use crate::error::ConfigurationError;
use crate::ordered_map::OrderedStringMap;
use crate::record::{borrowed_views, Field, Record, RecordView};
use crate::shingle::{first_occurrences, signature, signature_order, tokenize};
use vstd::prelude::*;

verus! {

/// Tells the records whose chosen field has `shingle` in its signature.
pub open spec fn holds_shingle(field: Field, n: nat, shingle: Seq<char>) -> spec_fn(
    RecordView,
) -> bool {
    |r: RecordView| signature(r.field(field), n).contains(shingle)
}

/// The posting list of `shingle`: the ids of the records that hold it, in
/// the order of the records.
pub open spec fn posting_list(
    records: Seq<RecordView>,
    field: Field,
    n: nat,
    shingle: Seq<char>,
) -> Seq<Seq<char>> {
    records.filter(holds_shingle(field, n, shingle)).map_values(|r: RecordView| r.id)
}

/// The index of `records`: every shingle that some record holds, with its
/// posting list.
pub open spec fn block_map(records: Seq<RecordView>, field: Field, n: nat) -> Map<
    Seq<char>,
    Seq<Seq<char>>,
> {
    Map::new(
        |shingle: Seq<char>| posting_list(records, field, n, shingle).len() > 0,
        |shingle: Seq<char>| posting_list(records, field, n, shingle),
    )
}

/// The shingles of the chosen field of all records, record after record.
pub open spec fn shingle_stream(records: Seq<RecordView>, field: Field, n: nat) -> Seq<Seq<char>>
    decreases records.len(),
{
    if records.len() == 0 {
        Seq::empty()
    } else {
        shingle_stream(records.drop_last(), field, n) + signature_order(
            records.last().field(field),
            n,
        )
    }
}

/// The order of the blocks of the index of `records`: each shingle stands
/// where it first occurs in the records.
pub open spec fn block_order(records: Seq<RecordView>, field: Field, n: nat) -> Seq<Seq<char>> {
    first_occurrences(shingle_stream(records, field, n))
}

/// The list that `index` holds under `shingle`, empty where it holds none.
pub open spec fn list_of(index: Map<Seq<char>, Seq<Seq<char>>>, shingle: Seq<char>) -> Seq<
    Seq<char>,
> {
    if index.contains_key(shingle) {
        index[shingle]
    } else {
        Seq::empty()
    }
}

/// The views of a list of posting lists.
pub open spec fn list_views(lists: Seq<Vec<String>>) -> Seq<Seq<Seq<char>>> {
    lists.map_values(|list: Vec<String>| list.deep_view())
}

/// What one more record adds to a posting list: its id, where it holds the
/// shingle.
pub proof fn lemma_posting_list_push(
    records: Seq<RecordView>,
    record: RecordView,
    field: Field,
    n: nat,
    shingle: Seq<char>,
)
    ensures
        posting_list(records.push(record), field, n, shingle) == if signature(
            record.field(field),
            n,
        ).contains(shingle) {
            posting_list(records, field, n, shingle).push(record.id)
        } else {
            posting_list(records, field, n, shingle)
        },
{
    let holds = holds_shingle(field, n, shingle);
    records.lemma_filter_push(record, holds);
    if holds(record) {
        assert(records.filter(holds).push(record).map_values(|r: RecordView| r.id)
            =~= records.filter(holds).map_values(|r: RecordView| r.id).push(record.id));
    }
}

/// A posting list names the records that hold the shingle and no others:
/// its length is their number, and each of its ids is the id of a record
/// whose signature holds the shingle.
pub proof fn lemma_posting_list_members(
    records: Seq<RecordView>,
    field: Field,
    n: nat,
    shingle: Seq<char>,
)
    ensures
        posting_list(records, field, n, shingle).len() == records.filter(
            holds_shingle(field, n, shingle),
        ).len(),
        forall|p: int|
            0 <= p < posting_list(records, field, n, shingle).len() ==> exists|i: int|
                0 <= i < records.len() && records[i].id == #[trigger] posting_list(
                    records,
                    field,
                    n,
                    shingle,
                )[p] && signature(records[i].field(field), n).contains(shingle),
        posting_list(records, field, n, shingle).len() > 0 <==> exists|i: int|
            0 <= i < records.len() && #[trigger] signature(records[i].field(field), n).contains(
                shingle,
            ),
{
    let holds = holds_shingle(field, n, shingle);
    let kept = records.filter(holds);
    assert forall|p: int| 0 <= p < posting_list(records, field, n, shingle).len() implies exists|
        i: int,
    |
        0 <= i < records.len() && records[i].id == #[trigger] posting_list(
            records,
            field,
            n,
            shingle,
        )[p] && signature(records[i].field(field), n).contains(shingle) by {
        records.lemma_filter_pred(holds, p);
        assert(kept.contains(kept[p]));
        records.lemma_filter_contains_rev(holds, kept[p]);
        let i = choose|i: int| 0 <= i < records.len() && records[i] == kept[p];
        assert(records[i].id == posting_list(records, field, n, shingle)[p]);
    }
    if exists|i: int|
        0 <= i < records.len() && #[trigger] signature(records[i].field(field), n).contains(
            shingle,
        ) {
        let i = choose|i: int|
            0 <= i < records.len() && #[trigger] signature(records[i].field(field), n).contains(
                shingle,
            );
        assert(holds(records[i]));
        records.lemma_filter_contains(holds, i);
    }
    if kept.len() > 0 {
        records.lemma_filter_pred(holds, 0);
        assert(kept.contains(kept[0]));
        records.lemma_filter_contains_rev(holds, kept[0]);
        let i = choose|i: int| 0 <= i < records.len() && records[i] == kept[0];
        assert(signature(records[i].field(field), n).contains(shingle));
    }
}

/// The blocking index. Each shingle has one block: the list of the ids that
/// were appended under it, in the order in which they came.
pub struct BlockIndex {
    map: OrderedStringMap<Vec<String>>,
}

impl View for BlockIndex {
    type V = Map<Seq<char>, Seq<Seq<char>>>;

    closed spec fn view(&self) -> Map<Seq<char>, Seq<Seq<char>>> {
        Map::new(
            |shingle: Seq<char>| self.map@.contains_key(shingle),
            |shingle: Seq<char>| self.map@[shingle].deep_view(),
        )
    }
}

impl BlockIndex {
    #[verifier::type_invariant]
    spec fn well_formed(self) -> bool {
        self.map.coherent()
    }

    /// The shingles in the order in which their blocks were opened.
    pub closed spec fn shingles(&self) -> Seq<Seq<char>> {
        self.map.order()
    }

    /// The posting lists, each at the position of its shingle.
    pub closed spec fn lists(&self) -> Seq<Seq<Seq<char>>> {
        list_views(self.map.values_in_order())
    }

    /// How the index and its two listings belong together: the listings
    /// name each shingle of the index once, with its posting list.
    pub open spec fn coherent(&self) -> bool {
        &&& self.shingles().len() == self.lists().len()
        &&& self.shingles().no_duplicates()
        &&& self@.dom() == self.shingles().to_set()
        &&& forall|i: int|
            0 <= i < self.shingles().len() ==> self@[#[trigger] self.shingles()[i]]
                == self.lists()[i]
    }

    proof fn lemma_coherent(self)
        requires
            self.well_formed(),
        ensures
            self.coherent(),
    {
        assert(self@.dom() =~= self.shingles().to_set());
        assert forall|i: int| 0 <= i < self.shingles().len() implies self@[#[trigger] self.shingles()[i]]
            == self.lists()[i] by {
            assert(self.map.order().to_set().contains(self.map.order()[i]));
        }
    }

    /// The empty index.
    pub fn new() -> (index: Self)
        ensures
            index@ == Map::<Seq<char>, Seq<Seq<char>>>::empty(),
            index.shingles() == Seq::<Seq<char>>::empty(),
            index.coherent(),
    {
        let index = BlockIndex { map: OrderedStringMap::new() };
        proof {
            assert(index@ =~= Map::<Seq<char>, Seq<Seq<char>>>::empty());
            index.lemma_coherent();
        }
        index
    }

    /// The number of blocks.
    pub fn len(&self) -> (count: usize)
        ensures
            count == self.shingles().len(),
            self.coherent(),
    {
        proof {
            use_type_invariant(self);
            self.lemma_coherent();
        }
        self.map.len()
    }

    /// The posting list of `shingle`, if the index holds one.
    pub fn get(&self, shingle: &str) -> (list: Option<&Vec<String>>)
        ensures
            self.coherent(),
            list is Some <==> self@.contains_key(shingle@),
            list matches Some(ids) ==> ids.deep_view() == self@[shingle@],
    {
        proof {
            use_type_invariant(self);
            self.lemma_coherent();
        }
        self.map.get(shingle)
    }

    /// The shingles in the order in which their blocks were opened.
    pub fn keys(&self) -> (shingles: &Vec<String>)
        ensures
            self.coherent(),
            shingles.deep_view() == self.shingles(),
    {
        proof {
            use_type_invariant(self);
            self.lemma_coherent();
        }
        self.map.keys()
    }

    /// The posting lists, each at the position of its shingle.
    pub fn posting_lists(&self) -> (lists: &Vec<Vec<String>>)
        ensures
            self.coherent(),
            list_views(lists@) == self.lists(),
    {
        proof {
            use_type_invariant(self);
            self.lemma_coherent();
        }
        self.map.values()
    }

    /// Appends `id` to the posting list of `shingle`, which is opened at the
    /// end of the index if it is new.
    pub fn append(&mut self, shingle: &str, id: String)
        ensures
            final(self).coherent(),
            final(self)@ == old(self)@.insert(shingle@, list_of(old(self)@, shingle@).push(id@)),
            old(self)@.contains_key(shingle@) ==> final(self).shingles() == old(self).shingles(),
            !old(self)@.contains_key(shingle@)
                ==> final(self).shingles() == old(self).shingles().push(shingle@),
    {
        proof {
            use_type_invariant(&*self);
        }
        let mut taken = BlockIndex::new();
        std::mem::swap(self, &mut taken);
        let ghost before = taken;
        let BlockIndex { mut map } = taken;
        match map.position(shingle) {
            Some(i) => {
                let mut list = map.replace_at(i, Vec::new());
                let ghost ids = list.deep_view();
                list.push(id);
                assert(list.deep_view() =~= ids.push(id@));
                let _ = map.replace_at(i, list);
            },
            None => {
                let mut list: Vec<String> = Vec::new();
                list.push(id);
                assert(list.deep_view() =~= Seq::<Seq<char>>::empty().push(id@));
                map.insert(shingle.to_owned(), list);
            },
        }
        let index = BlockIndex { map };
        proof {
            assert(index@ =~= before@.insert(shingle@, list_of(before@, shingle@).push(id@)));
            index.lemma_coherent();
        }
        *self = index;
    }
}

/// Builds the blocking index of `records` over one field: for every record
/// in turn, its id is appended to the posting list of each shingle of the
/// field's signature. A shingle length of 0 is refused before any record is
/// read.
pub fn build_index(records: Vec<&Record>, field: Field, n: usize) -> (result: Result<
    BlockIndex,
    ConfigurationError,
>)
    ensures
        result is Err <==> n == 0,
        result matches Err(e) ==> e == ConfigurationError::ZeroShingleLength,
        result matches Ok(index) ==> index@ == block_map(
            borrowed_views(records@),
            field,
            n as nat,
        ) && index.shingles() == block_order(borrowed_views(records@), field, n as nat)
            && index.coherent(),
{
    if n == 0 {
        return Err(ConfigurationError::ZeroShingleLength);
    }
    let mut index = BlockIndex::new();
    let ghost views = borrowed_views(records@);
    let mut k: usize = 0;
    proof {
        assert(views.subrange(0, 0) =~= Seq::<RecordView>::empty());
        assert forall|s: Seq<char>| #[trigger]
            list_of(index@, s) == posting_list(views.subrange(0, 0), field, n as nat, s) by {
            lemma_posting_list_members(views.subrange(0, 0), field, n as nat, s);
        }
    }
    while k < records.len()
        invariant
            n > 0,
            k <= records.len(),
            views == borrowed_views(records@),
            index.coherent(),
            forall|s: Seq<char>| #[trigger]
                list_of(index@, s) == posting_list(views.subrange(0, k as int), field, n as nat, s),
            forall|s: Seq<char>| #[trigger] index@.contains_key(s) ==> index@[s].len() > 0,
            index.shingles() == block_order(views.subrange(0, k as int), field, n as nat),
        decreases records.len() - k,
    {
        let record = records[k];
        let text = record.field(field);
        match tokenize(text.as_str(), n) {
            Err(e) => {
                return Err(e);
            },
            Ok(found) => {
                let items = found.items();
                let ghost base = index@;
                let ghost prefix = views.subrange(0, k as int);
                let ghost earlier = shingle_stream(prefix, field, n as nat);
                let mut j: usize = 0;
                assert(earlier + items.deep_view().subrange(0, 0) =~= earlier);
                while j < items.len()
                    invariant
                        j <= items.len(),
                        items.deep_view().no_duplicates(),
                        index.coherent(),
                        index.shingles() == first_occurrences(
                            earlier + items.deep_view().subrange(0, j as int),
                        ),
                        forall|s: Seq<char>| #[trigger]
                            list_of(index@, s) == if items.deep_view().subrange(
                                0,
                                j as int,
                            ).contains(s) {
                                list_of(base, s).push(record.id@)
                            } else {
                                list_of(base, s)
                            },
                        forall|s: Seq<char>| #[trigger]
                            index@.contains_key(s) ==> index@[s].len() > 0,
                    decreases items.len() - j,
                {
                    let ghost before = index@;
                    let ghost done = items.deep_view().subrange(0, j as int);
                    let ghost next = items.deep_view().subrange(0, j + 1);
                    let ghost listed = index.shingles();
                    index.append(items[j].as_str(), record.id.clone());
                    proof {
                        let shingle = items[j as int]@;
                        assert(next =~= done.push(shingle));
                        assert((earlier + next).drop_last() =~= earlier + done);
                        assert((earlier + next).last() == shingle);
                        assert(listed.contains(shingle) == listed.to_set().contains(shingle));
                        if done.contains(shingle) {
                            let i = choose|i: int| 0 <= i < done.len() && done[i] == shingle;
                            assert(items.deep_view()[i] == items.deep_view()[j as int]);
                        }
                        assert forall|s: Seq<char>| #[trigger]
                            list_of(index@, s) == if next.contains(s) {
                                list_of(base, s).push(record.id@)
                            } else {
                                list_of(base, s)
                            } by {
                            assert(list_of(before, s) == if done.contains(s) {
                                list_of(base, s).push(record.id@)
                            } else {
                                list_of(base, s)
                            });
                            if s == shingle {
                                assert(next[j as int] == s);
                            } else {
                                if done.contains(s) {
                                    let i = choose|i: int| 0 <= i < done.len() && done[i] == s;
                                    assert(next[i] == s);
                                }
                                if next.contains(s) {
                                    let i = choose|i: int| 0 <= i < next.len() && next[i] == s;
                                    assert(done[i] == s);
                                }
                            }
                        }
                    }
                    j = j + 1;
                }
                proof {
                    let all = items.deep_view();
                    assert(all.subrange(0, j as int) =~= all);
                    assert(views.subrange(0, k + 1) =~= prefix.push(record@));
                    assert(views.subrange(0, k + 1).drop_last() =~= prefix);
                    assert forall|s: Seq<char>| #[trigger]
                        list_of(index@, s) == posting_list(
                            views.subrange(0, k + 1),
                            field,
                            n as nat,
                            s,
                        ) by {
                        lemma_posting_list_push(prefix, record@, field, n as nat, s);
                        assert(all.to_set().contains(s) == all.contains(s));
                        assert(list_of(base, s) == posting_list(prefix, field, n as nat, s));
                    }
                }
            },
        }
        k = k + 1;
    }
    proof {
        assert(views.subrange(0, k as int) =~= views);
        assert forall|s: Seq<char>|
            index@.contains_key(s) <==> block_map(views, field, n as nat).contains_key(s) by {
            assert(list_of(index@, s) == posting_list(views, field, n as nat, s));
        }
        assert forall|s: Seq<char>| index@.contains_key(s) implies index@[s] == block_map(
            views,
            field,
            n as nat,
        )[s] by {
            assert(list_of(index@, s) == posting_list(views, field, n as nat, s));
        }
        assert(index@ =~= block_map(views, field, n as nat));
    }
    Ok(index)
}

/// Builds the blocking index of `records` over their authors.
pub fn reverse_index(records: Vec<&Record>, n: usize) -> (result: Result<
    BlockIndex,
    ConfigurationError,
>)
    ensures
        result is Err <==> n == 0,
        result matches Err(e) ==> e == ConfigurationError::ZeroShingleLength,
        result matches Ok(index) ==> index@ == block_map(
            borrowed_views(records@),
            Field::Authors,
            n as nat,
        ) && index.shingles() == block_order(borrowed_views(records@), Field::Authors, n as nat)
            && index.coherent(),
{
    build_index(records, Field::Authors, n)
}

} // verus!
