//! Scoring the pairs of records that meet in a block.

use crate::error::ConsistencyError;
use crate::index::{block_map, lemma_posting_list_members, posting_list, BlockIndex};
use crate::record::{Field, Record, RecordSet, RecordView};
use crate::similarity::{denominator_of, levenshtein, score_lev_distance, Similarity};
use vstd::prelude::*;

verus! {

/// Two record ids and the similarity of the two records.
#[derive(Debug, Clone)]
pub struct CandidateScore {
    /// The id that stands earlier in the block.
    pub id1: String,
    /// The id that stands later in the block.
    pub id2: String,
    /// The similarity of the two records in the scored field.
    pub score: Similarity,
}

/// A scored pair as plain values: the score is `1 - distance / denominator`.
pub struct CandidateView {
    pub id1: Seq<char>,
    pub id2: Seq<char>,
    pub distance: int,
    pub denominator: int,
}

impl View for CandidateScore {
    type V = CandidateView;

    open spec fn view(&self) -> CandidateView {
        CandidateView {
            id1: self.id1@,
            id2: self.id2@,
            distance: self.score.distance as int,
            denominator: self.score.denominator as int,
        }
    }
}

/// The views of a list of scored pairs.
pub open spec fn candidate_views(scores: Seq<CandidateScore>) -> Seq<CandidateView> {
    scores.map_values(|c: CandidateScore| c@)
}

/// The number of unordered pairs among `k` things.
pub open spec fn pair_count(k: nat) -> nat {
    (k * (k - 1) / 2) as nat
}

/// The pairs of `first` with each of `rest`, in the order of `rest`.
pub open spec fn pairs_with(first: Seq<char>, rest: Seq<Seq<char>>) -> Seq<(Seq<char>, Seq<char>)> {
    rest.map_values(|other: Seq<char>| (first, other))
}

/// The pairs of one block by position: each id with each id that stands
/// after it, ordered by the first position and then by the second.
pub open spec fn block_pairs(ids: Seq<Seq<char>>) -> Seq<(Seq<char>, Seq<char>)>
    decreases ids.len(),
{
    if ids.len() < 2 {
        Seq::empty()
    } else {
        pairs_with(ids.first(), ids.drop_first()) + block_pairs(ids.drop_first())
    }
}

/// The score of one pair of ids: the similarity of the chosen field of the
/// two records that `records` holds under them.
pub open spec fn scored(
    records: Map<Seq<char>, RecordView>,
    field: Field,
    pair: (Seq<char>, Seq<char>),
) -> CandidateView {
    let a = records[pair.0].field(field);
    let b = records[pair.1].field(field);
    CandidateView {
        id1: pair.0,
        id2: pair.1,
        distance: levenshtein(a, b) as int,
        denominator: denominator_of(a, b) as int,
    }
}

/// The function that scores a pair of ids.
pub open spec fn scoring(records: Map<Seq<char>, RecordView>, field: Field) -> spec_fn(
    (Seq<char>, Seq<char>),
) -> CandidateView {
    |pair: (Seq<char>, Seq<char>)| scored(records, field, pair)
}

/// The scored pairs of one block.
pub open spec fn block_candidates(
    records: Map<Seq<char>, RecordView>,
    field: Field,
    ids: Seq<Seq<char>>,
) -> Seq<CandidateView> {
    block_pairs(ids).map_values(scoring(records, field))
}

/// The scored pairs of all blocks, block after block.
pub open spec fn all_candidates(
    records: Map<Seq<char>, RecordView>,
    field: Field,
    lists: Seq<Seq<Seq<char>>>,
) -> Seq<CandidateView>
    decreases lists.len(),
{
    if lists.len() == 0 {
        Seq::empty()
    } else {
        all_candidates(records, field, lists.drop_last()) + block_candidates(
            records,
            field,
            lists.last(),
        )
    }
}

/// A block can be scored: it has fewer than two ids, or `records` holds a
/// record for each of them.
pub open spec fn block_consistent(records: Map<Seq<char>, RecordView>, ids: Seq<Seq<char>>) -> bool {
    ids.len() >= 2 ==> forall|p: int| 0 <= p < ids.len() ==> records.contains_key(#[trigger] ids[p])
}

/// Every block can be scored.
pub open spec fn consistent(records: Map<Seq<char>, RecordView>, lists: Seq<Seq<Seq<char>>>) -> bool {
    forall|b: int| 0 <= b < lists.len() ==> block_consistent(records, #[trigger] lists[b])
}

/// `id` is the first id of the block without a record.
pub open spec fn is_first_missing(
    records: Map<Seq<char>, RecordView>,
    ids: Seq<Seq<char>>,
    id: Seq<char>,
) -> bool {
    exists|p: int|
        0 <= p < ids.len() && #[trigger] ids[p] == id && !records.contains_key(id) && forall|q: int|
            0 <= q < p ==> records.contains_key(#[trigger] ids[q])
}

/// What scoring `index` against `records` returns. Where every block can be
/// scored: the scored pairs of all blocks, block after block in the order
/// of the index. Else: the shingle of the first block that cannot be scored,
/// with the first id of that block that has no record.
pub open spec fn is_scored(
    result: Result<Vec<CandidateScore>, ConsistencyError>,
    index: BlockIndex,
    records: Map<Seq<char>, RecordView>,
    field: Field,
) -> bool {
    match result {
        Ok(scores) => consistent(records, index.lists()) && candidate_views(scores@)
            == all_candidates(records, field, index.lists()),
        Err(e) => exists|b: int|
            0 <= b < index.lists().len() && e.shingle@ == index.shingles()[b] && is_first_missing(
                records,
                #[trigger] index.lists()[b],
                e.id@,
            ) && index.lists()[b].len() >= 2 && forall|c: int|
                0 <= c < b ==> block_consistent(records, #[trigger] index.lists()[c]),
    }
}

/// A block of `k` ids has `k * (k - 1) / 2` pairs; a block of fewer than two
/// ids has none.
pub proof fn lemma_block_pairs_count(ids: Seq<Seq<char>>)
    ensures
        block_pairs(ids).len() == pair_count(ids.len()),
        ids.len() < 2 ==> block_pairs(ids).len() == 0,
    decreases ids.len(),
{
    let k = ids.len() as int;
    if k >= 2 {
        lemma_block_pairs_count(ids.drop_first());
        assert((k - 1) * (k - 2) == k * (k - 1) - 2 * (k - 1) && (k - 1) * (k - 2) >= 0) by (nonlinear_arith)
            requires
                k >= 2,
        ;
    } else {
        assert(k * (k - 1) == 0) by (nonlinear_arith)
            requires
                0 <= k < 2,
        ;
    }
}

/// The pairs of a block, pair by pair: the ids at two positions stand as a
/// pair exactly where the first position is before the second.
pub proof fn lemma_block_pairs_are_ordered_positions(ids: Seq<Seq<char>>, r: int)
    requires
        0 <= r < block_pairs(ids).len(),
    ensures
        exists|i: int, j: int|
            0 <= i < j < ids.len() && block_pairs(ids)[r] == (#[trigger] ids[i], #[trigger] ids[j]),
    decreases ids.len(),
{
    let rest = ids.drop_first();
    if r < pairs_with(ids.first(), rest).len() {
        assert(block_pairs(ids)[r] == (ids[0], ids[r + 1]));
    } else {
        let r2 = r - pairs_with(ids.first(), rest).len();
        lemma_block_pairs_are_ordered_positions(rest, r2);
        let (i, j) = choose|i: int, j: int|
            0 <= i < j < rest.len() && block_pairs(rest)[r2] == (#[trigger] rest[i], #[trigger] rest[j]);
        assert(block_pairs(ids)[r] == (ids[i + 1], ids[j + 1]));
    }
}

/// An index that was built from records of a record set can be scored
/// against that set: every id in every posting list is an id of the set.
pub proof fn lemma_built_index_is_consistent(
    index: BlockIndex,
    records: Seq<RecordView>,
    field: Field,
    n: nat,
    set: Map<Seq<char>, RecordView>,
)
    requires
        index.coherent(),
        index@ == block_map(records, field, n),
        forall|i: int| 0 <= i < records.len() ==> set.contains_key(#[trigger] records[i].id),
    ensures
        forall|b: int, p: int|
            0 <= b < index.lists().len() && 0 <= p < index.lists()[b].len() ==> set.contains_key(
                #[trigger] index.lists()[b][p],
            ),
        consistent(set, index.lists()),
{
    assert forall|b: int, p: int|
        0 <= b < index.lists().len() && 0 <= p < index.lists()[b].len() implies set.contains_key(
        #[trigger] index.lists()[b][p],
    ) by {
        let shingle = index.shingles()[b];
        assert(index.shingles().to_set().contains(shingle));
        assert(index@.contains_key(shingle));
        assert(index.lists()[b] == posting_list(records, field, n, shingle));
        lemma_posting_list_members(records, field, n, shingle);
    }
}

/// Scoring an index against the record set that it was built from never
/// fails: whatever field is scored, the result is the list of scored pairs.
pub proof fn lemma_scoring_a_built_index_succeeds(
    result: Result<Vec<CandidateScore>, ConsistencyError>,
    index: BlockIndex,
    records: Seq<RecordView>,
    block_field: Field,
    n: nat,
    set: Map<Seq<char>, RecordView>,
    score_field: Field,
)
    requires
        index.coherent(),
        index@ == block_map(records, block_field, n),
        forall|i: int| 0 <= i < records.len() ==> set.contains_key(#[trigger] records[i].id),
        is_scored(result, index, set, score_field),
    ensures
        result is Ok,
{
    lemma_built_index_is_consistent(index, records, block_field, n, set);
    if result is Err {
        let b = choose|b: int|
            0 <= b < index.lists().len() && is_first_missing(
                set,
                #[trigger] index.lists()[b],
                result->Err_0.id@,
            );
        let ids = index.lists()[b];
        let p = choose|p: int| 0 <= p < ids.len() && #[trigger] ids[p] == result->Err_0.id@;
        assert(set.contains_key(index.lists()[b][p]));
    }
}

/// Scores the pairs of one block: each id with each id that stands after
/// it, by the similarity of the chosen field of their records. A block of
/// fewer than two ids gives nothing. Where an id of a larger block has no
/// record, the error names the first such id.
pub fn score_block(shingle: &str, ids: &Vec<String>, records: &RecordSet, field: Field) -> (result:
    Result<Vec<CandidateScore>, ConsistencyError>)
    ensures
        result is Ok <==> block_consistent(records@, ids.deep_view()),
        result matches Ok(scores) ==> candidate_views(scores@) == block_candidates(
            records@,
            field,
            ids.deep_view(),
        ) && scores.len() == pair_count(ids.len() as nat),
        result matches Err(e) ==> e.shingle@ == shingle@ && is_first_missing(
            records@,
            ids.deep_view(),
            e.id@,
        ),
{
    let ghost all = ids.deep_view();
    let ghost score = scoring(records@, field);
    let k: usize = ids.len();
    let mut scores: Vec<CandidateScore> = Vec::new();
    proof {
        lemma_block_pairs_count(all);
    }
    if k < 2 {
        assert(candidate_views(scores@) =~= block_candidates(records@, field, all));
        return Ok(scores);
    }
    let mut found: Vec<&Record> = Vec::new();
    let mut p: usize = 0;
    while p < k
        invariant
            k == ids.len(),
            k >= 2,
            all == ids.deep_view(),
            p <= k,
            found.len() == p,
            forall|q: int|
                0 <= q < p ==> records@.contains_key(#[trigger] all[q]) && found[q]@
                    == records@[all[q]],
        decreases k - p,
    {
        match records.get(ids[p].as_str()) {
            Some(record) => {
                found.push(record);
            },
            None => {
                let id = ids[p].clone();
                assert(all[p as int] == id@);
                assert(!records@.contains_key(all[p as int]));
                return Err(ConsistencyError { shingle: shingle.to_owned(), id });
            },
        }
        p = p + 1;
    }
    let mut i: usize = 0;
    assert(all.subrange(0, k as int) =~= all);
    while i < k
        invariant
            k == ids.len(),
            all == ids.deep_view(),
            score == scoring(records@, field),
            i <= k,
            found.len() == k,
            forall|q: int|
                0 <= q < k ==> records@.contains_key(#[trigger] all[q]) && found[q]@
                    == records@[all[q]],
            candidate_views(scores@) + block_pairs(all.subrange(i as int, k as int)).map_values(
                score,
            ) == block_candidates(records@, field, all),
        decreases k - i,
    {
        let ghost row_start = candidate_views(scores@);
        let ghost tail = all.subrange(i as int, k as int);
        let ghost rest = all.subrange(i + 1, k as int);
        let mut j: usize = i + 1;
        assert(all.subrange(i + 1, i + 1) =~= Seq::<Seq<char>>::empty());
        assert(row_start + pairs_with(all[i as int], Seq::<Seq<char>>::empty()).map_values(score)
            =~= row_start);
        while j < k
            invariant
                k == ids.len(),
                all == ids.deep_view(),
                score == scoring(records@, field),
                i < j <= k,
                found.len() == k,
                forall|q: int|
                    0 <= q < k ==> records@.contains_key(#[trigger] all[q]) && found[q]@
                        == records@[all[q]],
                candidate_views(scores@) == row_start + pairs_with(
                    all[i as int],
                    all.subrange(i + 1, j as int),
                ).map_values(score),
            decreases k - j,
        {
            let ghost before = candidate_views(scores@);
            let ghost row = all.subrange(i + 1, j as int);
            let similarity = score_lev_distance(
                found[i].field(field).as_str(),
                found[j].field(field).as_str(),
            );
            let candidate = CandidateScore {
                id1: ids[i].clone(),
                id2: ids[j].clone(),
                score: similarity,
            };
            scores.push(candidate);
            proof {
                assert(all.subrange(i + 1, j + 1) =~= row.push(all[j as int]));
                assert(candidate@ == score((all[i as int], all[j as int])));
                assert(candidate_views(scores@) =~= before.push(candidate@));
                assert(pairs_with(all[i as int], row.push(all[j as int])).map_values(score)
                    =~= pairs_with(all[i as int], row).map_values(score).push(candidate@));
            }
            j = j + 1;
        }
        proof {
            assert(tail.drop_first() =~= rest);
            if tail.len() >= 2 {
                assert(block_pairs(tail) == pairs_with(all[i as int], rest) + block_pairs(rest));
                assert((pairs_with(all[i as int], rest) + block_pairs(rest)).map_values(score)
                    =~= pairs_with(all[i as int], rest).map_values(score) + block_pairs(
                    rest,
                ).map_values(score));
            } else {
                assert(rest.len() == 0);
                assert(block_pairs(tail).map_values(score) =~= block_pairs(rest).map_values(score));
                assert(pairs_with(all[i as int], rest).map_values(score) =~= Seq::<
                    CandidateView,
                >::empty());
            }
            assert(candidate_views(scores@) + block_pairs(rest).map_values(score) =~= row_start
                + block_pairs(tail).map_values(score));
        }
        i = i + 1;
    }
    proof {
        assert(all.subrange(k as int, k as int).len() == 0);
        assert(candidate_views(scores@) =~= block_candidates(records@, field, all));
    }
    Ok(scores)
}

/// Scores every block of `index` against `records`, block after block, by
/// the similarity of the chosen field. Fails at the first block that cannot
/// be scored.
pub fn score_blocks_by(index: &BlockIndex, records: &RecordSet, field: Field) -> (result: Result<
    Vec<CandidateScore>,
    ConsistencyError,
>)
    ensures
        is_scored(result, *index, records@, field),
        result is Ok <==> consistent(records@, index.lists()),
{
    let shingles = index.keys();
    let lists = index.posting_lists();
    let ghost all = index.lists();
    let mut scores: Vec<CandidateScore> = Vec::new();
    let mut b: usize = 0;
    assert(all.subrange(0, 0) =~= Seq::<Seq<Seq<char>>>::empty());
    assert(candidate_views(scores@) =~= Seq::<CandidateView>::empty());
    while b < lists.len()
        invariant
            b <= lists.len(),
            all == index.lists(),
            all.len() == lists.len(),
            shingles.len() == lists.len(),
            shingles.deep_view() == index.shingles(),
            forall|c: int| 0 <= c < lists.len() ==> lists[c].deep_view() == #[trigger] all[c],
            forall|c: int| 0 <= c < b ==> block_consistent(records@, #[trigger] all[c]),
            candidate_views(scores@) == all_candidates(records@, field, all.subrange(0, b as int)),
        decreases lists.len() - b,
    {
        let ghost before = candidate_views(scores@);
        match score_block(shingles[b].as_str(), &lists[b], records, field) {
            Ok(found) => {
                let mut found = found;
                let ghost added = candidate_views(found@);
                scores.append(&mut found);
                proof {
                    assert(candidate_views(scores@) =~= before + added);
                    assert(all.subrange(0, b + 1).drop_last() =~= all.subrange(0, b as int));
                    assert(all.subrange(0, b + 1).last() == all[b as int]);
                }
            },
            Err(e) => {
                proof {
                    assert(all[b as int] == lists[b as int].deep_view());
                    assert(!block_consistent(records@, all[b as int]));
                    assert(index.shingles()[b as int] == shingles[b as int]@);
                }
                return Err(e);
            },
        }
        b = b + 1;
    }
    assert(all.subrange(0, b as int) =~= all);
    Ok(scores)
}

/// Scores every block of `index` against `records` by the similarity of the
/// titles.
pub fn score_blocks(index: &BlockIndex, records: &RecordSet) -> (result: Result<
    Vec<CandidateScore>,
    ConsistencyError,
>)
    ensures
        is_scored(result, *index, records@, Field::Title),
        result is Ok <==> consistent(records@, index.lists()),
{
    score_blocks_by(index, records, Field::Title)
}

} // verus!
