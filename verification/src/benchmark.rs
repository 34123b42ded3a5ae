//! A run over a data set: reading the blocks and the queries, indexing the blocks,
//! answering the queries, and the score.
use vstd::prelude::*;

use crate::bytes::{holds, i32_at, read_i32, read_u64, u64_at, u64_bytes, u64_round_trip};
use crate::parameter::Parameter;
use crate::statistics::{flattened, lemma_occurrences_counted};
use crate::tally::occurrences;
use crate::user::{answer, answers_are_counts, build_idx, is_index, query_idx};

verus! {

/// The `n` values that are stored from `pos` on.
pub open spec fn values_at(s: Seq<u8>, pos: int, n: nat) -> Seq<i32> {
    Seq::new(n, |j: int| i32_at(s, pos + 4 * j))
}

/// Whether the bytes hold a number of blocks, their size, and so many values.
pub open spec fn holds_blocks(s: Seq<u8>) -> bool {
    s.len() >= 16 && s.len() >= 16 + 4 * (u64_at(s, 0) * u64_at(s, 8))
}

/// Whether the bytes hold a number of queries and so many values.
pub open spec fn holds_queries(s: Seq<u8>) -> bool {
    s.len() >= 8 && s.len() >= 8 + 4 * u64_at(s, 0)
}

/// Reads `n` values from `pos` on.
fn read_values(s: &[u8], pos: usize, n: usize) -> (values: Vec<i32>)
    requires
        pos + 4 * n <= s@.len(),
    ensures
        values@ == values_at(s@, pos as int, n as nat),
{
    let mut values: Vec<i32> = Vec::new();
    let mut j: usize = 0;
    assert(s@.len() == s.len());
    while j < n
        invariant
            j <= n,
            pos + 4 * n <= s@.len() <= usize::MAX,
            values@ == values_at(s@, pos as int, j as nat),
        decreases n - j,
    {
        values.push(read_i32(s, pos + 4 * j));
        assert(values@ =~= values_at(s@, pos as int, (j + 1) as nat));
        j = j + 1;
    }
    values
}

/// Reads the blocks of a data file. What stands behind the last block is not looked at.
pub fn parse_data(s: &[u8]) -> (r: Option<Vec<Vec<i32>>>)
    ensures
        r is Some <==> holds_blocks(s@),
        r matches Some(blocks) ==> blocks@.len() == u64_at(s@, 0) && forall|b: int|
            0 <= b < blocks@.len() ==> (#[trigger] blocks@[b])@ == values_at(
                s@,
                16 + b * (4 * u64_at(s@, 8)),
                u64_at(s@, 8) as nat,
            ),
{
    if s.len() < 16 {
        return None;
    }
    let n_block = read_u64(s, 0);
    let chunk_size = read_u64(s, 8);
    assert(n_block * chunk_size <= u64::MAX * u64::MAX) by (nonlinear_arith)
        requires
            0 <= n_block <= u64::MAX,
            0 <= chunk_size <= u64::MAX,
    ;
    let values: u128 = n_block as u128 * chunk_size as u128;
    if values > ((s.len() - 16) / 4) as u128 {
        return None;
    }
    let mut blocks: Vec<Vec<i32>> = Vec::new();
    let mut b: u64 = 0;
    let mut pos: usize = 16;
    proof {
        if n_block > 0 {
            assert(chunk_size <= n_block * chunk_size) by (nonlinear_arith)
                requires
                    n_block >= 1,
                    chunk_size >= 0,
            ;
        }
    }
    while b < n_block
        invariant
            b <= n_block,
            n_block == u64_at(s@, 0),
            chunk_size == u64_at(s@, 8),
            n_block > 0 ==> 4 * chunk_size <= s@.len(),
            16 + 4 * (n_block * chunk_size) <= s@.len() <= usize::MAX,
            pos == 16 + b * (4 * chunk_size),
            blocks@.len() == b,
            forall|k: int|
                0 <= k < b ==> (#[trigger] blocks@[k])@ == values_at(
                    s@,
                    16 + k * (4 * chunk_size),
                    chunk_size as nat,
                ),
        decreases n_block - b,
    {
        assert(b * (4 * chunk_size) + 4 * chunk_size == (b + 1) * (4 * chunk_size) && (b + 1) * (4
            * chunk_size) <= 4 * (n_block * chunk_size)) by (nonlinear_arith)
            requires
                0 <= b < n_block,
                chunk_size >= 0,
        ;
        blocks.push(read_values(s, pos, chunk_size as usize));
        pos = pos + 4 * chunk_size as usize;
        b = b + 1;
    }
    Some(blocks)
}

/// Reads the queries of a query file. What stands behind the last query is not looked
/// at.
pub fn parse_queries(s: &[u8]) -> (r: Option<Vec<i32>>)
    ensures
        r is Some <==> holds_queries(s@),
        r matches Some(queries) ==> queries@ == values_at(s@, 8, u64_at(s@, 0) as nat),
{
    if s.len() < 8 {
        return None;
    }
    let n = read_u64(s, 0);
    if n > ((s.len() - 8) / 4) as u64 {
        return None;
    }
    Some(read_values(s, 8, n as usize))
}

/// A file of `n` blocks, which starts with their number and their size and holds their
/// values one after the other, is read as these blocks. One byte less, and it is not read.
pub proof fn blocks_read_back(s: Seq<u8>, blocks: Seq<Seq<i32>>, size: u64)
    requires
        blocks.len() <= u64::MAX,
        forall|b: int| 0 <= b < blocks.len() ==> (#[trigger] blocks[b]).len() == size,
        holds(s, 0, u64_bytes(blocks.len() as u64)),
        holds(s, 8, u64_bytes(size)),
        forall|b: int, j: int|
            0 <= b < blocks.len() && 0 <= j < size ==> i32_at(s, 16 + 4 * (b * size + j))
                == #[trigger] blocks[b][j],
    ensures
        holds_blocks(s) <==> s.len() >= 16 + 4 * (blocks.len() * size),
        u64_at(s, 0) == blocks.len(),
        u64_at(s, 8) == size,
        forall|b: int|
            0 <= b < blocks.len() ==> #[trigger] values_at(
                s,
                16 + b * (4 * u64_at(s, 8)),
                u64_at(s, 8) as nat,
            ) == blocks[b],
{
    u64_round_trip(s, 0, blocks.len() as u64);
    u64_round_trip(s, 8, size);
    assert forall|b: int| 0 <= b < blocks.len() implies #[trigger] values_at(
        s,
        16 + b * (4 * u64_at(s, 8)),
        u64_at(s, 8) as nat,
    ) == blocks[b] by {
        assert(blocks[b].len() == size);
        assert forall|j: int| 0 <= j < size implies i32_at(s, 16 + b * (4 * size) + 4 * j)
            == #[trigger] blocks[b][j] by {
            assert(b * (4 * size) + 4 * j == 4 * (b * size + j)) by (nonlinear_arith);
        }
        assert(values_at(s, 16 + b * (4 * size), size as nat) =~= blocks[b]);
    }
}

/// A file of queries, which starts with their number and holds them one after the other, is
/// read as these queries. One byte less, and it is not read.
pub proof fn queries_read_back(s: Seq<u8>, queries: Seq<i32>)
    requires
        queries.len() <= u64::MAX,
        holds(s, 0, u64_bytes(queries.len() as u64)),
        forall|j: int|
            0 <= j < queries.len() ==> i32_at(s, 8 + 4 * j) == #[trigger] queries[j],
    ensures
        holds_queries(s) <==> s.len() >= 8 + 4 * queries.len(),
        values_at(s, 8, u64_at(s, 0) as nat) == queries,
{
    u64_round_trip(s, 0, queries.len() as u64);
    assert(values_at(s, 8, queries.len()) =~= queries);
}

/// The occurrences of `query` in the first `n` blocks.
pub open spec fn total_occurrences(data: Seq<Vec<i32>>, n: nat, query: i32) -> nat
    decreases n,
{
    if n == 0 {
        0
    } else {
        total_occurrences(data, (n - 1) as nat, query) + occurrences(data[n - 1]@, query)
    }
}

/// How many of the first `n` indexes answer `query`.
pub open spec fn answered(indexes: Seq<Box<[u8]>>, n: nat, query: i32) -> nat
    decreases n,
{
    if n == 0 {
        0
    } else {
        answered(indexes, (n - 1) as nat, query) + (if answer(indexes[n - 1]@, query) is Some {
            1nat
        } else {
            0nat
        })
    }
}

/// How many pairs of one of the first `n` queries and an index have an answer.
pub open spec fn total_answered(indexes: Seq<Box<[u8]>>, queries: Seq<i32>, n: nat) -> nat
    decreases n,
{
    if n == 0 {
        0
    } else {
        total_answered(indexes, queries, (n - 1) as nat) + answered(
            indexes,
            indexes.len(),
            queries[n - 1],
        )
    }
}

/// The bytes of the first `n` indexes.
pub open spec fn total_size(indexes: Seq<Box<[u8]>>, n: nat) -> nat
    decreases n,
{
    if n == 0 {
        0
    } else {
        total_size(indexes, (n - 1) as nat) + indexes[n - 1]@.len()
    }
}

/// Whether each index is one of the block at its place, and no block is empty.
pub open spec fn are_indexes(
    parameter: Parameter,
    data: Seq<Vec<i32>>,
    indexes: Seq<Box<[u8]>>,
) -> bool {
    &&& indexes.len() == data.len()
    &&& forall|b: int|
        0 <= b < data.len() ==> 0 < (#[trigger] data[b])@.len() <= u64::MAX && is_index(
            parameter,
            data[b]@,
            indexes[b]@,
        )
}

/// What the answers of the first `n` indexes and, where there is none, scans of the
/// blocks add up to.
pub open spec fn total_answers(
    data: Seq<Vec<i32>>,
    indexes: Seq<Box<[u8]>>,
    n: nat,
    query: i32,
) -> nat
    decreases n,
{
    if n == 0 {
        0
    } else {
        total_answers(data, indexes, (n - 1) as nat, query) + match answer(
            indexes[n - 1]@,
            query,
        ) {
            Some(count) => count as nat,
            None => occurrences(data[n - 1]@, query),
        }
    }
}

/// The answers of the indexes, with scans where there are none, add up to the number of
/// occurrences.
pub proof fn answers_add_up(
    parameter: Parameter,
    data: Seq<Vec<i32>>,
    indexes: Seq<Box<[u8]>>,
    n: nat,
    query: i32,
)
    requires
        are_indexes(parameter, data, indexes),
        n <= data.len(),
    ensures
        total_answers(data, indexes, n, query) == total_occurrences(data, n, query),
    decreases n,
{
    if n > 0 {
        answers_add_up(parameter, data, indexes, (n - 1) as nat, query);
        assert(0 < data[n - 1]@.len());
        answers_are_counts(parameter, data[n - 1]@, indexes[n - 1]@, query);
    }
}

/// An index answers a query or does not.
pub proof fn answered_at_most_all(indexes: Seq<Box<[u8]>>, n: nat, query: i32)
    ensures
        answered(indexes, n, query) <= n,
    decreases n,
{
    if n > 0 {
        answered_at_most_all(indexes, (n - 1) as nat, query);
    }
}

/// The occurrences in the blocks are those in the blocks joined.
pub proof fn totals_count_every_value(data: Seq<Vec<i32>>, n: nat, query: i32)
    requires
        n <= data.len(),
    ensures
        total_occurrences(data, n, query) == flattened(data.take(n as int)).to_multiset().count(
            query,
        ),
    decreases n,
{
    let first = data.take(n as int);
    if n == 0 {
        assert(flattened(first) =~= Seq::empty());
        lemma_occurrences_counted(Seq::empty(), query);
    } else {
        totals_count_every_value(data, (n - 1) as nat, query);
        assert(first.drop_last() =~= data.take(n - 1));
        vstd::seq_lib::lemma_multiset_commutative(flattened(first.drop_last()), first.last()@);
        lemma_occurrences_counted(data[n - 1]@, query);
    }
}

/// The number of indexes that answer a query is the size of their set.
pub proof fn answered_is_a_size(indexes: Seq<Box<[u8]>>, n: nat, query: i32)
    ensures
        Set::new(|b: int| 0 <= b < n && answer(indexes[b]@, query) is Some).finite(),
        answered(indexes, n, query) == Set::new(
            |b: int| 0 <= b < n && answer(indexes[b]@, query) is Some,
        ).len(),
    decreases n,
{
    let all = Set::new(|b: int| 0 <= b < n && answer(indexes[b]@, query) is Some);
    if n == 0 {
        assert(all =~= Set::empty());
    } else {
        let before = Set::new(|b: int| 0 <= b < n - 1 && answer(indexes[b]@, query) is Some);
        answered_is_a_size(indexes, (n - 1) as nat, query);
        if answer(indexes[n - 1]@, query) is Some {
            assert(all =~= before.insert(n - 1));
        } else {
            assert(all =~= before);
        }
    }
}

/// The number of scans saved is the size of the set of pairs of a query and an index that
/// answers it.
pub proof fn total_answered_is_a_size(indexes: Seq<Box<[u8]>>, queries: Seq<i32>, n: nat)
    ensures
        Set::new(
            |pair: (int, int)|
                0 <= pair.0 < n && 0 <= pair.1 < indexes.len() && answer(
                    indexes[pair.1]@,
                    queries[pair.0],
                ) is Some,
        ).finite(),
        total_answered(indexes, queries, n) == Set::new(
            |pair: (int, int)|
                0 <= pair.0 < n && 0 <= pair.1 < indexes.len() && answer(
                    indexes[pair.1]@,
                    queries[pair.0],
                ) is Some,
        ).len(),
    decreases n,
{
    let all = Set::new(
        |pair: (int, int)|
            0 <= pair.0 < n && 0 <= pair.1 < indexes.len() && answer(
                indexes[pair.1]@,
                queries[pair.0],
            ) is Some,
    );
    if n == 0 {
        assert(all =~= Set::empty());
    } else {
        let before = Set::new(
            |pair: (int, int)|
                0 <= pair.0 < n - 1 && 0 <= pair.1 < indexes.len() && answer(
                    indexes[pair.1]@,
                    queries[pair.0],
                ) is Some,
        );
        let m = n - 1;
        let blocks = Set::new(
            |b: int| 0 <= b < indexes.len() && answer(indexes[b]@, queries[m]) is Some,
        );
        let last = all.difference(before);
        let with_query = |b: int| (m, b);
        total_answered_is_a_size(indexes, queries, (n - 1) as nat);
        answered_is_a_size(indexes, indexes.len(), queries[m]);
        assert(blocks.map(with_query) =~= last) by {
            assert forall|pair: (int, int)| #[trigger] last.contains(pair) implies blocks.map(
                with_query,
            ).contains(pair) by {
                assert(blocks.contains(pair.1) && with_query(pair.1) == pair);
            }
        }
        vstd::set_lib::lemma_map_size(blocks, last, with_query);
        assert(all =~= before + last);
        vstd::set_lib::lemma_set_disjoint_lens(before, last);
    }
}

/// The size of the indexes is that of their bytes joined.
pub proof fn size_counts_every_byte(indexes: Seq<Box<[u8]>>)
    ensures
        total_size(indexes, indexes.len()) == indexes.map_values(
            |index: Box<[u8]>| index@,
        ).flatten().len(),
    decreases indexes.len(),
{
    let views = indexes.map_values(|index: Box<[u8]>| index@);
    views.lemma_flatten_and_flatten_alt_are_equivalent();
    if indexes.len() > 0 {
        let before = indexes.drop_last();
        let before_views = before.map_values(|index: Box<[u8]>| index@);
        size_counts_every_byte(before);
        before_views.lemma_flatten_and_flatten_alt_are_equivalent();
        assert(views.drop_last() =~= before_views);
        lemma_size_of_first(indexes, before, before.len());
    }
}

proof fn lemma_size_of_first(a: Seq<Box<[u8]>>, b: Seq<Box<[u8]>>, n: nat)
    requires
        n <= a.len(),
        n <= b.len(),
        forall|i: int| 0 <= i < n ==> a[i] == b[i],
    ensures
        total_size(a, n) == total_size(b, n),
    decreases n,
{
    if n > 0 {
        lemma_size_of_first(a, b, (n - 1) as nat);
    }
}

/// The outcome of a query.
#[derive(Clone, Copy, Debug, PartialEq, Eq, Structural)]
pub struct Evaluation {
    /// What scans of all blocks count.
    pub expected: u64,
    /// What the answers, and scans where there are none, add up to.
    pub user: u64,
    /// The number of blocks that need no scan.
    pub skipped: u64,
}

/// Builds the indexes of all blocks.
pub fn build_indexes(parameter: &Parameter, data: &Vec<Vec<i32>>) -> (indexes: Vec<Box<[u8]>>)
    requires
        forall|b: int| 0 <= b < data@.len() ==> (#[trigger] data@[b])@.len() > 0,
    ensures
        are_indexes(*parameter, data@, indexes@),
{
    let mut indexes: Vec<Box<[u8]>> = Vec::new();
    let mut b: usize = 0;
    while b < data.len()
        invariant
            b <= data@.len(),
            indexes@.len() == b,
            forall|k: int| 0 <= k < data@.len() ==> (#[trigger] data@[k])@.len() > 0,
            forall|k: int|
                0 <= k < b ==> (#[trigger] data@[k])@.len() <= u64::MAX && is_index(
                    *parameter,
                    data@[k]@,
                    indexes@[k]@,
                ),
        decreases data@.len() - b,
    {
        let block = &data[b];
        assert(block@.len() == block.len());
        indexes.push(build_idx(parameter, block.as_slice()));
        b = b + 1;
    }
    indexes
}

/// Adds up the bytes of the indexes.
pub fn index_size(indexes: &Vec<Box<[u8]>>) -> (size: u128)
    ensures
        size == total_size(indexes@, indexes@.len()),
{
    let mut size: u128 = 0;
    let mut b: usize = 0;
    while b < indexes.len()
        invariant
            b <= indexes@.len(),
            size == total_size(indexes@, b as nat),
            size <= b * u64::MAX,
        decreases indexes@.len() - b,
    {
        assert(b * u64::MAX + u64::MAX <= u64::MAX * u64::MAX) by (nonlinear_arith)
            requires
                b + 1 <= u64::MAX,
        ;
        size = size + indexes[b].len() as u128;
        b = b + 1;
    }
    size
}

/// The whole kilobytes in so many bytes.
pub fn kilobytes(size: u128) -> (kb: u128)
    ensures
        kb == size / 1024,
{
    size / 1024
}

/// Counts a value in a block.
fn scan_block(block: &Vec<i32>, query: i32) -> (n: u64)
    ensures
        n == occurrences(block@, query),
{
    let mut n: u64 = 0;
    let mut i: usize = 0;
    while i < block.len()
        invariant
            i <= block@.len(),
            n == occurrences(block@.take(i as int), query),
            n <= i,
        decreases block@.len() - i,
    {
        assert(block@.take(i + 1).drop_last() =~= block@.take(i as int));
        if block[i] == query {
            n = n + 1;
        }
        i = i + 1;
    }
    assert(block@.take(i as int) =~= block@);
    n
}

proof fn lemma_total_grows(data: Seq<Vec<i32>>, n: nat, m: nat, query: i32)
    requires
        n <= m,
    ensures
        total_occurrences(data, n, query) <= total_occurrences(data, m, query),
    decreases m,
{
    if n < m {
        lemma_total_grows(data, n, (m - 1) as nat, query);
    }
}

/// Counts a value once by scans of all blocks, and once from the indexes.
pub fn evaluate_query(
    parameter: &Parameter,
    data: &Vec<Vec<i32>>,
    indexes: &Vec<Box<[u8]>>,
    query: &i32,
) -> (r: Evaluation)
    requires
        are_indexes(*parameter, data@, indexes@),
        total_occurrences(data@, data@.len(), *query) <= u64::MAX,
    ensures
        r.expected == total_occurrences(data@, data@.len(), *query),
        r.user == r.expected,
        r.skipped == answered(indexes@, indexes@.len(), *query),
{
    let mut expected: u64 = 0;
    let mut user: u64 = 0;
    let mut skipped: u64 = 0;
    let mut b: usize = 0;
    while b < data.len()
        invariant
            b <= data@.len() == indexes@.len(),
            are_indexes(*parameter, data@, indexes@),
            total_occurrences(data@, data@.len(), *query) <= u64::MAX,
            expected == total_occurrences(data@, b as nat, *query),
            user == total_answers(data@, indexes@, b as nat, *query),
            skipped == answered(indexes@, b as nat, *query),
            skipped <= b,
        decreases data@.len() - b,
    {
        let block_result = scan_block(&data[b], *query);
        proof {
            lemma_total_grows(data@, (b + 1) as nat, data@.len(), *query);
            answers_add_up(*parameter, data@, indexes@, (b + 1) as nat, *query);
            assert(data@.len() == data.len());
        }
        expected = expected + block_result;
        match query_idx(parameter, &indexes[b], query) {
            None => {
                user = user + block_result;
            },
            Some(idx_hint) => {
                user = user + idx_hint;
                skipped = skipped + 1;
            },
        }
        b = b + 1;
    }
    proof {
        answers_add_up(*parameter, data@, indexes@, data@.len(), *query);
    }
    Evaluation { expected, user, skipped }
}

/// No more pairs of a query and an index have an answer than there are.
pub proof fn total_answered_at_most_all(indexes: Seq<Box<[u8]>>, queries: Seq<i32>, n: nat)
    ensures
        total_answered(indexes, queries, n) <= n * indexes.len(),
    decreases n,
{
    if n > 0 {
        total_answered_at_most_all(indexes, queries, (n - 1) as nat);
        answered_at_most_all(indexes, indexes.len(), queries[n - 1]);
        assert((n - 1) * indexes.len() + indexes.len() == n * indexes.len()) by (nonlinear_arith);
    }
}

/// Evaluates all queries and counts the scans that the indexes save.
pub fn count_skips(
    parameter: &Parameter,
    data: &Vec<Vec<i32>>,
    indexes: &Vec<Box<[u8]>>,
    queries: &Vec<i32>,
) -> (n_skipped: u64)
    requires
        are_indexes(*parameter, data@, indexes@),
        forall|query: i32| #[trigger]
            queries@.contains(query) ==> total_occurrences(data@, data@.len(), query) <= u64::MAX,
        queries@.len() * indexes@.len() <= u64::MAX,
    ensures
        n_skipped == total_answered(indexes@, queries@, queries@.len()),
{
    let mut n_skipped: u64 = 0;
    let mut q: usize = 0;
    while q < queries.len()
        invariant
            q <= queries@.len(),
            are_indexes(*parameter, data@, indexes@),
            forall|query: i32| #[trigger]
                queries@.contains(query) ==> total_occurrences(data@, data@.len(), query)
                    <= u64::MAX,
            queries@.len() * indexes@.len() <= u64::MAX,
            n_skipped == total_answered(indexes@, queries@, q as nat),
        decreases queries@.len() - q,
    {
        proof {
            assert(queries@.contains(queries@[q as int]));
            total_answered_at_most_all(indexes@, queries@, (q + 1) as nat);
            assert((q + 1) * indexes@.len() <= queries@.len() * indexes@.len()) by (nonlinear_arith)
                requires
                    q + 1 <= queries@.len(),
            ;
        }
        let outcome = evaluate_query(parameter, data, indexes, &queries[q]);
        n_skipped = n_skipped + outcome.skipped;
        q = q + 1;
    }
    n_skipped
}

/// The score of a run.
#[derive(Clone, Copy, Debug, PartialEq, Eq, Structural)]
pub struct Score {
    /// The price of the kilobytes of the indexes.
    pub storage: i64,
    /// The reward for the scans that they save.
    pub skips: i64,
    /// The reward less the price, as a multiple of the greatest possible reward, where
    /// there is one and the multiple fits in 64 bits.
    pub total: Option<i64>,
}

/// The quotient, rounded towards zero.
pub open spec fn truncated(a: int, b: int) -> int {
    let quotient = magnitude(a) / magnitude(b);
    if (a < 0) == (b < 0) {
        quotient as int
    } else {
        -quotient
    }
}

/// The absolute value.
pub open spec fn magnitude(a: int) -> nat {
    if a < 0 {
        -a as nat
    } else {
        a as nat
    }
}

/// Whether a number fits in 64 bits.
pub open spec fn fits(x: int) -> bool {
    i64::MIN <= x <= i64::MAX
}

/// The reward for saving every scan.
pub open spec fn max_score(parameter: Parameter, queries: nat, blocks: nat) -> int {
    parameter.factor_skip * queries * blocks
}

/// The reward for the saved scans less the price of the storage.
pub open spec fn net_score(parameter: Parameter, n_skipped: nat, size_kb: nat) -> int {
    n_skipped * parameter.factor_skip - size_kb * parameter.factor_size
}

/// The score, where a reward is possible and the score fits in 64 bits.
pub open spec fn total_score(net: int, max: int) -> Option<i64> {
    if max != 0 && fits(truncated(net, max)) {
        Some(truncated(net, max) as i64)
    } else {
        None
    }
}

/// Whether the rewards and the price can be computed in 64 bits.
pub open spec fn is_scorable(
    parameter: Parameter,
    n_skipped: nat,
    size_kb: nat,
    queries: nat,
    blocks: nat,
) -> bool {
    &&& fits(n_skipped as int) && fits(size_kb as int)
    &&& fits(queries as int) && fits(blocks as int)
    &&& fits(parameter.factor_skip * queries)
    &&& fits(max_score(parameter, queries, blocks))
    &&& fits(n_skipped * parameter.factor_skip)
    &&& fits(size_kb * parameter.factor_size)
    &&& fits(net_score(parameter, n_skipped, size_kb))
}

/// The score is the quotient of the net score and the greatest reward, rounded towards
/// zero: what it leaves over is smaller than the reward and has the sign of the net score.
/// No other number is the score, and there is none only where none fits in 64 bits.
pub proof fn total_is_the_quotient(net: int, max: int, t: i64)
    requires
        max != 0,
    ensures
        total_score(net, max) == Some(t) <==> {
            let rest = net - t * max;
            &&& (if rest < 0 { -rest } else { rest }) < (if max < 0 { -max } else { max })
            &&& rest != 0 ==> (rest < 0 <==> net < 0)
        },
{
    let a = magnitude(net) as int;
    let b = magnitude(max) as int;
    let q = a / b;
    let r = a % b;
    let w = truncated(net, max);
    vstd::arithmetic::div_mod::lemma_fundamental_div_mod(a, b);
    vstd::arithmetic::div_mod::lemma_div_pos_is_pos(a, b);
    let rest = net - w * max;
    assert(b * q == q * b) by (nonlinear_arith);
    assert((-q) * max == -(q * max) && q * (-max) == -(q * max)) by (nonlinear_arith);
    assert(magnitude(rest) == r && (rest != 0 ==> (rest < 0 <==> net < 0)));
    let other = net - t * max;
    if magnitude(other) < b && (other != 0 ==> (other < 0 <==> net < 0)) {
        assert((w - t) * max == other - rest) by (nonlinear_arith)
            requires
                rest == net - w * max,
                other == net - t * max,
        ;
        assert(-b < other - rest < b);
        if w != t {
            assert(magnitude((w - t) * max) >= b) by {
                let d = w - t;
                assert(d * max >= b || d * max <= -b) by (nonlinear_arith)
                    requires
                        d != 0,
                        b > 0,
                        max == b || max == -b,
                ;
            }
        }
    }
}

/// A run that does not earn the greatest reward, and does not lose as much, scores zero;
/// one that earns just that scores one.
pub proof fn partial_runs_score_zero(net: int, max: int)
    requires
        max > 0,
        -max < net <= max,
    ensures
        net < max ==> total_score(net, max) == Some(0i64),
        net == max ==> total_score(net, max) == Some(1i64),
{
    total_is_the_quotient(net, max, 0);
    total_is_the_quotient(net, max, 1);
    assert(0 * max == 0 && 1 * max == max) by (nonlinear_arith);
}

/// With a price that is not negative and a reward, the score is at most one.
pub proof fn score_is_at_most_one(
    parameter: Parameter,
    n_skipped: nat,
    size_kb: nat,
    queries: nat,
    blocks: nat,
)
    requires
        parameter.factor_size >= 0,
        parameter.factor_skip > 0,
        queries > 0,
        blocks > 0,
        n_skipped <= queries * blocks,
    ensures
        truncated(
            net_score(parameter, n_skipped, size_kb),
            max_score(parameter, queries, blocks),
        ) <= 1,
{
    let net = net_score(parameter, n_skipped, size_kb);
    let max = max_score(parameter, queries, blocks);
    let skip = parameter.factor_skip as int;
    let size = parameter.factor_size as int;
    assert(net <= max && max > 0) by (nonlinear_arith)
        requires
            net == n_skipped * skip - size_kb * size,
            max == skip * queries * blocks,
            n_skipped <= queries * blocks,
            queries > 0,
            blocks > 0,
            skip > 0,
            size >= 0,
    ;
    vstd::arithmetic::div_mod::lemma_div_pos_is_pos(magnitude(net) as int, max);
    if net >= 0 {
        vstd::arithmetic::div_mod::lemma_div_is_ordered(net, max, max);
        vstd::arithmetic::div_mod::lemma_div_by_self(max);
    }
}

/// Divides, rounding towards zero, unless the divisor is zero or the quotient does not fit.
fn divide(a: i64, b: i64) -> (r: Option<i64>)
    ensures
        r == total_score(a as int, b as int),
{
    if b == 0 {
        return None;
    }
    let dividend: u128 = if a < 0 {
        (-(a as i128)) as u128
    } else {
        a as u128
    };
    let divisor: u128 = if b < 0 {
        (-(b as i128)) as u128
    } else {
        b as u128
    };
    let quotient: u128 = dividend / divisor;
    proof {
        vstd::arithmetic::div_mod::lemma_div_is_ordered_by_denominator(
            dividend as int,
            1,
            divisor as int,
        );
    }
    let signed: i128 = if (a < 0) == (b < 0) {
        quotient as i128
    } else {
        -(quotient as i128)
    };
    if signed > i64::MAX as i128 {
        None
    } else {
        Some(signed as i64)
    }
}

/// Scores a run, unless a reward or the price does not fit in 64 bits.
pub fn score(
    parameter: &Parameter,
    n_skipped: u64,
    size_kb: u128,
    queries: usize,
    blocks: usize,
) -> (r: Option<Score>)
    ensures
        r is Some <==> is_scorable(
            *parameter,
            n_skipped as nat,
            size_kb as nat,
            queries as nat,
            blocks as nat,
        ),
        r is Some <==> {
            &&& n_skipped <= i64::MAX && size_kb <= i64::MAX
            &&& queries <= i64::MAX && blocks <= i64::MAX
            &&& i64::MIN <= parameter.factor_skip * queries <= i64::MAX
            &&& i64::MIN <= parameter.factor_skip * queries * blocks <= i64::MAX
            &&& i64::MIN <= n_skipped * parameter.factor_skip <= i64::MAX
            &&& i64::MIN <= size_kb * parameter.factor_size <= i64::MAX
            &&& i64::MIN <= n_skipped * parameter.factor_skip - size_kb * parameter.factor_size
                <= i64::MAX
        },
        r matches Some(s) ==> {
            &&& s.storage == size_kb * parameter.factor_size
            &&& s.skips == n_skipped * parameter.factor_skip
            &&& s.total == total_score(
                net_score(*parameter, n_skipped as nat, size_kb as nat),
                max_score(*parameter, queries as nat, blocks as nat),
            )
            &&& parameter.factor_skip * queries * blocks == 0 ==> s.total is None
        },
        r matches Some(s) ==> (s.total matches Some(t) ==> {
            let max = parameter.factor_skip * queries * blocks;
            let rest = s.skips - s.storage - t * max;
            &&& (if rest < 0 { -rest } else { rest }) < (if max < 0 { -max } else { max })
            &&& rest != 0 ==> (rest < 0 <==> s.skips - s.storage < 0)
        }),
{
    let limit: u64 = 0x7fff_ffff_ffff_ffff;
    if n_skipped > limit || size_kb > limit as u128 || queries as u64 > limit || blocks as u64
        > limit {
        return None;
    }
    let per_block = match parameter.factor_skip.checked_mul(queries as i64) {
        None => {
            return None;
        },
        Some(x) => x,
    };
    let max = match per_block.checked_mul(blocks as i64) {
        None => {
            return None;
        },
        Some(x) => x,
    };
    let skips = match (n_skipped as i64).checked_mul(parameter.factor_skip) {
        None => {
            return None;
        },
        Some(x) => x,
    };
    let storage = match (size_kb as i64).checked_mul(parameter.factor_size) {
        None => {
            return None;
        },
        Some(x) => x,
    };
    let net = match skips.checked_sub(storage) {
        None => {
            return None;
        },
        Some(x) => x,
    };
    let total = divide(net, max);
    proof {
        if let Some(t) = total {
            total_is_the_quotient(net as int, max as int, t);
        }
    }
    Some(Score { storage, skips, total })
}

} // verus!
