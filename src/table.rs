//! Fixed-width rows of strings, ranked by their best edit distance to a query.
use vstd::prelude::*;
use crate::distance::{edit_distance, lemma_upper_bound};
use crate::lev::Lev;

verus! {

/// The distance given to a row none of whose cells could be compared with the
/// query: above every distance the engine can return.
pub const UNMATCHED: i32 = i32::MAX;

/// The smallest distance from `q` to a cell of `row` that fits both capacities,
/// or [`UNMATCHED`] where no cell does.
pub open spec fn best_distance(q: Seq<char>, row: Seq<String>, qcap: nat, ccap: nat) -> int
    decreases row.len(),
{
    if row.len() == 0 {
        UNMATCHED as int
    } else {
        let rest = best_distance(q, row.drop_last(), qcap, ccap);
        let c = row.last()@;
        if q.len() < qcap && c.len() < ccap && edit_distance(q, c) < rest {
            edit_distance(q, c) as int
        } else {
            rest
        }
    }
}

/// The length of the longest string of `row`, in characters.
pub open spec fn longest_in_row(row: Seq<String>) -> nat
    decreases row.len(),
{
    if row.len() == 0 {
        0
    } else {
        let rest = longest_in_row(row.drop_last());
        if row.last()@.len() > rest {
            row.last()@.len()
        } else {
            rest
        }
    }
}

/// The length of the longest cell of all `rows`, 0 where there is none.
pub open spec fn longest_cell(rows: Seq<Vec<String>>) -> nat
    decreases rows.len(),
{
    if rows.len() == 0 {
        0
    } else {
        let rest = longest_cell(rows.drop_last());
        let here = longest_in_row(rows.last()@);
        if here > rest {
            here
        } else {
            rest
        }
    }
}

/// Row `i` comes before row `j`: a smaller distance, or the same one and an
/// earlier place in the table.
pub open spec fn key_before(d: Seq<int>, i: int, j: int) -> bool {
    d[i] < d[j] || (d[i] == d[j] && i < j)
}

/// `order` lists each index below `n` exactly once, by increasing distance, rows of
/// equal distance in table order.
pub open spec fn orders_prefix(d: Seq<int>, order: Seq<usize>, n: nat) -> bool {
    &&& order.len() == n
    &&& forall|k: int| 0 <= k < order.len() ==> #[trigger] order[k] < n
    &&& forall|i: usize| i < n ==> #[trigger] order.contains(i)
    &&& forall|k: int, l: int|
        0 <= k < l < order.len() ==> key_before(d, #[trigger] order[k] as int, #[trigger] order[l] as int)
}

/// `order` is the stable ranking of all the rows by distance.
pub open spec fn is_rank_order(d: Seq<int>, order: Seq<usize>) -> bool {
    orders_prefix(d, order, d.len())
}

/// `res` holds the first `take` rows of the stable ranking, each with its distance.
pub open spec fn is_ranking(
    rows: Seq<Seq<String>>,
    d: Seq<int>,
    take: nat,
    res: Seq<(Seq<String>, int)>,
) -> bool {
    exists|order: Seq<usize>|
        #![trigger is_rank_order(d, order)]
        {
            &&& is_rank_order(d, order)
            &&& res.len() == if take < d.len() { take } else { d.len() }
            &&& forall|k: int|
                0 <= k < res.len() ==> #[trigger] res[k] == (rows[order[k] as int], d[order[k] as int])
        }
}

/// What a ranked result says, row by row: the cells and the distance.
pub open spec fn ranked_view(r: Seq<(&[String], i32)>) -> Seq<(Seq<String>, int)> {
    r.map_values(|p: (&[String], i32)| (p.0@, p.1 as int))
}

/// Rows of strings, all of one width, with an engine large enough for every cell.
pub struct Table {
    pub col_count: usize,
    content: Vec<Vec<String>>,
    lev_matrix: Lev,
}

impl Table {
    /// The width of every row.
    pub closed spec fn columns(&self) -> nat {
        self.col_count as nat
    }

    /// The rows, in the order they were given.
    pub closed spec fn rows(&self) -> Seq<Seq<String>> {
        self.content@.map_values(|r: Vec<String>| r@)
    }

    /// Queries must be shorter than this to be compared with any cell.
    pub closed spec fn query_capacity(&self) -> nat {
        self.lev_matrix.query_capacity()
    }

    /// Cells must be shorter than this to be compared with a query.
    pub closed spec fn cell_capacity(&self) -> nat {
        self.lev_matrix.candidate_capacity()
    }

    /// The distance of each row to the query `q`.
    pub open spec fn distances(&self, q: Seq<char>) -> Seq<int> {
        Seq::new(
            self.rows().len(),
            |i: int| best_distance(q, self.rows()[i], self.query_capacity(), self.cell_capacity()),
        )
    }

    /// Builds a table of `col_count` columns whose queries may be up to
    /// `max_search - 1` characters long; gives `None` when a row has another width.
    pub fn new(max_search: usize, col_count: usize, content: Vec<Vec<String>>) -> (r: Option<Table>)
        requires
            max_search <= i32::MAX,
            longest_cell(content@) + 2 <= i32::MAX,
        ensures
            r.is_none() <==> exists|i: int|
                0 <= i < content@.len() && #[trigger] content@[i]@.len() != col_count,
            r matches Some(t) ==> {
                &&& t.columns() == col_count
                &&& t.rows() == content@.map_values(|row: Vec<String>| row@)
                &&& t.query_capacity() == max_search
                &&& t.cell_capacity() == longest_cell(content@) + 2
            },
    {
        let mut i: usize = 0;
        while i < content.len()
            invariant
                i <= content@.len(),
                forall|k: int| 0 <= k < i ==> #[trigger] content@[k]@.len() == col_count,
            decreases content@.len() - i,
        {
            if content[i].len() != col_count {
                return None;
            }
            i += 1;
        }
        let mut longest: usize = 0;
        let mut i: usize = 0;
        while i < content.len()
            invariant
                i <= content@.len(),
                longest == longest_cell(content@.take(i as int)),
                longest_cell(content@) + 2 <= i32::MAX,
            decreases content@.len() - i,
        {
            let row = &content[i];
            let mut here: usize = 0;
            let mut j: usize = 0;
            proof {
                lemma_longest_prefix(content@, i as int + 1);
                assert(content@.take(i as int + 1).drop_last() =~= content@.take(i as int));
            }
            while j < row.len()
                invariant
                    row == content@[i as int],
                    j <= row@.len(),
                    here == longest_in_row(row@.take(j as int)),
                    longest_in_row(row@) + 2 <= i32::MAX,
                decreases row@.len() - j,
            {
                let len = row[j].as_str().unicode_len();
                proof {
                    lemma_longest_in_row_prefix(row@, j as int + 1);
                    assert(row@.take(j as int + 1).drop_last() =~= row@.take(j as int));
                }
                if len > here {
                    here = len;
                }
                j += 1;
            }
            assert(row@.take(j as int) =~= row@);
            if here > longest {
                longest = here;
            }
            i += 1;
        }
        assert(content@.take(i as int) =~= content@);
        let table = Table { col_count, content, lev_matrix: Lev::new(max_search, longest + 2) };
        assert(table.rows() =~= table.content@.map_values(|row: Vec<String>| row@));
        Some(table)
    }

    /// The distance from `search` to the closest cell of `row` that can be compared.
    fn row_distance(&self, search: &str, row: &Vec<String>) -> (r: i32)
        ensures
            r as int == best_distance(search@, row@, self.query_capacity(), self.cell_capacity()),
    {
        let mut best: i32 = UNMATCHED;
        let mut j: usize = 0;
        while j < row.len()
            invariant
                j <= row@.len(),
                best as int == best_distance(
                    search@,
                    row@.take(j as int),
                    self.query_capacity(),
                    self.cell_capacity(),
                ),
            decreases row@.len() - j,
        {
            let cell = row[j].as_str();
            let res = self.lev_matrix.compare(search, cell);
            proof {
                assert(row@.take(j as int + 1).drop_last() =~= row@.take(j as int));
                lemma_upper_bound(search@, cell@);
            }
            match res {
                Ok(d) => {
                    if d < best {
                        best = d;
                    }
                },
                Err(_) => {},
            }
            j += 1;
        }
        assert(row@.take(j as int) =~= row@);
        best
    }

    /// The first `take` rows by increasing distance to `search`, each with its
    /// distance; rows of equal distance keep their order in the table.
    pub fn compare(&self, search: &str, take: usize) -> (r: Vec<(&[String], i32)>)
        ensures
            is_ranking(self.rows(), self.distances(search@), take as nat, ranked_view(r@)),
    {
        let n = self.content.len();
        let ghost d = self.distances(search@);
        let mut dist: Vec<i32> = Vec::new();
        let mut order: Vec<usize> = Vec::new();
        let mut i: usize = 0;
        while i < n
            invariant
                n == self.content@.len() == d.len(),
                d == self.distances(search@),
                i <= n,
                dist@.len() == i,
                forall|k: int| 0 <= k < i ==> #[trigger] dist@[k] as int == d[k],
                orders_prefix(d, order@, i as nat),
            decreases n - i,
        {
            let di = self.row_distance(search, &self.content[i]);
            assert(self.rows()[i as int] == self.content@[i as int]@);
            assert(d[i as int] == di as int);
            let ghost before = dist@;
            dist.push(di);
            assert(forall|k: int| 0 <= k < i ==> #[trigger] dist@[k] == before[k]);
            let mut p: usize = 0;
            while p < order.len() && dist[order[p]] <= di
                invariant
                    n == self.content@.len() == d.len(),
                    i < n,
                    dist@.len() == i + 1,
                    dist@[i as int] == di,
                    forall|k: int| 0 <= k <= i ==> #[trigger] dist@[k] as int == d[k],
                    orders_prefix(d, order@, i as nat),
                    p <= order@.len(),
                    forall|k: int| 0 <= k < p ==> d[#[trigger] order@[k] as int] <= di,
                decreases order@.len() - p,
            {
                p += 1;
            }
            let ghost old_order = order@;
            order.insert(p, i);
            proof {
                old_order.insert_ensures(p as int, i);
                lemma_insert_keeps_order(d, old_order, i, p as int);
            }
            i += 1;
        }
        let m = if take < n { take } else { n };
        let mut r: Vec<(&[String], i32)> = Vec::new();
        let mut k: usize = 0;
        while k < m
            invariant
                n == self.content@.len() == d.len(),
                m <= n,
                m == if take < n { take } else { n },
                k <= m,
                dist@.len() == n,
                forall|j: int| 0 <= j < n ==> #[trigger] dist@[j] as int == d[j],
                is_rank_order(d, order@),
                r@.len() == k,
                forall|j: int|
                    0 <= j < k ==> #[trigger] ranked_view(r@)[j] == (
                        self.rows()[order@[j] as int],
                        d[order@[j] as int],
                    ),
            decreases m - k,
        {
            let idx = order[k];
            let ghost before = r@;
            r.push((self.content[idx].as_slice(), dist[idx]));
            proof {
                assert(self.rows()[idx as int] == self.content@[idx as int]@);
                assert forall|j: int| 0 <= j <= k implies #[trigger] ranked_view(r@)[j] == (
                    self.rows()[order@[j] as int],
                    d[order@[j] as int],
                ) by {
                    if j < k {
                        assert(r@[j] == before[j]);
                        assert(ranked_view(before)[j] == ranked_view(r@)[j]);
                    }
                }
            }
            k += 1;
        }
        assert(is_rank_order(d, order@));
        r
    }
}

/// Two sequences, each strictly ordered by `key_before` and holding the same
/// elements, are the same sequence.
proof fn lemma_sorted_unique(d: Seq<int>, s1: Seq<usize>, s2: Seq<usize>)
    requires
        forall|k: int, l: int|
            0 <= k < l < s1.len() ==> key_before(d, #[trigger] s1[k] as int, #[trigger] s1[l] as int),
        forall|k: int, l: int|
            0 <= k < l < s2.len() ==> key_before(d, #[trigger] s2[k] as int, #[trigger] s2[l] as int),
        forall|x: usize| s1.contains(x) <==> s2.contains(x),
    ensures
        s1 == s2,
    decreases s1.len(),
{
    if s1.len() == 0 {
        if s2.len() > 0 {
            assert(s2.contains(s2[0]));
        }
        assert(s1 =~= s2);
    } else {
        assert(s1.contains(s1[0]));
        assert(s2.len() > 0);
        assert(s2.contains(s2[0]));
        let a = s1[0];
        let b = s2[0];
        if a != b {
            let p = choose|p: int| 0 <= p < s2.len() && s2[p] == a;
            let q = choose|q: int| 0 <= q < s1.len() && s1[q] == b;
            assert(key_before(d, b as int, s2[p] as int));
            assert(key_before(d, a as int, s1[q] as int));
        }
        let (t1, t2) = (s1.drop_first(), s2.drop_first());
        assert forall|x: usize| t1.contains(x) implies t2.contains(x) by {
            let k = choose|k: int| 0 <= k < t1.len() && t1[k] == x;
            assert(key_before(d, s1[0] as int, s1[k + 1] as int));
            assert(s2.contains(x));
            let l = choose|l: int| 0 <= l < s2.len() && s2[l] == x;
            assert(t2[l - 1] == x);
        }
        assert forall|x: usize| t2.contains(x) implies t1.contains(x) by {
            let k = choose|k: int| 0 <= k < t2.len() && t2[k] == x;
            assert(key_before(d, s2[0] as int, s2[k + 1] as int));
            assert(s1.contains(x));
            let l = choose|l: int| 0 <= l < s1.len() && s1[l] == x;
            assert(t1[l - 1] == x);
        }
        assert forall|k: int, l: int| 0 <= k < l < t1.len() implies key_before(
            d,
            #[trigger] t1[k] as int,
            #[trigger] t1[l] as int,
        ) by {
            assert(key_before(d, s1[k + 1] as int, s1[l + 1] as int));
        }
        assert forall|k: int, l: int| 0 <= k < l < t2.len() implies key_before(
            d,
            #[trigger] t2[k] as int,
            #[trigger] t2[l] as int,
        ) by {
            assert(key_before(d, s2[k + 1] as int, s2[l + 1] as int));
        }
        lemma_sorted_unique(d, t1, t2);
        assert(s1 =~= s2) by {
            assert forall|k: int| 0 < k < s1.len() implies s1[k] == s2[k] by {
                assert(s1[k] == t1[k - 1]);
                assert(s2[k] == t2[k - 1]);
            }
        }
    }
}

/// There is one stable ranking of the rows by distance, so ranking the same rows
/// for the same query and count always gives the same result.
proof fn lemma_ranking_unique(
    rows: Seq<Seq<String>>,
    d: Seq<int>,
    take: nat,
    r1: Seq<(Seq<String>, int)>,
    r2: Seq<(Seq<String>, int)>,
)
    requires
        is_ranking(rows, d, take, r1),
        is_ranking(rows, d, take, r2),
    ensures
        r1 == r2,
{
    let o1 = choose|o: Seq<usize>| #![trigger is_rank_order(d, o)]
        {
            &&& is_rank_order(d, o)
            &&& r1.len() == if take < d.len() { take } else { d.len() }
            &&& forall|k: int|
                0 <= k < r1.len() ==> #[trigger] r1[k] == (rows[o[k] as int], d[o[k] as int])
        };
    let o2 = choose|o: Seq<usize>| #![trigger is_rank_order(d, o)]
        {
            &&& is_rank_order(d, o)
            &&& r2.len() == if take < d.len() { take } else { d.len() }
            &&& forall|k: int|
                0 <= k < r2.len() ==> #[trigger] r2[k] == (rows[o[k] as int], d[o[k] as int])
        };
    assert forall|x: usize| o1.contains(x) implies o2.contains(x) by {
        let k = choose|k: int| 0 <= k < o1.len() && o1[k] == x;
        assert(o1[k] < d.len());
    }
    assert forall|x: usize| o2.contains(x) implies o1.contains(x) by {
        let k = choose|k: int| 0 <= k < o2.len() && o2[k] == x;
        assert(o2[k] < d.len());
    }
    lemma_sorted_unique(d, o1, o2);
    assert(r1 =~= r2);
}

/// Every ranking of a table, for any query and count, lists the same rows in the
/// same order with the same distances.
pub proof fn lemma_rank_deterministic(
    t: &Table,
    q: Seq<char>,
    take: nat,
    r1: Seq<(Seq<String>, int)>,
    r2: Seq<(Seq<String>, int)>,
)
    requires
        is_ranking(t.rows(), t.distances(q), take, r1),
        is_ranking(t.rows(), t.distances(q), take, r2),
    ensures
        r1 == r2,
{
    lemma_ranking_unique(t.rows(), t.distances(q), take, r1, r2);
}

/// Asking for no rows gives none; asking for at least as many rows as the table
/// holds gives all of them, by nondecreasing distance, each row once.
pub proof fn lemma_take_semantics(
    rows: Seq<Seq<String>>,
    d: Seq<int>,
    take: nat,
    r: Seq<(Seq<String>, int)>,
)
    requires
        rows.len() == d.len(),
        is_ranking(rows, d, take, r),
    ensures
        take == 0 ==> r.len() == 0,
        take >= d.len() ==> r.len() == d.len(),
        take >= d.len() ==> forall|k: int, l: int|
            0 <= k < l < r.len() ==> #[trigger] r[k].1 <= #[trigger] r[l].1,
        take >= d.len() ==> forall|i: usize|
            i < rows.len() ==> #[trigger] r.contains((rows[i as int], d[i as int])),
{
    let o = choose|o: Seq<usize>| #![trigger is_rank_order(d, o)]
        {
            &&& is_rank_order(d, o)
            &&& r.len() == if take < d.len() { take } else { d.len() }
            &&& forall|k: int|
                0 <= k < r.len() ==> #[trigger] r[k] == (rows[o[k] as int], d[o[k] as int])
        };
    if take >= d.len() {
        assert forall|k: int, l: int| 0 <= k < l < r.len() implies #[trigger] r[k].1 <= #[trigger] r[l].1 by {
            assert(key_before(d, o[k] as int, o[l] as int));
        }
        assert forall|i: usize| i < rows.len() implies #[trigger] r.contains(
            (rows[i as int], d[i as int]),
        ) by {
            assert(o.contains(i));
            let k = choose|k: int| 0 <= k < o.len() && o[k] == i;
            assert(r[k] == (rows[i as int], d[i as int]));
        }
    }
}

/// Rows handed on for display, without their distances.
pub struct Rows<'a> {
    content: Vec<&'a [String]>,
}

impl<'a> View for Rows<'a> {
    type V = Seq<Seq<String>>;

    closed spec fn view(&self) -> Seq<Seq<String>> {
        self.content@.map_values(|row: &[String]| row@)
    }
}

impl<'a> Rows<'a> {
    /// Keeps the rows of a ranking, in its order.
    pub fn from_ranked(content: Vec<(&'a [String], i32)>) -> (r: Rows<'a>)
        ensures
            r@ == content@.map_values(|p: (&[String], i32)| p.0@),
    {
        let mut rows: Vec<&'a [String]> = Vec::new();
        let mut i: usize = 0;
        while i < content.len()
            invariant
                i <= content@.len(),
                rows@.len() == i,
                forall|k: int| 0 <= k < i ==> #[trigger] rows@[k] == content@[k].0,
            decreases content@.len() - i,
        {
            rows.push(content[i].0);
            i += 1;
        }
        let r = Rows { content: rows };
        assert(r@ =~= content@.map_values(|p: (&[String], i32)| p.0@));
        r
    }

    /// The rows, in order.
    pub fn content(&self) -> (r: &Vec<&'a [String]>)
        ensures
            r@.map_values(|row: &[String]| row@) == self@,
    {
        &self.content
    }
}

proof fn lemma_longest_prefix(rows: Seq<Vec<String>>, i: int)
    requires
        0 <= i <= rows.len(),
    ensures
        longest_cell(rows.take(i)) <= longest_cell(rows),
    decreases rows.len() - i,
{
    if i < rows.len() {
        lemma_longest_prefix(rows.drop_last(), i);
        assert(rows.drop_last().take(i) =~= rows.take(i));
    } else {
        assert(rows.take(i) =~= rows);
    }
}

proof fn lemma_longest_in_row_prefix(row: Seq<String>, j: int)
    requires
        0 <= j <= row.len(),
    ensures
        longest_in_row(row.take(j)) <= longest_in_row(row),
    decreases row.len() - j,
{
    if j < row.len() {
        lemma_longest_in_row_prefix(row.drop_last(), j);
        assert(row.drop_last().take(j) =~= row.take(j));
    } else {
        assert(row.take(j) =~= row);
    }
}

/// Inserting row `i` after every row whose distance does not exceed its own keeps
/// the ranking of the first `i` rows a ranking of the first `i + 1`.
proof fn lemma_insert_keeps_order(d: Seq<int>, order: Seq<usize>, i: usize, p: int)
    requires
        i < d.len(),
        orders_prefix(d, order, i as nat),
        0 <= p <= order.len(),
        forall|k: int| 0 <= k < p ==> d[#[trigger] order[k] as int] <= d[i as int],
        p == order.len() || d[order[p] as int] > d[i as int],
    ensures
        orders_prefix(d, order.insert(p, i), i as nat + 1),
{
    let o2 = order.insert(p, i);
    order.insert_ensures(p, i);
    assert forall|k: int| 0 <= k < o2.len() implies #[trigger] o2[k] < i + 1 by {
        if k > p {
            assert(o2[k] == order[k - 1]);
        }
    }
    assert forall|j: usize| j < i + 1 implies #[trigger] o2.contains(j) by {
        if j == i {
            assert(o2[p] == j);
        } else {
            assert(order.contains(j));
            let k = choose|k: int| 0 <= k < order.len() && order[k] == j;
            if k < p {
                assert(o2[k] == j);
            } else {
                assert(o2[k + 1] == j);
            }
        }
    }
    assert forall|k: int, l: int| 0 <= k < l < o2.len() implies key_before(
        d,
        #[trigger] o2[k] as int,
        #[trigger] o2[l] as int,
    ) by {
        if l < p {
        } else if l == p {
            assert(order[k] < i);
        } else if k < p {
            assert(o2[l] == order[l - 1]);
        } else if k == p {
            assert(o2[l] == order[l - 1]);
            if l - 1 > p {
                assert(key_before(d, order[p] as int, order[l - 1] as int));
            }
        } else {
            assert(o2[l] == order[l - 1]);
            assert(o2[k] == order[k - 1]);
        }
    }
}

} // verus!
