//! Matching the elements of two exports of one model (the text document file
//! and the SLI file) by a textual key per element, such as its sorted
//! coordinates written out. Where several elements of one list share a key,
//! the last of them stands for the key.

use vstd::hash_map::StringHashMap;
use vstd::prelude::*;

verus! {

/// The character sequences of a list of keys.
pub open spec fn key_views(keys: Seq<String>) -> Seq<Seq<char>> {
    keys.map_values(|s: String| s@)
}

/// Each key that occurs in `keys`, mapped to the position of its last
/// occurrence.
pub open spec fn last_positions(keys: Seq<Seq<char>>) -> Map<Seq<char>, int>
    decreases keys.len(),
{
    if keys.len() == 0 {
        Map::empty()
    } else {
        last_positions(keys.drop_last()).insert(keys.last(), keys.len() - 1)
    }
}

/// Whether position `i` holds the last occurrence of its key.
pub open spec fn is_last(keys: Seq<Seq<char>>, i: int) -> bool {
    last_positions(keys)[keys[i]] == i
}

/// `last_positions` holds exactly the keys that occur, each at the position
/// of its last occurrence.
pub proof fn lemma_last_positions(keys: Seq<Seq<char>>)
    ensures
        forall|k: Seq<char>| #[trigger]
            last_positions(keys).contains_key(k) <==> keys.contains(k),
        forall|k: Seq<char>| #[trigger]
            last_positions(keys).contains_key(k) ==> {
                let p = last_positions(keys)[k];
                &&& 0 <= p < keys.len()
                &&& keys[p] == k
                &&& forall|q: int| p < q < keys.len() ==> keys[q] != k
            },
    decreases keys.len(),
{
    if keys.len() > 0 {
        let init = keys.drop_last();
        let last = keys.last();
        let lp = last_positions(keys);
        let lpi = last_positions(init);
        lemma_last_positions(init);
        assert(lp == lpi.insert(last, keys.len() - 1));
        assert forall|k: Seq<char>| #[trigger] lp.contains_key(k) <==> keys.contains(k) by {
            if k == last {
                assert(keys[keys.len() - 1] == k);
            } else {
                if keys.contains(k) {
                    let i = choose|i: int| 0 <= i < keys.len() && keys[i] == k;
                    assert(init[i] == k);
                    assert(init.contains(k));
                }
                if lpi.contains_key(k) {
                    let i = choose|i: int| 0 <= i < init.len() && init[i] == k;
                    assert(keys[i] == k);
                }
            }
        }
        assert forall|k: Seq<char>| #[trigger] lp.contains_key(k) implies {
            let p = lp[k];
            &&& 0 <= p < keys.len()
            &&& keys[p] == k
            &&& forall|q: int| p < q < keys.len() ==> keys[q] != k
        } by {
            if k != last {
                assert(lpi.contains_key(k));
                let p = lpi[k];
                assert(keys[p] == init[p]);
                assert forall|q: int| p < q < keys.len() implies keys[q] != k by {
                    if q < keys.len() - 1 {
                        assert(keys[q] == init[q]);
                    }
                }
            }
        }
    }
}

/// Every position of `keys` is at or before the last occurrence of its key.
pub proof fn lemma_position_key(keys: Seq<Seq<char>>, i: int)
    requires
        0 <= i < keys.len(),
    ensures
        last_positions(keys).contains_key(keys[i]),
        i <= last_positions(keys)[keys[i]] < keys.len(),
        keys[last_positions(keys)[keys[i]]] == keys[i],
{
    lemma_last_positions(keys);
    let k = keys[i];
    assert(keys.contains(k));
    assert(last_positions(keys).contains_key(k));
    let p = last_positions(keys)[k];
    if p < i {
        assert(keys[i] != k);
    }
}

/// The last-position index of a list of keys.
fn index_keys(keys: &Vec<String>) -> (index: StringHashMap<usize>)
    ensures
        forall|k: Seq<char>| #[trigger]
            index@.contains_key(k) <==> last_positions(key_views(keys@)).contains_key(k),
        forall|k: Seq<char>| #[trigger]
            index@.contains_key(k) ==> index@[k] as int == last_positions(key_views(keys@))[k],
{
    let ghost views = key_views(keys@);
    let mut index: StringHashMap<usize> = StringHashMap::new();
    let mut i: usize = 0;
    assert(views.take(0) =~= Seq::<Seq<char>>::empty());
    while i < keys.len()
        invariant
            0 <= i <= keys.len(),
            views == key_views(keys@),
            forall|k: Seq<char>| #[trigger]
                index@.contains_key(k) <==> last_positions(views.take(i as int)).contains_key(k),
            forall|k: Seq<char>| #[trigger]
                index@.contains_key(k) ==> index@[k] as int == last_positions(
                    views.take(i as int),
                )[k],
        decreases keys.len() - i,
    {
        let key = keys[i].clone();
        assert(views.take(i + 1).drop_last() =~= views.take(i as int));
        assert(views.take(i + 1).last() == key@);
        index.insert(key, i);
        i += 1;
    }
    assert(views.take(keys.len() as int) =~= views);
    index
}

/// The number that the entry at position `j` of `second` receives from
/// `first`: where `j` is the last entry of `second` with its key and `first`
/// has that key, one more than the position of the last entry of `first` with
/// it; otherwise 0.
pub open spec fn matched_number(first: Seq<Seq<char>>, second: Seq<Seq<char>>, j: int) -> int {
    let k = second[j];
    if is_last(second, j) && last_positions(first).contains_key(k) {
        last_positions(first)[k] + 1
    } else {
        0
    }
}

/// Numbers the SLI elements after the text file's elements: element `j` of
/// `sli_keys` gets `matched_number` (a 1-based text element number, or 0 when
/// nothing matches it).
pub fn match_element_numbers(txt_keys: &Vec<String>, sli_keys: &Vec<String>) -> (numbers: Vec<
    usize,
>)
    requires
        txt_keys.len() < usize::MAX,
    ensures
        numbers.len() == sli_keys.len(),
        forall|j: int|
            0 <= j < sli_keys.len() ==> numbers[j] as int == matched_number(
                key_views(txt_keys@),
                key_views(sli_keys@),
                j,
            ),
{
    let ghost txt = key_views(txt_keys@);
    let ghost sli = key_views(sli_keys@);
    let txt_index = index_keys(txt_keys);
    let sli_index = index_keys(sli_keys);
    proof {
        lemma_last_positions(txt);
    }
    let mut numbers: Vec<usize> = Vec::new();
    let mut j: usize = 0;
    while j < sli_keys.len()
        invariant
            0 <= j <= sli_keys.len(),
            txt == key_views(txt_keys@),
            sli == key_views(sli_keys@),
            txt_keys.len() < usize::MAX,
            numbers.len() == j,
            forall|k: Seq<char>| #[trigger]
                txt_index@.contains_key(k) <==> last_positions(txt).contains_key(k),
            forall|k: Seq<char>| #[trigger]
                txt_index@.contains_key(k) ==> txt_index@[k] as int == last_positions(txt)[k],
            forall|k: Seq<char>| #[trigger]
                sli_index@.contains_key(k) <==> last_positions(sli).contains_key(k),
            forall|k: Seq<char>| #[trigger]
                sli_index@.contains_key(k) ==> sli_index@[k] as int == last_positions(sli)[k],
            forall|k: Seq<char>| #[trigger]
                last_positions(txt).contains_key(k) ==> 0 <= last_positions(txt)[k]
                    < txt.len(),
            forall|i: int| 0 <= i < j ==> numbers[i] as int == matched_number(txt, sli, i),
        decreases sli_keys.len() - j,
    {
        let key = sli_keys[j].as_str();
        proof {
            lemma_position_key(sli, j as int);
        }
        let mut number: usize = 0;
        if let Some(p) = sli_index.get(key) {
            if *p == j {
                if let Some(t) = txt_index.get(key) {
                    number = *t + 1;
                }
            }
        }
        numbers.push(number);
        j += 1;
    }
    numbers
}

/// Entries of `first` before position `n` that are the last with their key
/// and whose key `second` has.
pub open spec fn shared_count(first: Seq<Seq<char>>, second: Seq<Seq<char>>, n: int) -> nat
    decreases n,
{
    if n <= 0 {
        0
    } else {
        let i = n - 1;
        shared_count(first, second, i) + if is_last(first, i) && last_positions(
            second,
        ).contains_key(first[i]) {
            1nat
        } else {
            0nat
        }
    }
}

/// For the entries of `first` before position `n` that are the last with
/// their key and whose key `second` has at another position: that position
/// in `first` and the one in `second`, in order.
pub open spec fn mismatch_rows(first: Seq<Seq<char>>, second: Seq<Seq<char>>, n: int) -> Seq<
    (usize, usize),
>
    decreases n,
{
    if n <= 0 {
        Seq::empty()
    } else {
        let i = n - 1;
        let rows = mismatch_rows(first, second, i);
        let k = first[i];
        if is_last(first, i) && last_positions(second).contains_key(k) && last_positions(
            second,
        )[k] != i {
            rows.push((i as usize, last_positions(second)[k] as usize))
        } else {
            rows
        }
    }
}

/// The positions before `n` of the entries of `first` that are the last with
/// their key and whose key `second` lacks, in order.
pub open spec fn unmatched(first: Seq<Seq<char>>, second: Seq<Seq<char>>, n: int) -> Seq<usize>
    decreases n,
{
    if n <= 0 {
        Seq::empty()
    } else {
        let i = n - 1;
        let rest = unmatched(first, second, i);
        if is_last(first, i) && !last_positions(second).contains_key(first[i]) {
            rest.push(i as usize)
        } else {
            rest
        }
    }
}

/// What comparing the element numbering of the two files finds.
pub struct IndexComparison {
    /// How many keys both files have.
    pub checked: usize,
    /// For each key that both files have at different positions: the
    /// position in the text file and the one in the SLI file.
    pub mismatches: Vec<(usize, usize)>,
    /// Positions in the text file of keys that the SLI file lacks.
    pub txt_only: Vec<usize>,
    /// Positions in the SLI file of keys that the text file lacks.
    pub sli_only: Vec<usize>,
}

impl IndexComparison {
    /// Whether every key stands at the same position in both files.
    pub open spec fn spec_is_consistent(&self) -> bool {
        &&& self.mismatches@.len() == 0
        &&& self.txt_only@.len() == 0
        &&& self.sli_only@.len() == 0
    }

    /// Whether every key stands at the same position in both files.
    pub fn is_consistent(&self) -> (r: bool)
        ensures
            r == self.spec_is_consistent(),
    {
        self.mismatches.len() == 0 && self.txt_only.len() == 0 && self.sli_only.len() == 0
    }
}

/// Compares the element positions of the two files key by key (the last
/// element with a key stands for it); each list of the result runs in
/// increasing position.
pub fn compare_element_indices(txt_keys: &Vec<String>, sli_keys: &Vec<String>) -> (r:
    IndexComparison)
    ensures
        r.checked == shared_count(
            key_views(txt_keys@),
            key_views(sli_keys@),
            txt_keys.len() as int,
        ),
        r.mismatches@ == mismatch_rows(
            key_views(txt_keys@),
            key_views(sli_keys@),
            txt_keys.len() as int,
        ),
        r.txt_only@ == unmatched(key_views(txt_keys@), key_views(sli_keys@), txt_keys.len() as int),
        r.sli_only@ == unmatched(key_views(sli_keys@), key_views(txt_keys@), sli_keys.len() as int),
{
    let ghost txt = key_views(txt_keys@);
    let ghost sli = key_views(sli_keys@);
    let txt_index = index_keys(txt_keys);
    let sli_index = index_keys(sli_keys);
    proof {
        lemma_last_positions(txt);
        lemma_last_positions(sli);
    }
    let mut checked: usize = 0;
    let mut mismatches: Vec<(usize, usize)> = Vec::new();
    let mut txt_only: Vec<usize> = Vec::new();
    let mut i: usize = 0;
    while i < txt_keys.len()
        invariant
            0 <= i <= txt_keys.len(),
            txt == key_views(txt_keys@),
            sli == key_views(sli_keys@),
            forall|k: Seq<char>| #[trigger]
                txt_index@.contains_key(k) <==> last_positions(txt).contains_key(k),
            forall|k: Seq<char>| #[trigger]
                txt_index@.contains_key(k) ==> txt_index@[k] as int == last_positions(txt)[k],
            forall|k: Seq<char>| #[trigger]
                sli_index@.contains_key(k) <==> last_positions(sli).contains_key(k),
            forall|k: Seq<char>| #[trigger]
                sli_index@.contains_key(k) ==> sli_index@[k] as int == last_positions(sli)[k],
            checked <= i,
            checked == shared_count(txt, sli, i as int),
            mismatches@ == mismatch_rows(txt, sli, i as int),
            txt_only@ == unmatched(txt, sli, i as int),
        decreases txt_keys.len() - i,
    {
        let key = txt_keys[i].as_str();
        proof {
            lemma_position_key(txt, i as int);
        }
        if let Some(p) = txt_index.get(key) {
            if *p == i {
                match sli_index.get(key) {
                    Some(s) => {
                        checked += 1;
                        if *s != i {
                            mismatches.push((i, *s));
                        }
                    },
                    None => {
                        txt_only.push(i);
                    },
                }
            }
        }
        i += 1;
    }
    let mut sli_only: Vec<usize> = Vec::new();
    let mut j: usize = 0;
    while j < sli_keys.len()
        invariant
            0 <= j <= sli_keys.len(),
            txt == key_views(txt_keys@),
            sli == key_views(sli_keys@),
            forall|k: Seq<char>| #[trigger]
                txt_index@.contains_key(k) <==> last_positions(txt).contains_key(k),
            forall|k: Seq<char>| #[trigger]
                sli_index@.contains_key(k) <==> last_positions(sli).contains_key(k),
            forall|k: Seq<char>| #[trigger]
                sli_index@.contains_key(k) ==> sli_index@[k] as int == last_positions(sli)[k],
            sli_only@ == unmatched(sli, txt, j as int),
        decreases sli_keys.len() - j,
    {
        let key = sli_keys[j].as_str();
        proof {
            lemma_position_key(sli, j as int);
        }
        if let Some(p) = sli_index.get(key) {
            if *p == j && !txt_index.contains_key(key) {
                sli_only.push(j);
            }
        }
        j += 1;
    }
    IndexComparison { checked, mismatches, txt_only, sli_only }
}

/// A nonzero number given to an SLI element names a text element with the
/// same key, the last one with it; an element gets a nonzero number exactly
/// when it is the last SLI element with its key and the text file has the key.
pub proof fn law_matched_number_names_same_key(
    first: Seq<Seq<char>>,
    second: Seq<Seq<char>>,
    j: int,
)
    requires
        0 <= j < second.len(),
    ensures
        matched_number(first, second, j) > 0 <==> (is_last(second, j) && first.contains(
            second[j],
        )),
        matched_number(first, second, j) > 0 ==> {
            let i = matched_number(first, second, j) - 1;
            &&& 0 <= i < first.len()
            &&& first[i] == second[j]
            &&& forall|q: int| i < q < first.len() ==> first[q] != second[j]
        },
{
    lemma_last_positions(first);
    lemma_last_positions(second);
    assert(last_positions(first).contains_key(second[j]) <==> first.contains(second[j]));
}

/// Each mismatch that the comparison reports, a text position `i` and an SLI
/// position `p`, is an SLI element that the numbering gives text number
/// `i + 1`, and both positions hold the same key.
pub proof fn law_mismatch_rows_agree_with_numbers(
    first: Seq<Seq<char>>,
    second: Seq<Seq<char>>,
    n: int,
)
    requires
        0 <= n <= first.len(),
        first.len() <= usize::MAX,
        second.len() <= usize::MAX,
    ensures
        forall|r: int|
            0 <= r < mismatch_rows(first, second, n).len() ==> {
                let (i, p) = #[trigger] mismatch_rows(first, second, n)[r];
                &&& i != p
                &&& 0 <= i < first.len()
                &&& 0 <= p < second.len()
                &&& first[i as int] == second[p as int]
                &&& matched_number(first, second, p as int) == i + 1
            },
    decreases n,
{
    lemma_last_positions(first);
    lemma_last_positions(second);
    if n > 0 {
        law_mismatch_rows_agree_with_numbers(first, second, n - 1);
        let i = n - 1;
        let k = first[i];
        let rows = mismatch_rows(first, second, n - 1);
        let all = mismatch_rows(first, second, n);
        if is_last(first, i) && last_positions(second).contains_key(k) && last_positions(
            second,
        )[k] != i {
            let p = last_positions(second)[k];
            assert(second[p] == k);
            assert(is_last(second, p));
            assert(last_positions(first)[k] == i);
            let row = (i as usize, p as usize);
            assert(all == rows.push(row));
            assert forall|r: int| 0 <= r < all.len() implies {
                let (a, b) = #[trigger] all[r];
                &&& a != b
                &&& 0 <= a < first.len()
                &&& 0 <= b < second.len()
                &&& first[a as int] == second[b as int]
                &&& matched_number(first, second, b as int) == a + 1
            } by {
                if r < rows.len() {
                    assert(all[r] == rows[r]);
                } else {
                    assert(all[r] == row);
                }
            }
        } else {
            assert(all == rows);
        }
    }
}

/// Comparing a file's keys with themselves finds no mismatch and nothing on
/// one side only.
pub proof fn law_same_keys_compare_clean(keys: Seq<Seq<char>>, n: int)
    requires
        0 <= n <= keys.len(),
    ensures
        mismatch_rows(keys, keys, n).len() == 0,
        unmatched(keys, keys, n).len() == 0,
    decreases n,
{
    lemma_last_positions(keys);
    if n > 0 {
        law_same_keys_compare_clean(keys, n - 1);
        lemma_position_key(keys, n - 1);
    }
}

/// The shape of an SLI element, told by how many vertices it has.
#[derive(Debug, Clone, Copy, PartialEq, Eq, Structural)]
pub enum SliShape {
    Line,
    Triangle,
    Quad,
    Unknown,
}

/// Two vertices make a line, three a triangle, four a quadrilateral face;
/// any other count is unknown.
pub open spec fn shape_of(vertex_count: nat) -> SliShape {
    if vertex_count == 2 {
        SliShape::Line
    } else if vertex_count == 3 {
        SliShape::Triangle
    } else if vertex_count == 4 {
        SliShape::Quad
    } else {
        SliShape::Unknown
    }
}

/// The shape of an element with `vertex_count` vertices.
pub fn sli_shape(vertex_count: usize) -> (shape: SliShape)
    ensures
        shape == shape_of(vertex_count as nat),
{
    if vertex_count == 2 {
        SliShape::Line
    } else if vertex_count == 3 {
        SliShape::Triangle
    } else if vertex_count == 4 {
        SliShape::Quad
    } else {
        SliShape::Unknown
    }
}

/// The point positions that 1-based node numbers name, in order, leaving out
/// the numbers past the last of `point_count` points.
pub open spec fn vertex_positions(numbers: Seq<usize>, point_count: nat) -> Seq<usize>
    decreases numbers.len(),
{
    if numbers.len() == 0 {
        Seq::empty()
    } else {
        let rest = vertex_positions(numbers.drop_last(), point_count);
        let n = numbers.last();
        if n - 1 < point_count {
            rest.push((n - 1) as usize)
        } else {
            rest
        }
    }
}

/// The positions among `point_count` points of the vertices of an SLI
/// element whose nodes are `node_numbers`; node numbers start at 1.
pub fn sli_vertex_positions(node_numbers: &Vec<usize>, point_count: usize) -> (positions: Vec<
    usize,
>)
    requires
        forall|i: int| 0 <= i < node_numbers.len() ==> node_numbers[i] >= 1,
    ensures
        positions@ == vertex_positions(node_numbers@, point_count as nat),
        forall|i: int| 0 <= i < positions.len() ==> positions[i] < point_count,
{
    let mut positions: Vec<usize> = Vec::new();
    let mut i: usize = 0;
    while i < node_numbers.len()
        invariant
            0 <= i <= node_numbers.len(),
            forall|q: int| 0 <= q < node_numbers.len() ==> node_numbers[q] >= 1,
            positions@ == vertex_positions(node_numbers@.take(i as int), point_count as nat),
            forall|q: int| 0 <= q < positions.len() ==> positions[q] < point_count,
        decreases node_numbers.len() - i,
    {
        assert(node_numbers@.take(i + 1).drop_last() =~= node_numbers@.take(i as int));
        let n = node_numbers[i];
        if n - 1 < point_count {
            positions.push(n - 1);
        }
        i += 1;
    }
    assert(node_numbers@.take(node_numbers.len() as int) =~= node_numbers@);
    positions
}

/// Two vertices make a line, three a triangle, four a quadrilateral; the
/// shape is unknown exactly for any other vertex count.
pub proof fn law_shapes_by_vertex_count(n: nat)
    ensures
        (shape_of(n) == SliShape::Line) <==> n == 2,
        (shape_of(n) == SliShape::Triangle) <==> n == 3,
        (shape_of(n) == SliShape::Quad) <==> n == 4,
        (shape_of(n) == SliShape::Unknown) <==> (n < 2 || n > 4),
{
}

} // verus!
