use vstd::prelude::*;
use crate::game::copy_vec;
use crate::math::{floor_log2, ilog2_u32};

verus! {

/// The cells of the board that one feature reads, and the weight table it
/// uses (several symmetric features share a table).
#[derive(Clone, Debug)]
pub struct TupleConfig {
    pub indices: Vec<usize>,
    pub weight_index: usize,
}

/// The code of a card in a feature: 0, 1, 2 for the values 0, 1, 2; then
/// `log2(value / 3) + 3` for 3, 6, 12, ..., at most 14.
pub open spec fn tile_code(value: u32) -> int {
    if value <= 2 {
        value as int
    } else {
        let c = floor_log2((value / 3) as nat) as int + 3;
        if c < 14 {
            c
        } else {
            14
        }
    }
}

/// The code of a card (see [`tile_code`]).
pub fn encode_tile(value: u32) -> (code: usize)
    ensures
        code == tile_code(value),
        code <= 14,
{
    if value == 0 {
        return 0;
    }
    if value == 1 {
        return 1;
    }
    if value == 2 {
        return 2;
    }
    let l = ilog2_u32(value / 3);
    let code = (l as usize) + 3;
    if code < 14 {
        code
    } else {
        14
    }
}

/// The codes of the 16 cells of a flat board.
pub fn encode_board(board: &[u32; 16]) -> (codes: [usize; 16])
    ensures
        forall|i: int| 0 <= i < 16 ==> #[trigger] codes@[i] == tile_code(board@[i]),
{
    let mut codes = [0usize; 16];
    let mut i: usize = 0;
    while i < 16
        invariant
            0 <= i <= 16,
            forall|j: int| 0 <= j < i ==> #[trigger] codes@[j] == tile_code(board@[j]),
        decreases 16 - i,
    {
        codes[i] = encode_tile(board[i]);
        i = i + 1;
    }
    codes
}

/// The entry of a feature's weight table for a board: the codes of its
/// cells read as a number in base 15, first cell first.
pub open spec fn feature_code(indices: Seq<usize>, codes: Seq<usize>) -> int
    decreases indices.len(),
{
    if indices.len() == 0 {
        0
    } else {
        feature_code(indices.drop_last(), codes) * 15 + codes[indices.last() as int]
    }
}

proof fn lemma_feature_code_prefix(indices: Seq<usize>, codes: Seq<usize>, k: int)
    requires
        0 <= k <= indices.len(),
    ensures
        0 <= feature_code(indices.take(k), codes) <= feature_code(indices, codes),
    decreases indices.len() - k,
{
    if k < indices.len() {
        lemma_feature_code_prefix(indices, codes, k + 1);
        assert(indices.take(k + 1).drop_last() =~= indices.take(k));
        lemma_feature_code_nonneg(indices.take(k), codes);
    } else {
        assert(indices.take(k) =~= indices);
        lemma_feature_code_nonneg(indices, codes);
    }
}

proof fn lemma_feature_code_nonneg(indices: Seq<usize>, codes: Seq<usize>)
    ensures
        feature_code(indices, codes) >= 0,
    decreases indices.len(),
{
    if indices.len() > 0 {
        lemma_feature_code_nonneg(indices.drop_last(), codes);
    }
}

/// The entry of a feature's weight table for the coded board `codes`.
pub fn feature_index(indices: &[usize], codes: &[usize; 16]) -> (idx: usize)
    requires
        forall|i: int| 0 <= i < indices@.len() ==> #[trigger] indices@[i] < 16,
        feature_code(indices@, codes@) <= usize::MAX,
    ensures
        idx == feature_code(indices@, codes@),
{
    let mut idx: usize = 0;
    let mut i: usize = 0;
    while i < indices.len()
        invariant
            0 <= i <= indices@.len(),
            forall|j: int| 0 <= j < indices@.len() ==> #[trigger] indices@[j] < 16,
            feature_code(indices@, codes@) <= usize::MAX,
            idx == feature_code(indices@.take(i as int), codes@),
        decreases indices@.len() - i,
    {
        proof {
            lemma_feature_code_prefix(indices@, codes@, i + 1);
            assert(indices@.take(i + 1).drop_last() =~= indices@.take(i as int));
            assert(indices@.take(i + 1).last() == indices@[i as int]);
        }
        idx = idx * 15 + codes[indices[i]];
        i = i + 1;
    }
    assert(indices@.take(indices@.len() as int) =~= indices@);
    idx
}


/// Lexicographic order on lists of positions (the order of `Vec<usize>`):
/// the first differing element decides, and a proper prefix comes first.
pub open spec fn lex_lt(a: Seq<usize>, b: Seq<usize>) -> bool
    decreases a.len(),
{
    if a.len() == 0 {
        b.len() > 0
    } else if b.len() == 0 {
        false
    } else if a[0] < b[0] {
        true
    } else if a[0] > b[0] {
        false
    } else {
        lex_lt(a.drop_first(), b.drop_first())
    }
}

/// Every list comes strictly before the next one: sorted, without repeats.
pub open spec fn strictly_sorted(s: Seq<Seq<usize>>) -> bool {
    forall|i: int, j: int| 0 <= i < j < s.len() ==> lex_lt(#[trigger] s[i], #[trigger] s[j])
}

proof fn lemma_lex_irreflexive(a: Seq<usize>)
    ensures
        !lex_lt(a, a),
    decreases a.len(),
{
    if a.len() > 0 {
        lemma_lex_irreflexive(a.drop_first());
    }
}

proof fn lemma_lex_transitive(a: Seq<usize>, b: Seq<usize>, c: Seq<usize>)
    requires
        lex_lt(a, b),
        lex_lt(b, c),
    ensures
        lex_lt(a, c),
    decreases a.len(),
{
    if a.len() > 0 && b.len() > 0 && c.len() > 0 && a[0] == b[0] && b[0] == c[0] {
        lemma_lex_transitive(a.drop_first(), b.drop_first(), c.drop_first());
    }
}

proof fn lemma_lex_total(a: Seq<usize>, b: Seq<usize>)
    ensures
        a == b || lex_lt(a, b) || lex_lt(b, a),
    decreases a.len(),
{
    if a.len() > 0 && b.len() > 0 && a[0] == b[0] {
        lemma_lex_total(a.drop_first(), b.drop_first());
        if a.drop_first() == b.drop_first() {
            assert(a =~= seq![a[0]] + a.drop_first());
            assert(b =~= seq![b[0]] + b.drop_first());
        }
    } else if a.len() == 0 && b.len() == 0 {
        assert(a =~= b);
    }
}

/// Compares two lists of positions lexicographically.
fn lex_less(a: &Vec<usize>, b: &Vec<usize>) -> (r: bool)
    ensures
        r == lex_lt(a@, b@),
{
    let mut i: usize = 0;
    assert(a@.skip(0) =~= a@);
    assert(b@.skip(0) =~= b@);
    while i < a.len() && i < b.len()
        invariant
            0 <= i <= a@.len(),
            i <= b@.len(),
            lex_lt(a@, b@) == lex_lt(a@.skip(i as int), b@.skip(i as int)),
        decreases a@.len() - i,
    {
        if a[i] < b[i] {
            assert(a@.skip(i as int)[0] == a@[i as int]);
            assert(b@.skip(i as int)[0] == b@[i as int]);
            return true;
        }
        if a[i] > b[i] {
            assert(a@.skip(i as int)[0] == a@[i as int]);
            assert(b@.skip(i as int)[0] == b@[i as int]);
            return false;
        }
        assert(a@.skip(i as int).drop_first() =~= a@.skip(i + 1));
        assert(b@.skip(i as int).drop_first() =~= b@.skip(i + 1));
        i = i + 1;
    }
    i == a.len() && i < b.len()
}

/// The contents of a list of position lists.
pub open spec fn lists_view(v: Seq<Vec<usize>>) -> Seq<Seq<usize>> {
    v.map_values(|t: Vec<usize>| t@)
}

/// Adds `v` to a strictly sorted list of lists, unless it is there already.
fn insert_sorted(list: &mut Vec<Vec<usize>>, v: Vec<usize>)
    requires
        strictly_sorted(lists_view(old(list)@)),
    ensures
        strictly_sorted(lists_view(final(list)@)),
        lists_view(final(list)@).to_set() == lists_view(old(list)@).to_set().insert(v@),
{
    let ghost old_view = lists_view(list@);
    let n = list.len();
    let mut p: usize = 0;
    while p < n && lex_less(&list[p], &v)
        invariant
            0 <= p <= n,
            n == list@.len(),
            list@ == old(list)@,
            old_view == lists_view(list@),
            forall|j: int| 0 <= j < p ==> lex_lt(#[trigger] old_view[j], v@),
        decreases n - p,
    {
        p = p + 1;
    }
    if p < n && !lex_less(&v, &list[p]) {
        proof {
            lemma_lex_total(v@, old_view[p as int]);
            assert(old_view[p as int] == v@);
            assert(old_view.to_set().insert(v@) =~= old_view.to_set());
        }
        return;
    }
    proof {
        if p < n {
            lemma_lex_total(v@, old_view[p as int]);
        }
    }
    let ghost vv = v@;
    list.insert(p, v);
    proof {
        let nv = lists_view(list@);
        assert(nv =~= old_view.insert(p as int, vv));
        assert forall|i: int, j: int| 0 <= i < j < nv.len() implies lex_lt(
            #[trigger] nv[i],
            #[trigger] nv[j],
        ) by {
            if j < p {
            } else if j == p {
                assert(nv[i] == old_view[i]);
            } else if i < p {
                assert(nv[i] == old_view[i]);
                assert(nv[j] == old_view[j - 1]);
                lemma_lex_transitive(old_view[i], vv, old_view[p as int]);
                if j - 1 > p {
                    lemma_lex_transitive(old_view[i], old_view[p as int], old_view[j - 1]);
                }
            } else if i == p {
                assert(nv[j] == old_view[j - 1]);
                if j - 1 > p {
                    lemma_lex_transitive(vv, old_view[p as int], old_view[j - 1]);
                }
            } else {
                assert(nv[i] == old_view[i - 1]);
                assert(nv[j] == old_view[j - 1]);
            }
        }
        assert forall|x: Seq<usize>| nv.to_set().contains(x) <==> old_view.to_set().insert(
            vv,
        ).contains(x) by {
            if nv.contains(x) {
                let k = choose|k: int| 0 <= k < nv.len() && nv[k] == x;
                if k < p {
                    assert(old_view[k] == x);
                } else if k > p {
                    assert(old_view[k - 1] == x);
                }
            }
            if old_view.contains(x) {
                let k = choose|k: int| 0 <= k < old_view.len() && old_view[k] == x;
                if k < p {
                    assert(nv[k] == x);
                } else {
                    assert(nv[k + 1] == x);
                }
            }
            if x == vv {
                assert(nv[p as int] == x);
            }
        }
        assert(nv.to_set() =~= old_view.to_set().insert(vv));
    }
}


/// Where a cell goes when the board turns a quarter turn clockwise:
/// `(row, col)` goes to `(col, 3 - row)`.
pub open spec fn rotate_pos(i: usize) -> usize {
    ((i % 4) * 4 + (3 - i / 4)) as usize
}

/// Where a cell goes when the board is mirrored left to right:
/// `(row, col)` goes to `(row, 3 - col)`.
pub open spec fn mirror_pos(i: usize) -> usize {
    ((i / 4) * 4 + (3 - i % 4)) as usize
}

pub open spec fn rotate_tuple(t: Seq<usize>) -> Seq<usize> {
    t.map_values(|i: usize| rotate_pos(i))
}

pub open spec fn mirror_tuple(t: Seq<usize>) -> Seq<usize> {
    t.map_values(|i: usize| mirror_pos(i))
}

/// `t` turned `k` quarter turns.
pub open spec fn rotate_times(t: Seq<usize>, k: nat) -> Seq<usize>
    decreases k,
{
    if k == 0 {
        t
    } else {
        rotate_tuple(rotate_times(t, (k - 1) as nat))
    }
}

/// The eight symmetric copies of a feature: each of its four rotations,
/// and the mirror image of each.
pub open spec fn symmetry_variants(base: Seq<usize>) -> Seq<Seq<usize>> {
    seq![
        rotate_times(base, 0),
        mirror_tuple(rotate_times(base, 0)),
        rotate_times(base, 1),
        mirror_tuple(rotate_times(base, 1)),
        rotate_times(base, 2),
        mirror_tuple(rotate_times(base, 2)),
        rotate_times(base, 3),
        mirror_tuple(rotate_times(base, 3)),
    ]
}

/// Every position of `t` is a cell of the board.
pub open spec fn on_board(t: Seq<usize>) -> bool {
    forall|i: int| 0 <= i < t.len() ==> #[trigger] t[i] < 16
}

/// The cells of a list of features.
pub open spec fn configs_view(s: Seq<TupleConfig>) -> Seq<Seq<usize>> {
    s.map_values(|t: TupleConfig| t.indices@)
}

/// `block` holds the distinct symmetric copies of `base`, sorted, all
/// sharing the table `weight_id`.
pub open spec fn shared_block(block: Seq<TupleConfig>, base: Seq<usize>, weight_id: int) -> bool {
    &&& forall|i: int| 0 <= i < block.len() ==> (#[trigger] block[i]).weight_index == weight_id
    &&& strictly_sorted(configs_view(block))
    &&& configs_view(block).to_set() == symmetry_variants(base).to_set()
}

/// Turns (or mirrors) every position of `t`.
fn transform(t: &Vec<usize>, mirror: bool) -> (r: Vec<usize>)
    requires
        on_board(t@),
    ensures
        r@ == if mirror {
            mirror_tuple(t@)
        } else {
            rotate_tuple(t@)
        },
        on_board(r@),
{
    let mut r: Vec<usize> = Vec::new();
    let mut i: usize = 0;
    while i < t.len()
        invariant
            0 <= i <= t@.len(),
            on_board(t@),
            r@ == (if mirror {
                mirror_tuple(t@)
            } else {
                rotate_tuple(t@)
            }).take(i as int),
            on_board(r@),
        decreases t@.len() - i,
    {
        let x = t[i];
        let y = if mirror {
            (x / 4) * 4 + (3 - x % 4)
        } else {
            (x % 4) * 4 + (3 - x / 4)
        };
        r.push(y);
        proof {
            let full = if mirror {
                mirror_tuple(t@)
            } else {
                rotate_tuple(t@)
            };
            assert(full.take(i + 1) =~= full.take(i as int).push(y));
        }
        i = i + 1;
    }
    proof {
        let full = if mirror {
            mirror_tuple(t@)
        } else {
            rotate_tuple(t@)
        };
        assert(full.take(t@.len() as int) =~= full);
    }
    r
}

/// The features and weight tables of an n-tuple network: which cells each
/// feature reads and which table it uses, and the size of each table.
pub struct TupleLayout {
    pub tuples: Vec<TupleConfig>,
    pub table_sizes: Vec<usize>,
}

impl TupleLayout {
    /// Adds the distinct symmetric copies of `base_tuple` (rotations and
    /// mirror images), sorted, all using the table `weight_id`.
    pub fn add_symmetries_shared(&mut self, base_tuple: Vec<usize>, weight_id: usize)
        requires
            on_board(base_tuple@),
            old(self).wf(),
            weight_id < old(self).table_sizes@.len(),
            pow15(base_tuple@.len()) <= old(self).table_sizes@[weight_id as int],
        ensures
            final(self).wf(),
            final(self).tuples@.take(old(self).tuples@.len() as int) == old(self).tuples@,
            final(self).tuples@.len() >= old(self).tuples@.len(),
            shared_block(
                final(self).tuples@.skip(old(self).tuples@.len() as int),
                base_tuple@,
                weight_id as int,
            ),
            final(self).table_sizes@ == old(self).table_sizes@,
    {
        let ghost base = base_tuple@;
        let ghost variants = symmetry_variants(base);
        let mut sorted: Vec<Vec<usize>> = Vec::new();
        let mut current_tuple = base_tuple;
        let mut k: usize = 0;
        assert(lists_view(sorted@).to_set() =~= variants.take(0).to_set());
        while k < 4
            invariant
                0 <= k <= 4,
                variants == symmetry_variants(base),
                current_tuple@ == rotate_times(base, k as nat),
                on_board(current_tuple@),
                strictly_sorted(lists_view(sorted@)),
                lists_view(sorted@).to_set() == variants.take(2 * k).to_set(),
            decreases 4 - k,
        {
            let copy = copy_vec(&current_tuple);
            insert_sorted(&mut sorted, copy);
            let mirrored = transform(&current_tuple, true);
            insert_sorted(&mut sorted, mirrored);
            proof {
                assert(variants[2 * k as int] == rotate_times(base, k as nat));
                assert(variants[2 * k + 1] == mirror_tuple(rotate_times(base, k as nat)));
                assert(variants.take(2 * k + 1) =~= variants.take(2 * k as int).push(
                    variants[2 * k as int],
                ));
                assert(variants.take(2 * k + 2) =~= variants.take(2 * k + 1).push(
                    variants[2 * k + 1],
                ));
                variants.take(2 * k as int).lemma_push_to_set_commute(variants[2 * k as int]);
                variants.take(2 * k + 1).lemma_push_to_set_commute(variants[2 * k + 1]);
            }
            current_tuple = transform(&current_tuple, false);
            k = k + 1;
        }
        assert(variants.take(8) =~= variants);
        let ghost start = self.tuples@.len();
        let mut idx: usize = 0;
        while idx < sorted.len()
            invariant
                0 <= idx <= sorted@.len(),
                start == old(self).tuples@.len(),
                self.tuples@.len() == start + idx,
                self.tuples@.take(start as int) == old(self).tuples@,
                self.table_sizes@ == old(self).table_sizes@,
                strictly_sorted(lists_view(sorted@)),
                lists_view(sorted@).to_set() == variants.to_set(),
                variants == symmetry_variants(base),
                base == base_tuple@,
                on_board(base),
                weight_id < self.table_sizes@.len(),
                pow15(base.len()) <= self.table_sizes@[weight_id as int],
                self.wf(),
                forall|j: int|
                    0 <= j < idx ==> (#[trigger] self.tuples@[start + j]).indices@ == sorted@[j]@
                        && self.tuples@[start + j].weight_index == weight_id,
            decreases sorted@.len() - idx,
        {
            let indices = copy_vec(&sorted[idx]);
            proof {
                lemma_variants_shape(base);
                assert(lists_view(sorted@)[idx as int] == sorted@[idx as int]@);
                assert(lists_view(sorted@).to_set().contains(sorted@[idx as int]@));
                assert(variants.contains(sorted@[idx as int]@));
            }
            let ghost before = self.tuples@;
            self.tuples.push(TupleConfig { indices, weight_index: weight_id });
            proof {
                assert(self.tuples@.take(start as int) =~= before.take(start as int));
                assert forall|j: int| 0 <= j < self.tuples@.len() implies tuple_fits(
                    #[trigger] self.tuples@[j],
                    self.table_sizes@,
                ) by {
                    if j < before.len() {
                        assert(self.tuples@[j] == before[j]);
                    }
                }
            }
            idx = idx + 1;
        }
        proof {
            let block = self.tuples@.skip(start as int);
            assert forall|j: int| 0 <= j < block.len() implies #[trigger] configs_view(block)[j]
                == lists_view(sorted@)[j] by {
                assert(block[j] == self.tuples@[start + j]);
            }
            assert(configs_view(block) =~= lists_view(sorted@));
            assert forall|j: int| 0 <= j < block.len() implies (#[trigger] block[j]).weight_index
                == weight_id by {
                assert(block[j] == self.tuples@[start + j]);
            }
        }
    }
}


/// `15^n`: the number of entries of a table for a feature of `n` cells.
pub open spec fn pow15(n: nat) -> nat
    decreases n,
{
    if n == 0 {
        1
    } else {
        15 * pow15((n - 1) as nat)
    }
}

/// A feature fits its table: the table exists, the cells are on the board,
/// and every combination of codes has an entry.
pub open spec fn tuple_fits(t: TupleConfig, sizes: Seq<usize>) -> bool {
    &&& t.weight_index < sizes.len()
    &&& on_board(t.indices@)
    &&& pow15(t.indices@.len()) <= sizes[t.weight_index as int]
}

proof fn lemma_rotate_shape(t: Seq<usize>, k: nat)
    requires
        on_board(t),
    ensures
        rotate_times(t, k).len() == t.len(),
        on_board(rotate_times(t, k)),
    decreases k,
{
    if k > 0 {
        lemma_rotate_shape(t, (k - 1) as nat);
        let prev = rotate_times(t, (k - 1) as nat);
        assert forall|i: int| 0 <= i < rotate_tuple(prev).len() implies #[trigger] rotate_tuple(
            prev,
        )[i] < 16 by {
            assert(prev[i] < 16);
        }
    }
}

proof fn lemma_variants_shape(base: Seq<usize>)
    requires
        on_board(base),
    ensures
        forall|x: Seq<usize>|
            #[trigger] symmetry_variants(base).contains(x) ==> x.len() == base.len() && on_board(
                x,
            ),
{
    let v = symmetry_variants(base);
    assert forall|m: int| 0 <= m < 8 implies (#[trigger] v[m]).len() == base.len() && on_board(
        v[m],
    ) by {
        let k: nat = (m / 2) as nat;
        lemma_rotate_shape(base, k);
        let r = rotate_times(base, k);
        assert forall|i: int| 0 <= i < mirror_tuple(r).len() implies #[trigger] mirror_tuple(
            r,
        )[i] < 16 by {
            assert(r[i] < 16);
        }
        if m % 2 == 0 {
            assert(v[m] == r);
        } else {
            assert(v[m] == mirror_tuple(r));
        }
    }
}

impl TupleLayout {
    /// Every feature fits its table.
    pub open spec fn wf(&self) -> bool {
        forall|i: int|
            0 <= i < self.tuples@.len() ==> tuple_fits(#[trigger] self.tuples@[i], self.table_sizes@)
    }
}


/// The snake through the board: the top row left to right, the second row
/// right to left, and so on.
pub open spec fn snake_cells() -> Seq<usize> {
    seq![0, 1, 2, 3, 7, 6, 5, 4, 8, 9, 10, 11, 15, 14, 13, 12]
}

/// The twelve windows of five consecutive cells along the snake.
pub open spec fn snake_bases() -> Seq<Seq<usize>> {
    Seq::new(12, |i: int| snake_cells().subrange(i, i + 5))
}

/// The three kinds of 2x2 squares: a corner, the middle of an edge, the centre.
pub open spec fn square_bases() -> Seq<Seq<usize>> {
    seq![seq![0usize, 1, 4, 5], seq![1usize, 2, 5, 6], seq![5usize, 6, 9, 10]]
}

/// How many distinct symmetric copies `base` has.
pub open spec fn block_len(base: Seq<usize>) -> int {
    symmetry_variants(base).to_set().len() as int
}

/// `s` is made of one block per base, in order: the block of `bases[k]` holds
/// its distinct symmetric copies, sorted, sharing the table `first_id + k`.
pub open spec fn layered(s: Seq<TupleConfig>, bases: Seq<Seq<usize>>, first_id: int) -> bool
    decreases bases.len(),
{
    if bases.len() == 0 {
        s.len() == 0
    } else {
        let n = s.len() - block_len(bases.last());
        &&& 0 <= n
        &&& layered(s.take(n), bases.drop_last(), first_id)
        &&& shared_block(s.skip(n), bases.last(), first_id + bases.len() - 1)
    }
}

/// A block holds each symmetric copy once.
proof fn lemma_block_len(block: Seq<TupleConfig>, base: Seq<usize>, weight_id: int)
    requires
        shared_block(block, base, weight_id),
    ensures
        block.len() == block_len(base),
{
    let v = configs_view(block);
    assert forall|i: int, j: int| 0 <= i < v.len() && 0 <= j < v.len() && i != j implies v[i]
        != v[j] by {
        if i < j {
            assert(lex_lt(v[i], v[j]));
        } else {
            assert(lex_lt(v[j], v[i]));
        }
        lemma_lex_irreflexive(v[i]);
    }
    assert(v.no_duplicates());
    v.unique_seq_to_set();
}

proof fn lemma_layered_push(
    s: Seq<TupleConfig>,
    bases: Seq<Seq<usize>>,
    first_id: int,
    b: Seq<TupleConfig>,
    base: Seq<usize>,
)
    requires
        layered(s, bases, first_id),
        shared_block(b, base, first_id + bases.len()),
    ensures
        layered(s + b, bases.push(base), first_id),
{
    lemma_block_len(b, base, first_id + bases.len());
    let n = s.len() as int;
    assert((s + b).take(n) =~= s);
    assert((s + b).skip(n) =~= b);
    assert(bases.push(base).drop_last() =~= bases);
}

/// Two layered runs, one after the other, make one layered run.
pub proof fn lemma_layered_concat(
    a: Seq<TupleConfig>,
    b1: Seq<Seq<usize>>,
    c: Seq<TupleConfig>,
    b2: Seq<Seq<usize>>,
    first_id: int,
)
    requires
        layered(a, b1, first_id),
        layered(c, b2, first_id + b1.len()),
    ensures
        layered(a + c, b1 + b2, first_id),
    decreases b2.len(),
{
    if b2.len() == 0 {
        assert(c =~= Seq::<TupleConfig>::empty());
        assert(a + c =~= a);
        assert(b1 + b2 =~= b1);
    } else {
        let n = c.len() - block_len(b2.last());
        lemma_layered_concat(a, b1, c.take(n), b2.drop_last(), first_id);
        let m = a.len() + n;
        assert((a + c).take(m) =~= a + c.take(n));
        assert((a + c).skip(m) =~= c.skip(n));
        assert((b1 + b2).drop_last() =~= b1 + b2.drop_last());
        assert((b1 + b2).last() == b2.last());
    }
}

impl TupleLayout {
    /// Twelve weight tables of `15^5` entries, one per window of five cells
    /// along the snake, each shared by the symmetric copies of its window.
    pub fn add_shared_snake(&mut self)
        requires
            old(self).wf(),
        ensures
            final(self).wf(),
            final(self).table_sizes@ == old(self).table_sizes@ + Seq::new(
                12,
                |i: int| 759375usize,
            ),
            final(self).tuples@.take(old(self).tuples@.len() as int) == old(self).tuples@,
            final(self).tuples@.len() >= old(self).tuples@.len(),
            layered(
                final(self).tuples@.skip(old(self).tuples@.len() as int),
                snake_bases(),
                old(self).table_sizes@.len() as int,
            ),
    {
        let snake_path: Vec<usize> = vec![0, 1, 2, 3, 7, 6, 5, 4, 8, 9, 10, 11, 15, 14, 13, 12];
        assert(snake_path@ =~= snake_cells());
        let ghost t0 = self.tuples@.len();
        let ghost w0 = self.table_sizes@.len();
        let mut i: usize = 0;
        assert(self.tuples@.skip(t0 as int) =~= Seq::<TupleConfig>::empty());
        assert(snake_bases().take(0) =~= Seq::<Seq<usize>>::empty());
        assert(self.table_sizes@ =~= old(self).table_sizes@ + Seq::new(0, |j: int| 759375usize));
        while i <= snake_path.len() - 5
            invariant
                0 <= i <= 12,
                snake_path@ == snake_cells(),
                t0 == old(self).tuples@.len(),
                w0 == old(self).table_sizes@.len(),
                self.wf(),
                self.table_sizes@ == old(self).table_sizes@ + Seq::new(
                    i as nat,
                    |j: int| 759375usize,
                ),
                self.tuples@.len() >= t0,
                self.tuples@.take(t0 as int) == old(self).tuples@,
                layered(self.tuples@.skip(t0 as int), snake_bases().take(i as int), w0 as int),
            decreases 13 - i,
        {
            let table_size: usize = 15 * 15 * 15 * 15 * 15;
            let ghost before = *self;
            self.table_sizes.push(table_size);
            let current_weight_id = self.table_sizes.len() - 1;
            proof {
                assert forall|j: int| 0 <= j < self.tuples@.len() implies tuple_fits(
                    #[trigger] self.tuples@[j],
                    self.table_sizes@,
                ) by {
                    assert(tuple_fits(before.tuples@[j], before.table_sizes@));
                }
                assert(self.table_sizes@ =~= old(self).table_sizes@ + Seq::new(
                    (i + 1) as nat,
                    |j: int| 759375usize,
                ));
            }
            let mut base_indices: Vec<usize> = Vec::new();
            let mut j: usize = 0;
            while j < 5
                invariant
                    0 <= j <= 5,
                    i <= 11,
                    snake_path@ == snake_cells(),
                    base_indices@ == snake_cells().subrange(i as int, i + j),
                decreases 5 - j,
            {
                base_indices.push(snake_path[i + j]);
                proof {
                    assert(snake_cells().subrange(i as int, i + j + 1) =~= snake_cells().subrange(
                        i as int,
                        i + j,
                    ).push(snake_cells()[i + j]));
                }
                j = j + 1;
            }
            proof {
                assert(base_indices@ == snake_bases()[i as int]);
                assert forall|k: int| 0 <= k < base_indices@.len() implies #[trigger] base_indices@[k]
                    < 16 by {
                    assert(base_indices@[k] == snake_cells()[i + k]);
                }
                reveal_with_fuel(pow15, 6);
            }
            let ghost mid = self.tuples@;
            self.add_symmetries_shared(base_indices, current_weight_id);
            proof {
                let old_run = mid.skip(t0 as int);
                let block = self.tuples@.skip(mid.len() as int);
                lemma_layered_push(old_run, snake_bases().take(i as int), w0 as int, block, snake_bases()[i as int]);
                assert(self.tuples@.skip(t0 as int) =~= old_run + block);
                assert(snake_bases().take(i as int).push(snake_bases()[i as int]) =~= snake_bases().take(
                    i + 1,
                ));
                assert(self.tuples@.take(t0 as int) =~= mid.take(t0 as int));
            }
            i = i + 1;
        }
        assert(snake_bases().take(12) =~= snake_bases());
    }
}

impl TupleLayout {
    /// Adds one table of `15^4` entries for a 2x2 square and the symmetric
    /// copies of `base`, all sharing it.
    fn add_square_group(&mut self, base: Vec<usize>)
        requires
            old(self).wf(),
            base@.len() == 4,
            on_board(base@),
        ensures
            final(self).wf(),
            final(self).table_sizes@ == old(self).table_sizes@.push(50625usize),
            final(self).tuples@.take(old(self).tuples@.len() as int) == old(self).tuples@,
            final(self).tuples@.len() >= old(self).tuples@.len(),
            shared_block(
                final(self).tuples@.skip(old(self).tuples@.len() as int),
                base@,
                old(self).table_sizes@.len() as int,
            ),
    {
        let table_size: usize = 15 * 15 * 15 * 15;
        let ghost before = *self;
        self.table_sizes.push(table_size);
        let id = self.table_sizes.len() - 1;
        proof {
            assert forall|j: int| 0 <= j < self.tuples@.len() implies tuple_fits(
                #[trigger] self.tuples@[j],
                self.table_sizes@,
            ) by {
                assert(tuple_fits(before.tuples@[j], before.table_sizes@));
            }
            reveal_with_fuel(pow15, 5);
        }
        self.add_symmetries_shared(base, id);
    }

    /// Three tables of `15^4` entries for 2x2 squares: the corners, the
    /// middles of the edges and the centre, each shared by the symmetric
    /// copies of its square.
    pub fn add_all_2x2_squares(&mut self)
        requires
            old(self).wf(),
        ensures
            final(self).wf(),
            final(self).table_sizes@ == old(self).table_sizes@ + Seq::new(
                3,
                |i: int| 50625usize,
            ),
            final(self).tuples@.take(old(self).tuples@.len() as int) == old(self).tuples@,
            final(self).tuples@.len() >= old(self).tuples@.len(),
            layered(
                final(self).tuples@.skip(old(self).tuples@.len() as int),
                square_bases(),
                old(self).table_sizes@.len() as int,
            ),
    {
        let ghost t0 = self.tuples@.len();
        let ghost w0 = self.table_sizes@.len() as int;
        let ghost s0 = self.tuples@;
        let corner: Vec<usize> = vec![0, 1, 4, 5];
        assert(corner@ =~= square_bases()[0]);
        self.add_square_group(corner);
        let ghost s1 = self.tuples@;
        let edge: Vec<usize> = vec![1, 2, 5, 6];
        assert(edge@ =~= square_bases()[1]);
        self.add_square_group(edge);
        let ghost s2 = self.tuples@;
        let center: Vec<usize> = vec![5, 6, 9, 10];
        assert(center@ =~= square_bases()[2]);
        self.add_square_group(center);
        proof {
            let s3 = self.tuples@;
            let b0 = s1.skip(t0 as int);
            let b1 = s2.skip(s1.len() as int);
            let b2 = s3.skip(s2.len() as int);
            assert(Seq::<TupleConfig>::empty().skip(0) =~= Seq::<TupleConfig>::empty());
            assert(layered(Seq::<TupleConfig>::empty(), square_bases().take(0), w0));
            lemma_layered_push(Seq::empty(), square_bases().take(0), w0, b0, square_bases()[0]);
            assert(Seq::<TupleConfig>::empty() + b0 =~= b0);
            assert(square_bases().take(0).push(square_bases()[0]) =~= square_bases().take(1));
            lemma_layered_push(b0, square_bases().take(1), w0, b1, square_bases()[1]);
            assert(square_bases().take(1).push(square_bases()[1]) =~= square_bases().take(2));
            lemma_layered_push(b0 + b1, square_bases().take(2), w0, b2, square_bases()[2]);
            assert(square_bases().take(2).push(square_bases()[2]) =~= square_bases());
            assert(s2.take(s1.len() as int) == s1);
            assert(s3.take(s2.len() as int) == s2);
            assert(s3.skip(t0 as int) =~= b0 + b1 + b2);
            assert(s3.take(t0 as int) =~= s1.take(t0 as int));
            assert(self.table_sizes@ =~= old(self).table_sizes@ + Seq::new(3, |i: int| 50625usize));
        }
    }

    /// The layout of the network: the twelve snake windows, then the three
    /// kinds of 2x2 squares, each with its symmetric copies.
    pub fn new() -> (layout: Self)
        ensures
            layout.wf(),
            layout.table_sizes@ == Seq::new(12, |i: int| 759375usize) + Seq::new(
                3,
                |i: int| 50625usize,
            ),
            layered(layout.tuples@, snake_bases() + square_bases(), 0),
    {
        let mut layout = TupleLayout { tuples: Vec::new(), table_sizes: Vec::new() };
        layout.add_shared_snake();
        let ghost mid = layout.tuples@;
        layout.add_all_2x2_squares();
        proof {
            let all = layout.tuples@;
            assert(mid.skip(0) =~= mid);
            assert(all.take(mid.len() as int) == mid);
            assert(all =~= mid + all.skip(mid.len() as int));
            lemma_layered_concat(mid, snake_bases(), all.skip(mid.len() as int), square_bases(), 0);
            assert(layout.table_sizes@ =~= Seq::new(12, |i: int| 759375usize) + Seq::new(
                3,
                |i: int| 50625usize,
            ));
        }
        layout
    }
}

/// The codes of the cells of a flat board.
pub open spec fn board_codes(board: Seq<u32>) -> Seq<usize> {
    Seq::new(board.len(), |i: int| tile_code(board[i]) as usize)
}

proof fn lemma_feature_code_below(indices: Seq<usize>, codes: Seq<usize>)
    requires
        on_board(indices),
        codes.len() == 16,
        forall|i: int| 0 <= i < 16 ==> #[trigger] codes[i] <= 14,
    ensures
        0 <= feature_code(indices, codes) < pow15(indices.len()),
    decreases indices.len(),
{
    if indices.len() > 0 {
        let rest = indices.drop_last();
        assert forall|i: int| 0 <= i < rest.len() implies #[trigger] rest[i] < 16 by {
            assert(rest[i] == indices[i]);
        }
        lemma_feature_code_below(rest, codes);
        let f = feature_code(rest, codes);
        let p = pow15(rest.len());
        let c = codes[indices.last() as int];
        assert(indices.last() < 16);
        assert(c <= 14);
        assert(0 <= f * 15 + c < 15 * p) by (nonlinear_arith)
            requires
                0 <= f < p,
                0 <= c <= 14,
        ;
    }
}

/// Every feature of a well-formed layout reads an entry inside its table,
/// whatever the board.
pub proof fn lemma_feature_in_table(layout: TupleLayout, i: int, board: Seq<u32>)
    requires
        layout.wf(),
        0 <= i < layout.tuples@.len(),
        board.len() == 16,
    ensures
        0 <= feature_code(layout.tuples@[i].indices@, board_codes(board))
            < layout.table_sizes@[layout.tuples@[i].weight_index as int],
{
    let t = layout.tuples@[i];
    assert(tuple_fits(t, layout.table_sizes@));
    let codes = board_codes(board);
    assert forall|k: int| 0 <= k < 16 implies #[trigger] codes[k] <= 14 by {
        let v = board[k];
        if v > 2 {
            assert(tile_code(v) <= 14);
        }
    }
    lemma_feature_code_below(t.indices@, codes);
}

impl TupleLayout {
    /// For each feature, in order, its table and the entry of that table it
    /// reads on `board`.
    pub fn feature_slots(&self, board: &[u32; 16]) -> (slots: Vec<(usize, usize)>)
        requires
            self.wf(),
        ensures
            slots@.len() == self.tuples@.len(),
            forall|i: int|
                0 <= i < slots@.len() ==> (#[trigger] slots@[i]).0 == self.tuples@[i].weight_index
                    && slots@[i].1 == feature_code(self.tuples@[i].indices@, board_codes(board@))
                    && slots@[i].1 < self.table_sizes@[slots@[i].0 as int],
    {
        let codes = encode_board(board);
        proof {
            assert(codes@ =~= board_codes(board@));
        }
        let mut slots: Vec<(usize, usize)> = Vec::new();
        let mut i: usize = 0;
        while i < self.tuples.len()
            invariant
                0 <= i <= self.tuples@.len(),
                self.wf(),
                codes@ == board_codes(board@),
                slots@.len() == i,
                forall|k: int|
                    0 <= k < i ==> (#[trigger] slots@[k]).0 == self.tuples@[k].weight_index
                        && slots@[k].1 == feature_code(self.tuples@[k].indices@, board_codes(board@))
                        && slots@[k].1 < self.table_sizes@[slots@[k].0 as int],
            decreases self.tuples@.len() - i,
        {
            let t = &self.tuples[i];
            proof {
                lemma_feature_in_table(*self, i as int, board@);
                assert(tuple_fits(self.tuples@[i as int], self.table_sizes@));
            }
            let idx = feature_index(t.indices.as_slice(), &codes);
            slots.push((t.weight_index, idx));
            i = i + 1;
        }
        slots
    }
}

/// The direction in which the learning rate schedule starts: rising.
pub fn default_phase() -> (phase: bool)
    ensures
        phase,
{
    true
}

proof fn lemma_pow15_monotone(a: nat, b: nat)
    requires
        a <= b,
    ensures
        pow15(a) <= pow15(b),
    decreases b - a,
{
    if a < b {
        lemma_pow15_monotone(a, (b - 1) as nat);
    }
}

/// Whether a feature fits its table.
fn tuple_fits_exec(t: &TupleConfig, sizes: &Vec<usize>) -> (b: bool)
    ensures
        b == tuple_fits(*t, sizes@),
{
    if t.weight_index >= sizes.len() {
        return false;
    }
    let size = sizes[t.weight_index];
    let mut k: usize = 0;
    while k < t.indices.len()
        invariant
            0 <= k <= t.indices@.len(),
            forall|j: int| 0 <= j < k ==> #[trigger] t.indices@[j] < 16,
        decreases t.indices@.len() - k,
    {
        if t.indices[k] >= 16 {
            return false;
        }
        k = k + 1;
    }
    let mut p: usize = 1;
    let mut k: usize = 0;
    while k < t.indices.len()
        invariant
            0 <= k <= t.indices@.len(),
            p == pow15(k as nat),
            t.weight_index < sizes@.len(),
            size == sizes@[t.weight_index as int],
            on_board(t.indices@),
        decreases t.indices@.len() - k,
    {
        if p > size / 15 {
            proof {
                lemma_pow15_monotone((k + 1) as nat, t.indices@.len());
                assert(15 * p > size) by (nonlinear_arith)
                    requires
                        p > size / 15,
                ;
                assert(pow15((k + 1) as nat) == 15 * pow15(k as nat));
            }
            return false;
        }
        p = p * 15;
        k = k + 1;
    }
    p <= size
}

impl TupleLayout {
    /// Whether every feature fits its table (see [`TupleLayout::wf`]).
    pub fn is_well_formed(&self) -> (b: bool)
        ensures
            b == self.wf(),
    {
        let mut i: usize = 0;
        while i < self.tuples.len()
            invariant
                0 <= i <= self.tuples@.len(),
                forall|j: int| 0 <= j < i ==> tuple_fits(#[trigger] self.tuples@[j], self.table_sizes@),
            decreases self.tuples@.len() - i,
        {
            if !tuple_fits_exec(&self.tuples[i], &self.table_sizes) {
                return false;
            }
            i = i + 1;
        }
        true
    }
}

} // verus!
