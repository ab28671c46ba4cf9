use vstd::arithmetic::div_mod::{
    lemma_div_denominator, lemma_fundamental_div_mod_converse, lemma_mod_pos_bound,
    lemma_multiply_divide_lt, lemma_small_mod,
};
use crate::sat::{clause_views, cnf_text, indices_within, literal_keys, SATClause, SATLiteral, SAT};
use vstd::prelude::*;

verus! {

/// A point of `{1..n}^3`.
#[derive(PartialEq, Eq, Structural, Debug, Clone, Copy)]
pub struct Triplet {
    pub x: u8,
    pub y: u8,
    pub z: u8,
}

/// Number of coordinates in which `a` is strictly below `b`.
pub open spec fn count_less(a: Triplet, b: Triplet) -> nat {
    (if a.x < b.x { 1nat } else { 0nat }) + (if a.y < b.y { 1nat } else { 0nat }) + (if a.z
        < b.z {
        1nat
    } else {
        0nat
    })
}

/// `a` is two-less than `b`: at least two coordinates strictly increase.
pub open spec fn two_less_spec(a: Triplet, b: Triplet) -> bool {
    count_less(a, b) >= 2
}

impl Triplet {
    pub fn two_less(&self, other: &Triplet) -> (r: bool)
        ensures
            r == two_less_spec(*self, *other),
    {
        (self.x < other.x && self.y < other.y) || (self.x < other.x && self.z < other.z) || (
        self.y < other.y && self.z < other.z)
    }
}

/// No triplet is two-less than itself.
pub proof fn lemma_two_less_irreflexive(a: Triplet)
    ensures
        !two_less_spec(a, a),
{
}


/// `n * n * n`, the number of triplets over `{1..n}`.
pub open spec fn cube(n: nat) -> nat {
    n * n * n
}

/// The triplet with index `i`: the base-`n` digits of `i`, each plus one.
pub open spec fn decode(n: nat, i: nat) -> Triplet
    recommends
        n >= 1,
{
    Triplet {
        x: ((i % n) + 1) as u8,
        y: (((i / n) % n) + 1) as u8,
        z: (((i / (n * n)) % n) + 1) as u8,
    }
}

/// The index of a triplet with coordinates in `[1, n]`.
pub open spec fn encode(n: nat, t: Triplet) -> nat {
    ((t.x - 1) + n * (t.y - 1) + n * n * (t.z - 1)) as nat
}

/// Every coordinate of `t` lies in `[1, n]`.
pub open spec fn in_universe(n: nat, t: Triplet) -> bool {
    1 <= t.x <= n && 1 <= t.y <= n && 1 <= t.z <= n
}

/// Indices and triplets determine each other: every index below `n^3`
/// decodes to a triplet of the universe, which encodes back to that index.
pub proof fn lemma_decode_encode(n: nat, i: nat)
    requires
        1 <= n <= 255,
        i < cube(n),
    ensures
        in_universe(n, decode(n, i)),
        encode(n, decode(n, i)) == i,
{
    let q = i / n;
    let x0 = i % n;
    let y0 = q % n;
    let z0 = q / n;
    lemma_mod_pos_bound(i as int, n as int);
    lemma_mod_pos_bound(q as int, n as int);
    vstd::arithmetic::div_mod::lemma_fundamental_div_mod(i as int, n as int);
    vstd::arithmetic::div_mod::lemma_fundamental_div_mod(q as int, n as int);
    lemma_div_denominator(i as int, n as int, n as int);
    assert(i < (n * n) * n) by (nonlinear_arith)
        requires
            i < cube(n),
    ;
    assert(n * n > 0) by (nonlinear_arith)
        requires
            n >= 1,
    ;
    lemma_multiply_divide_lt(i as int, (n * n) as int, n as int);
    assert(z0 < n);
    lemma_small_mod(z0, n);
    assert(i == x0 + n * y0 + n * n * z0) by (nonlinear_arith)
        requires
            i == n * q + x0,
            q == n * z0 + y0,
    ;
}

/// Every triplet of the universe is the decoding of its index, which lies
/// below `n^3`.
pub proof fn lemma_encode_decode(n: nat, t: Triplet)
    requires
        1 <= n <= 255,
        in_universe(n, t),
    ensures
        encode(n, t) < cube(n),
        decode(n, encode(n, t)) == t,
{
    let a = (t.x - 1) as nat;
    let b = (t.y - 1) as nat;
    let c = (t.z - 1) as nat;
    let i = encode(n, t);
    assert(i < cube(n)) by (nonlinear_arith)
        requires
            i == a + n * b + n * n * c,
            a < n,
            b < n,
            c < n,
    {
        assert(n * b <= n * (n - 1));
        assert(n * n * c <= n * n * (n - 1));
    }
    assert(i == (b + n * c) * n + a) by (nonlinear_arith)
        requires
            i == a + n * b + n * n * c,
    ;
    lemma_fundamental_div_mod_converse(i as int, n as int, (b + n * c) as int, a as int);
    assert((b + n * c) as int == c * n + b) by (nonlinear_arith);
    lemma_fundamental_div_mod_converse((b + n * c) as int, n as int, c as int, b as int);
    lemma_div_denominator(i as int, n as int, n as int);
    lemma_small_mod(c, n);
}

/// The universe `{1..n}^3`, indexed bijectively by `[0, n^3)`.
#[derive(Clone, Copy)]
pub struct TripletSet {
    n: u8,
}

impl View for TripletSet {
    type V = nat;

    /// The largest coordinate value `n`.
    closed spec fn view(&self) -> nat {
        self.n as nat
    }
}

impl TripletSet {
    pub open spec fn wf(&self) -> bool {
        1 <= self@ <= 255
    }

    pub fn new(n: u8) -> (r: TripletSet)
        requires
            n >= 1,
        ensures
            r@ == n,
            r.wf(),
    {
        TripletSet { n }
    }

    pub fn max_value(&self) -> (r: u8)
        ensures
            r == self@,
    {
        self.n
    }

    /// The number of triplets, `n^3`.
    pub fn max_index(&self) -> (r: u32)
        ensures
            r == cube(self@),
            r <= 255 * 255 * 255,
    {
        let n = self.n as u32;
        assert(n * n <= 255 * 255 && n * n * n <= 255 * 255 * 255) by (nonlinear_arith)
            requires
                n <= 255,
        ;
        n * n * n
    }

    /// The triplet with index `i`. Index `n^3` is accepted too and, like
    /// index `0`, decodes to `(1, 1, 1)`.
    pub fn triplet(&self, i: u32) -> (r: Triplet)
        requires
            self.wf(),
            i <= cube(self@),
        ensures
            r == decode(self@, i as nat),
            in_universe(self@, r),
    {
        let n = self.n as u32;
        assert(n * n <= 255 * 255 && 1 <= n * n) by (nonlinear_arith)
            requires
                1 <= n <= 255,
        ;
        let nn = n * n;
        Triplet { x: (i % n + 1) as u8, y: ((i / n) % n + 1) as u8, z: ((i / nn) % n + 1) as u8 }
    }

    /// The index of a triplet of the universe.
    pub fn encode(&self, t: &Triplet) -> (r: u32)
        requires
            self.wf(),
            in_universe(self@, *t),
        ensures
            r == encode(self@, *t),
            r < cube(self@),
    {
        let n = self.n as u32;
        let a = (t.x - 1) as u32;
        let b = (t.y - 1) as u32;
        let c = (t.z - 1) as u32;
        assert(a + n * b + n * n * c < n * n * n && n * b <= n * n * n && n * n * c <= n * n * n
            && n * n <= n * n * n) by (nonlinear_arith)
            requires
                1 <= n <= 255,
                a < n,
                b < n,
                c < n,
        {
            assert(n * b <= n * (n - 1));
            assert(n * n * c <= n * n * (n - 1));
            assert(n * n <= n * n * n);
        }
        assert(n * n * n <= 255 * 255 * 255) by (nonlinear_arith)
            requires
                n <= 255,
        ;
        a + n * b + n * n * c
    }
}


/// The literal for triplet `i` at position `p`.
pub open spec fn lit(i: nat, p: nat, inverted: bool) -> SATLiteral {
    SATLiteral { triplet_index: i as u32, triplet_index_in_sequence: p as u8, inverted }
}

/// The clause that forbids triplet `i` at position `r` together with
/// triplet `j` at position `s`.
pub open spec fn forbid(i: nat, r: nat, j: nat, s: nat) -> Seq<SATLiteral> {
    seq![lit(i, r, true), lit(j, s, true)]
}

/// The position pairs `(r, s)` with `1 <= r < s <= k`, ordered by `s`,
/// then by `r`.
pub open spec fn position_pairs(k: nat) -> Seq<(nat, nat)>
    decreases k,
{
    if k == 0 {
        seq![]
    } else {
        position_pairs((k - 1) as nat) + Seq::new((k - 1) as nat, |r: int| ((r + 1) as nat, k))
    }
}

/// Position `r` holds one of the triplets `1 .. m - 1`.
pub open spec fn coverage_clause(m: nat, r: nat) -> Seq<SATLiteral> {
    Seq::new((m - 1) as nat, |t: int| lit((t + 1) as nat, r, false))
}

/// One coverage clause for each position `1..k`, over indices below `m`.
pub open spec fn coverage_clauses(m: nat, k: nat) -> Seq<Seq<SATLiteral>> {
    Seq::new(k, |t: int| coverage_clause(m, (t + 1) as nat))
}

/// Triplet `i` at no two of the given position pairs.
pub open spec fn uniqueness_block(i: nat, ps: Seq<(nat, nat)>) -> Seq<Seq<SATLiteral>> {
    ps.map_values(|p: (nat, nat)| forbid(i, p.0, i, p.1))
}

/// Uniqueness clauses for the triplets `1..=m`, triplet by triplet.
pub open spec fn uniqueness_clauses(m: nat, k: nat) -> Seq<Seq<SATLiteral>>
    decreases m,
{
    if m == 0 {
        seq![]
    } else {
        uniqueness_clauses((m - 1) as nat, k) + uniqueness_block(m, position_pairs(k))
    }
}

/// Ordering clauses for positions `r < s`, later triplet `j`, and earlier
/// triplets `1..=m` that are not two-less than `j`.
pub open spec fn ordering_row(n: nat, r: nat, s: nat, j: nat, m: nat) -> Seq<Seq<SATLiteral>>
    decreases m,
{
    if m == 0 {
        seq![]
    } else if two_less_spec(decode(n, m), decode(n, j)) {
        ordering_row(n, r, s, j, (m - 1) as nat)
    } else {
        ordering_row(n, r, s, j, (m - 1) as nat).push(forbid(m, r, j, s))
    }
}

/// Ordering clauses for positions `r < s` and later triplets `1..=jm`.
pub open spec fn ordering_block(n: nat, r: nat, s: nat, jm: nat) -> Seq<Seq<SATLiteral>>
    decreases jm,
{
    if jm == 0 {
        seq![]
    } else {
        ordering_block(n, r, s, (jm - 1) as nat) + ordering_row(n, r, s, jm, (cube(n) - 1) as nat)
    }
}

/// Ordering clauses for each of the given position pairs in turn.
pub open spec fn ordering_for_pairs(n: nat, ps: Seq<(nat, nat)>) -> Seq<Seq<SATLiteral>>
    decreases ps.len(),
{
    if ps.len() == 0 {
        seq![]
    } else {
        ordering_for_pairs(n, ps.drop_last()) + ordering_block(
            n,
            ps.last().0,
            ps.last().1,
            (cube(n) - 1) as nat,
        )
    }
}

/// All clauses of the instance for universe size `n` and sequence length
/// `k`: coverage, then uniqueness, then ordering.
///
/// Coverage and both triplets of ordering range over the indices
/// `1 .. n^3 - 1`; uniqueness ranges over `1 ..= n^3`. Index `0`, the
/// triplet `(1, 1, 1)`, is left out of every family.
pub open spec fn sat_clauses(n: nat, k: nat) -> Seq<Seq<SATLiteral>> {
    coverage_clauses(cube(n), k) + uniqueness_clauses(cube(n), k) + ordering_for_pairs(
        n,
        position_pairs(k),
    )
}

/// The index pairs `(i, j)` that ordering clauses forbid at each pair of
/// positions: indices `i` and `j` in `1 .. n^3 - 1` such that `decode(i)`
/// is not two-less than `decode(j)`.
pub open spec fn incomparable_pairs(n: nat) -> Set<(nat, nat)> {
    Set::new(
        |p: (nat, nat)|
            1 <= p.0 < cube(n) && 1 <= p.1 < cube(n) && !two_less_spec(
                decode(n, p.0),
                decode(n, p.1),
            ),
    )
}

spec fn row_set(n: nat, j: nat, m: nat) -> Set<(nat, nat)> {
    Set::new(
        |p: (nat, nat)|
            1 <= p.0 <= m && p.1 == j && !two_less_spec(decode(n, p.0), decode(n, p.1)),
    )
}

spec fn block_set(n: nat, jm: nat) -> Set<(nat, nat)> {
    Set::new(
        |p: (nat, nat)|
            1 <= p.0 < cube(n) && 1 <= p.1 <= jm && !two_less_spec(
                decode(n, p.0),
                decode(n, p.1),
            ),
    )
}

proof fn lemma_row_len(n: nat, r: nat, s: nat, j: nat, m: nat)
    ensures
        row_set(n, j, m).finite(),
        ordering_row(n, r, s, j, m).len() == row_set(n, j, m).len(),
    decreases m,
{
    if m == 0 {
        assert(row_set(n, j, m) =~= Set::empty());
    } else {
        lemma_row_len(n, r, s, j, (m - 1) as nat);
        let prev = row_set(n, j, (m - 1) as nat);
        if two_less_spec(decode(n, m), decode(n, j)) {
            assert(row_set(n, j, m) =~= prev);
        } else {
            assert(row_set(n, j, m) =~= prev.insert((m, j)));
            assert(!prev.contains((m, j)));
        }
    }
}

proof fn lemma_block_len(n: nat, r: nat, s: nat, jm: nat)
    requires
        n >= 1,
    ensures
        block_set(n, jm).finite(),
        ordering_block(n, r, s, jm).len() == block_set(n, jm).len(),
    decreases jm,
{
    if jm == 0 {
        assert(block_set(n, jm) =~= Set::empty());
    } else {
        lemma_block_len(n, r, s, (jm - 1) as nat);
        let m = (cube(n) - 1) as nat;
        assert(n * n * n >= 1) by (nonlinear_arith)
            requires
                n >= 1,
        ;
        lemma_row_len(n, r, s, jm, m);
        let prev = block_set(n, (jm - 1) as nat);
        let row = row_set(n, jm, m);
        assert forall|p: (nat, nat)| #[trigger]
            block_set(n, jm).contains(p) <==> (prev + row).contains(p) by {
            let inb = 1 <= p.0 < cube(n) && !two_less_spec(decode(n, p.0), decode(n, p.1));
            assert((1 <= p.0 < cube(n)) == (1 <= p.0 <= m));
            assert(block_set(n, jm).contains(p) == (inb && 1 <= p.1 <= jm));
            assert(prev.contains(p) == (inb && 1 <= p.1 <= jm - 1));
            assert(row.contains(p) == (1 <= p.0 <= m && p.1 == jm && !two_less_spec(
                decode(n, p.0),
                decode(n, p.1),
            )));
            assert((prev + row).contains(p) == (prev.contains(p) || row.contains(p)));
        }
        assert(block_set(n, jm) =~= prev + row);
        assert(prev.disjoint(row));
        vstd::set_lib::lemma_set_disjoint_lens(prev, row);
    }
}

proof fn lemma_ordering_len(n: nat, ps: Seq<(nat, nat)>)
    requires
        n >= 1,
    ensures
        ordering_for_pairs(n, ps).len() == ps.len() * incomparable_pairs(n).len(),
    decreases ps.len(),
{
    if ps.len() > 0 {
        lemma_ordering_len(n, ps.drop_last());
        assert(cube(n) >= 1) by (nonlinear_arith)
            requires
                n >= 1,
        ;
        lemma_block_len(n, ps.last().0, ps.last().1, (cube(n) - 1) as nat);
        assert(block_set(n, (cube(n) - 1) as nat) =~= incomparable_pairs(n));
        let a = (ps.len() - 1) as nat;
        let c = incomparable_pairs(n).len();
        assert(a * c + c == (a + 1) * c) by (nonlinear_arith);
    }
}

proof fn lemma_position_pairs_len(k: nat)
    ensures
        position_pairs(k).len() * 2 == k * (k - 1),
    decreases k,
{
    if k > 0 {
        lemma_position_pairs_len((k - 1) as nat);
        let l = position_pairs(k).len();
        let q = position_pairs((k - 1) as nat).len();
        assert(l == q + (k - 1));
        let k1 = (k - 1) as nat;
        assert(l * 2 == k * (k - 1)) by (nonlinear_arith)
            requires
                k >= 1,
                k1 == k - 1,
                l == q + k1,
                q * 2 == k1 * (k1 - 1),
        ;
    } else {
        assert(k * (k - 1) == 0) by (nonlinear_arith)
            requires
                k == 0,
        ;
    }
}

proof fn lemma_uniqueness_len(m: nat, k: nat)
    ensures
        uniqueness_clauses(m, k).len() == m * position_pairs(k).len(),
    decreases m,
{
    if m > 0 {
        lemma_uniqueness_len((m - 1) as nat, k);
        let c = position_pairs(k).len();
        assert(uniqueness_block(m, position_pairs(k)).len() == c);
        let l = uniqueness_clauses(m, k).len();
        let q = uniqueness_clauses((m - 1) as nat, k).len();
        let m1 = (m - 1) as nat;
        assert(l == q + c);
        assert(l == m * c) by (nonlinear_arith)
            requires
                m >= 1,
                m1 == m - 1,
                l == q + c,
                q == m1 * c,
        ;
    } else {
        assert(m * position_pairs(k).len() == 0) by (nonlinear_arith)
            requires
                m == 0,
        ;
    }
}

/// The sizes of the clause families: `k` coverage clauses; `n^3` times
/// `k(k-1)/2` uniqueness clauses; and `k(k-1)/2` times the number of
/// incomparable index pairs ordering clauses.
pub proof fn lemma_clause_counts(n: nat, k: nat)
    requires
        1 <= n <= 255,
    ensures
        coverage_clauses(cube(n), k).len() == k,
        position_pairs(k).len() == k * (k - 1) / 2,
        uniqueness_clauses(cube(n), k).len() == cube(n) * (k * (k - 1) / 2),
        ordering_for_pairs(n, position_pairs(k)).len() == (k * (k - 1) / 2) * incomparable_pairs(
            n,
        ).len(),
        sat_clauses(n, k).len() == k + cube(n) * (k * (k - 1) / 2) + (k * (k - 1) / 2)
            * incomparable_pairs(n).len(),
{
    lemma_position_pairs_len(k);
    lemma_uniqueness_len(cube(n), k);
    lemma_ordering_len(n, position_pairs(k));
}

proof fn lemma_indices_within_append(a: Seq<Seq<SATLiteral>>, b: Seq<Seq<SATLiteral>>, bound: nat)
    requires
        indices_within(a, bound),
        indices_within(b, bound),
    ensures
        indices_within(a + b, bound),
{
    assert forall|c: int, l: int|
        0 <= c < (a + b).len() && 0 <= l < (a + b)[c].len() implies #[trigger] (a + b)[c][l].triplet_index
        <= bound by {
        if c < a.len() {
            assert((a + b)[c] == a[c]);
            assert(a[c][l].triplet_index <= bound);
        } else {
            assert((a + b)[c] == b[c - a.len()]);
            assert(b[c - a.len()][l].triplet_index <= bound);
        }
    }
}

proof fn lemma_uniqueness_indices(m: nat, k: nat)
    requires
        m <= u32::MAX,
    ensures
        indices_within(uniqueness_clauses(m, k), m),
    decreases m,
{
    if m > 0 {
        lemma_uniqueness_indices((m - 1) as nat, k);
        let prev = uniqueness_clauses((m - 1) as nat, k);
        assert forall|c: int, l: int|
            0 <= c < prev.len() && 0 <= l < prev[c].len() implies #[trigger] prev[c][l].triplet_index
            <= m by {
            assert(prev[c][l].triplet_index <= m - 1);
        }
        lemma_indices_within_append(prev, uniqueness_block(m, position_pairs(k)), m);
    }
}

proof fn lemma_row_indices(n: nat, r: nat, s: nat, j: nat, m: nat, bound: nat)
    requires
        m <= bound,
        j <= bound,
        bound <= u32::MAX,
    ensures
        indices_within(ordering_row(n, r, s, j, m), bound),
    decreases m,
{
    if m > 0 {
        lemma_row_indices(n, r, s, j, (m - 1) as nat, bound);
        let prev = ordering_row(n, r, s, j, (m - 1) as nat);
        if !two_less_spec(decode(n, m), decode(n, j)) {
            assert forall|c: int, l: int|
                0 <= c < prev.len() + 1 && 0 <= l < prev.push(forbid(m, r, j, s))[c].len() implies
                #[trigger] prev.push(forbid(m, r, j, s))[c][l].triplet_index <= bound by {
                if c < prev.len() {
                    assert(prev[c][l].triplet_index <= bound);
                }
            }
        }
    }
}

proof fn lemma_block_indices(n: nat, r: nat, s: nat, jm: nat)
    requires
        n >= 1,
        jm <= cube(n),
        cube(n) <= u32::MAX,
    ensures
        indices_within(ordering_block(n, r, s, jm), cube(n)),
    decreases jm,
{
    if jm > 0 {
        lemma_block_indices(n, r, s, (jm - 1) as nat);
        assert(cube(n) >= 1) by (nonlinear_arith)
            requires
                n >= 1,
        ;
        lemma_row_indices(n, r, s, jm, (cube(n) - 1) as nat, cube(n));
        lemma_indices_within_append(
            ordering_block(n, r, s, (jm - 1) as nat),
            ordering_row(n, r, s, jm, (cube(n) - 1) as nat),
            cube(n),
        );
    }
}

proof fn lemma_ordering_indices(n: nat, ps: Seq<(nat, nat)>)
    requires
        n >= 1,
        cube(n) <= u32::MAX,
    ensures
        indices_within(ordering_for_pairs(n, ps), cube(n)),
    decreases ps.len(),
{
    if ps.len() > 0 {
        lemma_ordering_indices(n, ps.drop_last());
        assert(cube(n) >= 1) by (nonlinear_arith)
            requires
                n >= 1,
        ;
        lemma_block_indices(n, ps.last().0, ps.last().1, (cube(n) - 1) as nat);
        lemma_indices_within_append(
            ordering_for_pairs(n, ps.drop_last()),
            ordering_block(n, ps.last().0, ps.last().1, (cube(n) - 1) as nat),
            cube(n),
        );
    }
}

/// Every literal of the instance refers to an index of at most `n^3`.
proof fn lemma_literal_keys_indices(n: nat, k: nat)
    requires
        1 <= n <= 255,
    ensures
        indices_within(sat_clauses(n, k), cube(n)),
{
    let m = cube(n);
    assert(1 <= m <= 255 * 255 * 255) by (nonlinear_arith)
        requires
            1 <= n <= 255,
            m == n * n * n,
    {
        assert(n * n <= 255 * 255);
        assert(n * n * n <= 255 * 255 * n);
    }
    let cov = coverage_clauses(m, k);
    assert forall|c: int, l: int|
        0 <= c < cov.len() && 0 <= l < cov[c].len() implies #[trigger] cov[c][l].triplet_index
        <= m by {
    }
    lemma_uniqueness_indices(m, k);
    lemma_ordering_indices(n, position_pairs(k));
    lemma_indices_within_append(cov, uniqueness_clauses(m, k), m);
    lemma_indices_within_append(cov + uniqueness_clauses(m, k), ordering_for_pairs(n, position_pairs(k)), m);
}

/// Appends the clause that forbids triplet `i` at position `r` together
/// with triplet `j` at position `s`.
fn push_forbid(clauses: &mut Vec<SATClause>, i: u32, r: u8, j: u32, s: u8)
    ensures
        clause_views(final(clauses)@) == clause_views(old(clauses)@).push(
            forbid(i as nat, r as nat, j as nat, s as nat),
        ),
{
    let mut sat_literals: Vec<SATLiteral> = Vec::new();
    sat_literals.push(SATLiteral::new(i, r, true));
    sat_literals.push(SATLiteral::new(j, s, true));
    assert(sat_literals@ =~= forbid(i as nat, r as nat, j as nat, s as nat));
    let clause = SATClause::new(sat_literals);
    clauses.push(clause);
    assert(clause_views(final(clauses)@) =~= clause_views(old(clauses)@).push(
        forbid(i as nat, r as nat, j as nat, s as nat),
    ));
}

/// Position pairs of the first `s - 1` positions, followed by `(1, s)`,
/// ..., `(r, s)`.
spec fn pairs_prefix(s: nat, r: nat) -> Seq<(nat, nat)> {
    position_pairs((s - 1) as nat) + Seq::new(r, |t: int| ((t + 1) as nat, s))
}

proof fn lemma_pairs_prefix_step(s: nat, r: nat)
    requires
        1 <= s,
    ensures
        pairs_prefix(s, r + 1) == pairs_prefix(s, r).push((r + 1, s)),
        pairs_prefix(s, (s - 1) as nat) == position_pairs(s),
        pairs_prefix(s, 0) == position_pairs((s - 1) as nat),
{
    assert(pairs_prefix(s, r + 1) =~= pairs_prefix(s, r).push((r + 1, s)));
    assert(pairs_prefix(s, 0) =~= position_pairs((s - 1) as nat));
}

/// The search for a sequence of `k` triplets, each two-less than the next.
pub struct TripletSequence {
    k: u8,
    set: TripletSet,
}

impl TripletSequence {
    pub closed spec fn spec_k(&self) -> nat {
        self.k as nat
    }

    pub closed spec fn spec_set(&self) -> TripletSet {
        self.set
    }

    /// The sequence length fits in a `u8`.
    pub proof fn lemma_k_bound(&self)
        ensures
            self.spec_k() <= 255,
    {
    }

    pub fn new(set: TripletSet, k: u8) -> (r: TripletSequence)
        ensures
            r.spec_set() == set,
            r.spec_k() == k,
    {
        TripletSequence { set, k }
    }

    /// The CNF instance whose models are the sequences searched for.
    pub fn generate_sat(&self) -> (r: SAT)
        requires
            self.spec_set().wf(),
        ensures
            r.spec_clauses() == sat_clauses(self.spec_set()@, self.spec_k()),
            r.spec_set() == self.spec_set(),
            r.spec_sequence_length() == self.spec_k(),
    {
        let ghost n = self.set@;
        let ghost kk = self.k as nat;
        let m = self.set.max_index();
        let k = self.k as u32;
        assert(m >= 1) by (nonlinear_arith)
            requires
                m == n * n * n,
                n >= 1,
        ;
        let mut sat_clauses: Vec<SATClause> = Vec::new();

        let mut r: u32 = 1;
        while r <= k
            invariant
                1 <= r <= k + 1,
                k == kk,
                kk <= 255,
                m == cube(n),
                m >= 1,
                clause_views(sat_clauses@) =~= coverage_clauses(m as nat, (r - 1) as nat),
            decreases k + 1 - r,
        {
            let mut sat_literals: Vec<SATLiteral> = Vec::new();
            let mut i: u32 = 1;
            while i < m
                invariant
                    1 <= i <= m,
                    1 <= r <= k,
                    k <= 255,
                    sat_literals@ =~= coverage_clause(m as nat, r as nat).take(i - 1),
                decreases m - i,
            {
                sat_literals.push(SATLiteral::new(i, r as u8, false));
                i = i + 1;
            }
            assert(sat_literals@ =~= coverage_clause(m as nat, r as nat));
            let ghost before = sat_clauses@;
            let clause = SATClause::new(sat_literals);
            sat_clauses.push(clause);
            assert(sat_clauses@ == before.push(clause));
            assert(clause_views(sat_clauses@) =~= clause_views(before).push(
                coverage_clause(m as nat, r as nat),
            ));
            r = r + 1;
        }
        let ghost cov = coverage_clauses(m as nat, kk);

        let mut i: u32 = 1;
        while i <= m
            invariant
                1 <= i <= m + 1,
                k == kk,
                kk <= 255,
                m == cube(n),
                m <= 255 * 255 * 255,
                clause_views(sat_clauses@) =~= cov + uniqueness_clauses((i - 1) as nat, kk),
            decreases m + 1 - i,
        {
            let ghost pre = clause_views(sat_clauses@);
            let mut s: u32 = 1;
            while s <= k
                invariant
                    1 <= i <= m,
                    1 <= s <= k + 1,
                    k <= 255,
                    clause_views(sat_clauses@) =~= pre + uniqueness_block(
                        i as nat,
                        position_pairs((s - 1) as nat),
                    ),
                decreases k + 1 - s,
            {
                let mut r: u32 = 1;
                proof {
                    lemma_pairs_prefix_step(s as nat, 0);
                }
                while r < s
                    invariant
                        1 <= i <= m,
                        1 <= r <= s,
                        1 <= s <= k,
                        k <= 255,
                        clause_views(sat_clauses@) =~= pre + uniqueness_block(
                            i as nat,
                            pairs_prefix(s as nat, (r - 1) as nat),
                        ),
                    decreases s - r,
                {
                    proof {
                        lemma_pairs_prefix_step(s as nat, (r - 1) as nat);
                        assert(uniqueness_block(i as nat, pairs_prefix(s as nat, r as nat))
                            =~= uniqueness_block(
                            i as nat,
                            pairs_prefix(s as nat, (r - 1) as nat),
                        ).push(forbid(i as nat, r as nat, i as nat, s as nat)));
                    }
                    push_forbid(&mut sat_clauses, i, r as u8, i, s as u8);
                    r = r + 1;
                }
                proof {
                    lemma_pairs_prefix_step(s as nat, (s - 1) as nat);
                }
                s = s + 1;
            }
            assert(cov + uniqueness_clauses(i as nat, kk) =~= pre + uniqueness_block(
                i as nat,
                position_pairs(kk),
            ));
            i = i + 1;
        }
        let ghost pre = cov + uniqueness_clauses(m as nat, kk);

        let mut s: u32 = 1;
        while s <= k
            invariant
                1 <= s <= k + 1,
                k == kk,
                kk <= 255,
                m == cube(n),
                1 <= m <= 255 * 255 * 255,
                self.set.wf(),
                self.set@ == n,
                clause_views(sat_clauses@) =~= pre + ordering_for_pairs(
                    n,
                    position_pairs((s - 1) as nat),
                ),
            decreases k + 1 - s,
        {
            let mut r: u32 = 1;
            proof {
                lemma_pairs_prefix_step(s as nat, 0);
            }
            while r < s
                invariant
                    1 <= r <= s,
                    1 <= s <= k,
                    k <= 255,
                    m == cube(n),
                    1 <= m <= 255 * 255 * 255,
                    self.set.wf(),
                    self.set@ == n,
                    clause_views(sat_clauses@) =~= pre + ordering_for_pairs(
                        n,
                        pairs_prefix(s as nat, (r - 1) as nat),
                    ),
                decreases s - r,
            {
                let ghost pre_pair = clause_views(sat_clauses@);
                let mut j: u32 = 1;
                while j < m
                    invariant
                        1 <= j <= m,
                        1 <= r < s,
                        s <= k,
                        k <= 255,
                        m == cube(n),
                        1 <= m <= 255 * 255 * 255,
                        self.set.wf(),
                        self.set@ == n,
                        clause_views(sat_clauses@) =~= pre_pair + ordering_block(
                            n,
                            r as nat,
                            s as nat,
                            (j - 1) as nat,
                        ),
                    decreases m - j,
                {
                    let ghost pre_row = clause_views(sat_clauses@);
                    let later = self.set.triplet(j);
                    let mut i: u32 = 1;
                    while i < m
                        invariant
                            1 <= i <= m,
                            1 <= j < m,
                            1 <= r < s,
                            s <= k,
                            k <= 255,
                            m == cube(n),
                            self.set.wf(),
                            self.set@ == n,
                            later == decode(n, j as nat),
                            clause_views(sat_clauses@) =~= pre_row + ordering_row(
                                n,
                                r as nat,
                                s as nat,
                                j as nat,
                                (i - 1) as nat,
                            ),
                        decreases m - i,
                    {
                        let earlier = self.set.triplet(i);
                        if !earlier.two_less(&later) {
                            push_forbid(&mut sat_clauses, i, r as u8, j, s as u8);
                        }
                        i = i + 1;
                    }
                    assert(pre_pair + ordering_block(n, r as nat, s as nat, j as nat) =~= pre_row
                        + ordering_row(n, r as nat, s as nat, j as nat, (m - 1) as nat));
                    j = j + 1;
                }
                proof {
                    lemma_pairs_prefix_step(s as nat, (r - 1) as nat);
                    let ps = pairs_prefix(s as nat, r as nat);
                    assert(ps.drop_last() =~= pairs_prefix(s as nat, (r - 1) as nat));
                    assert(pre + ordering_for_pairs(n, ps) =~= pre_pair + ordering_block(
                        n,
                        r as nat,
                        s as nat,
                        (m - 1) as nat,
                    ));
                }
                r = r + 1;
            }
            proof {
                lemma_pairs_prefix_step(s as nat, (s - 1) as nat);
            }
            s = s + 1;
        }

        SAT::new(sat_clauses, self.set, self.k)
    }
}

/// The DIMACS CNF text of the instance for universe size `n` and sequence
/// length `k`, or `None` where its literals are too many to number in
/// `usize`. The text depends on `n` and `k` alone.
pub fn generate_cnf(n: u8, k: u8) -> (r: Option<Vec<u8>>)
    requires
        n >= 1,
    ensures
        r is Some <==> literal_keys(sat_clauses(n as nat, k as nat)).len() < usize::MAX,
        r matches Some(text) ==> text@ == cnf_text(n as nat, k as nat, sat_clauses(n as nat, k as nat)),
{
    let set = TripletSet::new(n);
    let sequence = TripletSequence::new(set, k);
    let sat = sequence.generate_sat();
    match sat.literal_count() {
        None => None,
        Some(_) => {
            proof {
                lemma_literal_keys_indices(n as nat, k as nat);
            }
            let mut out: Vec<u8> = Vec::new();
            sat.write_to_file(&mut out);
            assert(out@ =~= cnf_text(n as nat, k as nat, sat_clauses(n as nat, k as nat)));
            Some(out)
        }
    }
}

} // verus!
