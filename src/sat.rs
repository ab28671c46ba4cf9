use crate::triplet::{cube, decode, TripletSet};
use std::collections::HashMap;
use vstd::prelude::*;
use vstd::string::StringSliceAdditionalSpecFns;

verus! {

/// A literal: the variable "triplet `triplet_index` stands at position
/// `triplet_index_in_sequence`", negated when `inverted` holds.
///
/// The polarity is a field of its own, so every `u32` index, and with it
/// every universe size `n <= 255`, can be negated.
#[derive(PartialEq, Eq, Structural, Debug, Clone, Copy)]
pub struct SATLiteral {
    pub triplet_index: u32,
    pub triplet_index_in_sequence: u8,
    pub inverted: bool,
}

impl SATLiteral {
    pub fn new(triplet_index: u32, triplet_index_in_sequence: u8, inverted: bool) -> (r:
        SATLiteral)
        ensures
            r == (SATLiteral { triplet_index, triplet_index_in_sequence, inverted }),
    {
        SATLiteral { triplet_index, triplet_index_in_sequence, inverted }
    }

    pub fn triplet_index(&self) -> (r: u32)
        ensures
            r == self.triplet_index,
    {
        self.triplet_index
    }

    pub fn triplet_index_in_sequence(&self) -> (r: u8)
        ensures
            r == self.triplet_index_in_sequence,
    {
        self.triplet_index_in_sequence
    }

    pub fn is_inverted(&self) -> (r: bool)
        ensures
            r == self.inverted,
    {
        self.inverted
    }

    /// Appends the literal's text under the given numbering.
    pub fn write_to_file(&self, out: &mut Vec<u8>, numbering: &LiteralNumbering)
        requires
            numbering.wf(),
            numbering.order().contains(key_of(*self)),
        ensures
            final(out)@ == old(out)@ + literal_text(*self, numbering.order()),
    {
        if self.inverted {
            push_text(out, "-");
        }
        let id = numbering.id((self.triplet_index, self.triplet_index_in_sequence));
        push_decimal(out, id as u64);
        assert(final(out)@ =~= old(out)@ + literal_text(*self, numbering.order()));
    }
}

/// The variable a literal refers to: its triplet index and position.
pub open spec fn key_of(l: SATLiteral) -> (u32, u8) {
    (l.triplet_index, l.triplet_index_in_sequence)
}

/// The variables of a clause's literals, in order.
pub open spec fn clause_keys(c: Seq<SATLiteral>) -> Seq<(u32, u8)> {
    c.map_values(|l: SATLiteral| key_of(l))
}

/// The variables of all literals of the clauses, clause by clause.
pub open spec fn literal_keys(cs: Seq<Seq<SATLiteral>>) -> Seq<(u32, u8)>
    decreases cs.len(),
{
    if cs.len() == 0 {
        seq![]
    } else {
        literal_keys(cs.drop_last()) + clause_keys(cs.last())
    }
}

/// `p` followed by the elements of `ks` that are not yet in it, each once,
/// in the order of their first occurrence.
pub open spec fn extend_order(p: Seq<(u32, u8)>, ks: Seq<(u32, u8)>) -> Seq<(u32, u8)>
    decreases ks.len(),
{
    if ks.len() == 0 {
        p
    } else {
        let q = extend_order(p, ks.drop_last());
        if q.contains(ks.last()) {
            q
        } else {
            q.push(ks.last())
        }
    }
}

/// The variables of an instance, listed by id: the order in which each is
/// first used, scanning the clauses in order.
pub open spec fn variable_order(cs: Seq<Seq<SATLiteral>>) -> Seq<(u32, u8)> {
    extend_order(seq![], literal_keys(cs))
}

proof fn lemma_extend_order_len(p: Seq<(u32, u8)>, ks: Seq<(u32, u8)>)
    ensures
        extend_order(p, ks).len() <= p.len() + ks.len(),
    decreases ks.len(),
{
    if ks.len() > 0 {
        lemma_extend_order_len(p, ks.drop_last());
    }
}

proof fn lemma_extend_order_append(p: Seq<(u32, u8)>, a: Seq<(u32, u8)>, b: Seq<(u32, u8)>)
    ensures
        extend_order(p, a + b) == extend_order(extend_order(p, a), b),
    decreases b.len(),
{
    if b.len() == 0 {
        assert(a + b =~= a);
    } else {
        assert((a + b).drop_last() =~= a + b.drop_last());
        lemma_extend_order_append(p, a, b.drop_last());
    }
}

proof fn lemma_literal_keys_prefix(cs: Seq<Seq<SATLiteral>>, t: int)
    requires
        0 <= t <= cs.len(),
    ensures
        literal_keys(cs.take(t)).len() <= literal_keys(cs).len(),
    decreases cs.len() - t,
{
    if t < cs.len() {
        lemma_literal_keys_prefix(cs, t + 1);
        assert(cs.take(t + 1).drop_last() =~= cs.take(t));
    } else {
        assert(cs.take(t) =~= cs);
    }
}

/// The id of variable `key` under the numbering `order`.
pub open spec fn var_id(order: Seq<(u32, u8)>, key: (u32, u8)) -> int {
    order.index_of(key) + 1
}

/// Every literal of the clauses refers to a triplet index of at most `bound`.
pub open spec fn indices_within(cs: Seq<Seq<SATLiteral>>, bound: nat) -> bool {
    forall|c: int, l: int|
        0 <= c < cs.len() && 0 <= l < cs[c].len() ==> #[trigger] cs[c][l].triplet_index <= bound
}

/// A single integer that identifies a variable.
pub open spec fn key_code(key: (u32, u8)) -> u64 {
    (key.0 as u64 * 256 + key.1 as u64) as u64
}

proof fn lemma_key_code_injective(a: (u32, u8), b: (u32, u8))
    ensures
        key_code(a) == key_code(b) ==> a == b,
{
    let (a0, a1) = (a.0 as int, a.1 as int);
    let (b0, b1) = (b.0 as int, b.1 as int);
    assert(a0 * 256 + a1 == b0 * 256 + b1 ==> a0 == b0 && a1 == b1) by (nonlinear_arith)
        requires
            0 <= a1 < 256,
            0 <= b1 < 256,
    ;
}

/// Variable ids assigned so far: `order` lists the variables by id, and
/// `ids` maps each variable's code to its id.
pub struct LiteralNumbering {
    order: Vec<(u32, u8)>,
    ids: HashMap<u64, usize>,
}

impl LiteralNumbering {
    pub closed spec fn order(&self) -> Seq<(u32, u8)> {
        self.order@
    }

    pub closed spec fn wf(&self) -> bool {
        &&& self.order@.no_duplicates()
        &&& forall|t: int|
            0 <= t < self.order@.len() ==> #[trigger] self.ids@.contains_key(
                key_code(self.order@[t]),
            ) && self.ids@[key_code(self.order@[t])] == t + 1
        &&& forall|c: u64| #[trigger]
            self.ids@.contains_key(c) ==> 1 <= self.ids@[c] <= self.order@.len() && key_code(
                self.order@[self.ids@[c] - 1],
            ) == c
    }

    pub fn new() -> (r: LiteralNumbering)
        ensures
            r.wf(),
            r.order() == Seq::<(u32, u8)>::empty(),
            r.order().no_duplicates(),
    {
        LiteralNumbering { order: Vec::new(), ids: HashMap::new() }
    }

    /// Gives `key` the next id unless it has one already.
    /// (Applied to each key in turn, this builds `extend_order`.)
    fn add(&mut self, key: (u32, u8))
        requires
            old(self).wf(),
            old(self).order().len() < usize::MAX,
        ensures
            final(self).wf(),
            final(self).order() == extend_order(old(self).order(), seq![key]),
    {
        let code = key.0 as u64 * 256 + key.1 as u64;
        proof {
            assert(seq![key].drop_last() =~= Seq::<(u32, u8)>::empty());
            assert(extend_order(self.order@, seq![key].drop_last()) == self.order@);
            assert(seq![key].last() == key);
        }
        if self.ids.contains_key(&code) {
            proof {
                let t = self.ids@[code] - 1;
                lemma_key_code_injective(self.order@[t], key);
            }
            return ;
        }
        proof {
            assert forall|t: int| 0 <= t < self.order@.len() implies self.order@[t] != key by {
                assert(self.ids@.contains_key(key_code(self.order@[t])));
            }
        }
        let id = self.order.len() + 1;
        self.ids.insert(code, id);
        self.order.push(key);
        proof {
            assert forall|c: u64| #[trigger] self.ids@.contains_key(c) implies 1 <= self.ids@[c]
                <= self.order@.len() && key_code(self.order@[self.ids@[c] - 1]) == c by {
                if c != code {
                    assert(old(self).ids@.contains_key(c));
                }
            }
            assert forall|t: int| 0 <= t < self.order@.len() implies #[trigger] self.ids@.contains_key(
                key_code(self.order@[t]),
            ) && self.ids@[key_code(self.order@[t])] == t + 1 by {
                if t < self.order@.len() - 1 {
                    assert(old(self).ids@.contains_key(key_code(old(self).order@[t])));
                    lemma_key_code_injective(self.order@[t], key);
                }
            }
        }
    }

    /// The id of a variable that has one.
    fn id(&self, key: (u32, u8)) -> (r: usize)
        requires
            self.wf(),
            self.order().contains(key),
        ensures
            r == var_id(self.order(), key),
    {
        let code = key.0 as u64 * 256 + key.1 as u64;
        proof {
            let t = choose|t: int| 0 <= t < self.order@.len() && self.order@[t] == key;
            assert(self.ids@.contains_key(key_code(self.order@[t])));
            let u = self.order@.index_of(key);
            assert(self.order@[u] == key);
        }
        match self.ids.get(&code) {
            Some(v) => *v,
            None => 0,
        }
    }
}

proof fn lemma_extend_order_contents(p: Seq<(u32, u8)>, ks: Seq<(u32, u8)>)
    ensures
        forall|x: (u32, u8)| #[trigger]
            extend_order(p, ks).contains(x) <==> p.contains(x) || ks.contains(x),
        p.no_duplicates() ==> extend_order(p, ks).no_duplicates(),
    decreases ks.len(),
{
    if ks.len() > 0 {
        let q = extend_order(p, ks.drop_last());
        lemma_extend_order_contents(p, ks.drop_last());
        assert forall|x: (u32, u8)| ks.contains(x) <==> ks.drop_last().contains(x) || x
            == ks.last() by {
            if ks.contains(x) {
                let t = choose|t: int| 0 <= t < ks.len() && ks[t] == x;
                if t < ks.len() - 1 {
                    assert(ks.drop_last()[t] == x);
                }
            }
            if x == ks.last() {
                assert(ks[ks.len() - 1] == x);
            }
            if ks.drop_last().contains(x) {
                let t = choose|t: int| 0 <= t < ks.len() - 1 && ks.drop_last()[t] == x;
                assert(ks[t] == x);
            }
        }
        if !q.contains(ks.last()) {
            assert forall|x: (u32, u8)| #[trigger]
                q.push(ks.last()).contains(x) <==> q.contains(x) || x == ks.last() by {
                if q.push(ks.last()).contains(x) {
                    let t = choose|t: int|
                        0 <= t < q.len() + 1 && q.push(ks.last())[t] == x;
                    if t < q.len() {
                        assert(q[t] == x);
                    }
                }
                if q.contains(x) {
                    let t = choose|t: int| 0 <= t < q.len() && q[t] == x;
                    assert(q.push(ks.last())[t] == x);
                }
                if x == ks.last() {
                    assert(q.push(ks.last())[q.len() as int] == x);
                }
            }
        }
    }
}

proof fn lemma_literal_keys_contents(cs: Seq<Seq<SATLiteral>>)
    ensures
        forall|c: int, l: int|
            0 <= c < cs.len() && 0 <= l < cs[c].len() ==> #[trigger] literal_keys(cs).contains(
                key_of(cs[c][l]),
            ),
        forall|x: (u32, u8)| #[trigger]
            literal_keys(cs).contains(x) ==> exists|c: int, l: int|
                0 <= c < cs.len() && 0 <= l < cs[c].len() && x == key_of(cs[c][l]),
    decreases cs.len(),
{
    if cs.len() > 0 {
        let init = cs.drop_last();
        let last = cs.last();
        lemma_literal_keys_contents(init);
        let ks = literal_keys(cs);
        assert(ks == literal_keys(init) + clause_keys(last));
        assert forall|c: int, l: int|
            0 <= c < cs.len() && 0 <= l < cs[c].len() implies #[trigger] literal_keys(cs).contains(
            key_of(cs[c][l]),
        ) by {
            if c < cs.len() - 1 {
                assert(init[c] == cs[c]);
                assert(literal_keys(init).contains(key_of(init[c][l])));
                let t = choose|t: int|
                    0 <= t < literal_keys(init).len() && literal_keys(init)[t] == key_of(
                        init[c][l],
                    );
                assert(ks[t] == key_of(cs[c][l]));
            } else {
                assert(ks[literal_keys(init).len() + l] == key_of(cs[c][l]));
            }
        }
        assert forall|x: (u32, u8)| #[trigger] literal_keys(cs).contains(x) implies exists|
            c: int,
            l: int,
        | 0 <= c < cs.len() && 0 <= l < cs[c].len() && x == key_of(cs[c][l]) by {
            let t = choose|t: int| 0 <= t < ks.len() && ks[t] == x;
            if t < literal_keys(init).len() {
                assert(literal_keys(init).contains(x));
                let (c, l) = choose|c: int, l: int|
                    0 <= c < init.len() && 0 <= l < init[c].len() && x == key_of(init[c][l]);
                assert(init[c] == cs[c]);
            } else {
                let l = t - literal_keys(init).len();
                assert(x == key_of(cs[cs.len() - 1][l]));
            }
        }
    }
}

/// The variable ids of an instance are exactly `1..=num_vars`, with no gap
/// and no id given twice, and `num_vars` is the number of distinct
/// (triplet index, position) pairs that the clauses use.
pub proof fn lemma_numbering_complete(cs: Seq<Seq<SATLiteral>>)
    ensures
        ({
            let order = variable_order(cs);
            let used = literal_keys(cs).to_set();
            &&& order.no_duplicates()
            &&& order.to_set() == used
            &&& order.len() == used.len()
            &&& forall|key: (u32, u8)| #[trigger]
                used.contains(key) ==> 1 <= var_id(order, key) <= order.len() && order[var_id(
                    order,
                    key,
                ) - 1] == key
            &&& forall|id: int|
                1 <= id <= order.len() ==> used.contains(#[trigger] order[id - 1]) && var_id(
                    order,
                    order[id - 1],
                ) == id
        }),
{
    let ks = literal_keys(cs);
    let order = variable_order(cs);
    lemma_extend_order_contents(seq![], ks);
    assert(Seq::<(u32, u8)>::empty().no_duplicates());
    assert(order.to_set() =~= ks.to_set()) by {
        assert forall|x: (u32, u8)| order.contains(x) <==> ks.contains(x) by {
            assert(!Seq::<(u32, u8)>::empty().contains(x));
        }
    }
    order.unique_seq_to_set();
    assert forall|key: (u32, u8)| #[trigger] ks.to_set().contains(key) implies 1 <= var_id(
        order,
        key,
    ) <= order.len() && order[var_id(order, key) - 1] == key by {
        assert(order.contains(key));
    }
    assert forall|id: int| 1 <= id <= order.len() implies ks.to_set().contains(
        #[trigger] order[id - 1],
    ) && var_id(order, order[id - 1]) == id by {
        assert(order.contains(order[id - 1]));
    }
}

/// The decimal digits of `v`, most significant first, without leading zeros.
pub open spec fn decimal(v: nat) -> Seq<u8>
    decreases v,
{
    if v < 10 {
        seq![(48 + v) as u8]
    } else {
        decimal(v / 10).push((48 + v % 10) as u8)
    }
}

fn push_decimal(out: &mut Vec<u8>, v: u64)
    ensures
        final(out)@ == old(out)@ + decimal(v as nat),
    decreases v,
{
    if v >= 10 {
        push_decimal(out, v / 10);
    }
    out.push((48 + v % 10) as u8);
    assert(final(out)@ =~= old(out)@ + decimal(v as nat));
}

fn push_text(out: &mut Vec<u8>, s: &str)
    ensures
        final(out)@ == old(out)@ + s.spec_bytes(),
{
    out.extend_from_slice(s.as_bytes());
    assert(final(out)@ =~= old(out)@ + s.spec_bytes());
}

/// The text of a literal: its variable's id, after a minus sign if negated.
pub open spec fn literal_text(l: SATLiteral, order: Seq<(u32, u8)>) -> Seq<u8> {
    (if l.inverted {
        "-".spec_bytes()
    } else {
        seq![]
    }) + decimal(var_id(order, key_of(l)) as nat)
}

/// Each literal's text followed by a space.
pub open spec fn literals_text(c: Seq<SATLiteral>, order: Seq<(u32, u8)>) -> Seq<u8>
    decreases c.len(),
{
    if c.len() == 0 {
        seq![]
    } else {
        literals_text(c.drop_last(), order) + literal_text(c.last(), order) + " ".spec_bytes()
    }
}

/// The line of a clause: its literals, then the terminating `0`.
pub open spec fn clause_text(c: Seq<SATLiteral>, order: Seq<(u32, u8)>) -> Seq<u8> {
    literals_text(c, order) + "0\n".spec_bytes()
}

/// The lines of the clauses, in order.
pub open spec fn clauses_text(cs: Seq<Seq<SATLiteral>>, order: Seq<(u32, u8)>) -> Seq<u8>
    decreases cs.len(),
{
    if cs.len() == 0 {
        seq![]
    } else {
        clauses_text(cs.drop_last(), order) + clause_text(cs.last(), order)
    }
}

/// The comment line that describes variable `id`, which is `key`.
pub open spec fn var_line(n: nat, id: nat, key: (u32, u8)) -> Seq<u8> {
    let t = decode(n, key.0 as nat);
    "c VAR ".spec_bytes() + decimal(id) + ": Triplet: (".spec_bytes() + decimal(t.x as nat)
        + ", ".spec_bytes() + decimal(t.y as nat) + ", ".spec_bytes() + decimal(t.z as nat)
        + "), Pos in sequence: ".spec_bytes() + decimal(key.1 as nat) + "\n".spec_bytes()
}

/// The comment lines of the variables listed in `order`, by id.
pub open spec fn var_lines(n: nat, order: Seq<(u32, u8)>) -> Seq<u8>
    decreases order.len(),
{
    if order.len() == 0 {
        seq![]
    } else {
        var_lines(n, order.drop_last()) + var_line(n, order.len(), order.last())
    }
}

/// The header: a comment naming `n` and `k`, then the `p cnf` line with
/// the numbers of variables and clauses, each followed by a blank line.
pub open spec fn header_text(n: nat, k: nat, num_vars: nat, num_clauses: nat) -> Seq<u8> {
    "c 2-Less - Set Max (n): ".spec_bytes() + decimal(n) + " - Sequence length (k): ".spec_bytes()
        + decimal(k) + "\n".spec_bytes() + "\n".spec_bytes() + "p cnf ".spec_bytes() + decimal(
        num_vars,
    ) + " ".spec_bytes() + decimal(num_clauses) + "\n".spec_bytes() + "\n".spec_bytes()
}

/// The DIMACS CNF text of the instance with clauses `cs`, for universe
/// size `n` and sequence length `k`.
pub open spec fn cnf_text(n: nat, k: nat, cs: Seq<Seq<SATLiteral>>) -> Seq<u8> {
    let order = variable_order(cs);
    header_text(n, k, order.len(), cs.len()) + var_lines(n, order) + "\n".spec_bytes()
        + clauses_text(cs, order)
}

fn write_header(out: &mut Vec<u8>, n: u8, k: u8, num_vars: usize, num_clauses: usize)
    ensures
        final(out)@ == old(out)@ + header_text(
            n as nat,
            k as nat,
            num_vars as nat,
            num_clauses as nat,
        ),
{
    push_text(out, "c 2-Less - Set Max (n): ");
    push_decimal(out, n as u64);
    push_text(out, " - Sequence length (k): ");
    push_decimal(out, k as u64);
    push_text(out, "\n");
    push_text(out, "\n");
    push_text(out, "p cnf ");
    push_decimal(out, num_vars as u64);
    push_text(out, " ");
    push_decimal(out, num_clauses as u64);
    push_text(out, "\n");
    push_text(out, "\n");
    assert(final(out)@ =~= old(out)@ + header_text(
        n as nat,
        k as nat,
        num_vars as nat,
        num_clauses as nat,
    ));
}

#[verifier::rlimit(40)]
fn write_var_line(out: &mut Vec<u8>, set: &TripletSet, id: usize, key: (u32, u8))
    requires
        set.wf(),
        key.0 <= cube(set@),
    ensures
        final(out)@ == old(out)@ + var_line(set@, id as nat, key),
{
    let triplet = set.triplet(key.0);
    push_text(out, "c VAR ");
    push_decimal(out, id as u64);
    push_text(out, ": Triplet: (");
    push_decimal(out, triplet.x as u64);
    push_text(out, ", ");
    push_decimal(out, triplet.y as u64);
    push_text(out, ", ");
    push_decimal(out, triplet.z as u64);
    push_text(out, "), Pos in sequence: ");
    push_decimal(out, key.1 as u64);
    push_text(out, "\n");
    assert(final(out)@ =~= old(out)@ + var_line(set@, id as nat, key));
}

/// A disjunction of literals.
pub struct SATClause {
    literals: Vec<SATLiteral>,
}

impl View for SATClause {
    type V = Seq<SATLiteral>;

    closed spec fn view(&self) -> Seq<SATLiteral> {
        self.literals@
    }
}

impl SATClause {
    pub fn new(literals: Vec<SATLiteral>) -> (r: SATClause)
        ensures
            r@ == literals@,
    {
        SATClause { literals }
    }

    /// Numbers the variables of this clause that have no id yet.
    pub fn collect_literals(&self, numbering: &mut LiteralNumbering)
        requires
            old(numbering).wf(),
            old(numbering).order().len() + self@.len() < usize::MAX,
        ensures
            final(numbering).wf(),
            final(numbering).order() == extend_order(old(numbering).order(), clause_keys(self@)),
            final(numbering).order().no_duplicates(),
    {
        let ghost start = numbering.order();
        let mut t: usize = 0;
        while t < self.literals.len()
            invariant
                0 <= t <= self@.len(),
                numbering.wf(),
                start.len() + self@.len() < usize::MAX,
                numbering.order() == extend_order(start, clause_keys(self@).take(t as int)),
                numbering.order().len() <= start.len() + t,
            decreases self@.len() - t,
        {
            let l = &self.literals[t];
            let ghost before = numbering.order();
            numbering.add((l.triplet_index, l.triplet_index_in_sequence));
            proof {
                let ks = clause_keys(self@);
                assert(ks.take(t + 1) =~= ks.take(t as int) + seq![key_of(self@[t as int])]);
                lemma_extend_order_append(start, ks.take(t as int), seq![key_of(self@[t as int])]);
                lemma_extend_order_len(before, seq![key_of(self@[t as int])]);
            }
            t = t + 1;
        }
        assert(clause_keys(self@).take(self@.len() as int) =~= clause_keys(self@));
    }

    /// Appends the clause's line under the given numbering.
    pub fn write_to_file(&self, out: &mut Vec<u8>, numbering: &LiteralNumbering)
        requires
            numbering.wf(),
            forall|l: int|
                0 <= l < self@.len() ==> numbering.order().contains(#[trigger] key_of(self@[l])),
        ensures
            final(out)@ == old(out)@ + clause_text(self@, numbering.order()),
    {
        let ghost order = numbering.order();
        let ghost start = out@;
        let mut t: usize = 0;
        while t < self.literals.len()
            invariant
                0 <= t <= self@.len(),
                numbering.wf(),
                order == numbering.order(),
                forall|l: int|
                    0 <= l < self@.len() ==> order.contains(#[trigger] key_of(self@[l])),
                out@ == start + literals_text(self@.take(t as int), order),
            decreases self@.len() - t,
        {
            let literal = &self.literals[t];
            assert(order.contains(key_of(self@[t as int])));
            literal.write_to_file(out, numbering);
            push_text(out, " ");
            proof {
                let c = self@.take(t + 1);
                assert(c.drop_last() =~= self@.take(t as int));
                assert(c.last() == self@[t as int]);
                assert(out@ =~= start + literals_text(c, order));
            }
            t = t + 1;
        }
        push_text(out, "0\n");
        assert(self@.take(self@.len() as int) =~= self@);
        assert(out@ =~= start + clause_text(self@, order));
    }

    pub fn literals(&self) -> (r: &Vec<SATLiteral>)
        ensures
            r@ == self@,
    {
        &self.literals
    }
}

/// The clauses of a whole instance, as sequences of literals.
pub open spec fn clause_views(cs: Seq<SATClause>) -> Seq<Seq<SATLiteral>> {
    cs.map_values(|c: SATClause| c@)
}

/// A CNF instance: its clauses, the universe of triplets its variables
/// refer to, and the sequence length it encodes.
pub struct SAT {
    clauses: Vec<SATClause>,
    set: TripletSet,
    sequence_length: u8,
}

impl SAT {
    pub closed spec fn spec_clauses(&self) -> Seq<Seq<SATLiteral>> {
        clause_views(self.clauses@)
    }

    pub closed spec fn spec_set(&self) -> TripletSet {
        self.set
    }

    pub closed spec fn spec_sequence_length(&self) -> nat {
        self.sequence_length as nat
    }

    pub fn new(clauses: Vec<SATClause>, set: TripletSet, sequence_length: u8) -> (r: SAT)
        ensures
            r.spec_clauses() == clause_views(clauses@),
            r.spec_set() == set,
            r.spec_sequence_length() == sequence_length,
    {
        SAT { clauses, set, sequence_length }
    }

    /// The total number of literals over all clauses, or `None` where it
    /// does not fit in `usize - 1`.
    pub fn literal_count(&self) -> (r: Option<usize>)
        ensures
            r matches Some(c) ==> c == literal_keys(self.spec_clauses()).len(),
            r is Some <==> literal_keys(self.spec_clauses()).len() < usize::MAX,
    {
        let ghost cs = self.spec_clauses();
        let mut total: usize = 0;
        let mut t: usize = 0;
        while t < self.clauses.len()
            invariant
                0 <= t <= cs.len(),
                cs == self.spec_clauses(),
                total == literal_keys(cs.take(t as int)).len(),
                total < usize::MAX,
            decreases cs.len() - t,
        {
            let len = self.clauses[t].literals.len();
            proof {
                assert(cs.take(t + 1).drop_last() =~= cs.take(t as int));
                assert(self.clauses@[t as int]@ == cs[t as int]);
                lemma_literal_keys_prefix(cs, t + 1);
            }
            if len >= usize::MAX - total {
                return None;
            }
            total = total + len;
            t = t + 1;
        }
        assert(cs.take(cs.len() as int) =~= cs);
        Some(total)
    }

    /// Numbers all variables of the instance in order of first use.
    pub fn collect_literals(&self) -> (r: LiteralNumbering)
        requires
            literal_keys(self.spec_clauses()).len() < usize::MAX,
        ensures
            r.wf(),
            r.order() == variable_order(self.spec_clauses()),
            r.order().no_duplicates(),
    {
        let ghost cs = self.spec_clauses();
        let mut numbering = LiteralNumbering::new();
        let mut t: usize = 0;
        while t < self.clauses.len()
            invariant
                0 <= t <= cs.len(),
                cs == self.spec_clauses(),
                literal_keys(cs).len() < usize::MAX,
                numbering.wf(),
                numbering.order() == extend_order(seq![], literal_keys(cs.take(t as int))),
                numbering.order().len() <= literal_keys(cs.take(t as int)).len(),
            decreases cs.len() - t,
        {
            let clause = &self.clauses[t];
            proof {
                assert(cs.take(t + 1).drop_last() =~= cs.take(t as int));
                assert(clause@ == cs[t as int]);
                lemma_literal_keys_prefix(cs, t + 1);
                lemma_extend_order_append(seq![], literal_keys(cs.take(t as int)), clause_keys(clause@));
                lemma_extend_order_len(numbering.order(), clause_keys(clause@));
            }
            clause.collect_literals(&mut numbering);
            t = t + 1;
        }
        assert(cs.take(cs.len() as int) =~= cs);
        numbering
    }

    /// Appends the instance's DIMACS CNF text: a header comment, the
    /// `p cnf` line, one comment per variable by id, and one line per clause.
    pub fn write_to_file(&self, out: &mut Vec<u8>)
        requires
            self.spec_set().wf(),
            literal_keys(self.spec_clauses()).len() < usize::MAX,
            indices_within(self.spec_clauses(), cube(self.spec_set()@)),
        ensures
            final(out)@ == old(out)@ + cnf_text(
                self.spec_set()@,
                self.spec_sequence_length(),
                self.spec_clauses(),
            ),
    {
        let ghost cs = self.spec_clauses();
        let ghost n = self.set@;
        let ghost start = out@;
        let numbering = self.collect_literals();
        let ghost order = numbering.order();
        proof {
            lemma_literal_keys_contents(cs);
            lemma_extend_order_contents(seq![], literal_keys(cs));
        }
        write_header(
            out,
            self.set.max_value(),
            self.sequence_length,
            numbering.order.len(),
            self.clauses.len(),
        );
        let ghost head = out@;

        let mut t: usize = 0;
        while t < numbering.order.len()
            invariant
                0 <= t <= order.len(),
                order == numbering.order(),
                self.set.wf(),
                self.set@ == n,
                forall|x: (u32, u8)| #[trigger] order.contains(x) ==> x.0 <= cube(n),
                out@ == head + var_lines(n, order.take(t as int)),
            decreases order.len() - t,
        {
            let key = numbering.order[t];
            assert(order.contains(key));
            write_var_line(out, &self.set, t + 1, key);
            proof {
                let p = order.take(t + 1);
                assert(p.drop_last() =~= order.take(t as int));
                assert(p.last() == key);
                assert(out@ =~= head + var_lines(n, p));
            }
            t = t + 1;
        }
        push_text(out, "\n");
        assert(order.take(order.len() as int) =~= order);
        let ghost body = out@;

        let mut c: usize = 0;
        while c < self.clauses.len()
            invariant
                0 <= c <= cs.len(),
                cs == self.spec_clauses(),
                numbering.wf(),
                order == numbering.order(),
                forall|c: int, l: int|
                    0 <= c < cs.len() && 0 <= l < cs[c].len() ==> order.contains(
                        #[trigger] key_of(cs[c][l]),
                    ),
                out@ == body + clauses_text(cs.take(c as int), order),
            decreases cs.len() - c,
        {
            let clause = &self.clauses[c];
            assert(clause@ == cs[c as int]);
            assert forall|l: int| 0 <= l < clause@.len() implies order.contains(
                #[trigger] key_of(clause@[l]),
            ) by {
                assert(order.contains(key_of(cs[c as int][l])));
            }
            clause.write_to_file(out, &numbering);
            proof {
                let p = cs.take(c + 1);
                assert(p.drop_last() =~= cs.take(c as int));
                assert(p.last() == cs[c as int]);
                assert(out@ =~= body + clauses_text(p, order));
            }
            c = c + 1;
        }
        assert(cs.take(cs.len() as int) =~= cs);
        assert(out@ =~= start + cnf_text(n, self.sequence_length as nat, cs)) by {
            assert(out@ == body + clauses_text(cs, order));
            assert(body =~= head + var_lines(n, order) + "\n".spec_bytes());
        }
    }

    pub fn clauses(&self) -> (r: &Vec<SATClause>)
        ensures
            clause_views(r@) == self.spec_clauses(),
    {
        &self.clauses
    }
}

} // verus!
