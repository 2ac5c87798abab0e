use vstd::prelude::*;
use vstd::multiset::Multiset;
use crate::game::copy_vec;
use crate::random::shuffle_vec;

verus! {

/// The deck that `template` and `multiplier` describe: each item of the
/// template `multiplier` times in a row, in the template's order.
pub open spec fn generated<T>(template: Seq<T>, multiplier: nat) -> Seq<T>
    decreases template.len(),
{
    if template.len() == 0 {
        Seq::empty()
    } else {
        generated(template.drop_last(), multiplier) + Seq::new(multiplier, |i: int| template.last())
    }
}

/// `b` holds a clone of each item of `a`, in the same order.
pub open spec fn clones_of<T: Clone>(a: Seq<T>, b: Seq<T>) -> bool {
    &&& a.len() == b.len()
    &&& forall|i: int| 0 <= i < a.len() ==> cloned::<T>(#[trigger] a[i], b[i])
}

/// A generalized "bag" or "deck" implementation for pseudo-random generation.
/// Ensures that within a cycle, items appear with a guaranteed frequency distribution.
#[derive(Debug)]
pub struct PseudoList<T> {
    pub(crate) template: Vec<T>,
    pub(crate) pool: Vec<T>,
    pub(crate) multiplier: u8,
}

impl<T> PseudoList<T> {
    /// A deck holds at least one copy of its template per cycle.
    #[verifier::type_invariant]
    spec fn multiplier_positive(self) -> bool {
        self.multiplier > 0
    }
}

impl<T: Clone> PseudoList<T> {
    /// The items that define the deck.
    pub closed spec fn template(self) -> Seq<T> {
        self.template@
    }

    /// The cards left in the current cycle.
    pub closed spec fn pool_seq(self) -> Seq<T> {
        self.pool@
    }

    /// How many copies of the template one cycle of the deck holds.
    pub closed spec fn multiplier(self) -> nat {
        self.multiplier as nat
    }

    /// The cards that a draw `r` leaves in `next`, taken from `prev`: the
    /// last card of a non-empty pool, or else the last card of a shuffled
    /// fresh deck, or nothing when a fresh deck would be empty.
    pub open spec fn draws(prev: Self, next: Self, r: Option<T>) -> bool {
        &&& next.template() == prev.template()
        &&& next.multiplier() == prev.multiplier()
        &&& if prev.pool_seq().len() > 0 {
            &&& r == Some(prev.pool_seq().last())
            &&& next.pool_seq() == prev.pool_seq().drop_last()
        } else if prev.template().len() == 0 {
            &&& r is None
            &&& next.pool_seq() == prev.pool_seq()
        } else {
            exists|deck: Seq<T>| #[trigger] Self::refills(prev, next, r, deck)
        }
    }

    /// The outcome of a draw from an empty pool: `deck` is the fresh deck
    /// after its shuffle, and the draw takes its last card.
    pub open spec fn refills(prev: Self, next: Self, r: Option<T>, deck: Seq<T>) -> bool {
        &&& clones_of(generated(prev.template(), prev.multiplier()), deck)
        &&& if deck.len() == 0 {
            r is None && next.pool_seq().len() == 0
        } else {
            &&& r is Some
            &&& next.pool_seq().push(r.unwrap()).to_multiset() == deck.to_multiset()
        }
    }

    /// Creates a new PseudoList.
    /// `multiplier`: Determines how many copies of the template list are added to the pool.
    pub fn new(multiplier: u8) -> (l: Self)
        requires
            multiplier > 0,
        ensures
            l.template() == Seq::<T>::empty(),
            l.pool_seq() == Seq::<T>::empty(),
            l.multiplier() == multiplier,
    {
        Self { template: Vec::new(), pool: Vec::new(), multiplier }
    }

    /// Adds an item to the template list (the definition of the deck).
    pub fn add(&mut self, item: T)
        ensures
            final(self).template() == old(self).template().push(item),
            final(self).pool_seq() == old(self).pool_seq(),
            final(self).multiplier() == old(self).multiplier(),
    {
        proof {
            use_type_invariant(&*self);
        }
        let mut template = Vec::new();
        std::mem::swap(&mut template, &mut self.template);
        template.push(item);
        self.template = template;
    }

    /// Generates the pool based on the template and multiplier.
    /// This clears any existing pool!
    pub fn generate_list(&mut self)
        ensures
            final(self).template() == old(self).template(),
            final(self).multiplier() == old(self).multiplier(),
            clones_of(generated(old(self).template(), old(self).multiplier()), final(self).pool_seq()),
    {
        proof {
            use_type_invariant(&*self);
        }
        let mut pool: Vec<T> = Vec::new();
        let n = self.template.len();
        let m = self.multiplier;
        let mut i: usize = 0;
        assert(self.template().take(0) =~= Seq::<T>::empty());
        while i < n
            invariant
                0 <= i <= n,
                n == self.template().len(),
                m == self.multiplier,
                self.template() == old(self).template(),
                m == old(self).multiplier,
                clones_of(generated(self.template().take(i as int), m as nat), pool@),
            decreases n - i,
        {
            let ghost before = pool@;
            let ghost head = generated(self.template().take(i as int), m as nat);
            let mut j: u8 = 0;
            while j < m
                invariant
                    0 <= i < n,
                    n == self.template().len(),
                    m == self.multiplier,
                    self.template() == old(self).template(),
                    m == old(self).multiplier,
                    0 <= j <= m,
                    clones_of(
                        head + Seq::new(j as nat, |k: int| self.template()[i as int]),
                        pool@,
                    ),
                decreases m - j,
            {
                let c = self.template[i].clone();
                let ghost prev = pool@;
                pool.push(c);
                proof {
                    let s_old = head + Seq::new(j as nat, |k: int| self.template()[i as int]);
                    let s_new = head + Seq::new((j + 1) as nat, |k: int| self.template()[i as int]);
                    assert(s_new =~= s_old.push(self.template()[i as int]));
                    assert(pool@ == prev.push(c));
                    assert forall|k: int| 0 <= k < s_new.len() implies cloned::<T>(
                        #[trigger] s_new[k],
                        pool@[k],
                    ) by {
                        if k < s_old.len() {
                            assert(s_new[k] == s_old[k]);
                        }
                    }
                }
                j = j + 1;
            }
            proof {
                let t = self.template();
                assert(t.take(i + 1).drop_last() =~= t.take(i as int));
                assert(t.take(i + 1).last() == t[i as int]);
                assert(generated(t.take(i + 1), m as nat) =~= head + Seq::new(
                    m as nat,
                    |k: int| t[i as int],
                ));
            }
            i = i + 1;
        }
        assert(self.template().take(n as int) =~= self.template());
        self.pool = pool;
    }

    /// Shuffles the current pool.
    pub fn shuffle(&mut self)
        ensures
            final(self).template() == old(self).template(),
            final(self).multiplier() == old(self).multiplier(),
            final(self).pool_seq().len() == old(self).pool_seq().len(),
            final(self).pool_seq().to_multiset() == old(self).pool_seq().to_multiset(),
    {
        proof {
            use_type_invariant(&*self);
        }
        let mut pool = Vec::new();
        std::mem::swap(&mut pool, &mut self.pool);
        shuffle_vec(&mut pool);
        self.pool = pool;
    }

    /// Gets the next item from the pool.
    /// If the pool is empty, it automatically regenerates and shuffles (infinite deck).
    /// Returns None only if the template is empty.
    pub fn get_next(&mut self) -> (r: Option<T>)
        ensures
            Self::draws(*old(self), *final(self), r),
            old(self).template().len() > 0 ==> r is Some,
    {
        proof {
            use_type_invariant(&*self);
        }
        if self.pool.len() == 0 {
            if self.template.len() == 0 {
                return None;
            }
            self.generate_list();
            let ghost deck = self.pool_seq();
            proof {
                lemma_generated_len(old(self).template(), old(self).multiplier as nat);
                let tl = old(self).template().len();
                let ml = old(self).multiplier as nat;
                if ml > 0 {
                    assert(tl * ml > 0) by (nonlinear_arith)
                        requires
                            tl > 0,
                            ml > 0,
                    ;
                }
            }
            self.shuffle();
            let ghost shuffled = self.pool_seq();
            let mut pool = Vec::new();
            std::mem::swap(&mut pool, &mut self.pool);
            let r = pool.pop();
            self.pool = pool;
            proof {
                if deck.len() > 0 {
                    assert(self.pool_seq().push(r.unwrap()) =~= shuffled);
                }
                assert(deck.to_multiset() == shuffled.to_multiset());
                assert(Self::refills(*old(self), *self, r, deck));
            }
            return r;
        }
        let mut pool = Vec::new();
        std::mem::swap(&mut pool, &mut self.pool);
        let r = pool.pop();
        self.pool = pool;
        r
    }

    /// The items that define the deck.
    pub fn template_items(&self) -> (t: &Vec<T>)
        ensures
            t@ == self.template(),
    {
        &self.template
    }

    /// The cards left in the current cycle; the next draw takes the last.
    pub fn pool(&self) -> (p: &Vec<T>)
        ensures
            p@ == self.pool_seq(),
    {
        &self.pool
    }

    /// How many copies of the template one cycle holds.
    pub fn multiplier_value(&self) -> (m: u8)
        ensures
            m == self.multiplier(),
            m > 0,
    {
        proof {
            use_type_invariant(self);
        }
        self.multiplier
    }

    /// Helper to check if the pool needs regeneration.
    pub fn count(&self) -> (c: usize)
        ensures
            c == self.pool_seq().len(),
    {
        self.pool.len()
    }
}


impl PseudoList<u32> {
    /// A copy of a deck of numbers.
    pub(crate) fn copy_numbers(&self) -> (c: Self)
        ensures
            c.template() == self.template(),
            c.pool_seq() == self.pool_seq(),
            c.multiplier() == self.multiplier(),
    {
        proof {
            use_type_invariant(self);
        }
        PseudoList {
            template: copy_vec(&self.template),
            pool: copy_vec(&self.pool),
            multiplier: self.multiplier,
        }
    }
}

impl<T: Clone> Clone for PseudoList<T> {
    fn clone(&self) -> (c: Self)
        ensures
            clones_of(self.template(), c.template()),
            clones_of(self.pool_seq(), c.pool_seq()),
            c.multiplier() == self.multiplier(),
    {
        proof {
            use_type_invariant(self);
        }
        PseudoList {
            template: self.template.clone(),
            pool: self.pool.clone(),
            multiplier: self.multiplier,
        }
    }
}

/// Every card that a draw from a deck of numbers hands out, and every card it
/// leaves in the pool, is an item of the template, provided the pool held
/// only such items before.
pub proof fn lemma_draw_within_template(prev: PseudoList<u32>, next: PseudoList<u32>, r: Option<u32>)
    requires
        PseudoList::<u32>::draws(prev, next, r),
        forall|i: int| 0 <= i < prev.pool_seq().len() ==> prev.template().contains(#[trigger] prev.pool_seq()[i]),
    ensures
        r matches Some(x) ==> prev.template().contains(x),
        forall|i: int| 0 <= i < next.pool_seq().len() ==> next.template().contains(#[trigger] next.pool_seq()[i]),
{
    if prev.pool_seq().len() > 0 {
        assert(prev.pool_seq().last() == prev.pool_seq()[prev.pool_seq().len() - 1]);
        assert forall|i: int| 0 <= i < next.pool_seq().len() implies next.template().contains(
            #[trigger] next.pool_seq()[i],
        ) by {
            assert(next.pool_seq()[i] == prev.pool_seq()[i]);
        }
    } else if prev.template().len() > 0 {
        let deck = choose|deck: Seq<u32>| #[trigger] PseudoList::<u32>::refills(prev, next, r, deck);
        let g = generated(prev.template(), prev.multiplier());
        lemma_clones_of_u32(g, deck);
        if deck.len() > 0 {
            let full = next.pool_seq().push(r.unwrap());
            broadcast use vstd::seq_lib::group_to_multiset_ensures;
            assert forall|i: int| 0 <= i < full.len() implies prev.template().contains(
                #[trigger] full[i],
            ) by {
                assert(full.to_multiset().count(full[i]) > 0);
                assert(deck.contains(full[i]));
                let k = choose|k: int| 0 <= k < deck.len() && deck[k] == full[i];
                lemma_generated_items(prev.template(), prev.multiplier(), k);
            }
            assert(full[full.len() - 1] == r.unwrap());
            assert forall|i: int| 0 <= i < next.pool_seq().len() implies next.template().contains(
                #[trigger] next.pool_seq()[i],
            ) by {
                assert(full[i] == next.pool_seq()[i]);
            }
        }
    }
}

/// A fresh deck holds `multiplier` cards per template item.
pub proof fn lemma_generated_len<T>(template: Seq<T>, multiplier: nat)
    ensures
        generated(template, multiplier).len() == template.len() * multiplier,
    decreases template.len(),
{
    if template.len() > 0 {
        lemma_generated_len(template.drop_last(), multiplier);
        assert(template.drop_last().len() * multiplier + multiplier == template.len() * multiplier)
            by (nonlinear_arith)
            requires
                template.drop_last().len() + 1 == template.len(),
        ;
    }
}

/// Every card of a fresh deck is an item of the template.
pub proof fn lemma_generated_items<T>(template: Seq<T>, multiplier: nat, i: int)
    requires
        0 <= i < generated(template, multiplier).len(),
    ensures
        template.contains(generated(template, multiplier)[i]),
    decreases template.len(),
{
    if template.len() > 0 {
        let head = generated(template.drop_last(), multiplier);
        if i < head.len() {
            lemma_generated_items(template.drop_last(), multiplier, i);
            let x = head[i];
            let k = choose|k: int| 0 <= k < template.drop_last().len() && template.drop_last()[k] == x;
            assert(template[k] == x);
        } else {
            assert(template[template.len() - 1] == template.last());
        }
    }
}

/// A clone of a `u32` is the same number.
pub proof fn lemma_clones_of_u32(a: Seq<u32>, b: Seq<u32>)
    requires
        clones_of(a, b),
    ensures
        a == b,
{
    assert forall|i: int| 0 <= i < a.len() implies a[i] == b[i] by {
        assert(cloned::<u32>(a[i], b[i]));
    }
    assert(a =~= b);
}

proof fn lemma_repeated_count<T>(x: T, m: nat, y: T)
    ensures
        Seq::new(m, |i: int| x).to_multiset().count(y) == if x == y {
            m as int
        } else {
            0
        },
    decreases m,
{
    broadcast use vstd::seq_lib::group_to_multiset_ensures;

    if m == 0 {
        assert(Seq::new(0, |i: int| x) =~= Seq::<T>::empty());
    } else {
        let prev = Seq::new((m - 1) as nat, |i: int| x);
        lemma_repeated_count(x, (m - 1) as nat, y);
        assert(Seq::new(m, |i: int| x) =~= prev.push(x));
    }
}

/// One cycle of a deck deals every card with a fixed frequency: a fresh
/// deck holds each value `multiplier` times as often as the template does.
pub proof fn lemma_generated_frequency<T>(template: Seq<T>, multiplier: nat, x: T)
    ensures
        generated(template, multiplier).to_multiset().count(x) == multiplier
            * template.to_multiset().count(x),
    decreases template.len(),
{
    broadcast use vstd::seq_lib::group_to_multiset_ensures;

    if template.len() == 0 {
        assert(generated(template, multiplier) =~= Seq::<T>::empty());
    } else {
        let rest = template.drop_last();
        lemma_generated_frequency(rest, multiplier, x);
        vstd::seq_lib::lemma_multiset_commutative(
            generated(rest, multiplier),
            Seq::new(multiplier, |i: int| template.last()),
        );
        lemma_repeated_count(template.last(), multiplier, x);
        assert(template =~= rest.push(template.last()));
        let c = rest.to_multiset().count(x);
        assert(multiplier * (c + 1) == multiplier * c + multiplier) by (nonlinear_arith);
    }
}

/// The cards handed out by a run of draws.
pub open spec fn dealt<T>(drawn: Seq<Option<T>>) -> Multiset<T>
    decreases drawn.len(),
{
    if drawn.len() == 0 {
        Multiset::empty()
    } else {
        match drawn.last() {
            Some(x) => dealt(drawn.drop_last()).insert(x),
            None => dealt(drawn.drop_last()),
        }
    }
}

/// Within one cycle the deck deals exactly its cards: a run of draws that
/// does not empty the pool before its end hands out a card each time, and
/// the cards handed out together with those left make up the pool it
/// started from.
pub proof fn lemma_cycle_deals_pool<T: Clone>(states: Seq<PseudoList<T>>, drawn: Seq<Option<T>>)
    requires
        states.len() == drawn.len() + 1,
        forall|i: int|
            0 <= i < drawn.len() ==> #[trigger] PseudoList::<T>::draws(
                states[i],
                states[i + 1],
                drawn[i],
            ),
        states[0].pool_seq().len() >= drawn.len(),
    ensures
        forall|i: int| 0 <= i < drawn.len() ==> #[trigger] drawn[i] is Some,
        states.last().pool_seq().len() == states[0].pool_seq().len() - drawn.len(),
        dealt(drawn).add(states.last().pool_seq().to_multiset()) == states[0].pool_seq().to_multiset(),
    decreases drawn.len(),
{
    broadcast use vstd::seq_lib::group_to_multiset_ensures;

    if drawn.len() == 0 {
        assert(dealt(drawn).add(states.last().pool_seq().to_multiset()) =~= states[0].pool_seq().to_multiset());
    } else {
        let n = drawn.len() - 1;
        let s2 = states.drop_last();
        let d2 = drawn.drop_last();
        assert forall|i: int| 0 <= i < d2.len() implies #[trigger] PseudoList::<T>::draws(
            s2[i],
            s2[i + 1],
            d2[i],
        ) by {
            assert(PseudoList::<T>::draws(states[i], states[i + 1], drawn[i]));
        }
        lemma_cycle_deals_pool(s2, d2);
        let prev = states[n];
        let next = states[n + 1];
        assert(PseudoList::<T>::draws(prev, next, drawn[n]));
        assert(prev == s2.last());
        assert(prev.pool_seq().len() > 0);
        assert(prev.pool_seq() =~= next.pool_seq().push(prev.pool_seq().last()));
        assert(drawn.last() == drawn[n]);
        assert(dealt(drawn).add(next.pool_seq().to_multiset()) =~= dealt(d2).add(prev.pool_seq().to_multiset()));
        assert forall|i: int| 0 <= i < drawn.len() implies #[trigger] drawn[i] is Some by {
            if i < n {
                assert(d2[i] == drawn[i]);
            }
        }
    }
}

proof fn lemma_dealt_prepend<T>(a: Option<T>, rest: Seq<Option<T>>)
    ensures
        dealt(seq![a] + rest) == match a {
            Some(x) => dealt(rest).insert(x),
            None => dealt(rest),
        },
    decreases rest.len(),
{
    if rest.len() == 0 {
        let one = seq![a] + rest;
        assert(one.len() == 1);
        assert(one.last() == a);
        assert(one.drop_last() =~= Seq::<Option<T>>::empty());
        assert(dealt(one.drop_last()) == Multiset::<T>::empty());
        assert(dealt(rest) == Multiset::<T>::empty());
    } else {
        lemma_dealt_prepend(a, rest.drop_last());
        assert((seq![a] + rest).drop_last() =~= seq![a] + rest.drop_last());
        assert((seq![a] + rest).last() == rest.last());
        match (a, rest.last()) {
            (Some(x), Some(y)) => {
                assert(dealt(rest.drop_last()).insert(x).insert(y) =~= dealt(rest.drop_last()).insert(
                    y,
                ).insert(x));
            },
            _ => {},
        }
    }
}

/// The guaranteed frequency within a cycle, for a deck of numbers: when the
/// pool is empty, the next `template.len() * multiplier` calls of
/// `get_next` (each step `states[i]` to `states[i + 1]` handing out
/// `drawn[i]`, as `get_next` ensures) all hand out a card, every value comes
/// exactly `multiplier` times as often as in the template, and the pool is
/// empty again at the end.
pub proof fn lemma_full_cycle(states: Seq<PseudoList<u32>>, drawn: Seq<Option<u32>>)
    requires
        states.len() == drawn.len() + 1,
        states[0].pool_seq().len() == 0,
        states[0].template().len() > 0,
        states[0].multiplier() > 0,
        drawn.len() == states[0].template().len() * states[0].multiplier(),
        forall|i: int|
            0 <= i < drawn.len() ==> #[trigger] PseudoList::<u32>::draws(
                states[i],
                states[i + 1],
                drawn[i],
            ),
    ensures
        forall|i: int| 0 <= i < drawn.len() ==> #[trigger] drawn[i] is Some,
        dealt(drawn) == generated(states[0].template(), states[0].multiplier()).to_multiset(),
        forall|x: u32|
            #[trigger] dealt(drawn).count(x) == states[0].multiplier() * states[0].template().to_multiset().count(
                x,
            ),
        states.last().pool_seq().len() == 0,
{
    broadcast use vstd::seq_lib::group_to_multiset_ensures;

    let n = drawn.len();
    let i0: int = 0;
    let s0 = states[i0];
    let s1 = states[i0 + 1];
    let g = generated(s0.template(), s0.multiplier());
    lemma_generated_len(s0.template(), s0.multiplier());
    assert(n > 0) by (nonlinear_arith)
        requires
            n == s0.template().len() * s0.multiplier(),
            s0.template().len() > 0,
            s0.multiplier() > 0,
    ;
    assert(PseudoList::<u32>::draws(states[i0], states[i0 + 1], drawn[i0]));
    let deck = choose|deck: Seq<u32>| #[trigger] PseudoList::<u32>::refills(s0, s1, drawn[0], deck);
    lemma_clones_of_u32(g, deck);
    let d0 = drawn[0].unwrap();
    assert(s1.pool_seq().push(d0).to_multiset() == g.to_multiset());
    assert(s1.pool_seq().push(d0).len() == s1.pool_seq().push(d0).to_multiset().len());
    assert(g.len() == g.to_multiset().len());
    assert(s1.pool_seq().len() + 1 == n);
    let rs = states.skip(1);
    let rd = drawn.skip(1);
    assert forall|i: int| 0 <= i < rd.len() implies #[trigger] PseudoList::<u32>::draws(
        rs[i],
        rs[i + 1],
        rd[i],
    ) by {
        let j = i + 1;
        assert(PseudoList::<u32>::draws(states[j], states[j + 1], drawn[j]));
        assert(rs[i] == states[j] && rs[i + 1] == states[j + 1] && rd[i] == drawn[j]);
    }
    lemma_cycle_deals_pool(rs, rd);
    assert(rs.last() == states.last());
    assert(states.last().pool_seq() =~= Seq::<u32>::empty());
    assert(drawn =~= seq![drawn[0]] + rd);
    lemma_dealt_prepend(drawn[0], rd);
    assert(dealt(drawn) =~= g.to_multiset());
    assert forall|i: int| 0 <= i < n implies #[trigger] drawn[i] is Some by {
        if i > 0 {
            assert(rd[i - 1] == drawn[i]);
        }
    }
    assert forall|x: u32| #[trigger] dealt(drawn).count(x) == s0.multiplier() * s0.template().to_multiset().count(x) by {
        lemma_generated_frequency(s0.template(), s0.multiplier(), x);
    }
}

/// The guaranteed frequency within a cycle, for a deck of any items: when
/// the pool is empty, the next `template.len() * multiplier` calls of
/// `get_next` all hand out an item, together they hand out a clone of each
/// card of the fresh deck (each template item `multiplier` times), and the
/// pool is empty again at the end.
pub proof fn lemma_full_cycle_clones<T: Clone>(states: Seq<PseudoList<T>>, drawn: Seq<Option<T>>)
    requires
        states.len() == drawn.len() + 1,
        states[0].pool_seq().len() == 0,
        states[0].template().len() > 0,
        states[0].multiplier() > 0,
        drawn.len() == states[0].template().len() * states[0].multiplier(),
        forall|i: int|
            0 <= i < drawn.len() ==> #[trigger] PseudoList::<T>::draws(
                states[i],
                states[i + 1],
                drawn[i],
            ),
    ensures
        forall|i: int| 0 <= i < drawn.len() ==> #[trigger] drawn[i] is Some,
        exists|deck: Seq<T>|
            clones_of(generated(states[0].template(), states[0].multiplier()), deck)
                && #[trigger] deck.to_multiset() == dealt(drawn),
        states.last().pool_seq().len() == 0,
{
    broadcast use vstd::seq_lib::group_to_multiset_ensures;

    let n = drawn.len();
    let i0: int = 0;
    let s0 = states[i0];
    let s1 = states[i0 + 1];
    let g = generated(s0.template(), s0.multiplier());
    lemma_generated_len(s0.template(), s0.multiplier());
    assert(n > 0) by (nonlinear_arith)
        requires
            n == s0.template().len() * s0.multiplier(),
            s0.template().len() > 0,
            s0.multiplier() > 0,
    ;
    assert(PseudoList::<T>::draws(states[i0], states[i0 + 1], drawn[i0]));
    let deck = choose|deck: Seq<T>| #[trigger] PseudoList::<T>::refills(s0, s1, drawn[0], deck);
    let d0 = drawn[0].unwrap();
    assert(s1.pool_seq().push(d0).to_multiset() == deck.to_multiset());
    assert(s1.pool_seq().push(d0).len() == s1.pool_seq().push(d0).to_multiset().len());
    assert(deck.len() == deck.to_multiset().len());
    assert(s1.pool_seq().len() + 1 == n);
    let rs = states.skip(1);
    let rd = drawn.skip(1);
    assert forall|i: int| 0 <= i < rd.len() implies #[trigger] PseudoList::<T>::draws(
        rs[i],
        rs[i + 1],
        rd[i],
    ) by {
        let j = i + 1;
        assert(PseudoList::<T>::draws(states[j], states[j + 1], drawn[j]));
        assert(rs[i] == states[j] && rs[i + 1] == states[j + 1] && rd[i] == drawn[j]);
    }
    lemma_cycle_deals_pool(rs, rd);
    assert(rs.last() == states.last());
    assert(states.last().pool_seq() =~= Seq::<T>::empty());
    assert(drawn =~= seq![drawn[0]] + rd);
    lemma_dealt_prepend(drawn[0], rd);
    assert(dealt(drawn) =~= deck.to_multiset());
    assert forall|i: int| 0 <= i < n implies #[trigger] drawn[i] is Some by {
        if i > 0 {
            assert(rd[i - 1] == drawn[i]);
        }
    }
}

} // verus!
