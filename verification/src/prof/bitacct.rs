//! The bit accountant: how many bits each class of syntax took, in eighths of a
//! bit, and how often inter blocks are compound.

use crate::prof::{rank, ranking, wrapped};
use vstd::prelude::*;

verus! {

/// A class of syntax.
#[derive(Clone, Copy, Debug, PartialEq, Eq, Structural)]
pub enum Class {
    Coeff,
    Mv,
    InterMode,
    IntraMode,
    Partition,
    TxSize,
    MotionMode,
    Interp,
    Skip,
    Other,
}

/// The labels of the classes.
pub const NAMES: [&'static str; 10] = [
    "coefficients",
    "motion vectors",
    "inter mode",
    "intra mode",
    "partition",
    "tx size/type",
    "motion_mode",
    "interp filter",
    "skip",
    "other",
];

/// The labels of the funnel.
pub const FUNNEL_NAMES: [&'static str; 4] = [
    "inter blocks emitted",
    "of which GLOBALMV",
    "-",
    "of which COMPOUND",
];

impl Class {
    /// The place of the class in the order of declaration.
    pub open spec fn place(self) -> int {
        match self {
            Class::Coeff => 0,
            Class::Mv => 1,
            Class::InterMode => 2,
            Class::IntraMode => 3,
            Class::Partition => 4,
            Class::TxSize => 5,
            Class::MotionMode => 6,
            Class::Interp => 7,
            Class::Skip => 8,
            Class::Other => 9,
        }
    }

    /// The place of the class in the order of declaration.
    pub fn idx(self) -> (r: usize)
        ensures
            r == self.place(),
            r < 10,
    {
        match self {
            Class::Coeff => 0,
            Class::Mv => 1,
            Class::InterMode => 2,
            Class::IntraMode => 3,
            Class::Partition => 4,
            Class::TxSize => 5,
            Class::MotionMode => 6,
            Class::Interp => 7,
            Class::Skip => 8,
            Class::Other => 9,
        }
    }
}

/// The accounts.
pub struct Account {
    /// Whether anything is accounted.
    pub on: bool,
    /// What each class took, in eighths of a bit.
    pub bits: [u64; 10],
    /// The inter blocks written, and those of them of each kind.
    pub funnel: [u64; 4],
}

/// The sum of the first `n` counters.
pub open spec fn sum_to(v: Seq<u64>, n: int) -> int
    decreases n,
{
    if n <= 0 { 0 } else { sum_to(v, n - 1) + v[n - 1] }
}

/// A report of the accounts.
pub struct BitReport {
    /// The first, second and fourth counter of the funnel, where a block was counted.
    pub funnel: Option<[u64; 3]>,
    /// What all classes took.
    pub total: u128,
    /// The classes that took anything, the costliest first.
    pub rows: Vec<usize>,
}

impl Account {
    /// Empty accounts; they are kept where `RAV1E_BITACCT` is set at all.
    pub fn new(var: Option<&str>) -> (r: Self)
        ensures
            r.on == (var is Some),
            r.bits@ == Seq::new(10, |i: int| 0u64),
            r.funnel@ == Seq::new(4, |i: int| 0u64),
    {
        let r = Account { on: var.is_some(), bits: [0; 10], funnel: [0; 4] };
        assert(r.bits@ =~= Seq::new(10, |i: int| 0u64));
        assert(r.funnel@ =~= Seq::new(4, |i: int| 0u64));
        r
    }

    /// Counts a block of the funnel, where anything is accounted.
    pub fn funnel(&mut self, i: usize)
        requires
            i < 4,
        ensures
            final(self).on == old(self).on,
            final(self).bits == old(self).bits,
            final(self).funnel@ == (if old(self).on {
                old(self).funnel@.update(i as int, wrapped(old(self).funnel[i as int], 1))
            } else {
                old(self).funnel@
            }),
    {
        if self.on {
            let n: u64 = self.funnel[i].wrapping_add(1);
            self.funnel[i] = n;
        }
    }

    /// Adds to what a class took.
    pub fn add(&mut self, c: Class, eighths: u64)
        ensures
            final(self).on == old(self).on,
            final(self).funnel == old(self).funnel,
            final(self).bits@ == old(self).bits@.update(
                c.place(),
                wrapped(old(self).bits[c.place()], eighths as int),
            ),
    {
        let i: usize = c.idx();
        let n: u64 = self.bits[i].wrapping_add(eighths);
        self.bits[i] = n;
    }

    /// Adds what one write took, from the positions of the writer before and after
    /// it, where anything is accounted and the writer writes.
    pub fn acct(&mut self, c: Class, counts_only: bool, before: u64, after: u64)
        ensures
            final(self).on == old(self).on,
            final(self).funnel == old(self).funnel,
            final(self).bits@ == (if old(self).on && !counts_only {
                old(self).bits@.update(
                    c.place(),
                    wrapped(
                        old(self).bits[c.place()],
                        if after > before { after - before } else { 0 },
                    ),
                )
            } else {
                old(self).bits@
            }),
    {
        if self.on && !counts_only {
            let eighths: u64 = if after > before { after - before } else { 0 };
            Account::add(self, c, eighths);
        }
    }

    /// What each class took so far.
    pub fn snapshot(&self) -> (r: [u64; 10])
        ensures
            r == self.bits,
    {
        self.bits
    }

    /// Goes back to what each class had taken at a snapshot.
    pub fn restore(&mut self, s: &[u64; 10])
        ensures
            final(self).on == old(self).on,
            final(self).funnel == old(self).funnel,
            final(self).bits == *s,
    {
        self.bits = *s;
    }

    /// Clears what each class took.
    pub fn reset(&mut self)
        ensures
            final(self).on == old(self).on,
            final(self).funnel == old(self).funnel,
            final(self).bits@ == Seq::new(10, |i: int| 0u64),
    {
        self.bits = [0; 10];
        assert(self.bits@ =~= Seq::new(10, |i: int| 0u64));
    }

    /// The report, where anything is accounted and something was.
    pub fn dump(&self) -> (r: Option<BitReport>)
        ensures
            r is Some <==> self.on && sum_to(self.bits@, 10) > 0,
            r matches Some(b) ==> {
                &&& b.total == sum_to(self.bits@, 10)
                &&& b.funnel is Some <==> self.funnel[0] > 0
                &&& b.funnel matches Some(f) ==> f@ == seq![
                    self.funnel[0],
                    self.funnel[1],
                    self.funnel[3],
                ]
                &&& ranking(
                    b.rows@,
                    self.bits@,
                    Seq::new(10, |i: int| self.bits[i] > 0),
                    10,
                )
            },
    {
        if !self.on {
            return None;
        }
        let mut total: u128 = 0;
        let mut keep: [bool; 10] = [false; 10];
        let mut i: usize = 0;
        while i < 10
            invariant
                i <= 10,
                total == sum_to(self.bits@, i as int),
                total <= i * 0xffff_ffff_ffff_ffff,
                forall|j: int| 0 <= j < i ==> #[trigger] keep[j] == (self.bits[j] > 0),
            decreases 10 - i,
        {
            total = total + self.bits[i] as u128;
            keep[i] = self.bits[i] > 0;
            i = i + 1;
        }
        if total == 0 {
            return None;
        }
        assert(keep@ =~= Seq::new(10, |i: int| self.bits[i] > 0));
        let rows: Vec<usize> = rank(&self.bits, &keep);
        let funnel: Option<[u64; 3]> = if self.funnel[0] > 0 {
            let f: [u64; 3] = [self.funnel[0], self.funnel[1], self.funnel[3]];
            assert(f@ =~= seq![self.funnel[0], self.funnel[1], self.funnel[3]]);
            Some(f)
        } else {
            None
        };
        Some(BitReport { funnel, total, rows })
    }
}

/// The accounts after a list of additions.
pub open spec fn after_adds(bits: Seq<u64>, adds: Seq<(Class, u64)>) -> Seq<u64>
    decreases adds.len(),
{
    if adds.len() == 0 {
        bits
    } else {
        let b = after_adds(bits, adds.drop_last());
        let (c, e) = adds.last();
        b.update(c.place(), wrapped(b[c.place()], e as int))
    }
}

/// What a class took is the sum of what was added to it, wherever other classes
/// were added to in between.
pub proof fn law_classes_are_accounted_apart(bits: Seq<u64>, adds: Seq<(Class, u64)>, c: Class)
    requires
        bits.len() == 10,
    ensures
        after_adds(bits, adds).len() == 10,
        after_adds(bits, adds)[c.place()] == wrapped(bits[c.place()], added_to(adds, c)),
    decreases adds.len(),
{
    if adds.len() > 0 {
        let rest = adds.drop_last();
        law_classes_are_accounted_apart(bits, rest, c);
        let b = after_adds(bits, rest);
        let (k, e) = adds.last();
        if k.place() == c.place() {
            assert(k == c);
            let x = bits[c.place()] as int;
            let s = added_to(rest, c);
            vstd::arithmetic::div_mod::lemma_add_mod_noop(
                x + s,
                e as int,
                0x1_0000_0000_0000_0000,
            );
            vstd::arithmetic::div_mod::lemma_small_mod(e as nat, 0x1_0000_0000_0000_0000);
        }
    }
}

/// The sum of what was added to a class.
pub open spec fn added_to(adds: Seq<(Class, u64)>, c: Class) -> int
    decreases adds.len(),
{
    if adds.len() == 0 {
        0
    } else {
        let (k, e) = adds.last();
        added_to(adds.drop_last(), c) + if k == c { e as int } else { 0 }
    }
}

/// The classes are accounted in the order of their labels.
pub proof fn law_classes_have_their_places(c: Class)
    ensures
        c.place() == 0 <==> c == Class::Coeff,
        c.place() == 1 <==> c == Class::Mv,
        c.place() == 2 <==> c == Class::InterMode,
        c.place() == 3 <==> c == Class::IntraMode,
        c.place() == 4 <==> c == Class::Partition,
        c.place() == 5 <==> c == Class::TxSize,
        c.place() == 6 <==> c == Class::MotionMode,
        c.place() == 7 <==> c == Class::Interp,
        c.place() == 8 <==> c == Class::Skip,
        c.place() == 9 <==> c == Class::Other,
{
}

/// The total is that of all classes: what is added to one is added to it.
pub proof fn law_totals_count_every_class(v: Seq<u64>, i: int, x: u64)
    requires
        v.len() == 10,
        0 <= i < 10,
    ensures
        sum_to(v.update(i, x), 10) - sum_to(v, 10) == x - v[i],
        (forall|k: int| 0 <= k < 10 ==> #[trigger] v[k] == 0) ==> sum_to(v, 10) == 0,
        sum_to(v, 10) == v[0] + v[1] + v[2] + v[3] + v[4] + v[5] + v[6] + v[7] + v[8] + v[9],
{
    reveal_with_fuel(sum_to, 11);
}

} // verus!
