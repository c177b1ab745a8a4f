use vstd::prelude::*;

use rand::rngs::ThreadRng;

use crate::utils::rng::{random_i32_inclusive, random_ratio, random_usize_inclusive};

verus! {

/// One random draw, with the question it answered: a chance of `numerator`
/// in `denominator` and whether it came out, or a number picked from `lo` to
/// `hi`.
#[derive(Clone, Copy, Debug, PartialEq, Eq, Structural)]
pub enum Draw {
    Flip { numerator: u32, denominator: u32, outcome: bool },
    PickI32 { lo: i32, hi: i32, value: i32 },
    PickUsize { lo: usize, hi: usize, value: usize },
}

/// The outcome of draw `at` of `ds` when it answered a chance of `n` in `d`.
pub open spec fn flip_at(ds: Seq<Draw>, at: int, n: u32, d: u32) -> Option<bool> {
    if 0 <= at < ds.len() {
        match ds[at] {
            Draw::Flip { numerator, denominator, outcome } => if numerator == n && denominator == d {
                Some(outcome)
            } else {
                None
            },
            _ => None,
        }
    } else {
        None
    }
}

/// The value of draw `at` of `ds` when it picked from `lo` to `hi`.
pub open spec fn pick_i32_at(ds: Seq<Draw>, at: int, lo: i32, hi: i32) -> Option<i32> {
    if 0 <= at < ds.len() {
        match ds[at] {
            Draw::PickI32 { lo: l, hi: h, value } => if l == lo && h == hi {
                Some(value)
            } else {
                None
            },
            _ => None,
        }
    } else {
        None
    }
}

/// The value of draw `at` of `ds` when it picked from `lo` to `hi`.
pub open spec fn pick_usize_at(ds: Seq<Draw>, at: int, lo: usize, hi: usize) -> Option<usize> {
    if 0 <= at < ds.len() {
        match ds[at] {
            Draw::PickUsize { lo: l, hi: h, value } => if l == lo && h == hi {
                Some(value)
            } else {
                None
            },
            _ => None,
        }
    } else {
        None
    }
}

/// A source of random draws that keeps the list of the draws it made.
pub trait DrawSource {
    /// The draws made so far, oldest first.
    spec fn drawn(&self) -> Seq<Draw>;

    /// `true` with chance `numerator` in `denominator`.
    fn chance(&mut self, numerator: u32, denominator: u32) -> (b: bool)
        requires
            0 < denominator,
            numerator <= denominator,
        ensures
            final(self).drawn() == old(self).drawn().push(Draw::Flip { numerator, denominator, outcome: b }),
            numerator == 0 ==> !b,
            numerator == denominator ==> b,
    ;

    /// A number from `lo` to `hi`.
    fn pick_i32(&mut self, lo: i32, hi: i32) -> (v: i32)
        requires
            lo <= hi,
        ensures
            final(self).drawn() == old(self).drawn().push(Draw::PickI32 { lo, hi, value: v }),
            lo <= v <= hi,
    ;

    /// A number from `lo` to `hi`.
    fn pick_usize(&mut self, lo: usize, hi: usize) -> (v: usize)
        requires
            lo <= hi,
        ensures
            final(self).drawn() == old(self).drawn().push(Draw::PickUsize { lo, hi, value: v }),
            lo <= v <= hi,
    ;
}

/// Draws from `rand`'s thread-local generator, keeping the list of them.
pub struct RandomDraws<'a> {
    pub rng: &'a mut ThreadRng,
    pub log: Ghost<Seq<Draw>>,
}

impl<'a> RandomDraws<'a> {
    /// A source with no draws made yet.
    pub fn new(rng: &'a mut ThreadRng) -> (d: RandomDraws<'a>)
        ensures
            d.drawn() == Seq::<Draw>::empty(),
    {
        RandomDraws { rng, log: Ghost(Seq::empty()) }
    }
}

impl<'a> DrawSource for RandomDraws<'a> {
    open spec fn drawn(&self) -> Seq<Draw> {
        self.log@
    }

    fn chance(&mut self, numerator: u32, denominator: u32) -> (b: bool) {
        let b = random_ratio(self.rng, numerator, denominator);
        self.log = Ghost(self.log@.push(Draw::Flip { numerator, denominator, outcome: b }));
        b
    }

    fn pick_i32(&mut self, lo: i32, hi: i32) -> (v: i32) {
        let v = random_i32_inclusive(self.rng, lo, hi);
        self.log = Ghost(self.log@.push(Draw::PickI32 { lo, hi, value: v }));
        v
    }

    fn pick_usize(&mut self, lo: usize, hi: usize) -> (v: usize) {
        let v = random_usize_inclusive(self.rng, lo, hi);
        self.log = Ghost(self.log@.push(Draw::PickUsize { lo, hi, value: v }));
        v
    }
}

/// Draws read from a list made beforehand, in order; once the list is used
/// up every chance comes out false and every pick is the lower bound. A
/// listed draw that does not fit the question asked is answered the same
/// way.
pub struct ListedDraws {
    pub list: Vec<Draw>,
    pub next: usize,
    pub log: Ghost<Seq<Draw>>,
}

impl ListedDraws {
    /// A source that answers with `list`, from its start.
    pub fn new(list: Vec<Draw>) -> (d: ListedDraws)
        ensures
            d.drawn() == Seq::<Draw>::empty(),
            d.list@ == list@,
            d.next == 0,
    {
        ListedDraws { list, next: 0, log: Ghost(Seq::empty()) }
    }
}

impl DrawSource for ListedDraws {
    open spec fn drawn(&self) -> Seq<Draw> {
        self.log@
    }

    fn chance(&mut self, numerator: u32, denominator: u32) -> (b: bool) {
        let mut b = false;
        if self.next < self.list.len() {
            match self.list[self.next] {
                Draw::Flip { numerator: n, denominator: d, outcome } => {
                    if n == numerator && d == denominator {
                        b = outcome;
                    }
                },
                _ => {},
            }
            self.next = self.next + 1;
        }
        if numerator == 0 {
            b = false;
        }
        if numerator == denominator {
            b = true;
        }
        self.log = Ghost(self.log@.push(Draw::Flip { numerator, denominator, outcome: b }));
        b
    }

    fn pick_i32(&mut self, lo: i32, hi: i32) -> (v: i32) {
        let mut v = lo;
        if self.next < self.list.len() {
            match self.list[self.next] {
                Draw::PickI32 { lo: l, hi: h, value } => {
                    if l == lo && h == hi && lo <= value && value <= hi {
                        v = value;
                    }
                },
                _ => {},
            }
            self.next = self.next + 1;
        }
        self.log = Ghost(self.log@.push(Draw::PickI32 { lo, hi, value: v }));
        v
    }

    fn pick_usize(&mut self, lo: usize, hi: usize) -> (v: usize) {
        let mut v = lo;
        if self.next < self.list.len() {
            match self.list[self.next] {
                Draw::PickUsize { lo: l, hi: h, value } => {
                    if l == lo && h == hi && lo <= value && value <= hi {
                        v = value;
                    }
                },
                _ => {},
            }
            self.next = self.next + 1;
        }
        self.log = Ghost(self.log@.push(Draw::PickUsize { lo, hi, value: v }));
        v
    }
}

} // verus!
