//! A trait like `Iterator`, but for sequences that never end: `next_item`
//! returns an item, not an `Option`.
use vstd::prelude::*;
use std::ops::RangeFrom;

verus! {

/// `std::ops::RangeFrom`, an unbounded range `start..`; its one field,
/// `start`, is public.
#[verifier::external_type_specification]
#[verifier::reject_recursive_types(Idx)]
pub struct ExRangeFrom<Idx>(RangeFrom<Idx>);

/// Like `Iterator`, but returns items directly, rather than `Option`s.
pub trait Perpetuity: Sized {
    type Item;

    /// Whether the next item can be produced.
    spec fn can_advance(&self) -> bool;

    /// Whether advancing `self` gives `item` and leaves `after`.
    spec fn step(self, after: Self, item: Self::Item) -> bool;

    /// The next item; the sequence moves on past it.
    fn next_item(&mut self) -> (r: Self::Item)
        requires
            old(self).can_advance(),
        ensures
            old(self).step(*final(self), r),
    ;

    /// The items, as an iterator that never ends.
    fn into_iter(self) -> (r: IntoIter<Self>)
        ensures
            r.0 == self,
    {
        IntoIter(self)
    }

    /// The first `count` items.
    fn take(self, count: usize) -> (r: Take<Self>)
        ensures
            r.items == self,
            r.count == count,
    {
        Take { items: self, count }
    }
}

/// Whether `p` can give the items `xs`, one after another: it can advance,
/// a step gives `xs[0]`, and what it leaves can give the rest.
pub open spec fn yields<P: Perpetuity>(p: P, xs: Seq<P::Item>) -> bool
    decreases xs.len(),
{
    if xs.len() == 0 {
        true
    } else {
        p.can_advance() && exists|q: P| #[trigger] p.step(q, xs[0]) && yields(q, xs.drop_first())
    }
}

/// Whether `a` follows `b` step for step for `n` steps: they can advance
/// alike, and (while steps are left) each step of `a` gives an item that a
/// step of `b` gives too, leaving states that again follow step for step.
#[verifier::opaque]
pub open spec fn step_for_step<A: Perpetuity, B: Perpetuity<Item = A::Item>>(a: A, b: B, n: nat) -> bool
    decreases n,
{
    &&& a.can_advance() == b.can_advance()
    &&& n > 0 ==> forall|a2: A, x: A::Item|
        #[trigger] a.step(a2, x) ==> exists|b2: B| b.step(b2, x) && step_for_step(a2, b2, (n - 1) as nat)
}

/// A perpetuity follows itself step for step.
pub proof fn lemma_step_for_step_refl<P: Perpetuity>(p: P, n: nat)
    ensures
        step_for_step(p, p, n),
    decreases n,
{
    if n > 0 {
        assert forall|a2: P, x: P::Item| #[trigger] p.step(a2, x) implies step_for_step(a2, a2, (n - 1) as nat) by {
            lemma_step_for_step_refl(a2, (n - 1) as nat);
        }
    }
    assert(step_for_step(p, p, n)) by {
        reveal(step_for_step);
        if n > 0 {
            assert forall|a2: P, x: P::Item| #[trigger] p.step(a2, x) implies exists|b2: P|
                p.step(b2, x) && step_for_step(a2, b2, (n - 1) as nat) by {
                assert(step_for_step(a2, a2, (n - 1) as nat));
            }
        }
    }
}

/// Returns the specified `Perpetuity`, erasing any further type information:
/// it follows `items` step for step, for any number of steps, and gives the
/// items `items` gives.
pub fn assimilate<T>(items: impl Perpetuity<Item = T>) -> (r: impl Perpetuity<Item = T>)
    ensures
        r.can_advance() == items.can_advance(),
        forall|n: nat| step_for_step(r, items, n),
        forall|xs: Seq<T>| yields(r, xs) == yields(items, xs),
{
    proof {
        assert forall|n: nat| step_for_step(items, items, n) by {
            lemma_step_for_step_refl(items, n);
        }
    }
    items
}

/// A `Perpetuity` as an iterator whose `next` always has an item.
pub struct IntoIter<I: Perpetuity>(pub I);

impl<I: Perpetuity> IntoIter<I> {
    /// The next item; there always is one.
    pub fn next(&mut self) -> (r: Option<I::Item>)
        requires
            old(self).0.can_advance(),
        ensures
            r matches Some(x) && old(self).0.step(final(self).0, x),
    {
        Some(self.0.next_item())
    }

    /// The size hint: at least `usize::MAX` items, no upper bound.
    pub fn size_hint(&self) -> (r: (usize, Option<usize>))
        ensures
            r == (usize::MAX, None::<usize>),
    {
        (usize::MAX, None)
    }
}

/// The first `count` items of a `Perpetuity`.
pub struct Take<I: Perpetuity> {
    pub items: I,
    pub count: usize,
}

/// One call of `Take::next` from `t`, leaving `m` and giving `r`: while
/// items are left, the next item of the inner perpetuity (which can advance)
/// and one fewer left; after that nothing, and nothing changes.
pub open spec fn take_step<I: Perpetuity>(t: Take<I>, m: Take<I>, r: Option<I::Item>) -> bool {
    if t.count == 0 {
        r is None && m == t
    } else {
        r matches Some(x) && t.items.can_advance() && t.items.step(m.items, x) && m.count == t.count - 1
    }
}

/// Calls of `Take::next` from `t` giving the results `rs`, one after
/// another, and leaving `e`.
pub open spec fn take_run<I: Perpetuity>(t: Take<I>, rs: Seq<Option<I::Item>>, e: Take<I>) -> bool
    decreases rs.len(),
{
    if rs.len() == 0 {
        t == e
    } else {
        exists|m: Take<I>| #[trigger] take_step(t, m, rs[0]) && take_run(m, rs.drop_first(), e)
    }
}

/// The items among `rs`, in order.
pub open spec fn somes<T>(rs: Seq<Option<T>>) -> Seq<T>
    decreases rs.len(),
{
    if rs.len() == 0 {
        Seq::empty()
    } else {
        match rs[0] {
            Some(x) => seq![x] + somes(rs.drop_first()),
            None => somes(rs.drop_first()),
        }
    }
}

/// Calling `Take::next` again and again gives exactly the first `count`
/// items, one per call, as the inner perpetuity gives them, and then nothing.
pub proof fn lemma_take_run<I: Perpetuity>(t: Take<I>, rs: Seq<Option<I::Item>>, e: Take<I>)
    requires
        take_run(t, rs, e),
    ensures
        forall|i: int| 0 <= i < rs.len() ==> ((#[trigger] rs[i]) is Some <==> i < t.count),
        yields(t.items, somes(rs)),
    decreases rs.len(),
{
    if rs.len() > 0 {
        let m = choose|m: Take<I>| #[trigger] take_step(t, m, rs[0]) && take_run(m, rs.drop_first(), e);
        let rest = rs.drop_first();
        lemma_take_run(m, rest, e);
        assert forall|i: int| 0 <= i < rs.len() implies ((#[trigger] rs[i]) is Some <==> i < t.count) by {
            if i > 0 {
                assert(rs[i] == rest[i - 1]);
            }
        }
        if t.count > 0 {
            let x = rs[0]->Some_0;
            assert(somes(rs) == seq![x] + somes(rest));
            assert((seq![x] + somes(rest))[0] == x);
            assert((seq![x] + somes(rest)).drop_first() =~= somes(rest));
        }
    }
}

impl<I: Perpetuity> Take<I> {
    /// The next item, while any of the `count` are left.
    pub fn next(&mut self) -> (r: Option<I::Item>)
        requires
            old(self).count > 0 ==> old(self).items.can_advance(),
        ensures
            take_step(*old(self), *final(self), r),
            old(self).count == 0 ==> r is None && final(self).count == 0 && final(self).items
                == old(self).items,
            old(self).count > 0 ==> (r matches Some(x) && old(self).items.step(final(self).items, x))
                && final(self).count == old(self).count - 1,
    {
        if self.count > 0 {
            self.count = self.count - 1;
            Some(self.items.next_item())
        } else {
            None
        }
    }
}

/// The sequence `first`, `succ(first)`, `succ(succ(first))`, ...
#[verifier::reject_recursive_types(T)]
pub struct Successors<T, F: Fn(&T) -> T> {
    pub next: T,
    pub succ: F,
}

impl<T, F: Fn(&T) -> T> Perpetuity for Successors<T, F> {
    type Item = T;

    open spec fn can_advance(&self) -> bool {
        forall|x: &T| call_requires(self.succ, (x,))
    }

    /// The item is the current value; the next value is what `succ` makes
    /// of it.
    open spec fn step(self, after: Self, item: T) -> bool {
        &&& item == self.next
        &&& after.succ == self.succ
        &&& call_ensures(self.succ, (&self.next,), after.next)
    }

    fn next_item(&mut self) -> (r: T)
        ensures
            r == old(self).next,
            call_ensures(old(self).succ, (&old(self).next,), final(self).next),
    {
        let mut next = (self.succ)(&self.next);
        std::mem::swap(&mut self.next, &mut next);
        next
    }
}

/// The sequence that starts at `first` and goes on by `succ`.
pub fn successors<T, F: Fn(&T) -> T>(first: T, succ: F) -> (r: Successors<T, F>)
    ensures
        r.next == first,
        r.succ == succ,
{
    Successors { next: first, succ }
}

/// Calls `Iterator::next` on a `RangeFrom<i8>`: the item is the range's
/// start, and the start moves on by one (`Step::forward`, which overflows past
/// `i8::MAX`, so the start must be below it).
#[verifier::external_body]
fn range_next_i8(r: &mut RangeFrom<i8>) -> (n: i8)
    requires
        old(r).start < i8::MAX,
    ensures
        n == old(r).start,
        final(r).start == old(r).start + 1,
{
    r.next().unwrap()
}

impl Perpetuity for RangeFrom<i8> {
    type Item = i8;

    /// The start is below `i8::MAX`, so moving on past it does not overflow.
    open spec fn can_advance(&self) -> bool {
        self.start < i8::MAX
    }

    /// The item is the start, and the start moves on by one.
    open spec fn step(self, after: Self, item: i8) -> bool {
        item == self.start && after.start == self.start + 1
    }

    fn next_item(&mut self) -> i8 {
        range_next_i8(self)
    }
}

/// Calls `Iterator::next` on a `RangeFrom<i16>`: the item is the range's
/// start, and the start moves on by one (`Step::forward`, which overflows past
/// `i16::MAX`, so the start must be below it).
#[verifier::external_body]
fn range_next_i16(r: &mut RangeFrom<i16>) -> (n: i16)
    requires
        old(r).start < i16::MAX,
    ensures
        n == old(r).start,
        final(r).start == old(r).start + 1,
{
    r.next().unwrap()
}

impl Perpetuity for RangeFrom<i16> {
    type Item = i16;

    /// The start is below `i16::MAX`, so moving on past it does not overflow.
    open spec fn can_advance(&self) -> bool {
        self.start < i16::MAX
    }

    /// The item is the start, and the start moves on by one.
    open spec fn step(self, after: Self, item: i16) -> bool {
        item == self.start && after.start == self.start + 1
    }

    fn next_item(&mut self) -> i16 {
        range_next_i16(self)
    }
}

/// Calls `Iterator::next` on a `RangeFrom<i32>`: the item is the range's
/// start, and the start moves on by one (`Step::forward`, which overflows past
/// `i32::MAX`, so the start must be below it).
#[verifier::external_body]
fn range_next_i32(r: &mut RangeFrom<i32>) -> (n: i32)
    requires
        old(r).start < i32::MAX,
    ensures
        n == old(r).start,
        final(r).start == old(r).start + 1,
{
    r.next().unwrap()
}

impl Perpetuity for RangeFrom<i32> {
    type Item = i32;

    /// The start is below `i32::MAX`, so moving on past it does not overflow.
    open spec fn can_advance(&self) -> bool {
        self.start < i32::MAX
    }

    /// The item is the start, and the start moves on by one.
    open spec fn step(self, after: Self, item: i32) -> bool {
        item == self.start && after.start == self.start + 1
    }

    fn next_item(&mut self) -> i32 {
        range_next_i32(self)
    }
}

/// Calls `Iterator::next` on a `RangeFrom<i64>`: the item is the range's
/// start, and the start moves on by one (`Step::forward`, which overflows past
/// `i64::MAX`, so the start must be below it).
#[verifier::external_body]
fn range_next_i64(r: &mut RangeFrom<i64>) -> (n: i64)
    requires
        old(r).start < i64::MAX,
    ensures
        n == old(r).start,
        final(r).start == old(r).start + 1,
{
    r.next().unwrap()
}

impl Perpetuity for RangeFrom<i64> {
    type Item = i64;

    /// The start is below `i64::MAX`, so moving on past it does not overflow.
    open spec fn can_advance(&self) -> bool {
        self.start < i64::MAX
    }

    /// The item is the start, and the start moves on by one.
    open spec fn step(self, after: Self, item: i64) -> bool {
        item == self.start && after.start == self.start + 1
    }

    fn next_item(&mut self) -> i64 {
        range_next_i64(self)
    }
}

/// Calls `Iterator::next` on a `RangeFrom<i128>`: the item is the range's
/// start, and the start moves on by one (`Step::forward`, which overflows past
/// `i128::MAX`, so the start must be below it).
#[verifier::external_body]
fn range_next_i128(r: &mut RangeFrom<i128>) -> (n: i128)
    requires
        old(r).start < i128::MAX,
    ensures
        n == old(r).start,
        final(r).start == old(r).start + 1,
{
    r.next().unwrap()
}

impl Perpetuity for RangeFrom<i128> {
    type Item = i128;

    /// The start is below `i128::MAX`, so moving on past it does not overflow.
    open spec fn can_advance(&self) -> bool {
        self.start < i128::MAX
    }

    /// The item is the start, and the start moves on by one.
    open spec fn step(self, after: Self, item: i128) -> bool {
        item == self.start && after.start == self.start + 1
    }

    fn next_item(&mut self) -> i128 {
        range_next_i128(self)
    }
}

/// Calls `Iterator::next` on a `RangeFrom<u8>`: the item is the range's
/// start, and the start moves on by one (`Step::forward`, which overflows past
/// `u8::MAX`, so the start must be below it).
#[verifier::external_body]
fn range_next_u8(r: &mut RangeFrom<u8>) -> (n: u8)
    requires
        old(r).start < u8::MAX,
    ensures
        n == old(r).start,
        final(r).start == old(r).start + 1,
{
    r.next().unwrap()
}

impl Perpetuity for RangeFrom<u8> {
    type Item = u8;

    /// The start is below `u8::MAX`, so moving on past it does not overflow.
    open spec fn can_advance(&self) -> bool {
        self.start < u8::MAX
    }

    /// The item is the start, and the start moves on by one.
    open spec fn step(self, after: Self, item: u8) -> bool {
        item == self.start && after.start == self.start + 1
    }

    fn next_item(&mut self) -> u8 {
        range_next_u8(self)
    }
}

/// Calls `Iterator::next` on a `RangeFrom<u16>`: the item is the range's
/// start, and the start moves on by one (`Step::forward`, which overflows past
/// `u16::MAX`, so the start must be below it).
#[verifier::external_body]
fn range_next_u16(r: &mut RangeFrom<u16>) -> (n: u16)
    requires
        old(r).start < u16::MAX,
    ensures
        n == old(r).start,
        final(r).start == old(r).start + 1,
{
    r.next().unwrap()
}

impl Perpetuity for RangeFrom<u16> {
    type Item = u16;

    /// The start is below `u16::MAX`, so moving on past it does not overflow.
    open spec fn can_advance(&self) -> bool {
        self.start < u16::MAX
    }

    /// The item is the start, and the start moves on by one.
    open spec fn step(self, after: Self, item: u16) -> bool {
        item == self.start && after.start == self.start + 1
    }

    fn next_item(&mut self) -> u16 {
        range_next_u16(self)
    }
}

/// Calls `Iterator::next` on a `RangeFrom<u32>`: the item is the range's
/// start, and the start moves on by one (`Step::forward`, which overflows past
/// `u32::MAX`, so the start must be below it).
#[verifier::external_body]
fn range_next_u32(r: &mut RangeFrom<u32>) -> (n: u32)
    requires
        old(r).start < u32::MAX,
    ensures
        n == old(r).start,
        final(r).start == old(r).start + 1,
{
    r.next().unwrap()
}

impl Perpetuity for RangeFrom<u32> {
    type Item = u32;

    /// The start is below `u32::MAX`, so moving on past it does not overflow.
    open spec fn can_advance(&self) -> bool {
        self.start < u32::MAX
    }

    /// The item is the start, and the start moves on by one.
    open spec fn step(self, after: Self, item: u32) -> bool {
        item == self.start && after.start == self.start + 1
    }

    fn next_item(&mut self) -> u32 {
        range_next_u32(self)
    }
}

/// Calls `Iterator::next` on a `RangeFrom<u64>`: the item is the range's
/// start, and the start moves on by one (`Step::forward`, which overflows past
/// `u64::MAX`, so the start must be below it).
#[verifier::external_body]
fn range_next_u64(r: &mut RangeFrom<u64>) -> (n: u64)
    requires
        old(r).start < u64::MAX,
    ensures
        n == old(r).start,
        final(r).start == old(r).start + 1,
{
    r.next().unwrap()
}

impl Perpetuity for RangeFrom<u64> {
    type Item = u64;

    /// The start is below `u64::MAX`, so moving on past it does not overflow.
    open spec fn can_advance(&self) -> bool {
        self.start < u64::MAX
    }

    /// The item is the start, and the start moves on by one.
    open spec fn step(self, after: Self, item: u64) -> bool {
        item == self.start && after.start == self.start + 1
    }

    fn next_item(&mut self) -> u64 {
        range_next_u64(self)
    }
}

/// Calls `Iterator::next` on a `RangeFrom<u128>`: the item is the range's
/// start, and the start moves on by one (`Step::forward`, which overflows past
/// `u128::MAX`, so the start must be below it).
#[verifier::external_body]
fn range_next_u128(r: &mut RangeFrom<u128>) -> (n: u128)
    requires
        old(r).start < u128::MAX,
    ensures
        n == old(r).start,
        final(r).start == old(r).start + 1,
{
    r.next().unwrap()
}

impl Perpetuity for RangeFrom<u128> {
    type Item = u128;

    /// The start is below `u128::MAX`, so moving on past it does not overflow.
    open spec fn can_advance(&self) -> bool {
        self.start < u128::MAX
    }

    /// The item is the start, and the start moves on by one.
    open spec fn step(self, after: Self, item: u128) -> bool {
        item == self.start && after.start == self.start + 1
    }

    fn next_item(&mut self) -> u128 {
        range_next_u128(self)
    }
}

} // verus!
