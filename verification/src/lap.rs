//! Cursor arithmetic.
//!
//! A cursor packs a slot index and a lap number into one [`Index`]: the low
//! bits, below `one_lap`, are the index of a slot, and the bits above count how
//! often the cursor has gone round the buffer. Cursors wrap around after `last`,
//! which is the largest [`Index`] or, where atomics of that width are not to be had,
//! the largest value of a narrower one; since both widths are powers of two,
//! wrapping loses whole laps only and never disturbs the slot index.
//!
//! Contracts speak of *positions*: the `p`-th element ever put into a queue has
//! position `p`, and [`Laps::cursor_at`] is the cursor that stands for it.

use vstd::arithmetic::div_mod::*;
use vstd::arithmetic::power2::*;
use vstd::bits::*;
use vstd::prelude::*;

verus! {

/// The type of cursors and slot stamps.
pub type Index = u64;

/// `x` is a power of two.
pub open spec fn is_pow2(x: int) -> bool {
    exists|k: nat| x == #[trigger] pow2(k)
}

/// Smallest power of two, from 2 upwards, strictly greater than `cap`.
pub fn one_lap_for(cap: Index) -> (lap: Index)
    requires
        cap < 0x8000_0000_0000_0000,
    ensures
        is_pow2(lap as int),
        lap >= 2,
        lap > cap,
        forall|k: nat| k >= 1 && #[trigger] pow2(k) > cap ==> lap <= pow2(k),
{
    let need: Index = cap + 1;
    let mut lap: Index = 2;
    let ghost mut k: nat = 1;
    proof {
        lemma2_to64();
    }
    while lap < need
        invariant
            need == cap + 1,
            need <= 0x8000_0000_0000_0000,
            k >= 1,
            lap == pow2(k),
            2 <= lap <= 2 * need,
            k == 1 || pow2((k - 1) as nat) < need,
        decreases 2 * need - lap,
    {
        proof {
            lemma_pow2_unfold(k + 1);
            k = k + 1;
        }
        lap = lap * 2;
    }
    proof {
        assert forall|j: nat| j >= 1 && #[trigger] pow2(j) > cap implies lap <= pow2(j) by {
            if j < k {
                if j < k - 1 {
                    lemma_pow2_strictly_increases(j, (k - 1) as nat);
                }
            } else if j > k {
                lemma_pow2_strictly_increases(k, j);
            }
        }
    }
    lap
}

/// The geometry of a buffer of `cap` slots whose cursors start a new lap every
/// `one_lap` steps of the raw index.
#[derive(Debug, Clone, Copy, PartialEq, Eq)]
pub struct Laps {
    /// Number of slots.
    pub cap: usize,
    /// Distance between the cursors of one slot in successive laps.
    pub one_lap: Index,
    /// The largest cursor, after which cursors start again at 0.
    pub last: Index,
}

impl Laps {
    /// A power of two separates the laps, all slots and one index more fit
    /// below it, and cursors can tell at least four laps apart. The capacity is
    /// at most half of what an `isize` can count.
    pub open spec fn wf(self) -> bool {
        &&& 1 <= self.cap < self.one_lap
        &&& self.cap <= isize::MAX as int / 2
        &&& 4 * self.one_lap <= self.range()
        &&& is_pow2(self.one_lap as int)
        &&& is_pow2(self.range())
    }

    /// Number of distinct cursors.
    pub open spec fn range(self) -> int {
        self.last + 1
    }

    /// Number of laps after which cursors repeat.
    pub open spec fn lap_count(self) -> int {
        self.range() / self.one_lap as int
    }

    /// The cursor that stands for position `p`.
    pub open spec fn cursor_at(self, p: int) -> Index {
        (((p / self.cap as int) % self.lap_count()) * self.one_lap + p % self.cap as int) as Index
    }

    /// The slot that holds position `p`.
    pub open spec fn slot_at(self, p: int) -> int {
        p % self.cap as int
    }

    /// `cursor` names one of the slots.
    pub open spec fn valid(self, cursor: Index) -> bool {
        cursor <= self.last && cursor % self.one_lap < self.cap
    }

    /// The cursor of the same slot one lap later.
    pub open spec fn ahead_spec(self, cursor: Index) -> Index {
        ((cursor + self.one_lap) % self.range()) as Index
    }

    /// The cursor of the same slot one lap earlier.
    pub open spec fn behind_spec(self, cursor: Index) -> Index {
        ((cursor - self.one_lap) % self.range()) as Index
    }

    /// The slot index within `cursor`.
    pub open spec fn index_spec(self, cursor: Index) -> int {
        (cursor % self.one_lap) as int
    }

    /// The cursor after `cursor`: the next slot, or slot 0 of the next lap.
    pub open spec fn next_spec(self, cursor: Index) -> Index {
        if cursor % self.one_lap + 1 < self.cap {
            (cursor + 1) as Index
        } else {
            self.ahead_spec((cursor - cursor % self.one_lap) as Index)
        }
    }

    /// How many slots lie from `head` up to `tail`, going round the buffer; equal
    /// cursors have none between them, equal slots in different laps have all.
    pub open spec fn occupied_spec(self, head: Index, tail: Index) -> int {
        let d = (self.index_spec(tail) - self.index_spec(head)) % self.cap as int;
        if tail == head {
            0
        } else if d == 0 {
            self.cap as int
        } else {
            d
        }
    }

    /// `tail` is exactly one lap ahead of `head`.
    pub open spec fn full_spec(self, head: Index, tail: Index) -> bool {
        self.ahead_spec(head) == tail
    }

    /// Both powers of two fit in an [`Index`].
    proof fn lemma_exponents(self) -> (e: (nat, nat))
        requires
            self.wf(),
        ensures
            self.one_lap == pow2(e.0),
            self.range() == pow2(e.1),
            e.0 + 2 <= e.1 <= 64,
    {
        let k = choose|k: nat| self.one_lap as int == #[trigger] pow2(k);
        let j = choose|j: nat| self.range() == #[trigger] pow2(j);
        lemma2_to64();
        lemma2_to64_rest();
        if j > 64 {
            lemma_pow2_strictly_increases(64, j);
        }
        lemma_pow2_adds(k, 2);
        if j < k + 2 {
            lemma_pow2_strictly_increases(j, k + 2);
        }
        (k, j)
    }

    /// The size of a lap divides the range of cursors.
    pub proof fn lemma_lap_count(self)
        requires
            self.wf(),
        ensures
            self.lap_count() * self.one_lap == self.range(),
            self.lap_count() >= 4,
    {
        let (k, j) = self.lemma_exponents();
        let r = (j - k) as nat;
        lemma2_to64();
        lemma_pow2_adds(k, r);
        assert(self.range() == pow2(r) * self.one_lap) by (nonlinear_arith)
            requires
                pow2(k) * pow2(r) == self.range(),
                pow2(k) == self.one_lap,
        ;
        lemma_div_by_multiple(pow2(r) as int, self.one_lap as int);
        if r > 2 {
            lemma_pow2_strictly_increases(2, r);
        }
    }

    /// Masking with `one_lap - 1` is taking the remainder.
    proof fn lemma_mask(self, x: Index)
        requires
            self.wf(),
        ensures
            x & ((self.one_lap - 1) as Index) == x % self.one_lap,
            x & !((self.one_lap - 1) as Index) == x - x % self.one_lap,
    {
        let (k, _) = self.lemma_exponents();
        lemma_u64_low_bits_mask_is_mod(x, k);
        let m = (self.one_lap - 1) as Index;
        assert((x & m) + (x & !m) == x) by (bit_vector);
    }

    /// Masking the 64 bits of `x` with `last` is taking the remainder.
    proof fn lemma_wrap(self, x: int)
        requires
            self.wf(),
        ensures
            (x % 0x1_0000_0000_0000_0000) as Index & self.last == x % self.range(),
    {
        let (_, j) = self.lemma_exponents();
        let y = (x % 0x1_0000_0000_0000_0000) as Index;
        lemma2_to64();
        lemma2_to64_rest();
        if j == 64 {
            assert(y & 0xffff_ffff_ffff_ffff == y) by (bit_vector);
        } else {
            lemma_u64_low_bits_mask_is_mod(y, j);
            let r = (64 - j) as nat;
            lemma_pow2_adds(j, r);
            lemma_pow2_pos(r);
            lemma_mod_mod(x, self.range(), pow2(r) as int);
        }
    }

    /// A valid cursor is never the last one.
    pub proof fn lemma_valid_bound(self, cursor: Index)
        requires
            self.wf(),
            self.valid(cursor),
        ensures
            cursor + 1 < self.range(),
    {
        self.lemma_lap_count();
        let l = self.one_lap as int;
        let m = self.lap_count();
        let q = cursor as int / l;
        lemma_fundamental_div_mod(cursor as int, l);
        assert(q < m) by (nonlinear_arith)
            requires
                l * q <= cursor,
                cursor < m * l,
                l > 0,
        ;
        assert(l * q + l <= m * l) by (nonlinear_arith)
            requires
                q + 1 <= m,
                l > 0,
        ;
    }

    /// The cursor of a position holds the position's slot and its lap.
    pub proof fn lemma_cursor_parts(self, p: int)
        requires
            self.wf(),
        ensures
            self.cursor_at(p) == ((p / self.cap as int) % self.lap_count()) * self.one_lap + p
                % self.cap as int,
            self.cursor_at(p) % self.one_lap == p % self.cap as int,
            self.index_spec(self.cursor_at(p)) == self.slot_at(p),
            0 <= self.slot_at(p) < self.cap,
            self.valid(self.cursor_at(p)),
            self.cursor_at(p) + 1 < self.range(),
    {
        self.lemma_lap_count();
        let l = self.one_lap as int;
        let m = self.lap_count();
        let q = (p / self.cap as int) % m;
        let r = p % self.cap as int;
        assert(0 <= q * l && q * l + l <= m * l) by (nonlinear_arith)
            requires
                0 <= q < m,
                l > 0,
        ;
        lemma_fundamental_div_mod_converse(q * l + r, l, q, r);
    }

    /// The cursor of a position advances to the cursor of the next position.
    pub proof fn lemma_next(self, p: int)
        requires
            self.wf(),
        ensures
            self.next_spec(self.cursor_at(p)) == self.cursor_at(p + 1),
    {
        self.lemma_lap_count();
        self.lemma_cursor_parts(p);
        self.lemma_cursor_parts(p + 1);
        let cap = self.cap as int;
        let l = self.one_lap as int;
        let m = self.lap_count();
        let d = p / cap;
        let r = p % cap;
        lemma_fundamental_div_mod(p, cap);
        if r + 1 < cap {
            lemma_fundamental_div_mod_converse(p + 1, cap, d, r + 1);
        } else {
            assert(p + 1 == cap * (d + 1)) by (nonlinear_arith)
                requires
                    p == cap * d + r,
                    r + 1 == cap,
            ;
            lemma_fundamental_div_mod_converse(p + 1, cap, d + 1, 0);
            self.lemma_turn(d);
        }
    }

    /// One lap further on, modulo the number of laps.
    proof fn lemma_turn(self, d: int)
        requires
            self.wf(),
        ensures
            0 <= (d % self.lap_count()) * self.one_lap <= self.range() - self.one_lap,
            ((d % self.lap_count()) * self.one_lap + self.one_lap) % self.range() == ((d + 1)
                % self.lap_count()) * self.one_lap,
    {
        self.lemma_lap_count();
        let l = self.one_lap as int;
        let m = self.lap_count();
        let q = d % m;
        assert(0 <= q * l && q * l + l <= m * l) by (nonlinear_arith)
            requires
                0 <= q < m,
                l > 0,
        ;
        lemma_add_mod_noop(d, 1, m);
        lemma_small_mod(1, m as nat);
        assert((q + 1) % m == (d + 1) % m);
        assert((q + 1) * l == q * l + l) by (nonlinear_arith);
        if q + 1 < m {
            lemma_small_mod((q + 1) as nat, m as nat);
            assert((q + 1) * l < m * l) by (nonlinear_arith)
                requires
                    q + 1 < m,
                    l > 0,
            ;
            lemma_small_mod((q * l + l) as nat, self.range() as nat);
        } else {
            lemma_mod_self_0(m);
            lemma_mod_self_0(self.range());
            assert(0 * l == 0);
        }
    }

    /// One lap ahead of a position is the same slot, `cap` positions on.
    pub proof fn lemma_ahead(self, p: int)
        requires
            self.wf(),
        ensures
            self.slot_at(p + self.cap) == self.slot_at(p),
            self.ahead_spec(self.cursor_at(p)) == self.cursor_at(p + self.cap),
            self.ahead_spec((self.cursor_at(p) + 1) as Index) == self.cursor_at(p + self.cap)
                + 1,
    {
        self.lemma_lap_count();
        self.lemma_cursor_parts(p);
        self.lemma_cursor_parts(p + self.cap);
        let cap = self.cap as int;
        let l = self.one_lap as int;
        let m = self.lap_count();
        let d = p / cap;
        let r = p % cap;
        lemma_fundamental_div_mod(p, cap);
        assert(p + cap == cap * (d + 1) + r) by (nonlinear_arith)
            requires
                p == cap * d + r,
        ;
        lemma_fundamental_div_mod_converse(p + cap, cap, d + 1, r);
        self.lemma_turn(d);
        let a = (d % m) * l;
        let b = ((d + 1) % m) * l;
        self.lemma_turn(d + 1);
        lemma_add_mod_noop(a + l, r, self.range());
        lemma_add_mod_noop(a + l, r + 1, self.range());
        lemma_small_mod(r as nat, self.range() as nat);
        lemma_small_mod((r + 1) as nat, self.range() as nat);
        lemma_small_mod((b + r) as nat, self.range() as nat);
        lemma_small_mod((b + r + 1) as nat, self.range() as nat);
    }

    /// One lap behind a position is the same slot, `cap` positions back.
    pub proof fn lemma_behind(self, p: int)
        requires
            self.wf(),
        ensures
            self.behind_spec(self.cursor_at(p)) == self.cursor_at(p - self.cap),
    {
        self.lemma_ahead(p - self.cap);
        self.lemma_cursor_parts(p - self.cap);
        let a = self.cursor_at(p - self.cap);
        let n = self.range();
        lemma_sub_mod_noop(a + self.one_lap, self.one_lap as int, n);
        lemma_small_mod(self.one_lap as nat, n as nat);
        lemma_small_mod(a as nat, n as nat);
    }

    /// Positions fewer than `cap * lap_count()` apart have different cursors.
    pub proof fn lemma_distinct(self, p: int, q: int)
        requires
            self.wf(),
            self.cursor_at(p) == self.cursor_at(q),
            -(self.cap * self.lap_count()) < p - q < self.cap * self.lap_count(),
        ensures
            p == q,
    {
        self.lemma_lap_count();
        self.lemma_cursor_parts(p);
        self.lemma_cursor_parts(q);
        let cap = self.cap as int;
        let l = self.one_lap as int;
        let m = self.lap_count();
        let dp = p / cap;
        let dq = q / cap;
        let r = p % cap;
        lemma_fundamental_div_mod(p, cap);
        lemma_fundamental_div_mod(q, cap);
        assert(dp % m == dq % m) by (nonlinear_arith)
            requires
                (dp % m) * l == (dq % m) * l,
                l > 0,
        ;
        lemma_fundamental_div_mod(dp, m);
        lemma_fundamental_div_mod(dq, m);
        let e = dp / m - dq / m;
        assert(p - q == cap * m * e) by (nonlinear_arith)
            requires
                p == cap * dp + r,
                q == cap * dq + r,
                dp == m * (dp / m) + dp % m,
                dq == m * (dq / m) + dq % m,
                dp % m == dq % m,
                e == dp / m - dq / m,
        ;
        assert(e == 0) by (nonlinear_arith)
            requires
                -(cap * m) < cap * m * e < cap * m,
        ;
        assert(cap * m * 0 == 0);
    }

    /// The slot index within `cursor`.
    pub fn index(&self, cursor: Index) -> (i: usize)
        requires
            self.wf(),
            self.valid(cursor),
        ensures
            i == self.index_spec(cursor),
            i < self.cap,
        opens_invariants none
        no_unwind
    {
        proof {
            self.lemma_mask(cursor);
        }
        (cursor & (self.one_lap - 1)) as usize
    }

    /// The first cursor of the lap that `cursor` is in.
    pub fn lap(&self, cursor: Index) -> (start: Index)
        requires
            self.wf(),
        ensures
            start == cursor - cursor % self.one_lap,
        no_unwind
    {
        proof {
            self.lemma_mask(cursor);
        }
        cursor & !(self.one_lap - 1)
    }

    /// The cursor after `cursor`: the next slot, or slot 0 of the next lap.
    pub fn next(&self, cursor: Index) -> (n: Index)
        requires
            self.wf(),
            self.valid(cursor),
        ensures
            n == self.next_spec(cursor),
        no_unwind
    {
        let index: usize = self.index(cursor);
        let lap: Index = self.lap(cursor);
        proof {
            self.lemma_valid_bound(cursor);
        }
        if index + 1 < self.cap {
            cursor + 1
        } else {
            self.ahead(lap)
        }
    }

    /// `head` and `tail` of at most `cap` positions show how many there are.
    pub proof fn lemma_occupied(self, h: int, t: int)
        requires
            self.wf(),
            h <= t <= h + self.cap,
        ensures
            self.occupied_spec(self.cursor_at(h), self.cursor_at(t)) == t - h,
            self.full_spec(self.cursor_at(h), self.cursor_at(t)) <==> t == h + self.cap,
            self.cursor_at(h) == self.cursor_at(t) <==> t == h,
    {
        self.lemma_lap_count();
        self.lemma_cursor_parts(h);
        self.lemma_cursor_parts(t);
        self.lemma_ahead(h);
        let cap = self.cap as int;
        assert(cap * self.lap_count() > cap) by (nonlinear_arith)
            requires
                cap >= 1,
                self.lap_count() >= 4,
        ;
        if self.cursor_at(h) == self.cursor_at(t) {
            self.lemma_distinct(h, t);
        }
        if self.cursor_at(h + cap) == self.cursor_at(t) {
            self.lemma_distinct(h + cap, t);
        }
        lemma_sub_mod_noop(t, h, cap);
        if t == h + cap {
            lemma_mod_self_0(cap);
        } else {
            lemma_small_mod((t - h) as nat, cap as nat);
        }
    }

    /// A round of cursors has at least four laps.
    pub proof fn lemma_round(self)
        requires
            self.wf(),
        ensures
            self.cap * self.lap_count() >= 4 * self.cap,
    {
        self.lemma_lap_count();
        assert(self.cap * self.lap_count() >= 4 * self.cap) by (nonlinear_arith)
            requires
                self.cap >= 1,
                self.lap_count() >= 4,
        ;
    }

    /// In the first lap a position, its slot and its cursor are one number.
    pub proof fn lemma_first_lap(self, p: int)
        requires
            self.wf(),
            0 <= p < self.cap,
        ensures
            self.slot_at(p) == p,
            self.cursor_at(p) == p,
    {
        self.lemma_lap_count();
        lemma_fundamental_div_mod_converse(p, self.cap as int, 0, p);
        lemma_small_mod(0, self.lap_count() as nat);
    }

    /// The slot `i` places after that of position `p` is that of `p + i`.
    pub proof fn lemma_slot_sum(self, p: int, i: int)
        requires
            self.wf(),
        ensures
            (self.slot_at(p) + i) % self.cap as int == self.slot_at(p + i),
    {
        let cap = self.cap as int;
        lemma_add_mod_noop(p, i, cap);
        lemma_add_mod_noop(p % cap, i, cap);
        lemma_mod_twice(p, cap);
    }

    /// The stamp of a filled slot is never a cursor of that slot.
    pub proof fn lemma_stamps_differ(self, p: int, q: int)
        requires
            self.wf(),
            self.slot_at(p) == self.slot_at(q),
        ensures
            self.cursor_at(p) + 1 != self.cursor_at(q),
    {
        self.lemma_cursor_parts(p);
        self.lemma_cursor_parts(q);
        let l = self.one_lap as int;
        let c = self.cursor_at(p) as int;
        lemma_add_mod_noop(c, 1, l);
        lemma_small_mod(1, l as nat);
        lemma_small_mod((p % self.cap as int + 1) as nat, l as nat);
    }

    /// Two positions less than `cap` apart that share a slot are the same.
    pub proof fn lemma_same_slot(self, p: int, q: int)
        requires
            self.wf(),
            self.slot_at(p) == self.slot_at(q),
            -self.cap < p - q < self.cap,
        ensures
            p == q,
    {
        let cap = self.cap as int;
        lemma_fundamental_div_mod(p, cap);
        lemma_fundamental_div_mod(q, cap);
        let e = p / cap - q / cap;
        assert(p - q == cap * e) by (nonlinear_arith)
            requires
                p == cap * (p / cap) + p % cap,
                q == cap * (q / cap) + q % cap,
                p % cap == q % cap,
                e == p / cap - q / cap,
        ;
        assert(e == 0) by (nonlinear_arith)
            requires
                -cap < cap * e < cap,
        ;
    }

    /// The geometry of a buffer of `cap` slots.
    pub fn new(cap: usize) -> (laps: Laps)
        requires
            0 < cap <= isize::MAX as int / 2,
        ensures
            laps.wf(),
            laps.cap == cap,
            laps.last == Index::MAX,
            forall|k: nat| k >= 1 && #[trigger] pow2(k) > cap ==> laps.one_lap <= pow2(k),
    {
        proof {
            lemma2_to64_rest();
            assert(is_pow2(Index::MAX + 1)) by {
                assert(Index::MAX + 1 == pow2(64));
            }
        }
        Laps::within(cap, Index::MAX)
    }

    /// The geometry of a buffer of `cap` slots whose cursors wrap around after `last`.
    pub fn within(cap: usize, last: Index) -> (laps: Laps)
        requires
            0 < cap <= isize::MAX as int / 2,
            is_pow2(last + 1),
            4 * cap <= last,
        ensures
            laps.wf(),
            laps.cap == cap,
            laps.last == last,
            forall|k: nat| k >= 1 && #[trigger] pow2(k) > cap ==> laps.one_lap <= pow2(k),
    {
        let one_lap: Index = one_lap_for(cap as Index);
        proof {
            let j = choose|j: nat| last + 1 == #[trigger] pow2(j);
            lemma2_to64();
            if j < 3 {
                lemma_pow2_strictly_increases(j, 3);
            }
            let k = (j - 2) as nat;
            lemma_pow2_adds(k, 2);
            assert(pow2(k) > cap);
        }
        Laps { cap, one_lap, last }
    }

    /// The cursor of the same slot one lap later. The wrapping is spelled out, here and
    /// in [`Laps::behind`], so that the call is known not to unwind.
    pub fn ahead(&self, cursor: Index) -> (c: Index)
        requires
            self.wf(),
        ensures
            c == self.ahead_spec(cursor),
        opens_invariants none
        no_unwind
    {
        let room: Index = Index::MAX - cursor;
        let sum: Index = if self.one_lap <= room {
            cursor + self.one_lap
        } else {
            self.one_lap - room - 1
        };
        proof {
            self.lemma_wrap(cursor + self.one_lap);
        }
        sum & self.last
    }

    /// The cursor of the same slot one lap earlier.
    pub fn behind(&self, cursor: Index) -> (c: Index)
        requires
            self.wf(),
        ensures
            c == self.behind_spec(cursor),
        no_unwind
    {
        let difference: Index = if self.one_lap <= cursor {
            cursor - self.one_lap
        } else {
            Index::MAX - (self.one_lap - cursor - 1)
        };
        proof {
            self.lemma_wrap(cursor - self.one_lap);
        }
        difference & self.last
    }

    /// Whether `tail` is exactly one lap ahead of `head`.
    pub fn full(&self, head: Index, tail: Index) -> (full: bool)
        requires
            self.wf(),
        ensures
            full == self.full_spec(head, tail),
        no_unwind
    {
        self.ahead(head) == tail
    }

    /// Number of slots in use between `head` and `tail`.
    pub fn occupied(&self, head: Index, tail: Index) -> (n: usize)
        requires
            self.wf(),
            self.valid(head),
            self.valid(tail),
        ensures
            n == self.occupied_spec(head, tail),
            n <= self.cap,
        opens_invariants none
        no_unwind
    {
        let hix: usize = self.index(head);
        let tix: usize = self.index(tail);
        proof {
            if hix < tix {
                lemma_small_mod((tix - hix) as nat, self.cap as nat);
            } else if hix > tix {
                lemma_mod_add_multiples_vanish(tix - hix, self.cap as int);
                lemma_small_mod((tix - hix + self.cap) as nat, self.cap as nat);
            } else {
                lemma_small_mod(0, self.cap as nat);
            }
        }
        if hix < tix {
            tix - hix
        } else if hix > tix {
            self.cap - hix + tix
        } else if tail == head {
            0
        } else {
            self.cap
        }
    }

    /// The number of slots in use, if the tail was the same before and after the
    /// head was read.
    pub fn measure(&self, tail: Index, head: Index, tail_again: Index) -> (n: Option<usize>)
        requires
            self.wf(),
            self.valid(head),
            self.valid(tail),
        ensures
            tail_again == tail ==> (n matches Some(k) && k == self.occupied_spec(head, tail) && k
                <= self.cap),
            tail_again != tail ==> n is None,
    {
        if tail_again == tail {
            Some(self.occupied(head, tail))
        } else {
            None
        }
    }

    /// Whether `cursor` names one of the slots.
    pub fn holds(&self, cursor: Index) -> (valid: bool)
        requires
            self.wf(),
        ensures
            valid == self.valid(cursor),
    {
        proof {
            self.lemma_mask(cursor);
        }
        cursor <= self.last && cursor & (self.one_lap - 1) < self.cap as Index
    }

    /// The slot `i` places after the one `head` names, going round the buffer.
    pub fn nth_slot(&self, head: Index, i: usize) -> (index: usize)
        requires
            self.wf(),
            self.valid(head),
            i < self.cap,
        ensures
            index == (self.index_spec(head) + i) % self.cap as int,
            index < self.cap,
        opens_invariants none
        no_unwind
    {
        let hix: usize = self.index(head);
        proof {
            if hix + i < self.cap {
                lemma_small_mod((hix + i) as nat, self.cap as nat);
            } else {
                lemma_mod_sub_multiples_vanish(hix + i, self.cap as int);
                lemma_small_mod((hix + i - self.cap) as nat, self.cap as nat);
            }
        }
        if hix + i < self.cap {
            hix + i
        } else {
            hix + i - self.cap
        }
    }
}

} // verus!
