use vstd::prelude::*;
use vstd::arithmetic::div_mod::{lemma_div_denominator, lemma_fundamental_div_mod};
use std::collections::VecDeque;

verus! {

/// Outcome codes handed back across the foreign-caller boundary.
#[allow(dead_code)]
pub enum NssStatus {
    TryAgain,
    Unavail,
    NotFound,
    Success,
    Return,
}

impl NssStatus {
    /// The numeric code that the foreign caller receives for this outcome.
    pub open spec fn code(self) -> int {
        match self {
            NssStatus::TryAgain => -2,
            NssStatus::Unavail => -1,
            NssStatus::NotFound => 0,
            NssStatus::Success => 1,
            NssStatus::Return => 2,
        }
    }

    pub fn to_c(&self) -> (r: i32)
        ensures
            r == self.code(),
    {
        match *self {
            NssStatus::TryAgain => -2,
            NssStatus::Unavail => -1,
            NssStatus::NotFound => 0,
            NssStatus::Success => 1,
            NssStatus::Return => 2,
        }
    }
}

/// Enumeration cursor backing the open / next / close lookup protocol.
///
/// Either closed (no active scan) or open, holding the ordered queue of
/// records that remain to be delivered.
pub struct Iterator<T> {
    pub items: Option<VecDeque<T>>,
}

impl<T> Iterator<T> {
    /// The cursor has an active scan.
    pub open spec fn is_open(self) -> bool {
        self.items is Some
    }

    /// The records still pending delivery, front first.
    pub open spec fn queue(self) -> Seq<T> {
        self.items->Some_0@
    }

    /// A fresh cursor starts closed.
    pub fn new() -> (r: Self)
        ensures
            !r.is_open(),
    {
        Iterator { items: None }
    }

    /// Load a full result set, in the given order.  Opening an already open
    /// cursor replaces its queue.
    pub fn open(&mut self, items: Vec<T>)
        ensures
            final(self).is_open(),
            final(self).queue() == items@,
    {
        let ghost orig = items@;
        let mut rest = items;
        let mut q: VecDeque<T> = VecDeque::new();
        while rest.len() > 0
            invariant
                q@ + rest@ == orig,
            decreases rest.len(),
        {
            let x = rest.remove(0);
            q.push_back(x);
            proof {
                assert(q@ + rest@ =~= orig);
            }
        }
        proof {
            assert(q@ + rest@ =~= q@);
        }
        self.items = Some(q);
    }

    /// Pop and return the front record; report exhaustion with `None` once
    /// the queue is empty (the cursor stays open either way).  The protocol
    /// guarantees open-before-next, so a closed cursor is excluded here.
    pub fn next(&mut self) -> (r: Option<T>)
        requires
            old(self).is_open(),
        ensures
            final(self).is_open(),
            match r {
                Some(x) => {
                    &&& old(self).queue().len() > 0
                    &&& x == old(self).queue()[0]
                    &&& final(self).queue() == old(self).queue().subrange(
                        1,
                        old(self).queue().len() as int,
                    )
                },
                None => {
                    &&& old(self).queue().len() == 0
                    &&& final(self).queue() == old(self).queue()
                },
            },
    {
        match &mut self.items {
            Some(q) => q.pop_front(),
            None => None,
        }
    }

    /// Drop any remaining queue and return to the closed state.
    pub fn close(&mut self)
        ensures
            !final(self).is_open(),
    {
        self.items = None;
    }
}

/// The byte width of one pointer slot in the marshalled output.
pub const SLOT_SIZE: usize = 8;

/// The little-endian bytes of one pointer-sized slot holding `v`.
pub open spec fn le8(v: u64) -> Seq<u8> {
    seq![
        (v % 256) as u8,
        ((v / 256) % 256) as u8,
        ((v / 65536) % 256) as u8,
        ((v / 16777216) % 256) as u8,
        ((v / 4294967296) % 256) as u8,
        ((v / 1099511627776) % 256) as u8,
        ((v / 281474976710656) % 256) as u8,
        ((v / 72057594037927936) % 256) as u8,
    ]
}

/// The value encoded by one slot's eight little-endian bytes.
pub open spec fn word_of(s: Seq<u8>) -> int {
    s[0] + 256 * (s[1] + 256 * (s[2] + 256 * (s[3] + 256 * (s[4] + 256 * (s[5] + 256 * (s[6]
        + 256 * s[7]))))))
}

/// A slot faithfully encodes the value stored in it.
pub proof fn lemma_le8_word(v: u64)
    ensures
        word_of(le8(v)) == v,
{
    let x = v as int;
    lemma_fundamental_div_mod(x, 72057594037927936);
    lemma_div_denominator(x, 256, 256);
    lemma_div_denominator(x, 65536, 256);
    lemma_div_denominator(x, 16777216, 256);
    lemma_div_denominator(x, 4294967296, 256);
    lemma_div_denominator(x, 1099511627776, 256);
    lemma_div_denominator(x, 281474976710656, 256);
    let d1 = x / 256;
    let d2 = d1 / 256;
    let d3 = d2 / 256;
    let d4 = d3 / 256;
    let d5 = d4 / 256;
    let d6 = d5 / 256;
    let d7 = d6 / 256;
    assert(d7 < 256) by (nonlinear_arith)
        requires
            x == 72057594037927936 * d7 + x % 72057594037927936,
            0 <= x % 72057594037927936,
            x <= 18446744073709551615,
    ;
    assert(v == v % 256 + 256 * d1);
    assert(d1 == d1 % 256 + 256 * d2);
    assert(d2 == d2 % 256 + 256 * d3);
    assert(d3 == d3 % 256 + 256 * d4);
    assert(d4 == d4 % 256 + 256 * d5);
    assert(d5 == d5 % 256 + 256 * d6);
    assert(d6 == d6 % 256 + 256 * d7);
}

/// A NUL-terminated text value as it lies in the arena.
pub open spec fn cstr_image(s: Seq<u8>) -> Seq<u8> {
    s.push(0u8)
}

/// Total byte length of a list of payloads laid end to end.
pub open spec fn payloads_size(ps: Seq<Seq<u8>>) -> int
    decreases ps.len(),
{
    if ps.len() == 0 {
        0
    } else {
        ps[0].len() + payloads_size(ps.skip(1))
    }
}

/// The non-sentinel slots of a pointer table: slot `i` holds the offset of
/// payload `i`, and the payloads lie end to end starting at `base`.
pub open spec fn slots_part(ps: Seq<Seq<u8>>, base: int) -> Seq<u8>
    decreases ps.len(),
{
    if ps.len() == 0 {
        Seq::empty()
    } else {
        le8(base as u64) + slots_part(ps.skip(1), base + ps[0].len())
    }
}

/// The payloads of a pointer table laid end to end.
pub open spec fn cat_payloads(ps: Seq<Seq<u8>>) -> Seq<u8>
    decreases ps.len(),
{
    if ps.len() == 0 {
        Seq::empty()
    } else {
        ps[0] + cat_payloads(ps.skip(1))
    }
}

/// Bytes a pointer table occupies: one slot per payload, one sentinel slot,
/// and the payloads themselves.
pub open spec fn table_size(ps: Seq<Seq<u8>>) -> int {
    SLOT_SIZE * (ps.len() + 1) + payloads_size(ps)
}

/// A whole pointer table as it lies in the arena when its slot array starts
/// at offset `off`: the slots, a zero sentinel slot, then the payloads.
pub open spec fn table_image(ps: Seq<Seq<u8>>, off: int) -> Seq<u8> {
    slots_part(ps, off + SLOT_SIZE * (ps.len() + 1)) + le8(0) + cat_payloads(ps)
}

/// The arena offset of payload `i` of a table whose slot array starts at `off`.
pub open spec fn payload_off(ps: Seq<Seq<u8>>, off: int, i: int) -> int {
    off + SLOT_SIZE * (ps.len() + 1) + payloads_size(ps.take(i))
}

pub proof fn lemma_payloads_size_nonneg(ps: Seq<Seq<u8>>)
    ensures
        payloads_size(ps) >= 0,
    decreases ps.len(),
{
    if ps.len() > 0 {
        lemma_payloads_size_nonneg(ps.skip(1));
    }
}

pub proof fn lemma_slots_part_len(ps: Seq<Seq<u8>>, base: int)
    ensures
        slots_part(ps, base).len() == SLOT_SIZE * ps.len(),
    decreases ps.len(),
{
    if ps.len() > 0 {
        lemma_slots_part_len(ps.skip(1), base + ps[0].len());
    }
}

pub proof fn lemma_cat_payloads_len(ps: Seq<Seq<u8>>)
    ensures
        cat_payloads(ps).len() == payloads_size(ps),
    decreases ps.len(),
{
    if ps.len() > 0 {
        lemma_cat_payloads_len(ps.skip(1));
    }
}

pub proof fn lemma_payloads_size_snoc(ps: Seq<Seq<u8>>, i: int)
    requires
        0 <= i < ps.len(),
    ensures
        payloads_size(ps.take(i + 1)) == payloads_size(ps.take(i)) + ps[i].len(),
    decreases i,
{
    if i == 0 {
        assert(ps.take(1).skip(1) =~= Seq::<Seq<u8>>::empty());
        assert(ps.take(0) =~= Seq::<Seq<u8>>::empty());
    } else {
        lemma_payloads_size_snoc(ps.skip(1), i - 1);
        assert(ps.take(i + 1).skip(1) =~= ps.skip(1).take(i));
        assert(ps.take(i).skip(1) =~= ps.skip(1).take(i - 1));
    }
}

pub proof fn lemma_payloads_size_prefix(ps: Seq<Seq<u8>>, i: int)
    requires
        0 <= i <= ps.len(),
    ensures
        payloads_size(ps.take(i)) <= payloads_size(ps),
        payloads_size(ps.take(i)) >= 0,
    decreases ps.len() - i,
{
    lemma_payloads_size_nonneg(ps.take(i));
    if i == ps.len() {
        assert(ps.take(i) =~= ps);
    } else {
        lemma_payloads_size_snoc(ps, i);
        lemma_payloads_size_prefix(ps, i + 1);
    }
}

pub proof fn lemma_cat_payloads_snoc(ps: Seq<Seq<u8>>, i: int)
    requires
        0 <= i < ps.len(),
    ensures
        cat_payloads(ps.take(i + 1)) == cat_payloads(ps.take(i)) + ps[i],
    decreases i,
{
    if i == 0 {
        assert(ps.take(1).skip(1) =~= Seq::<Seq<u8>>::empty());
        assert(ps.take(0) =~= Seq::<Seq<u8>>::empty());
        assert(cat_payloads(ps.take(1)) =~= cat_payloads(ps.take(0)) + ps[0]);
    } else {
        lemma_cat_payloads_snoc(ps.skip(1), i - 1);
        assert(ps.take(i + 1).skip(1) =~= ps.skip(1).take(i));
        assert(ps.take(i).skip(1) =~= ps.skip(1).take(i - 1));
        assert(ps.take(i + 1)[0] == ps[0] && ps.take(i)[0] == ps[0]);
        assert(ps.skip(1)[i - 1] == ps[i]);
        assert((ps[0] + (cat_payloads(ps.skip(1).take(i - 1)) + ps[i])) =~= ((ps[0]
            + cat_payloads(ps.skip(1).take(i - 1))) + ps[i]));
    }
}

pub proof fn lemma_slots_part_snoc(ps: Seq<Seq<u8>>, base: int, i: int)
    requires
        0 <= i < ps.len(),
    ensures
        slots_part(ps.take(i + 1), base) == slots_part(ps.take(i), base) + le8(
            (base + payloads_size(ps.take(i))) as u64,
        ),
    decreases i,
{
    if i == 0 {
        assert(ps.take(1).skip(1) =~= Seq::<Seq<u8>>::empty());
        assert(ps.take(0) =~= Seq::<Seq<u8>>::empty());
        assert(ps.take(1)[0] == ps[0]);
        assert(payloads_size(ps.take(0)) == 0);
        assert(slots_part(ps.take(1), base) == le8(base as u64) + slots_part(
            ps.take(1).skip(1),
            base + ps.take(1)[0].len(),
        ));
        assert(slots_part(ps.take(1), base) =~= slots_part(ps.take(0), base) + le8(
            (base + payloads_size(ps.take(0))) as u64,
        ));
    } else {
        lemma_slots_part_snoc(ps.skip(1), base + ps[0].len(), i - 1);
        assert(ps.take(i + 1).skip(1) =~= ps.skip(1).take(i));
        assert(ps.take(i).skip(1) =~= ps.skip(1).take(i - 1));
        assert(ps.take(i + 1)[0] == ps[0] && ps.take(i)[0] == ps[0]);
        lemma_payloads_size_snoc(ps, 0);
        assert(ps.take(0) =~= Seq::<Seq<u8>>::empty());
        assert(payloads_size(ps.skip(1).take(i - 1)) == payloads_size(ps.take(i)) - ps[0].len())
            by {
            lemma_payloads_size_shift(ps, i);
        }
        let w = le8((base + payloads_size(ps.take(i))) as u64);
        assert((le8(base as u64) + (slots_part(ps.skip(1).take(i - 1), base + ps[0].len()) + w))
            =~= ((le8(base as u64) + slots_part(ps.skip(1).take(i - 1), base + ps[0].len()))
            + w));
    }
}

pub proof fn lemma_payloads_size_shift(ps: Seq<Seq<u8>>, i: int)
    requires
        1 <= i <= ps.len(),
    ensures
        payloads_size(ps.take(i)) == ps[0].len() + payloads_size(ps.skip(1).take(i - 1)),
{
    assert(ps.take(i).skip(1) =~= ps.skip(1).take(i - 1));
    assert(ps.take(i)[0] == ps[0]);
    assert(payloads_size(ps.take(i)) == ps.take(i)[0].len() + payloads_size(ps.take(i).skip(1)));
}

/// Payloads of a list of text values as they lie in the arena: each text
/// followed by its NUL terminator.
pub open spec fn cstr_payloads(ss: Seq<Seq<u8>>) -> Seq<Seq<u8>> {
    ss.map_values(|s: Seq<u8>| cstr_image(s))
}

/// No text value in the list holds an embedded NUL.
pub open spec fn no_nul_each(ss: Seq<Seq<u8>>) -> bool {
    forall|i: int| 0 <= i < ss.len() ==> !(#[trigger] ss[i]).contains(0u8)
}

pub proof fn lemma_bytes_deep_view(v: Vec<u8>)
    ensures
        v.deep_view() == v@,
{
    assert(v.deep_view() =~= v@);
}

pub proof fn lemma_byte_vecs_deep_view(v: Vec<Vec<u8>>)
    ensures
        v.deep_view().len() == v@.len(),
        forall|i: int| 0 <= i < v@.len() ==> #[trigger] v.deep_view()[i] == v@[i]@,
{
    assert forall|i: int| 0 <= i < v@.len() implies #[trigger] v.deep_view()[i] == v@[i]@ by {
        lemma_bytes_deep_view(v@[i]);
    }
}

/// Payloads of one uniform width sum to count times width.
pub proof fn lemma_payloads_size_uniform(ps: Seq<Seq<u8>>, w: int)
    requires
        forall|i: int| 0 <= i < ps.len() ==> (#[trigger] ps[i]).len() == w,
    ensures
        payloads_size(ps) == ps.len() * w,
    decreases ps.len(),
{
    if ps.len() == 0 {
    } else {
        assert forall|i: int| 0 <= i < ps.skip(1).len() implies (#[trigger] ps.skip(
            1,
        )[i]).len() == w by {
            assert(ps.skip(1)[i] == ps[i + 1]);
        }
        lemma_payloads_size_uniform(ps.skip(1), w);
        assert(ps.len() * w == w + (ps.len() - 1) * w) by (nonlinear_arith);
    }
}

/// The deep view of a vector of fixed-width byte arrays, element by element.
pub proof fn lemma_addr_vec_deep_view<const W: usize>(v: Vec<[u8; W]>)
    ensures
        v.deep_view().len() == v@.len(),
        forall|i: int|
            0 <= i < v@.len() ==> #[trigger] v.deep_view()[i] == v@[i]@ && v.deep_view()[i].len()
                == W,
{
    assert forall|i: int|
        0 <= i < v@.len() implies #[trigger] v.deep_view()[i] == v@[i]@ && v.deep_view()[i].len()
        == W by {
        assert(v@[i].deep_view() =~= v@[i]@);
    }
}

proof fn lemma_slots_part_index(ps: Seq<Seq<u8>>, base: int, i: int)
    requires
        0 <= i < ps.len(),
    ensures
        slots_part(ps, base).subrange(SLOT_SIZE * i, SLOT_SIZE * i + SLOT_SIZE) == le8(
            (base + payloads_size(ps.take(i))) as u64,
        ),
    decreases i,
{
    lemma_slots_part_len(ps, base);
    lemma_slots_part_len(ps.skip(1), base + ps[0].len());
    if i == 0 {
        assert(ps.take(0) =~= Seq::<Seq<u8>>::empty());
        assert(slots_part(ps, base).subrange(0, SLOT_SIZE as int) =~= le8(base as u64));
    } else {
        lemma_slots_part_index(ps.skip(1), base + ps[0].len(), i - 1);
        lemma_payloads_size_shift(ps, i);
        assert(slots_part(ps, base).subrange(SLOT_SIZE * i, SLOT_SIZE * i + SLOT_SIZE)
            =~= slots_part(ps.skip(1), base + ps[0].len()).subrange(
            SLOT_SIZE * (i - 1),
            SLOT_SIZE * (i - 1) + SLOT_SIZE,
        ));
    }
}

proof fn lemma_cat_payloads_index(ps: Seq<Seq<u8>>, i: int)
    requires
        0 <= i < ps.len(),
    ensures
        cat_payloads(ps).subrange(
            payloads_size(ps.take(i)),
            payloads_size(ps.take(i)) + ps[i].len(),
        ) == ps[i],
    decreases i,
{
    lemma_cat_payloads_len(ps);
    lemma_cat_payloads_len(ps.skip(1));
    lemma_payloads_size_prefix(ps, i);
    lemma_payloads_size_snoc(ps, i);
    lemma_payloads_size_prefix(ps, i + 1);
    if i == 0 {
        assert(ps.take(0) =~= Seq::<Seq<u8>>::empty());
        assert(cat_payloads(ps).subrange(0, ps[0].len() as int) =~= ps[0]);
    } else {
        lemma_cat_payloads_index(ps.skip(1), i - 1);
        lemma_payloads_size_shift(ps, i);
        lemma_payloads_size_prefix(ps.skip(1), i - 1);
        lemma_payloads_size_snoc(ps.skip(1), i - 1);
        lemma_payloads_size_prefix(ps.skip(1), i);
        assert(ps.skip(1)[i - 1] == ps[i]);
        assert(cat_payloads(ps).subrange(
            payloads_size(ps.take(i)),
            payloads_size(ps.take(i)) + ps[i].len(),
        ) =~= cat_payloads(ps.skip(1)).subrange(
            payloads_size(ps.take(i)) - ps[0].len(),
            payloads_size(ps.take(i)) - ps[0].len() + ps[i].len(),
        ));
    }
}

pub proof fn lemma_subrange_of_head(a: Seq<u8>, b: Seq<u8>, x: int, y: int)
    requires
        0 <= x <= y <= a.len(),
    ensures
        (a + b).subrange(x, y) == a.subrange(x, y),
{
    assert((a + b).subrange(x, y) =~= a.subrange(x, y));
}

pub proof fn lemma_subrange_of_tail(a: Seq<u8>, b: Seq<u8>, x: int, y: int)
    requires
        0 <= x <= y <= b.len(),
    ensures
        (a + b).subrange(a.len() + x, a.len() + y) == b.subrange(x, y),
{
    assert((a + b).subrange(a.len() + x, a.len() + y) =~= b.subrange(x, y));
}

/// The slot array of a whole pointer table: a table for `k` payloads has
/// `k + 1` slots, and slot `i < k` holds the arena offset of payload `i`.
#[verifier::rlimit(100)]
pub proof fn lemma_table_slots(ps: Seq<Seq<u8>>, off: int)
    ensures
        table_image(ps, off).len() == table_size(ps),
        forall|i: int|
            0 <= i < ps.len() ==> table_image(ps, off).subrange(
                SLOT_SIZE * i,
                SLOT_SIZE * i + SLOT_SIZE,
            ) == le8(payload_off(ps, off, i) as u64),
{
    let sb = off + SLOT_SIZE * (ps.len() + 1);
    let slots = slots_part(ps, sb);
    let cat = cat_payloads(ps);
    lemma_table_image_len(ps, off);
    lemma_slots_part_len(ps, sb);
    lemma_cat_payloads_len(ps);
    assert(table_image(ps, off) == (slots + le8(0)) + cat);
    assert forall|i: int|
        0 <= i < ps.len() implies table_image(ps, off).subrange(
        SLOT_SIZE * i,
        SLOT_SIZE * i + SLOT_SIZE,
    ) == le8(payload_off(ps, off, i) as u64) by {
        lemma_slots_part_index(ps, sb, i);
        lemma_subrange_of_head(slots + le8(0), cat, SLOT_SIZE * i, SLOT_SIZE * i + SLOT_SIZE);
        lemma_subrange_of_head(slots, le8(0), SLOT_SIZE * i, SLOT_SIZE * i + SLOT_SIZE);
    }
}

/// The sentinel slot of a whole pointer table: slot `k` is all zero.
#[verifier::rlimit(100)]
pub proof fn lemma_table_sentinel(ps: Seq<Seq<u8>>, off: int)
    ensures
        table_image(ps, off).subrange(
            SLOT_SIZE * ps.len(),
            SLOT_SIZE * ps.len() + SLOT_SIZE,
        ) == le8(0),
{
    let sb = off + SLOT_SIZE * (ps.len() + 1);
    let slots = slots_part(ps, sb);
    let cat = cat_payloads(ps);
    lemma_slots_part_len(ps, sb);
    lemma_cat_payloads_len(ps);
    assert(table_image(ps, off) == (slots + le8(0)) + cat);
    lemma_subrange_of_head(slots + le8(0), cat, SLOT_SIZE * ps.len(), SLOT_SIZE * ps.len()
        + SLOT_SIZE);
    lemma_subrange_of_tail(slots, le8(0), 0, SLOT_SIZE as int);
    assert(le8(0).subrange(0, SLOT_SIZE as int) =~= le8(0));
}

/// Read back, each non-sentinel slot of a pointer table decodes to its
/// payload's arena offset, and the sentinel slot decodes to zero.
#[verifier::rlimit(100)]
pub proof fn lemma_table_slot_words(ps: Seq<Seq<u8>>, off: int)
    requires
        0 <= off,
        off + table_size(ps) <= u64::MAX,
    ensures
        forall|i: int|
            0 <= i < ps.len() ==> word_of(
                table_image(ps, off).subrange(SLOT_SIZE * i, SLOT_SIZE * i + SLOT_SIZE),
            ) == payload_off(ps, off, i),
        word_of(
            table_image(ps, off).subrange(SLOT_SIZE * ps.len(), SLOT_SIZE * ps.len() + SLOT_SIZE),
        ) == 0,
{
    lemma_table_slots(ps, off);
    lemma_table_sentinel(ps, off);
    lemma_le8_word(0);
    assert forall|i: int|
        0 <= i < ps.len() implies word_of(
        table_image(ps, off).subrange(SLOT_SIZE * i, SLOT_SIZE * i + SLOT_SIZE),
    ) == payload_off(ps, off, i) by {
        lemma_payloads_size_prefix(ps, i);
        lemma_le8_word(payload_off(ps, off, i) as u64);
    }
}

/// The payloads of a whole pointer table: each payload lies at its slot's
/// offset, and every payload span falls inside the table's own extent.
#[verifier::rlimit(100)]
pub proof fn lemma_table_payloads(ps: Seq<Seq<u8>>, off: int)
    ensures
        forall|i: int|
            0 <= i < ps.len() ==> table_image(ps, off).subrange(
                payload_off(ps, off, i) - off,
                payload_off(ps, off, i) - off + ps[i].len(),
            ) == ps[i],
        forall|i: int|
            0 <= i < ps.len() ==> off + SLOT_SIZE * (ps.len() + 1) <= payload_off(ps, off, i)
                && payload_off(ps, off, i) + ps[i].len() <= off + table_size(ps),
{
    let sb = off + SLOT_SIZE * (ps.len() + 1);
    let slots = slots_part(ps, sb);
    let cat = cat_payloads(ps);
    lemma_slots_part_len(ps, sb);
    lemma_cat_payloads_len(ps);
    assert(table_image(ps, off) == (slots + le8(0)) + cat);
    assert forall|i: int|
        0 <= i < ps.len() implies table_image(ps, off).subrange(
        payload_off(ps, off, i) - off,
        payload_off(ps, off, i) - off + ps[i].len(),
    ) == ps[i] && off + SLOT_SIZE * (ps.len() + 1) <= payload_off(ps, off, i) && payload_off(
        ps,
        off,
        i,
    ) + ps[i].len() <= off + table_size(ps) by {
        lemma_cat_payloads_index(ps, i);
        lemma_payloads_size_prefix(ps, i);
        lemma_payloads_size_snoc(ps, i);
        lemma_payloads_size_prefix(ps, i + 1);
        lemma_subrange_of_tail(
            slots + le8(0),
            cat,
            payloads_size(ps.take(i)),
            payloads_size(ps.take(i)) + ps[i].len(),
        );
    }
    assert forall|i: int|
        0 <= i < ps.len() implies off + SLOT_SIZE * (ps.len() + 1) <= #[trigger] payload_off(
        ps,
        off,
        i,
    ) && payload_off(ps, off, i) + ps[i].len() <= off + table_size(ps) by {
        lemma_payloads_size_prefix(ps, i);
        lemma_payloads_size_snoc(ps, i);
        lemma_payloads_size_prefix(ps, i + 1);
    }
}

/// A whole pointer table occupies exactly `table_size` bytes.
pub proof fn lemma_table_image_len(ps: Seq<Seq<u8>>, off: int)
    ensures
        table_image(ps, off).len() == table_size(ps),
{
    lemma_slots_part_len(ps, off + SLOT_SIZE * (ps.len() + 1));
    lemma_cat_payloads_len(ps);
}

/// Two consecutive splices of the same region compose into one.
pub proof fn lemma_splice_chain(
    d0: Seq<u8>,
    d1: Seq<u8>,
    d2: Seq<u8>,
    p: int,
    a: Seq<u8>,
    b: Seq<u8>,
)
    requires
        0 <= p,
        p + a.len() + b.len() <= d0.len(),
        d1 == d0.take(p) + a + d0.skip(p + a.len()),
        d2 == d1.take(p + a.len()) + b + d1.skip(p + a.len() + b.len()),
    ensures
        d2 == d0.take(p) + (a + b) + d0.skip(p + a.len() + b.len()),
{
    assert(d2 =~= d0.take(p) + (a + b) + d0.skip(p + a.len() + b.len()));
}

/// Intermediate shape of the arena while a pointer table is being written:
/// the first `i` slots and payloads are in place, the rest of the slot area
/// still holds the region's prior bytes.
spec fn table_inv(d0: Seq<u8>, d: Seq<u8>, ps: Seq<Seq<u8>>, off: int, sb: int, i: int) -> bool {
    d == d0.take(off) + slots_part(ps.take(i), sb) + d0.subrange(off + SLOT_SIZE * i, sb)
        + cat_payloads(ps.take(i)) + d0.skip(sb + payloads_size(ps.take(i)))
}

/// As `table_inv`, but with payload `i` already written and its slot not yet.
spec fn table_inv_mid(d0: Seq<u8>, d: Seq<u8>, ps: Seq<Seq<u8>>, off: int, sb: int, i: int) -> bool {
    d == d0.take(off) + slots_part(ps.take(i), sb) + d0.subrange(off + SLOT_SIZE * i, sb)
        + cat_payloads(ps.take(i + 1)) + d0.skip(sb + payloads_size(ps.take(i + 1)))
}

proof fn lemma_table_bounds(ps: Seq<Seq<u8>>, off: int, sb: int, i: int)
    requires
        0 <= off,
        off + SLOT_SIZE * (ps.len() + 1) == sb,
        0 <= i <= ps.len(),
    ensures
        0 <= payloads_size(ps.take(i)) <= payloads_size(ps),
        slots_part(ps.take(i), sb).len() == SLOT_SIZE * i,
        cat_payloads(ps.take(i)).len() == payloads_size(ps.take(i)),
{
    lemma_payloads_size_prefix(ps, i);
    lemma_slots_part_len(ps.take(i), sb);
    lemma_cat_payloads_len(ps.take(i));
}

proof fn lemma_table_step_payload(
    d0: Seq<u8>,
    dpre: Seq<u8>,
    dpost: Seq<u8>,
    ps: Seq<Seq<u8>>,
    off: int,
    sb: int,
    i: int,
)
    requires
        0 <= off,
        off + SLOT_SIZE * (ps.len() + 1) == sb,
        0 <= i < ps.len(),
        sb + payloads_size(ps) <= d0.len(),
        table_inv(d0, dpre, ps, off, sb, i),
        dpost == dpre.take(sb + payloads_size(ps.take(i))) + ps[i] + dpre.skip(
            sb + payloads_size(ps.take(i)) + ps[i].len(),
        ),
    ensures
        table_inv_mid(d0, dpost, ps, off, sb, i),
{
    lemma_table_bounds(ps, off, sb, i);
    lemma_table_bounds(ps, off, sb, i + 1);
    lemma_payloads_size_snoc(ps, i);
    lemma_cat_payloads_snoc(ps, i);
    lemma_cat_payloads_len(ps.take(i + 1));
    assert(dpost =~= d0.take(off) + slots_part(ps.take(i), sb) + d0.subrange(
        off + SLOT_SIZE * i,
        sb,
    ) + cat_payloads(ps.take(i + 1)) + d0.skip(sb + payloads_size(ps.take(i + 1))));
}

proof fn lemma_table_step_slot(
    d0: Seq<u8>,
    dmid: Seq<u8>,
    dpost: Seq<u8>,
    ps: Seq<Seq<u8>>,
    off: int,
    sb: int,
    i: int,
)
    requires
        0 <= off,
        off + SLOT_SIZE * (ps.len() + 1) == sb,
        0 <= i < ps.len(),
        sb + payloads_size(ps) <= d0.len(),
        table_inv_mid(d0, dmid, ps, off, sb, i),
        dpost == dmid.take(off + SLOT_SIZE * i) + le8((sb + payloads_size(ps.take(i))) as u64)
            + dmid.skip(off + SLOT_SIZE * i + SLOT_SIZE),
    ensures
        table_inv(d0, dpost, ps, off, sb, i + 1),
{
    lemma_table_bounds(ps, off, sb, i);
    lemma_table_bounds(ps, off, sb, i + 1);
    lemma_payloads_size_snoc(ps, i);
    lemma_slots_part_snoc(ps, sb, i);
    lemma_slots_part_len(ps.take(i + 1), sb);
    lemma_cat_payloads_len(ps.take(i + 1));
    assert(dpost =~= d0.take(off) + slots_part(ps.take(i + 1), sb) + d0.subrange(
        off + SLOT_SIZE * (i + 1),
        sb,
    ) + cat_payloads(ps.take(i + 1)) + d0.skip(sb + payloads_size(ps.take(i + 1))));
}

proof fn lemma_table_start(d0: Seq<u8>, ps: Seq<Seq<u8>>, off: int, sb: int)
    requires
        0 <= off,
        off + SLOT_SIZE * (ps.len() + 1) == sb,
        sb + payloads_size(ps) <= d0.len(),
    ensures
        table_inv(d0, d0, ps, off, sb, 0),
{
    lemma_payloads_size_nonneg(ps);
    assert(ps.take(0) =~= Seq::<Seq<u8>>::empty());
    assert(slots_part(ps.take(0), sb) == Seq::<u8>::empty());
    assert(cat_payloads(ps.take(0)) == Seq::<u8>::empty());
    assert(payloads_size(ps.take(0)) == 0);
    assert(d0 =~= d0.take(off) + slots_part(ps.take(0), sb) + d0.subrange(off, sb)
        + cat_payloads(ps.take(0)) + d0.skip(sb));
}

proof fn lemma_table_finish(d0: Seq<u8>, dpre: Seq<u8>, dpost: Seq<u8>, ps: Seq<Seq<u8>>, off: int, sb: int)
    requires
        0 <= off,
        off + SLOT_SIZE * (ps.len() + 1) == sb,
        sb + payloads_size(ps) <= d0.len(),
        table_inv(d0, dpre, ps, off, sb, ps.len() as int),
        dpost == dpre.take(off + SLOT_SIZE * ps.len()) + le8(0) + dpre.skip(
            off + SLOT_SIZE * ps.len() + SLOT_SIZE,
        ),
    ensures
        dpost == d0.take(off) + table_image(ps, off) + d0.skip(off + table_size(ps)),
{
    lemma_table_bounds(ps, off, sb, ps.len() as int);
    assert(ps.take(ps.len() as int) =~= ps);
    assert(dpost =~= d0.take(off) + table_image(ps, off) + d0.skip(off + table_size(ps)));
}

/// Forward-only writer over a fixed, caller-supplied byte region.
///
/// `data` models the whole bound region; `pos` is the write cursor, so the
/// remaining capacity is `data.len() - pos`.  All writes are sequential and
/// never touch bytes before an already handed-out span, except to fill a
/// pointer slot that was reserved earlier in the same marshalling pass.
pub struct CBuffer {
    pub data: Vec<u8>,
    pub pos: usize,
}

impl CBuffer {
    /// The write cursor never passes the end of the region.
    pub open spec fn wf(self) -> bool {
        self.pos <= self.data@.len()
    }

    /// Remaining capacity in bytes.
    pub open spec fn free(self) -> int {
        self.data@.len() - self.pos
    }

    /// Bind a writer to a region, cursor at the start.
    pub fn new(region: Vec<u8>) -> (r: Self)
        ensures
            r.wf(),
            r.data@ == region@,
            r.pos == 0,
    {
        CBuffer { data: region, pos: 0 }
    }

    /// Remaining capacity in bytes, as a value.
    pub fn free_bytes(&self) -> (r: usize)
        requires
            self.wf(),
        ensures
            r == self.free(),
    {
        self.data.len() - self.pos
    }

    /// Zero the entire region.  Idempotent; the cursor is not moved.
    pub fn clear(&mut self)
        ensures
            final(self).data@.len() == old(self).data@.len(),
            forall|j: int|
                0 <= j < final(self).data@.len() ==> final(self).data@[j] == 0u8,
            final(self).pos == old(self).pos,
    {
        let n = self.data.len();
        let mut i: usize = 0;
        while i < n
            invariant
                n == self.data@.len(),
                i <= n,
                self.pos == old(self).pos,
                forall|j: int| 0 <= j < i ==> self.data@[j] == 0u8,
            decreases n - i,
        {
            self.data[i] = 0;
            i = i + 1;
        }
    }

    /// Hand out a fresh `len`-byte span, advancing the cursor.  The span's
    /// contents are whatever the region already held there.  A span larger
    /// than the remaining capacity is a caller contract violation and is
    /// excluded up front: buffer exhaustion is not recoverable mid-write.
    pub fn reserve(&mut self, len: usize) -> (off: usize)
        requires
            old(self).wf(),
            len <= old(self).free(),
        ensures
            final(self).wf(),
            off == old(self).pos,
            final(self).pos == old(self).pos + len,
            final(self).data@ == old(self).data@,
    {
        let off = self.pos;
        let cap = self.data.len();
        proof {
            assert(off + len <= cap);
        }
        self.pos = off + len;
        off
    }

    /// Copy raw bytes into a freshly reserved span of exactly their length.
    pub fn write_bytes(&mut self, b: &[u8]) -> (off: usize)
        requires
            old(self).wf(),
            b@.len() <= old(self).free(),
        ensures
            final(self).wf(),
            off == old(self).pos,
            final(self).pos == old(self).pos + b@.len(),
            final(self).data@ == old(self).data@.take(off as int) + b@ + old(self).data@.skip(
                off + b@.len(),
            ),
    {
        let ghost d0 = self.data@;
        let off = self.pos;
        let cap = self.data.len();
        let n = b.len();
        let mut i: usize = 0;
        while i < n
            invariant
                n == b@.len(),
                off == self.pos,
                i <= n,
                off + n <= cap,
                cap == self.data@.len(),
                self.data@.len() == d0.len(),
                self.data@ == d0.take(off as int) + b@.take(i as int) + d0.skip(off + i),
            decreases n - i,
        {
            self.data[off + i] = b[i];
            proof {
                assert(self.data@ =~= d0.take(off as int) + b@.take(i + 1) + d0.skip(
                    off + i + 1,
                ));
            }
            i = i + 1;
        }
        self.pos = off + n;
        off
    }

    /// Encode `s` as a NUL-terminated byte sequence in a fresh span.  Text
    /// with an embedded NUL cannot round-trip through this representation
    /// and is excluded up front, as is text that does not fit.
    pub fn write_str(&mut self, s: &Vec<u8>) -> (off: usize)
        requires
            old(self).wf(),
            !s@.contains(0u8),
            s@.len() + 1 <= old(self).free(),
        ensures
            final(self).wf(),
            off == old(self).pos,
            final(self).pos == old(self).pos + s@.len() + 1,
            final(self).data@ == old(self).data@.take(off as int) + cstr_image(s@) + old(
                self,
            ).data@.skip(off + s@.len() + 1),
    {
        let ghost d0 = self.data@;
        let off = self.write_bytes(s.as_slice());
        let p = self.pos;
        let cap = self.data.len();
        proof {
            assert(p < cap);
        }
        self.data[p] = 0;
        self.pos = p + 1;
        proof {
            assert(self.data@ =~= d0.take(off as int) + cstr_image(s@) + d0.skip(
                off + s@.len() + 1,
            ));
        }
        off
    }

    /// Write a whole pointer table for a list of text values: reserve one
    /// slot per text plus a sentinel slot up front, then write each text
    /// NUL-terminated in order, filling its slot with the span's offset, and
    /// zero the sentinel slot.  Returns the offset of the slot array.
    pub fn write_strs(&mut self, strings: &Vec<Vec<u8>>) -> (off: usize)
        requires
            old(self).wf(),
            no_nul_each(strings.deep_view()),
            table_size(cstr_payloads(strings.deep_view())) <= old(self).free(),
        ensures
            final(self).wf(),
            off == old(self).pos,
            final(self).pos == old(self).pos + table_size(cstr_payloads(strings.deep_view())),
            final(self).data@ == old(self).data@.take(off as int) + table_image(
                cstr_payloads(strings.deep_view()),
                off as int,
            ) + old(self).data@.skip(
                off + table_size(cstr_payloads(strings.deep_view())),
            ),
    {
        let ghost ps = cstr_payloads(strings.deep_view());
        let ghost d0 = self.data@;
        let k = strings.len();
        let cap = self.data.len();
        proof {
            lemma_payloads_size_nonneg(ps);
            lemma_byte_vecs_deep_view(*strings);
            assert(ps.len() == k);
        }
        let off = self.reserve(SLOT_SIZE * (k + 1));
        let ghost sb = off + SLOT_SIZE * (k + 1);
        proof {
            lemma_table_start(d0, ps, off as int, sb);
        }
        let mut i: usize = 0;
        while i < k
            invariant
                self.wf(),
                i <= k,
                k == strings@.len(),
                ps == cstr_payloads(strings.deep_view()),
                ps.len() == k,
                no_nul_each(strings.deep_view()),
                forall|j: int| 0 <= j < k ==> #[trigger] strings.deep_view()[j] == strings@[j]@,
                forall|j: int| 0 <= j < k ==> #[trigger] ps[j] == cstr_image(strings@[j]@),
                cap == self.data@.len(),
                d0.len() == cap,
                0 <= off,
                off + SLOT_SIZE * (k + 1) == sb,
                sb + payloads_size(ps) <= cap,
                self.pos == sb + payloads_size(ps.take(i as int)),
                table_inv(d0, self.data@, ps, off as int, sb, i as int),
            decreases k - i,
        {
            proof {
                lemma_table_bounds(ps, off as int, sb, i as int);
                lemma_table_bounds(ps, off as int, sb, i + 1);
                lemma_payloads_size_snoc(ps, i as int);
                assert(ps[i as int] == cstr_image(strings@[i as int]@));
            }
            let ghost dpre = self.data@;
            let s_off = self.write_str(&strings[i]);
            proof {
                lemma_table_step_payload(d0, dpre, self.data@, ps, off as int, sb, i as int);
            }
            let ghost dmid = self.data@;
            self.put_word(off + SLOT_SIZE * i, s_off as u64);
            proof {
                lemma_table_step_slot(d0, dmid, self.data@, ps, off as int, sb, i as int);
            }
            i = i + 1;
        }
        proof {
            assert(ps.take(k as int) =~= ps);
            lemma_table_bounds(ps, off as int, sb, k as int);
        }
        let ghost dpre = self.data@;
        self.put_word(off + SLOT_SIZE * k, 0);
        proof {
            lemma_table_finish(d0, dpre, self.data@, ps, off as int, sb);
        }
        off
    }

    /// Write a whole pointer table for a list of fixed-width address values:
    /// reserve one slot per address plus a sentinel slot up front, then copy
    /// each address's raw bytes in order, filling its slot with the span's
    /// offset, and zero the sentinel slot.  Returns the offset of the slot
    /// array.
    #[verifier::rlimit(100)]
    pub fn write_addr_table<const W: usize>(&mut self, addrs: &Vec<[u8; W]>) -> (off: usize)
        requires
            old(self).wf(),
            table_size(addrs.deep_view()) <= old(self).free(),
        ensures
            final(self).wf(),
            off == old(self).pos,
            final(self).pos == old(self).pos + table_size(addrs.deep_view()),
            final(self).data@ == old(self).data@.take(off as int) + table_image(
                addrs.deep_view(),
                off as int,
            ) + old(self).data@.skip(off + table_size(addrs.deep_view())),
    {
        let ghost ps = addrs.deep_view();
        let ghost d0 = self.data@;
        let k = addrs.len();
        let cap = self.data.len();
        proof {
            lemma_payloads_size_nonneg(ps);
            assert(ps.len() == k);
            assert forall|j: int| 0 <= j < k implies #[trigger] ps[j] == addrs@[j]@ && (
            #[trigger] ps[j]).len() == W by {
                assert(addrs@[j].deep_view() =~= addrs@[j]@);
            }
        }
        let off = self.reserve(SLOT_SIZE * (k + 1));
        let ghost sb = off + SLOT_SIZE * (k + 1);
        proof {
            lemma_table_start(d0, ps, off as int, sb);
        }
        let mut i: usize = 0;
        while i < k
            invariant
                self.wf(),
                i <= k,
                k == addrs@.len(),
                ps == addrs.deep_view(),
                ps.len() == k,
                forall|j: int| 0 <= j < k ==> #[trigger] ps[j] == addrs@[j]@,
                forall|j: int| 0 <= j < k ==> (#[trigger] ps[j]).len() == W,
                cap == self.data@.len(),
                d0.len() == cap,
                0 <= off,
                off + SLOT_SIZE * (k + 1) == sb,
                sb + payloads_size(ps) <= cap,
                self.pos == sb + payloads_size(ps.take(i as int)),
                table_inv(d0, self.data@, ps, off as int, sb, i as int),
            decreases k - i,
        {
            proof {
                lemma_table_bounds(ps, off as int, sb, i as int);
                lemma_table_bounds(ps, off as int, sb, i + 1);
                lemma_payloads_size_snoc(ps, i as int);
                assert(ps[i as int] == addrs@[i as int]@);
                assert(ps[i as int].len() == W);
            }
            let ghost dpre = self.data@;
            let a_off = self.write_bytes(addrs[i].as_slice());
            proof {
                lemma_table_step_payload(d0, dpre, self.data@, ps, off as int, sb, i as int);
            }
            let ghost dmid = self.data@;
            self.put_word(off + SLOT_SIZE * i, a_off as u64);
            proof {
                lemma_table_step_slot(d0, dmid, self.data@, ps, off as int, sb, i as int);
            }
            i = i + 1;
        }
        proof {
            assert(ps.take(k as int) =~= ps);
            lemma_table_bounds(ps, off as int, sb, k as int);
        }
        let ghost dpre = self.data@;
        self.put_word(off + SLOT_SIZE * k, 0);
        proof {
            lemma_table_finish(d0, dpre, self.data@, ps, off as int, sb);
        }
        off
    }

    /// Fill one pointer slot inside an already reserved span with the
    /// little-endian encoding of `v`.  The cursor does not move.
    pub fn put_word(&mut self, at: usize, v: u64)
        requires
            old(self).wf(),
            at + SLOT_SIZE <= old(self).pos,
        ensures
            final(self).wf(),
            final(self).pos == old(self).pos,
            final(self).data@ == old(self).data@.take(at as int) + le8(v) + old(
                self,
            ).data@.skip(at + SLOT_SIZE),
    {
        let ghost d0 = self.data@;
        self.data[at] = (v % 256) as u8;
        self.data[at + 1] = ((v / 256) % 256) as u8;
        self.data[at + 2] = ((v / 65536) % 256) as u8;
        self.data[at + 3] = ((v / 16777216) % 256) as u8;
        self.data[at + 4] = ((v / 4294967296) % 256) as u8;
        self.data[at + 5] = ((v / 1099511627776) % 256) as u8;
        self.data[at + 6] = ((v / 281474976710656) % 256) as u8;
        self.data[at + 7] = ((v / 72057594037927936) % 256) as u8;
        proof {
            assert(self.data@ =~= d0.take(at as int) + le8(v) + d0.skip(at + SLOT_SIZE));
        }
    }
}

} // verus!
