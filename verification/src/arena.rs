//! A bump arena for the payloads of queued commands.
//!
//! Payloads are written one behind the other into one buffer, each at an offset that its alignment
//! divides. Resetting keeps the buffer.

use vstd::prelude::*;
use vstd::slice::slice_subrange;

verus! {

/// Smallest size of the buffer once it is allocated.
pub const MIN_CAPACITY: usize = 4096;

/// Alignment of an empty arena.
pub const WORD_ALIGN: usize = 8;

/// State of an arena.
pub struct ArenaState {
    /// The bytes up to the cursor.
    pub bytes: Seq<u8>,
    /// Size of the buffer.
    pub capacity: nat,
    /// Alignment of the buffer: the strictest of all payloads so far.
    pub align: nat,
}

/// The arena that holds nothing and has allocated nothing.
pub open spec fn empty_arena() -> ArenaState {
    ArenaState { bytes: Seq::<u8>::empty(), capacity: 0, align: WORD_ALIGN as nat }
}

/// `n` rounded up to a multiple of `align`.
pub open spec fn rounded(n: nat, align: nat) -> nat {
    (((n + align - 1) as nat / align) * align) as nat
}

/// Size of a buffer of size `capacity` that was made anew, for `wanted` bytes at least.
pub open spec fn reallocated(wanted: nat, cursor: nat) -> nat {
    if wanted >= cursor && wanted >= 1 {
        wanted
    } else if cursor >= 1 {
        cursor
    } else {
        1
    }
}

/// Size of the buffer after `end` bytes had to fit: twice as much as before at least.
pub open spec fn grown(capacity: nat, end: nat) -> nat {
    if end <= capacity {
        capacity
    } else if end >= 2 * capacity && end >= MIN_CAPACITY {
        end
    } else if 2 * capacity >= MIN_CAPACITY {
        2 * capacity
    } else {
        MIN_CAPACITY as nat
    }
}

/// The state after a payload was written.
pub open spec fn after_store(s: ArenaState, value: Seq<u8>, align: nat) -> ArenaState {
    let base = if align > s.align {
        ArenaState { capacity: reallocated(s.capacity, s.bytes.len()), align, ..s }
    } else {
        s
    };
    if value.len() == 0 {
        base
    } else {
        let start = rounded(s.bytes.len(), align);
        ArenaState {
            bytes: s.bytes + Seq::new((start - s.bytes.len()) as nat, |i: int| 0u8) + value,
            capacity: grown(base.capacity, start + value.len()),
            ..base
        }
    }
}

/// Offset at which a payload is written.
pub open spec fn offset_of(s: ArenaState, value: Seq<u8>, align: nat) -> nat {
    if value.len() == 0 {
        0
    } else {
        rounded(s.bytes.len(), align)
    }
}

/// Whether a payload of `len` bytes fits: offsets are 32 bits wide, and the buffer may have to
/// double.
pub open spec fn has_room(s: ArenaState, len: nat, align: nat) -> bool {
    &&& rounded(s.bytes.len(), align) + len <= u32::MAX
    &&& 2 * (s.capacity + s.bytes.len() + 1) <= usize::MAX
}

/// Rounding up finds the next multiple.
pub proof fn lemma_rounded(n: nat, align: nat)
    requires
        align > 0,
    ensures
        n <= rounded(n, align) < n + align,
        rounded(n, align) % align == 0,
{
    let m = (n + align - 1) as int;
    let a = align as int;
    vstd::arithmetic::div_mod::lemma_fundamental_div_mod(m, a);
    vstd::arithmetic::div_mod::lemma_mod_bound(m, a);
    vstd::arithmetic::div_mod::lemma_mod_multiples_basic(m / a, a);
    assert((m / a) * a == a * (m / a)) by (nonlinear_arith);
}

/// What was written stays readable: a later payload leaves every byte in place.
pub proof fn law_store_keeps_payloads(s: ArenaState, value: Seq<u8>, align: nat, i: int, n: int)
    requires
        align > 0,
        0 <= i <= i + n <= s.bytes.len(),
    ensures
        i + n <= after_store(s, value, align).bytes.len(),
        after_store(s, value, align).bytes.subrange(i, i + n) == s.bytes.subrange(i, i + n),
{
    lemma_rounded(s.bytes.len(), align);
    let t = after_store(s, value, align);
    assert(t.bytes.subrange(i, i + n) =~= s.bytes.subrange(i, i + n));
}

/// A payload is at its offset, which its alignment divides.
pub proof fn law_payload_is_at_its_offset(s: ArenaState, value: Seq<u8>, align: nat)
    requires
        align > 0,
    ensures
        ({
            let t = after_store(s, value, align);
            let o = offset_of(s, value, align);
            &&& o % align == 0
            &&& o + value.len() <= t.bytes.len()
            &&& t.bytes.subrange(o as int, (o + value.len()) as int) == value
            &&& t.align >= align
        }),
{
    lemma_rounded(s.bytes.len(), align);
    let t = after_store(s, value, align);
    let o = offset_of(s, value, align);
    assert(t.bytes.subrange(o as int, (o + value.len()) as int) =~= value);
    assert(0nat % align == 0) by (nonlinear_arith)
        requires
            align > 0,
    ;
}

/// Payloads of commands, one behind the other.
pub struct CommandArena {
    data: Vec<u8>,
    capacity: usize,
    align: usize,
}

impl View for CommandArena {
    type V = ArenaState;

    closed spec fn view(&self) -> ArenaState {
        ArenaState {
            bytes: self.data@,
            capacity: self.capacity as nat,
            align: self.align as nat,
        }
    }
}

impl CommandArena {
    /// An arena without a buffer.
    pub fn new() -> (a: CommandArena)
        ensures
            a@ == empty_arena(),
    {
        CommandArena { data: Vec::new(), capacity: 0, align: WORD_ALIGN }
    }

    /// Alignment of the buffer.
    pub fn align(&self) -> (n: usize)
        ensures
            n == self@.align,
    {
        self.align
    }

    /// Size of the buffer.
    pub fn capacity(&self) -> (n: usize)
        ensures
            n == self@.capacity,
    {
        self.capacity
    }

    /// Number of bytes in use.
    pub fn cursor(&self) -> (n: usize)
        ensures
            n == self@.bytes.len(),
    {
        self.data.len()
    }

    /// Writes a payload of the given alignment and returns its offset.
    pub fn store(&mut self, value: &[u8], align: usize) -> (offset: u32)
        requires
            align > 0,
            has_room(old(self)@, value@.len(), align as nat),
        ensures
            offset == offset_of(old(self)@, value@, align as nat),
            final(self)@ == after_store(old(self)@, value@, align as nat),
    {
        let ghost s = self@;
        let cursor: usize = self.data.len();
        if align > self.align {
            self.reallocate(self.capacity, align);
        }
        if value.len() == 0 {
            return 0;
        }
        proof {
            lemma_rounded(cursor as nat, align as nat);
        }
        let start: usize = round_up(cursor, align);
        let end: usize = start + value.len();
        if end > self.capacity {
            let double: usize = self.capacity * 2;
            let mut wanted: usize = end;
            if double > wanted {
                wanted = double;
            }
            if MIN_CAPACITY > wanted {
                wanted = MIN_CAPACITY;
            }
            self.reallocate(wanted, self.align);
        }
        let ghost base = self@;
        let mut i: usize = cursor;
        while i < start
            invariant
                cursor <= i <= start,
                self.data@.len() == i,
                self.data@ == s.bytes + Seq::new((i - cursor) as nat, |k: int| 0u8),
                cursor == s.bytes.len(),
                self.capacity == base.capacity,
                self.align == base.align,
            decreases start - i,
        {
            self.data.push(0);
            i = i + 1;
            assert(self.data@ =~= s.bytes + Seq::new((i - cursor) as nat, |k: int| 0u8));
        }
        let ghost padded = self.data@;
        let mut k: usize = 0;
        assert(padded + value@.subrange(0, 0) =~= padded);
        while k < value.len()
            invariant
                k <= value@.len(),
                self.data@ == padded + value@.subrange(0, k as int),
                self.capacity == base.capacity,
                self.align == base.align,
            decreases value.len() - k,
        {
            self.data.push(value[k]);
            k = k + 1;
            assert(self.data@ =~= padded + value@.subrange(0, k as int));
        }
        assert(value@.subrange(0, value@.len() as int) =~= value@);
        start as u32
    }

    /// Makes the buffer anew, with room for `wanted` bytes and what is in use.
    fn reallocate(&mut self, wanted: usize, align: usize)
        ensures
            final(self)@ == (ArenaState {
                capacity: reallocated(wanted as nat, old(self)@.bytes.len()),
                align: align as nat,
                ..old(self)@
            }),
    {
        let mut size: usize = wanted;
        if self.data.len() > size {
            size = self.data.len();
        }
        if size < 1 {
            size = 1;
        }
        self.data.reserve(size - self.data.len());
        self.capacity = size;
        self.align = align;
    }

    /// The payload of `len` bytes at `offset`.
    pub fn get(&self, offset: u32, len: usize) -> (value: &[u8])
        requires
            offset + len <= self@.bytes.len(),
        ensures
            value@ == self@.bytes.subrange(offset as int, offset + len),
    {
        let total: usize = self.data.len();
        slice_subrange(self.data.as_slice(), offset as usize, offset as usize + len)
    }

    /// Gives up every payload; the buffer stays.
    pub fn reset(&mut self)
        ensures
            final(self)@ == (ArenaState { bytes: Seq::<u8>::empty(), ..old(self)@ }),
    {
        self.data.clear();
    }
}

fn round_up(n: usize, align: usize) -> (r: usize)
    requires
        align > 0,
        rounded(n as nat, align as nat) <= u32::MAX,
    ensures
        r == rounded(n as nat, align as nat),
{
    let rest: usize = n % align;
    proof {
        lemma_rounded_by_rest(n as int, align as int);
        lemma_rounded(n as nat, align as nat);
    }
    if rest == 0 {
        n
    } else {
        n + (align - rest)
    }
}

proof fn lemma_rounded_by_rest(n: int, a: int)
    requires
        n >= 0,
        a > 0,
    ensures
        rounded(n as nat, a as nat) == if n % a == 0 {
            n
        } else {
            n + (a - n % a)
        },
{
    let q = n / a;
    let r = n % a;
    vstd::arithmetic::div_mod::lemma_fundamental_div_mod(n, a);
    vstd::arithmetic::div_mod::lemma_mod_bound(n, a);
    let m = n + a - 1;
    assert(a * q == q * a) by (nonlinear_arith);
    if r == 0 {
        assert(m == q * a + (a - 1));
        vstd::arithmetic::div_mod::lemma_fundamental_div_mod_converse(m, a, q, a - 1);
    } else {
        assert((q + 1) * a == q * a + a) by (nonlinear_arith);
        assert(m == (q + 1) * a + (r - 1));
        vstd::arithmetic::div_mod::lemma_fundamental_div_mod_converse(m, a, q + 1, r - 1);
    }
}

} // verus!
