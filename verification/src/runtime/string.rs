//! The immutable `str` runtime: [`PinpStr`], a small-string-optimised descriptor, and the
//! operations that compiled pinp code calls.
//!
//! A string of up to 15 bytes lives entirely inline; a longer one owns storage on the heap.
//!
//! On the wire the descriptor is 16 bytes, and the two modes share them, discriminated on byte 15:
//!
//! ```text
//! inline (tag_len bit7 == 0):  buf[0..14] data, tag_len = length (0..15)
//! heap   (tag_len bit7 == 1):  ptr (8) | len (4) | cap (4, bit31 = is_heap)
//! ```
//!
//! In heap mode byte 15 is `cap`'s high byte, whose bit7 (is_heap) is always set; in inline mode it
//! is `tag_len`, whose bit7 is clear — so reading byte 15 discriminates the two.

use vstd::arithmetic::power::{lemma_pow1, pow};
use vstd::prelude::*;

verus! {

/// The largest string stored inline; 16 bytes or more go to the heap.
pub const MAX_INLINE: usize = 15;

/// The largest heap string the descriptor can represent. The `cap` word spends its top two bits on
/// the `is_heap` and reserved-mutable flags, leaving a 30-bit length, so content longer than
/// 2^30 - 1 bytes cannot be stored without truncating the recorded length — it is a runtime error.
pub const MAX_STR_HEAP_LEN: usize = 0x3fff_ffff;

/// A string that cannot be built.
#[derive(Debug, Clone, Copy, PartialEq, Eq, Structural)]
pub enum StringError {
    /// The content is longer than a descriptor can record.
    TooLong,
}

impl StringError {
    /// What the program is told.
    pub fn message(self) -> (r: &'static str)
        ensures
            r@ == "String length exceeds the maximum."@,
    {
        "String length exceeds the maximum."
    }
}

/// Content that lies in the descriptor itself.
pub struct InlineRepr {
    buf: [u8; 15],
    // bit7 = is_heap | bit6 = is_mutable (reserved) | bits[3:0] = inline length.
    tag_len: u8,
}

/// Content that lies on the heap.
pub struct HeapRepr {
    bytes: Vec<u8>,
    // bit31 = is_heap | bit30 = is_mutable (reserved) | bits[29:0] = capacity.
    cap: u32,
}

/// An immutable-string descriptor passed by value between compiled code and the runtime.
pub enum PinpStr {
    Inline(InlineRepr),
    Heap(HeapRepr),
}

impl InlineRepr {
    #[verifier::type_invariant]
    spec fn well_formed(&self) -> bool {
        self.tag_len <= MAX_INLINE
    }

    closed spec fn content(&self) -> Seq<u8> {
        self.buf@.take(self.tag_len as int)
    }
}

impl HeapRepr {
    #[verifier::type_invariant]
    spec fn well_formed(&self) -> bool {
        &&& MAX_INLINE < self.bytes@.len() <= MAX_STR_HEAP_LEN
        &&& self.cap == 0x8000_0000u32 | self.bytes@.len() as u32
    }

    closed spec fn content(&self) -> Seq<u8> {
        self.bytes@
    }
}

impl View for PinpStr {
    type V = Seq<u8>;

    closed spec fn view(&self) -> Seq<u8> {
        match *self {
            PinpStr::Inline(repr) => repr.content(),
            PinpStr::Heap(repr) => repr.content(),
        }
    }
}

/// Byte 15 of a descriptor in heap mode: the high byte of its capacity word.
pub open spec fn heap_tag(cap: u32) -> u8 {
    (cap >> 24) as u8
}

impl PinpStr {
    /// Byte 15 of the descriptor.
    pub closed spec fn tag(&self) -> u8 {
        match *self {
            PinpStr::Inline(repr) => repr.tag_len,
            PinpStr::Heap(repr) => heap_tag(repr.cap),
        }
    }

    /// True when the string data lives on the heap rather than inline.
    pub fn is_heap(&self) -> (r: bool)
        ensures
            r == (self@.len() > MAX_INLINE),
            r == (self.tag() & 0x80 != 0),
            self@.len() <= MAX_STR_HEAP_LEN,
    {
        // Byte 15 (`tag_len` inline / `cap` high byte heap) discriminates the modes in both.
        match self {
            PinpStr::Inline(repr) => {
                proof {
                    use_type_invariant(repr);
                    let tag = repr.tag_len;
                    assert(tag & 0x80 == 0) by (bit_vector)
                        requires
                            tag <= 15,
                    ;
                }
                false
            },
            PinpStr::Heap(repr) => {
                proof {
                    use_type_invariant(repr);
                    let len = repr.bytes@.len() as u32;
                    let cap = repr.cap;
                    assert(((cap >> 24) as u8) & 0x80 != 0) by (bit_vector)
                        requires
                            cap == 0x8000_0000u32 | len,
                    ;
                }
                true
            },
        }
    }

    /// The byte length of the string content (ASCII length == byte length).
    fn length(&self) -> (r: usize)
        ensures
            r == self@.len(),
            r <= MAX_STR_HEAP_LEN,
    {
        match self {
            PinpStr::Inline(repr) => {
                proof {
                    use_type_invariant(repr);
                }
                repr.tag_len as usize
            },
            PinpStr::Heap(repr) => {
                proof {
                    use_type_invariant(repr);
                }
                repr.bytes.len()
            },
        }
    }

    /// The string content.
    pub fn as_bytes(&self) -> (r: Vec<u8>)
        ensures
            r@ == self@,
    {
        let mut r: Vec<u8> = Vec::with_capacity(self.length());
        self.append_to(&mut r);
        assert(r@ =~= self@);
        r
    }

    /// The byte at `index`.
    fn byte(&self, index: usize) -> (r: u8)
        requires
            index < self@.len(),
        ensures
            r == self@[index as int],
    {
        match self {
            PinpStr::Inline(repr) => {
                proof {
                    use_type_invariant(repr);
                }
                repr.buf[index]
            },
            PinpStr::Heap(repr) => repr.bytes[index],
        }
    }

    /// Appends the content to `out`.
    fn append_to(&self, out: &mut Vec<u8>)
        ensures
            final(out)@ == old(out)@ + self@,
    {
        let len: usize = self.length();
        let mut index: usize = 0;
        assert(out@ =~= old(out)@ + self@.take(0));
        while index < len
            invariant
                index <= len,
                len == self@.len(),
                out@ == old(out)@ + self@.take(index as int),
            decreases len - index,
        {
            out.push(self.byte(index));
            assert(out@ =~= old(out)@ + self@.take(index + 1));
            index = index + 1;
        }
        assert(self@.take(index as int) =~= self@);
    }
}

/// Content that is being written, of a length known beforehand: in the descriptor itself where it
/// fits there, and otherwise on the heap, in one allocation. Centralises the choice between the two
/// so every constructor shares it.
struct Draft {
    buf: [u8; 15],
    bytes: Vec<u8>,
    len: usize,
    total: usize,
}

impl Draft {
    spec fn well_formed(&self) -> bool {
        &&& self.len <= self.total <= MAX_STR_HEAP_LEN
        &&& self.total > MAX_INLINE ==> self.bytes@.len() == self.len
    }

    /// What has been written so far.
    spec fn content(&self) -> Seq<u8> {
        if self.total <= MAX_INLINE {
            self.buf@.take(self.len as int)
        } else {
            self.bytes@
        }
    }

    /// Nothing written yet, of the `total` bytes to come.
    fn new(total: usize) -> (r: Result<Draft, StringError>)
        ensures
            match r {
                Ok(draft) => {
                    &&& draft.well_formed()
                    &&& draft.total == total
                    &&& draft.content() == Seq::<u8>::empty()
                    &&& total <= MAX_STR_HEAP_LEN
                },
                Err(error) => error == StringError::TooLong && total > MAX_STR_HEAP_LEN,
            },
    {
        // The 30-bit capacity field cannot record a length this large; reject it rather than
        // silently truncate.
        if total > MAX_STR_HEAP_LEN {
            return Err(StringError::TooLong);
        }
        let bytes: Vec<u8> = if total <= MAX_INLINE {
            Vec::new()
        } else {
            Vec::with_capacity(total)
        };
        let draft: Draft = Draft { buf: [0;15], bytes, len: 0, total };
        assert(draft.content() =~= Seq::empty());
        Ok(draft)
    }

    /// Writes one byte more.
    fn push(&mut self, byte: u8)
        requires
            old(self).well_formed(),
            old(self).content().len() < old(self).total,
        ensures
            final(self).well_formed(),
            final(self).total == old(self).total,
            final(self).content() == old(self).content().push(byte),
    {
        if self.total <= MAX_INLINE {
            self.buf[self.len] = byte;
        } else {
            self.bytes.push(byte);
        }
        self.len = self.len + 1;
        assert(self.content() =~= old(self).content().push(byte));
    }

    /// Writes the content of a string.
    fn append(&mut self, s: &PinpStr)
        requires
            old(self).well_formed(),
            old(self).content().len() + s@.len() <= old(self).total,
        ensures
            final(self).well_formed(),
            final(self).total == old(self).total,
            final(self).content() == old(self).content() + s@,
    {
        let len: usize = s.length();
        let mut index: usize = 0;
        assert(self.content() =~= old(self).content() + s@.take(0));
        while index < len
            invariant
                index <= len,
                len == s@.len(),
                self.well_formed(),
                self.total == old(self).total,
                old(self).content().len() + s@.len() <= old(self).total,
                self.content() == old(self).content() + s@.take(index as int),
            decreases len - index,
        {
            self.push(s.byte(index));
            assert(self.content() =~= old(self).content() + s@.take(index + 1));
            index = index + 1;
        }
        assert(s@.take(index as int) =~= s@);
    }

    /// The string, once every byte has been written.
    fn finish(self) -> (s: PinpStr)
        requires
            self.well_formed(),
            self.content().len() == self.total,
        ensures
            s@ == self.content(),
    {
        if self.total <= MAX_INLINE {
            PinpStr::Inline(InlineRepr { buf: self.buf, tag_len: self.len as u8 })
        } else {
            let cap: u32 = 0x8000_0000u32 | (self.total as u32);
            PinpStr::Heap(HeapRepr { bytes: self.bytes, cap })
        }
    }
}

/// The empty inline string — also the reset state a freed descriptor is left in.
fn empty() -> (s: PinpStr)
    ensures
        s@ == Seq::<u8>::empty(),
{
    let s: PinpStr = PinpStr::Inline(InlineRepr { buf: [0;15], tag_len: 0 });
    assert(s@ =~= Seq::empty());
    s
}

/// Where a null-terminated string ends: at its first zero byte from `from` on.
pub open spec fn terminated_at(bytes: Seq<u8>, from: int) -> int
    decreases bytes.len() - from,
{
    if 0 <= from < bytes.len() && bytes[from] != 0 {
        terminated_at(bytes, from + 1)
    } else {
        from
    }
}

/// The content of a null-terminated string.
pub open spec fn cstr_content(bytes: Seq<u8>) -> Seq<u8> {
    bytes.take(terminated_at(bytes, 0))
}

/// A string with this content, or the error when it is longer than a descriptor can record.
pub open spec fn built(r: Result<PinpStr, StringError>, content: Seq<u8>) -> bool {
    match r {
        Ok(s) => s@ == content && content.len() <= MAX_STR_HEAP_LEN,
        Err(error) => error == StringError::TooLong && content.len() > MAX_STR_HEAP_LEN,
    }
}

/// Constructs a string from a null-terminated one.
pub fn pinp_str_from_cstr(s: &[u8]) -> (r: Result<PinpStr, StringError>)
    requires
        s@.contains(0),
    ensures
        built(r, cstr_content(s@)),
{
    let mut total: usize = 0;
    while total < s.len() && s[total] != 0
        invariant
            total <= s@.len(),
            terminated_at(s@, 0) == terminated_at(s@, total as int),
        decreases s@.len() - total,
    {
        total = total + 1;
    }
    let mut draft: Draft = match Draft::new(total) {
        Ok(draft) => draft,
        Err(error) => return Err(error),
    };
    let mut index: usize = 0;
    assert(s@.take(0) =~= Seq::empty());
    while index < total
        invariant
            index <= total <= s@.len(),
            draft.well_formed(),
            draft.total == total,
            draft.content() == s@.take(index as int),
        decreases total - index,
    {
        draft.push(s[index]);
        assert(draft.content() =~= s@.take(index + 1));
        index = index + 1;
    }
    Ok(draft.finish())
}

/// Frees heap storage (a no-op for an inline string) and resets `*s` to the empty inline string, so
/// a second free is harmless.
pub fn pinp_str_free(s: &mut PinpStr)
    ensures
        final(s)@ == Seq::<u8>::empty(),
{
    *s = empty();
}

/// Returns a new string that is the concatenation of `a` and `b`, in a single allocation, and in none
/// where it fits in the descriptor.
pub fn pinp_str_concat(a: &PinpStr, b: &PinpStr) -> (r: Result<PinpStr, StringError>)
    ensures
        built(r, a@ + b@),
{
    match Draft::new(a.length() + b.length()) {
        Ok(draft) => {
            let mut draft: Draft = draft;
            draft.append(a);
            draft.append(b);
            Ok(draft.finish())
        },
        Err(error) => Err(error),
    }
}

/// The contents of the first `count` of some strings in a row.
pub open spec fn joined(parts: Seq<PinpStr>, count: int) -> Seq<u8>
    decreases count,
{
    if count <= 0 {
        Seq::empty()
    } else {
        joined(parts, count - 1) + parts[count - 1]@
    }
}

proof fn lemma_joined_grows(parts: Seq<PinpStr>, count: int, more: int)
    requires
        0 <= count <= more,
    ensures
        joined(parts, count).len() <= joined(parts, more).len(),
    decreases more - count,
{
    if count < more {
        lemma_joined_grows(parts, count, more - 1);
    }
}

/// Returns a new string that is the concatenation of `parts`, in a single allocation, and in none
/// where it fits in the descriptor.
pub fn pinp_str_concat_n(parts: &Vec<PinpStr>) -> (r: Result<PinpStr, StringError>)
    ensures
        built(r, joined(parts@, parts@.len() as int)),
{
    let mut total: usize = 0;
    let mut counted: usize = 0;
    while counted < parts.len()
        invariant
            counted <= parts@.len(),
            total == joined(parts@, counted as int).len(),
            total <= MAX_STR_HEAP_LEN,
        decreases parts@.len() - counted,
    {
        total = total + parts[counted].length();
        counted = counted + 1;
        if total > MAX_STR_HEAP_LEN {
            proof {
                lemma_joined_grows(parts@, counted as int, parts@.len() as int);
            }
            return Err(StringError::TooLong);
        }
    }
    let mut draft: Draft = match Draft::new(total) {
        Ok(draft) => draft,
        Err(error) => return Err(error),
    };
    let mut index: usize = 0;
    while index < parts.len()
        invariant
            index <= parts@.len(),
            draft.well_formed(),
            draft.total == total,
            total == joined(parts@, parts@.len() as int).len(),
            draft.content() == joined(parts@, index as int),
        decreases parts@.len() - index,
    {
        proof {
            lemma_joined_grows(parts@, index + 1, parts@.len() as int);
        }
        draft.append(&parts[index]);
        index = index + 1;
    }
    Ok(draft.finish())
}

/// The byte length of the string.
pub fn pinp_str_len(s: &PinpStr) -> (r: i64)
    ensures
        r == s@.len(),
{
    s.length() as i64
}

/// 1 if the two strings have equal content, 0 otherwise.
pub fn pinp_str_eq(a: &PinpStr, b: &PinpStr) -> (r: i32)
    ensures
        r == if a@ == b@ {
            1i32
        } else {
            0
        },
{
    if a.length() != b.length() {
        return 0;
    }
    let mut index: usize = 0;
    while index < a.length()
        invariant
            index <= a@.len(),
            a@.len() == b@.len(),
            forall|i: int| 0 <= i < index ==> #[trigger] a@[i] == b@[i],
        decreases a@.len() - index,
    {
        if a.byte(index) != b.byte(index) {
            return 0;
        }
        index = index + 1;
    }
    assert(a@ =~= b@);
    1
}

/// How two contents order, byte by byte from `from` on; a shorter prefix orders first.
pub open spec fn ordered(a: Seq<u8>, b: Seq<u8>, from: int) -> int
    decreases a.len() - from,
{
    if from < 0 || from >= a.len() {
        if from < b.len() {
            -1
        } else {
            0
        }
    } else if from >= b.len() {
        1
    } else if a[from] < b[from] {
        -1
    } else if a[from] > b[from] {
        1
    } else {
        ordered(a, b, from + 1)
    }
}

/// A three-way comparison: negative, zero, or positive as `a` orders before, equal to, or after `b`
/// (a shorter prefix orders first).
pub fn pinp_str_cmp(a: &PinpStr, b: &PinpStr) -> (r: i32)
    ensures
        r == ordered(a@, b@, 0),
{
    compare_from_start(a, b)
}

fn compare_from_start(a: &PinpStr, b: &PinpStr) -> (r: i32)
    ensures
        r == ordered(a@, b@, 0),
{
    let mut index: usize = 0;
    loop
        invariant
            index <= a@.len(),
            index <= b@.len(),
            ordered(a@, b@, 0) == ordered(a@, b@, index as int),
        decreases a@.len() - index,
    {
        let a_ends: bool = index >= a.length();
        let b_ends: bool = index >= b.length();
        if a_ends {
            return if b_ends {
                0
            } else {
                -1
            };
        }
        if b_ends {
            return 1;
        }
        let left: u8 = a.byte(index);
        let right: u8 = b.byte(index);
        if left < right {
            return -1;
        }
        if left > right {
            return 1;
        }
        index = index + 1;
    }
}

/// The decimal digits of a number, without leading zeros.
pub open spec fn digits(n: nat) -> Seq<u8>
    decreases n,
{
    if n < 10 {
        seq![(0x30 + n) as u8]
    } else {
        digits(n / 10).push((0x30 + n % 10) as u8)
    }
}

/// A number in decimal, with a minus sign if it is negative.
pub open spec fn decimal_bytes(n: int) -> Seq<u8> {
    if n < 0 {
        seq![0x2du8] + digits((-n) as nat)
    } else {
        digits(n as nat)
    }
}

proof fn lemma_digits_len(n: nat, k: nat)
    requires
        n < pow(10, k),
        k > 0,
    ensures
        digits(n).len() <= k,
    decreases k,
{
    if n >= 10 {
        if k == 1 {
            lemma_pow1(10);
        } else {
            assert(pow(10, k) == 10 * pow(10, (k - 1) as nat)) by {
                vstd::arithmetic::power::lemma_pow_adds(10, 1, (k - 1) as nat);
                lemma_pow1(10);
            }
            let below = pow(10, (k - 1) as nat);
            assert(n / 10 < below) by (nonlinear_arith)
                requires
                    n < 10 * below,
            ;
            lemma_digits_len(n / 10, (k - 1) as nat);
        }
    }
}

/// How many decimal digits `n` has.
fn digit_count(n: u64) -> (count: usize)
    ensures
        count == digits(n as nat).len(),
        1 <= count <= 20,
    decreases n,
{
    proof {
        assert(pow(10, 20) == 100_000_000_000_000_000_000) by {
            reveal_with_fuel(pow, 21);
        }
        lemma_digits_len(n as nat, 20);
    }
    if n >= 10 {
        digit_count(n / 10) + 1
    } else {
        1
    }
}

/// Writes the decimal digits of `n`.
fn push_digits(n: u64, out: &mut Draft)
    requires
        old(out).well_formed(),
        old(out).content().len() + digits(n as nat).len() <= old(out).total,
    ensures
        final(out).well_formed(),
        final(out).total == old(out).total,
        final(out).content() == old(out).content() + digits(n as nat),
    decreases n,
{
    if n >= 10 {
        push_digits(n / 10, out);
    }
    let digit: u8 = 0x30 + (n % 10) as u8;
    out.push(digit);
    assert(out.content() =~= old(out).content() + digits(n as nat));
}

/// Formats an integer as a decimal string.
pub fn pinp_str_from_int(n: i64) -> (s: PinpStr)
    ensures
        s@ == decimal_bytes(n as int),
{
    let magnitude: u64 = if n < 0 {
        (-(n + 1)) as u64 + 1
    } else {
        n as u64
    };
    let sign: usize = if n < 0 {
        1
    } else {
        0
    };
    match Draft::new(sign + digit_count(magnitude)) {
        Ok(draft) => {
            let mut draft: Draft = draft;
            if n < 0 {
                draft.push(0x2d);
            }
            push_digits(magnitude, &mut draft);
            assert(draft.content() =~= decimal_bytes(n as int));
            draft.finish()
        },
        Err(_) => empty(),
    }
}

/// Joining strings one after the other gives the same as joining them all at once, and both give as
/// many bytes as their parts have.
pub proof fn joining_is_associative(a: PinpStr, b: PinpStr, c: PinpStr)
    ensures
        joined(seq![a, b, c], 3) == (a@ + b@) + c@,
        joined(seq![a, b, c], 3) == a@ + (b@ + c@),
        joined(seq![a, b, c], 3).len() == a@.len() + b@.len() + c@.len(),
{
    reveal_with_fuel(joined, 4);
    let parts = seq![a, b, c];
    assert(joined(parts, 3) =~= (a@ + b@) + c@);
    assert((a@ + b@) + c@ =~= a@ + (b@ + c@));
}

proof fn lemma_ordered(a: Seq<u8>, b: Seq<u8>, from: int)
    requires
        0 <= from <= a.len(),
        from <= b.len(),
        forall|i: int| 0 <= i < from ==> #[trigger] a[i] == b[i],
    ensures
        ordered(a, b, from) == -ordered(b, a, from),
        ordered(a, b, from) == 0 <==> a == b,
    decreases a.len() - from,
{
    if from < a.len() && from < b.len() && a[from] == b[from] {
        lemma_ordered(a, b, from + 1);
    } else if from == a.len() && from == b.len() {
        assert(a =~= b);
    }
}

/// Comparison is antisymmetric, and says "equal" exactly of equal contents.
pub proof fn comparison_agrees_with_equality(a: PinpStr, b: PinpStr)
    ensures
        ordered(a@, b@, 0) == -ordered(b@, a@, 0),
        ordered(a@, b@, 0) == 0 <==> a@ == b@,
{
    lemma_ordered(a@, b@, 0);
}

} // verus!
