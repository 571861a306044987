use vstd::prelude::*;
use vstd::std_specs::cmp::PartialEqSpec;
use vstd::string::*;
use vstd::utf8::*;

verus! {

/// Number of leading content bytes kept inline in every value.
pub const PREFIX_LENGTH: usize = 10;

/// Largest content length a value can hold. It leaves room for the widest
/// extra capacity, so that the total capacity still fits in 32 bits.
pub const MAX_LEN: usize = 0xFFFF_0000;

/// Reasons an operation on a `Str` can fail.
#[derive(Debug, PartialEq, Eq, Structural)]
pub enum StrError {
    /// The input is longer than `MAX_LEN` bytes.
    OversizeInput,
    /// An index at or past the end of the content.
    OutOfBounds,
    /// A reservation whose extra capacity does not fit in 16 bits.
    CapacityOverflow,
    /// The allocator could not provide the requested buffer.
    AllocationFailure,
}

/// Free inline bytes for content of length `len`.
pub open spec fn inline_room(len: nat) -> nat {
    if len < PREFIX_LENGTH {
        (PREFIX_LENGTH - len) as nat
    } else {
        0
    }
}

/// Number of content bytes stored on the heap for content of length `len`.
pub open spec fn heap_len(len: nat) -> nat {
    if len > PREFIX_LENGTH {
        (len - PREFIX_LENGTH) as nat
    } else {
        0
    }
}

/// Relies on `String::from_utf8`: it accepts exactly the byte vectors that
/// are valid UTF-8, and the string it returns holds the characters they
/// encode.
#[verifier::external_body]
fn utf8_to_string(bytes: Vec<u8>) -> (r: Option<String>)
    ensures
        r is Some <==> valid_utf8(bytes@),
        r matches Some(s) ==> s@ == decode_utf8(bytes@),
{
    String::from_utf8(bytes).ok()
}

/// The decimal digit for `d`, which is below ten.
pub open spec fn digit(d: nat) -> char {
    seq!['0', '1', '2', '3', '4', '5', '6', '7', '8', '9'][d as int]
}

/// The decimal representation of `n`: its digits, most significant first,
/// with no leading zeros.
pub open spec fn decimal(n: nat) -> Seq<char>
    decreases n,
{
    if n < 10 {
        seq![digit(n)]
    } else {
        decimal(n / 10) + seq![digit(n % 10)]
    }
}

/// The diagnostic line for a value: its text in quotes, then its length,
/// capacity, inline size and heap size.
pub open spec fn debug_line(text: Seq<char>, len: nat, capacity: nat, inline: nat, heap: nat) -> Seq<char> {
    "\""@ + text + "\" (len="@ + decimal(len) + ", cap="@ + decimal(capacity) + ", stack_size="@
        + decimal(inline) + ", heap_size="@ + decimal(heap) + ")"@
}

/// Relies on `usize`'s `Display`, through `to_string`: the decimal digits of
/// `n`, most significant first.
#[verifier::external_body]
fn to_decimal(n: usize) -> (r: String)
    ensures
        r@ == decimal(n as nat),
{
    n.to_string()
}

/// Whether `a[a_start..a_start + n]` and `b[b_start..b_start + n]` hold the
/// same bytes.
fn same_bytes(a: &[u8], a_start: usize, b: &[u8], b_start: usize, n: usize) -> (r: bool)
    requires
        a_start + n <= a@.len(),
        b_start + n <= b@.len(),
        a_start + n <= usize::MAX,
        b_start + n <= usize::MAX,
    ensures
        r == (a@.subrange(a_start as int, a_start + n) == b@.subrange(
            b_start as int,
            b_start + n,
        )),
{
    let ghost sa = a@.subrange(a_start as int, a_start + n);
    let ghost sb = b@.subrange(b_start as int, b_start + n);
    let mut i: usize = 0;
    while i < n
        invariant
            i <= n,
            a_start + n <= a@.len(),
            b_start + n <= b@.len(),
            a_start + n <= usize::MAX,
            b_start + n <= usize::MAX,
            sa == a@.subrange(a_start as int, a_start + n),
            sb == b@.subrange(b_start as int, b_start + n),
            forall|k: int| 0 <= k < i ==> #[trigger] sa[k] == sb[k],
        decreases n - i,
    {
        if a[a_start + i] != b[b_start + i] {
            assert(sa[i as int] != sb[i as int]);
            return false;
        }
        i += 1;
    }
    assert(sa =~= sb);
    true
}

/// A byte string whose first `PREFIX_LENGTH` bytes live inline and whose
/// remaining bytes live in an owned heap buffer.
#[derive(Debug)]
pub struct Str {
    len: u32,
    prefix: [u8; PREFIX_LENGTH],
    capacity_offset: u16,
    /// The heap buffer: the content bytes past the prefix, followed by
    /// `capacity_offset` bytes of reserved room. Empty means no allocation.
    suffix: Vec<u8>,
}

impl View for Str {
    type V = Seq<u8>;

    /// The logical content.
    closed spec fn view(&self) -> Seq<u8> {
        let n = self.len as int;
        if n <= PREFIX_LENGTH {
            self.prefix@.subrange(0, n)
        } else {
            self.prefix@ + self.suffix@.subrange(0, n - PREFIX_LENGTH)
        }
    }
}

impl Str {
    /// Layout invariant: the length is in range, the heap buffer holds the
    /// bytes past the prefix plus the reserved room, and unused inline bytes
    /// are zero.
    #[verifier::type_invariant]
    spec fn wf(&self) -> bool {
        &&& self.len as nat <= MAX_LEN
        &&& self.suffix@.len() == heap_len(self.len as nat) + self.capacity_offset
        &&& forall|i: int| self.len <= i < PREFIX_LENGTH ==> self.prefix@[i] == 0
    }

    proof fn lemma_view_len(&self)
        requires
            self.wf(),
        ensures
            self@.len() == self.len as nat,
    {
    }

    /// Reserved heap room beyond the content.
    pub closed spec fn spec_extra_capacity(&self) -> nat {
        self.capacity_offset as nat
    }

    /// The inline bytes, zero past the content.
    pub closed spec fn spec_prefix(&self) -> Seq<u8> {
        self.prefix@
    }

    /// Size of the heap buffer; zero when nothing is allocated.
    pub closed spec fn spec_heap_size(&self) -> nat {
        self.suffix@.len()
    }

    /// Bytes the value can hold without a new allocation: the content, the
    /// free inline bytes and the reserved heap room.
    pub open spec fn spec_capacity(&self) -> nat {
        self@.len() + inline_room(self@.len()) + self.spec_extra_capacity()
    }

    /// Length of the content in bytes.
    pub fn len(&self) -> (r: usize)
        ensures
            r == self@.len(),
            r <= MAX_LEN,
    {
        proof {
            use_type_invariant(self);
            self.lemma_view_len();
        }
        self.len as usize
    }

    /// Whether the content is empty.
    pub fn is_empty(&self) -> (r: bool)
        ensures
            r == (self@.len() == 0),
    {
        proof {
            use_type_invariant(self);
            self.lemma_view_len();
        }
        self.len == 0
    }

    /// Total bytes the value can hold before it must allocate again.
    pub fn capacity(&self) -> (r: usize)
        ensures
            r == self.spec_capacity(),
    {
        proof {
            use_type_invariant(self);
            self.lemma_view_len();
        }
        let len = self.len as usize;
        let room = if len < PREFIX_LENGTH { PREFIX_LENGTH - len } else { 0 };
        len + room + self.capacity_offset as usize
    }

    /// Builds a value holding a copy of `bytes`, with no reserved room. A
    /// heap buffer is allocated only when the content is longer than the
    /// inline prefix.
    pub fn from_bytes(bytes: &[u8]) -> (r: Str)
        requires
            bytes@.len() <= MAX_LEN,
        ensures
            r@ == bytes@,
            r.spec_extra_capacity() == 0,
            r.spec_heap_size() == heap_len(bytes@.len()),
    {
        let n = bytes.len();
        let head = if n < PREFIX_LENGTH { n } else { PREFIX_LENGTH };
        let mut prefix = [0u8; PREFIX_LENGTH];
        let mut i: usize = 0;
        while i < head
            invariant
                head <= PREFIX_LENGTH,
                head <= n,
                n == bytes@.len(),
                i <= head,
                forall|k: int| 0 <= k < i ==> prefix@[k] == bytes@[k],
                forall|k: int| i <= k < PREFIX_LENGTH ==> prefix@[k] == 0,
            decreases head - i,
        {
            prefix[i] = bytes[i];
            i += 1;
        }
        let mut suffix: Vec<u8> = Vec::new();
        if n > PREFIX_LENGTH {
            suffix = Vec::with_capacity(n - PREFIX_LENGTH);
            let mut j: usize = PREFIX_LENGTH;
            while j < n
                invariant
                    PREFIX_LENGTH <= j <= n,
                    n == bytes@.len(),
                    suffix@ == bytes@.subrange(PREFIX_LENGTH as int, j as int),
                decreases n - j,
            {
                suffix.push(bytes[j]);
                j += 1;
            }
        }
        let r = Str { len: n as u32, prefix, capacity_offset: 0, suffix };
        proof {
            if n <= PREFIX_LENGTH {
                assert(r@ =~= bytes@);
            } else {
                assert(r.suffix@.subrange(0, n - PREFIX_LENGTH) =~= r.suffix@);
                assert(r@ =~= bytes@);
            }
        }
        r
    }

    /// Reserved heap room beyond the content, in bytes.
    pub fn extra_capacity(&self) -> (r: usize)
        ensures
            r == self.spec_extra_capacity(),
    {
        self.capacity_offset as usize
    }

    /// Size of the heap buffer in bytes; zero when nothing is allocated.
    pub fn heap_size(&self) -> (r: usize)
        ensures
            r == self.spec_heap_size(),
            r == heap_len(self@.len()) + self.spec_extra_capacity(),
    {
        proof {
            use_type_invariant(self);
            self.lemma_view_len();
        }
        self.suffix.len()
    }

    /// The inline bytes: the first content bytes, then zeros.
    pub fn prefix(&self) -> (r: [u8; PREFIX_LENGTH])
        ensures
            r@ == self.spec_prefix(),
            forall|i: int| 0 <= i < PREFIX_LENGTH && i < self@.len() ==> r@[i] == self@[i],
            forall|i: int| self@.len() <= i < PREFIX_LENGTH ==> r@[i] == 0,
    {
        proof {
            use_type_invariant(self);
            self.lemma_view_len();
        }
        self.prefix
    }

    /// The content bytes kept on the heap, those past the inline prefix.
    pub fn heap_bytes(&self) -> (r: Vec<u8>)
        ensures
            self@.len() <= PREFIX_LENGTH ==> r@.len() == 0,
            self@.len() > PREFIX_LENGTH ==> r@ == self@.subrange(PREFIX_LENGTH as int, self@.len() as int),
    {
        proof {
            use_type_invariant(self);
            self.lemma_view_len();
        }
        let n = self.len as usize;
        let mut r: Vec<u8> = Vec::new();
        if n > PREFIX_LENGTH {
            let tail = n - PREFIX_LENGTH;
            let mut i: usize = 0;
            while i < tail
                invariant
                    i <= tail,
                    tail == n - PREFIX_LENGTH,
                    tail <= self.suffix@.len(),
                    r@ == self.suffix@.subrange(0, i as int),
                decreases tail - i,
            {
                r.push(self.suffix[i]);
                i += 1;
            }
            proof {
                assert(r@ =~= self@.subrange(PREFIX_LENGTH as int, n as int));
            }
        }
        r
    }

    /// The content bytes, in order.
    pub fn to_bytes(&self) -> (r: Vec<u8>)
        ensures
            r@ == self@,
    {
        proof {
            use_type_invariant(self);
            self.lemma_view_len();
        }
        let n = self.len as usize;
        let mut r: Vec<u8> = Vec::with_capacity(n);
        let mut i: usize = 0;
        while i < n
            invariant
                i <= n,
                n == self@.len(),
                r@ == self@.subrange(0, i as int),
            decreases n - i,
        {
            r.push(self.index(i));
            i += 1;
        }
        proof {
            assert(r@ =~= self@);
        }
        r
    }

    /// The content read as UTF-8 text. The bytes must be valid UTF-8; values
    /// built with `from` always are.
    pub fn to_string(&self) -> (r: String)
        requires
            valid_utf8(self@),
        ensures
            r@ == decode_utf8(self@),
    {
        match utf8_to_string(self.to_bytes()) {
            Some(text) => text,
            None => String::new(),
        }
    }

    /// A diagnostic rendering: the text with its length, capacity, inline
    /// size and heap size.
    pub fn debug_string(&self) -> (r: String)
        requires
            valid_utf8(self@),
        ensures
            r@ == debug_line(
                decode_utf8(self@),
                self@.len(),
                self.spec_capacity(),
                PREFIX_LENGTH as nat,
                self.spec_heap_size(),
            ),
    {
        let text = self.to_string();
        let mut r = String::from_str("\"");
        r.append(text.as_str());
        r.append("\" (len=");
        let len = to_decimal(self.len());
        r.append(len.as_str());
        r.append(", cap=");
        let capacity = to_decimal(self.capacity());
        r.append(capacity.as_str());
        r.append(", stack_size=");
        let inline = to_decimal(PREFIX_LENGTH);
        r.append(inline.as_str());
        r.append(", heap_size=");
        let heap = to_decimal(self.heap_size());
        r.append(heap.as_str());
        r.append(")");
        proof {
            assert(r@ =~= debug_line(
                decode_utf8(self@),
                self@.len(),
                self.spec_capacity(),
                PREFIX_LENGTH as nat,
                self.spec_heap_size(),
            ));
        }
        r
    }

    /// The byte at position `index`, which must be within the content.
    pub fn index(&self, index: usize) -> (r: u8)
        requires
            index < self@.len(),
        ensures
            r == self@[index as int],
    {
        proof {
            use_type_invariant(self);
            self.lemma_view_len();
        }
        if index >= PREFIX_LENGTH {
            self.suffix[index - PREFIX_LENGTH]
        } else {
            self.prefix[index]
        }
    }

    /// The byte at position `index`, or `OutOfBounds` past the content.
    pub fn get(&self, index: usize) -> (r: Result<u8, StrError>)
        ensures
            index < self@.len() ==> r == Ok::<u8, StrError>(self@[index as int]),
            index >= self@.len() ==> r == Err::<u8, StrError>(StrError::OutOfBounds),
    {
        if index < self.len() {
            Ok(self.index(index))
        } else {
            Err(StrError::OutOfBounds)
        }
    }

    /// Makes room for at least `request` bytes past the content. When the
    /// room is short, a single new heap buffer is allocated with exactly
    /// enough reserved room, the heap bytes are copied into it, and the old
    /// buffer is released afterwards. On failure the value is unchanged.
    pub fn reserve(&mut self, request: usize) -> (r: Result<(), StrError>)
        ensures
            final(self)@ == old(self)@,
            (*final(self)).eq_spec(&*old(self)),
            r is Ok ==> final(self).spec_capacity() >= old(self)@.len() + request,
            old(self).spec_capacity() >= old(self)@.len() + request ==> r is Ok && *final(self)
                == *old(self),
            old(self).spec_capacity() < old(self)@.len() + request ==> {
                &&& (r == Err::<(), StrError>(StrError::CapacityOverflow) <==> request
                    - inline_room(old(self)@.len()) > u16::MAX)
                &&& (r is Ok ==> final(self).spec_capacity() == old(self)@.len() + request)
                &&& (r is Ok ==> final(self).spec_extra_capacity() == request - inline_room(
                    old(self)@.len(),
                ))
            },
            r is Err ==> *final(self) == *old(self),
            r is Err ==> r == Err::<(), StrError>(StrError::CapacityOverflow) || r == Err::<
                (),
                StrError,
            >(StrError::AllocationFailure),
    {
        proof {
            use_type_invariant(&*self);
            self.lemma_view_len();
        }
        let len = self.len as usize;
        let room = if len < PREFIX_LENGTH { PREFIX_LENGTH - len } else { 0 };
        if room + self.capacity_offset as usize >= request {
            return Ok(());
        }
        let needed = request - room;
        if needed > u16::MAX as usize {
            return Err(StrError::CapacityOverflow);
        }
        let kept = if len > PREFIX_LENGTH { len - PREFIX_LENGTH } else { 0 };
        let size = kept + needed;
        let mut buf: Vec<u8> = Vec::new();
        match buf.try_reserve(size) {
            Ok(()) => {},
            Err(_) => {
                return Err(StrError::AllocationFailure);
            },
        }
        let mut i: usize = 0;
        while i < kept
            invariant
                i <= kept,
                kept <= self.suffix@.len(),
                buf@ == self.suffix@.subrange(0, i as int),
            decreases kept - i,
        {
            buf.push(self.suffix[i]);
            i += 1;
        }
        while i < size
            invariant
                kept <= i <= size,
                buf@.len() == i,
                buf@.subrange(0, kept as int) == self.suffix@.subrange(0, kept as int),
            decreases size - i,
        {
            let ghost prev = buf@;
            buf.push(0);
            proof {
                assert(buf@.subrange(0, kept as int) =~= prev.subrange(0, kept as int));
            }
            i += 1;
        }
        let ghost before = *self;
        *self = Str { len: self.len, prefix: self.prefix, capacity_offset: needed as u16, suffix: buf };
        proof {
            self.lemma_view_len();
            assert(self.suffix@.subrange(0, kept as int) =~= before.suffix@.subrange(0, kept as int));
            assert(self@ =~= before@);
        }
        Ok(())
    }

    /// Builds a value holding the UTF-8 bytes of `s`.
    pub fn from(s: &str) -> (r: Str)
        requires
            s.spec_bytes().len() <= MAX_LEN,
        ensures
            r@ == s.spec_bytes(),
            r.spec_extra_capacity() == 0,
            r.spec_heap_size() == heap_len(s.spec_bytes().len()),
    {
        Str::from_bytes(s.as_bytes())
    }

    /// Builds a value holding a copy of `bytes`, or fails when they are too
    /// many to represent.
    pub fn try_from_bytes(bytes: &[u8]) -> (r: Result<Str, StrError>)
        ensures
            bytes@.len() <= MAX_LEN <==> r is Ok,
            r is Err ==> r == Err::<Str, StrError>(StrError::OversizeInput),
            r matches Ok(v) ==> v@ == bytes@ && v.spec_extra_capacity() == 0 && v.spec_heap_size()
                == heap_len(bytes@.len()),
    {
        if bytes.len() > MAX_LEN {
            Err(StrError::OversizeInput)
        } else {
            Ok(Str::from_bytes(bytes))
        }
    }

    /// Whether the content of `other` is a prefix of this content. The
    /// inline prefixes are compared first; the heap is read only when both
    /// contents run past the prefix.
    pub fn starts_with(&self, other: &Str) -> (r: bool)
        ensures
            r == other@.is_prefix_of(self@),
    {
        proof {
            use_type_invariant(self);
            use_type_invariant(other);
            self.lemma_view_len();
            other.lemma_view_len();
        }
        if other.len > self.len {
            return false;
        }
        let m = other.len as usize;
        let head = if m < PREFIX_LENGTH { m } else { PREFIX_LENGTH };
        if !same_bytes(&self.prefix, 0, &other.prefix, 0, head) {
            proof {
                assert(self@.subrange(0, head as int) =~= self.prefix@.subrange(0, head as int));
                assert(other@.subrange(0, head as int) =~= other.prefix@.subrange(0, head as int));
                assert(!other@.is_prefix_of(self@)) by {
                    if other@.is_prefix_of(self@) {
                        assert(self@.subrange(0, head as int) =~= other@.subrange(0, head as int));
                    }
                }
            }
            return false;
        }
        if m <= PREFIX_LENGTH {
            proof {
                assert(self@.subrange(0, m as int) =~= self.prefix@.subrange(0, m as int));
                assert(other@ =~= self@.subrange(0, m as int));
            }
            return true;
        }
        let tail = m - PREFIX_LENGTH;
        let r = same_bytes(self.suffix.as_slice(), 0, other.suffix.as_slice(), 0, tail);
        proof {
            let s_tail = self.suffix@.subrange(0, tail as int);
            let o_tail = other.suffix@.subrange(0, tail as int);
            assert(self@.subrange(0, m as int) =~= self.prefix@ + s_tail);
            assert(other@ =~= other.prefix@ + o_tail);
            assert(self.prefix@ =~= self.prefix@.subrange(0, head as int));
            assert(other.prefix@ =~= other.prefix@.subrange(0, head as int));
            if other@.is_prefix_of(self@) {
                assert(s_tail =~= self@.subrange(0, m as int).subrange(PREFIX_LENGTH as int, m as int));
                assert(o_tail =~= other@.subrange(PREFIX_LENGTH as int, m as int));
            }
        }
        r
    }

    /// Whether `other` is a prefix of this content, by the same steps as
    /// `starts_with`.
    pub fn starts_with_bytes(&self, other: &[u8]) -> (r: bool)
        ensures
            r == other@.is_prefix_of(self@),
    {
        proof {
            use_type_invariant(self);
            self.lemma_view_len();
        }
        let m = other.len();
        if m > self.len as usize {
            return false;
        }
        let head = if m < PREFIX_LENGTH { m } else { PREFIX_LENGTH };
        if !same_bytes(&self.prefix, 0, other, 0, head) {
            proof {
                assert(self@.subrange(0, head as int) =~= self.prefix@.subrange(0, head as int));
                assert(!other@.is_prefix_of(self@)) by {
                    if other@.is_prefix_of(self@) {
                        assert(self@.subrange(0, head as int) =~= other@.subrange(0, head as int));
                    }
                }
            }
            return false;
        }
        if m <= PREFIX_LENGTH {
            proof {
                assert(self@.subrange(0, m as int) =~= self.prefix@.subrange(0, m as int));
                assert(other@ =~= other@.subrange(0, m as int));
            }
            return true;
        }
        let tail = m - PREFIX_LENGTH;
        let r = same_bytes(self.suffix.as_slice(), 0, other, PREFIX_LENGTH, tail);
        proof {
            let s_tail = self.suffix@.subrange(0, tail as int);
            let o_tail = other@.subrange(PREFIX_LENGTH as int, m as int);
            assert(self@.subrange(0, m as int) =~= self.prefix@ + s_tail);
            assert(other@ =~= other@.subrange(0, PREFIX_LENGTH as int) + o_tail);
            assert(self.prefix@ =~= self.prefix@.subrange(0, head as int));
            assert(other@.subrange(0, PREFIX_LENGTH as int) =~= other@.subrange(0, head as int));
            if other@.is_prefix_of(self@) {
                assert(s_tail =~= self@.subrange(0, m as int).subrange(PREFIX_LENGTH as int, m as int));
            }
        }
        r
    }
}

/// Prefix test of a value against text.
pub trait StartsWithStr {
    /// The bytes that `starts_with` looks at.
    spec fn spec_content(&self) -> Seq<u8>;

    /// Whether the UTF-8 bytes of `other` are a prefix of the content.
    fn starts_with(&self, other: &str) -> (r: bool)
        ensures
            r == other.spec_bytes().is_prefix_of(self.spec_content()),
    ;
}

impl StartsWithStr for Str {
    open spec fn spec_content(&self) -> Seq<u8> {
        self@
    }

    fn starts_with(&self, other: &str) -> (r: bool) {
        self.starts_with_bytes(other.as_bytes())
    }
}

impl PartialEq for Str {
    /// Lengths first, then the inline prefixes, then the two heap suffixes.
    fn eq(&self, other: &Str) -> (r: bool) {
        proof {
            use_type_invariant(self);
            use_type_invariant(other);
            self.lemma_view_len();
            other.lemma_view_len();
        }
        if self.len != other.len {
            return false;
        }
        let n = self.len as usize;
        let head = if n < PREFIX_LENGTH { n } else { PREFIX_LENGTH };
        if !same_bytes(&self.prefix, 0, &other.prefix, 0, head) {
            proof {
                assert(self@.subrange(0, head as int) =~= self.prefix@.subrange(0, head as int));
                assert(other@.subrange(0, head as int) =~= other.prefix@.subrange(0, head as int));
            }
            return false;
        }
        if n <= PREFIX_LENGTH {
            proof { assert(self@ =~= other@); }
            return true;
        }
        let tail = n - PREFIX_LENGTH;
        let r = same_bytes(self.suffix.as_slice(), 0, other.suffix.as_slice(), 0, tail);
        proof {
            let s_tail = self.suffix@.subrange(0, tail as int);
            let o_tail = other.suffix@.subrange(0, tail as int);
            assert(self.prefix@ =~= self.prefix@.subrange(0, head as int));
            assert(other.prefix@ =~= other.prefix@.subrange(0, head as int));
            assert(s_tail =~= self@.subrange(PREFIX_LENGTH as int, n as int));
            assert(o_tail =~= other@.subrange(PREFIX_LENGTH as int, n as int));
            if r {
                assert(self@ =~= other@);
            }
        }
        r
    }
}

impl vstd::std_specs::cmp::PartialEqSpecImpl for Str {
    open spec fn obeys_eq_spec() -> bool {
        true
    }

    /// Two values are equal exactly when their contents are.
    open spec fn eq_spec(&self, other: &Str) -> bool {
        self@ == other@
    }
}

} // verus!
