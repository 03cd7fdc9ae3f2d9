//! Checksums, timestamps and line-oriented reading of byte buffers.
use vstd::prelude::*;

verus! {

/// The reflected CRC-32 polynomial (IEEE 802.3).
pub const CRC32_POLY: u32 = 0xEDB8_8320u32;

/// One bit of the reflected CRC-32 division.
pub open spec fn crc_shift(x: u32) -> u32 {
    if x & 1u32 == 1u32 {
        (x >> 1u32) ^ 0xEDB8_8320u32
    } else {
        x >> 1u32
    }
}

/// The register after one input byte has been absorbed.
pub open spec fn crc_byte(state: u32, byte: u8) -> u32 {
    let x0 = state ^ (byte as u32);
    let x1 = crc_shift(x0);
    let x2 = crc_shift(x1);
    let x3 = crc_shift(x2);
    let x4 = crc_shift(x3);
    let x5 = crc_shift(x4);
    let x6 = crc_shift(x5);
    let x7 = crc_shift(x6);
    crc_shift(x7)
}

/// The register after `data` has been absorbed, starting from `state`.
pub open spec fn crc_feed(state: u32, data: Seq<u8>) -> u32
    decreases data.len(),
{
    if data.len() == 0 {
        state
    } else {
        crc_byte(crc_feed(state, data.drop_last()), data.last())
    }
}

/// CRC-32 of `data`: all-ones initial register, all-ones final xor.
pub open spec fn checksum_spec(data: Seq<u8>) -> u32 {
    crc_feed(0xFFFF_FFFFu32, data) ^ 0xFFFF_FFFFu32
}

/// Absorbing a concatenation is absorbing its parts in turn.
pub proof fn lemma_crc_feed_concat(state: u32, a: Seq<u8>, b: Seq<u8>)
    ensures
        crc_feed(state, a + b) == crc_feed(crc_feed(state, a), b),
    decreases b.len(),
{
    if b.len() == 0 {
        assert(a + b =~= a);
    } else {
        lemma_crc_feed_concat(state, a, b.drop_last());
        assert((a + b).drop_last() =~= a + b.drop_last());
        assert((a + b).last() == b.last());
    }
}

/// One bit of the division sends different registers to different registers.
pub proof fn lemma_crc_shift_injective(x: u32, y: u32)
    requires
        crc_shift(x) == crc_shift(y),
    ensures
        x == y,
{
    assert((if x & 1u32 == 1u32 {
        (x >> 1u32) ^ 0xEDB8_8320u32
    } else {
        x >> 1u32
    }) == (if y & 1u32 == 1u32 {
        (y >> 1u32) ^ 0xEDB8_8320u32
    } else {
        y >> 1u32
    }) ==> x == y) by (bit_vector);
}

/// Absorbing a byte sends different registers, and different bytes, to
/// different registers.
pub proof fn lemma_crc_byte_injective(s1: u32, b1: u8, s2: u32, b2: u8)
    requires
        crc_byte(s1, b1) == crc_byte(s2, b2),
    ensures
        s1 == s2 ==> b1 == b2,
        b1 == b2 ==> s1 == s2,
{
    let x0 = s1 ^ (b1 as u32);
    let x1 = crc_shift(x0);
    let x2 = crc_shift(x1);
    let x3 = crc_shift(x2);
    let x4 = crc_shift(x3);
    let x5 = crc_shift(x4);
    let x6 = crc_shift(x5);
    let x7 = crc_shift(x6);
    let y0 = s2 ^ (b2 as u32);
    let y1 = crc_shift(y0);
    let y2 = crc_shift(y1);
    let y3 = crc_shift(y2);
    let y4 = crc_shift(y3);
    let y5 = crc_shift(y4);
    let y6 = crc_shift(y5);
    let y7 = crc_shift(y6);
    lemma_crc_shift_injective(x7, y7);
    lemma_crc_shift_injective(x6, y6);
    lemma_crc_shift_injective(x5, y5);
    lemma_crc_shift_injective(x4, y4);
    lemma_crc_shift_injective(x3, y3);
    lemma_crc_shift_injective(x2, y2);
    lemma_crc_shift_injective(x1, y1);
    lemma_crc_shift_injective(x0, y0);
    assert(s1 ^ (b1 as u32) == s1 ^ (b2 as u32) ==> b1 == b2) by (bit_vector);
    assert(s1 ^ (b1 as u32) == s2 ^ (b1 as u32) ==> s1 == s2) by (bit_vector);
}

/// Absorbing the same bytes keeps different registers different.
pub proof fn lemma_crc_feed_injective(s1: u32, s2: u32, data: Seq<u8>)
    requires
        s1 != s2,
    ensures
        crc_feed(s1, data) != crc_feed(s2, data),
    decreases data.len(),
{
    if data.len() > 0 {
        lemma_crc_feed_injective(s1, s2, data.drop_last());
        if crc_feed(s1, data) == crc_feed(s2, data) {
            lemma_crc_byte_injective(
                crc_feed(s1, data.drop_last()),
                data.last(),
                crc_feed(s2, data.drop_last()),
                data.last(),
            );
        }
    }
}

/// The checksum tells every change of a single byte: bytes that differ from
/// `data` at one place, and nowhere else, have another checksum.
pub proof fn lemma_checksum_detects_byte(data: Seq<u8>, i: int, b: u8)
    requires
        0 <= i < data.len(),
        b != data[i],
    ensures
        checksum_spec(data.update(i, b)) != checksum_spec(data),
{
    let init = 0xFFFF_FFFFu32;
    let pre = data.take(i);
    let post = data.skip(i + 1);
    let mid = crc_feed(init, pre);
    assert(data =~= pre.push(data[i]) + post);
    assert(data.update(i, b) =~= pre.push(b) + post);
    assert(pre.push(data[i]).drop_last() =~= pre);
    assert(pre.push(b).drop_last() =~= pre);
    lemma_crc_feed_concat(init, pre.push(data[i]), post);
    lemma_crc_feed_concat(init, pre.push(b), post);
    let was = crc_byte(mid, data[i]);
    let now = crc_byte(mid, b);
    if was == now {
        lemma_crc_byte_injective(mid, data[i], mid, b);
    }
    lemma_crc_feed_injective(was, now, post);
    let x = crc_feed(was, post);
    let y = crc_feed(now, post);
    assert(x ^ 0xFFFF_FFFFu32 == y ^ 0xFFFF_FFFFu32 ==> x == y) by (bit_vector);
}

fn crc_shift_exec(x: u32) -> (r: u32)
    ensures
        r == crc_shift(x),
{
    if x & 1u32 == 1u32 {
        (x >> 1u32) ^ CRC32_POLY
    } else {
        x >> 1u32
    }
}

/// Absorbs `data` into the register `state`.
pub fn crc_update(state: u32, data: &[u8]) -> (r: u32)
    ensures
        r == crc_feed(state, data@),
{
    let mut reg: u32 = state;
    let mut i: usize = 0;
    while i < data.len()
        invariant
            i <= data.len(),
            reg == crc_feed(state, data@.take(i as int)),
        decreases data.len() - i,
    {
        let mut x: u32 = reg ^ (data[i] as u32);
        x = crc_shift_exec(x);
        x = crc_shift_exec(x);
        x = crc_shift_exec(x);
        x = crc_shift_exec(x);
        x = crc_shift_exec(x);
        x = crc_shift_exec(x);
        x = crc_shift_exec(x);
        x = crc_shift_exec(x);
        proof {
            assert(data@.take(i + 1).drop_last() =~= data@.take(i as int));
            assert(data@.take(i + 1).last() == data@[i as int]);
        }
        reg = x;
        i = i + 1;
    }
    proof {
        assert(data@.take(i as int) =~= data@);
    }
    reg
}

/// CRC-32 (IEEE) of `data`.
pub fn checksum(data: &[u8]) -> (r: u32)
    ensures
        r == checksum_spec(data@),
{
    crc_update(0xFFFF_FFFFu32, data) ^ 0xFFFF_FFFFu32
}


/// Line feed, the byte that ends a line.
pub const LF: u8 = 10u8;

/// Carriage return, dropped when it stands directly before a line feed.
pub const CR: u8 = 13u8;

/// The length of the longest prefix of `s` that holds no line feed.
pub open spec fn line_end(s: Seq<u8>) -> nat
    decreases s.len(),
{
    if s.len() == 0 || s[0] == LF {
        0
    } else {
        1 + line_end(s.skip(1))
    }
}

/// `s` without one trailing carriage return.
pub open spec fn strip_cr(s: Seq<u8>) -> Seq<u8> {
    if s.len() > 0 && s.last() == CR {
        s.drop_last()
    } else {
        s
    }
}

/// The first line of `input` and what follows it, or `None` at the end of
/// the input. A line ends with a line feed, which is dropped together with a
/// carriage return before it; an unterminated last line is handed out as it is.
pub open spec fn read_line(input: Seq<u8>) -> Option<(Seq<u8>, Seq<u8>)> {
    if input.len() == 0 {
        None
    } else {
        let n = line_end(input) as int;
        if n < input.len() {
            Some((strip_cr(input.take(n)), input.skip(n + 1)))
        } else {
            Some((input, Seq::<u8>::empty()))
        }
    }
}

/// A position with no line feed before it, and a line feed or the end at it,
/// is the end of the first line.
pub proof fn lemma_line_end_unique(s: Seq<u8>, n: int)
    requires
        0 <= n <= s.len(),
        forall|j: int| 0 <= j < n ==> s[j] != LF,
        n == s.len() || s[n] == LF,
    ensures
        line_end(s) == n,
    decreases n,
{
    if n > 0 {
        let t = s.skip(1);
        assert forall|j: int| 0 <= j < n - 1 implies t[j] != LF by {
            assert(t[j] == s[j + 1]);
        }
        lemma_line_end_unique(t, n - 1);
    }
}

/// The first line of a non-empty input takes at least one byte from it.
pub proof fn lemma_read_line_consumes(input: Seq<u8>)
    ensures
        match read_line(input) {
            Some((line, rest)) => rest.len() < input.len(),
            None => input.len() == 0,
        },
{
}

/// A cursor over a byte buffer that hands out lines and counted blocks.
pub struct ByteLineReader {
    data: Vec<u8>,
    pos: usize,
}

impl View for ByteLineReader {
    type V = Seq<u8>;

    /// The bytes not yet handed out.
    closed spec fn view(&self) -> Seq<u8> {
        self.data@.skip(self.pos as int)
    }
}

impl ByteLineReader {
    #[verifier::type_invariant]
    spec fn in_bounds(&self) -> bool {
        self.pos <= self.data@.len()
    }

    /// A reader positioned at the start of a copy of `input`.
    pub fn new(input: &[u8]) -> (r: Self)
        ensures
            r@ == input@,
    {
        let data = vstd::slice::slice_to_vec(input);
        assert(data@.skip(0) =~= data@);
        ByteLineReader { data, pos: 0 }
    }

    /// The number of bytes not yet handed out.
    pub fn remaining(&self) -> (n: usize)
        ensures
            n == self@.len(),
    {
        proof {
            use_type_invariant(self);
        }
        self.data.len() - self.pos
    }

    /// Hands out the next line, without its terminator.
    pub fn next_line(&mut self) -> (line: Option<Vec<u8>>)
        ensures
            match read_line(old(self)@) {
                Some((text, rest)) => line.is_some() && line.unwrap()@ == text && final(self)@
                    == rest,
                None => line.is_none() && final(self)@ == old(self)@,
            },
    {
        proof {
            use_type_invariant(&*self);
        }
        let start: usize = self.pos;
        let len: usize = self.data.len();
        if start == len {
            return None;
        }
        let ghost input = self@;
        let mut end: usize = start;
        while end < len && self.data[end] != LF
            invariant
                start <= end <= len,
                len == self.data@.len(),
                self.pos == start,
                input == self.data@.skip(start as int),
                forall|j: int| 0 <= j < end - start ==> input[j] != LF,
            decreases len - end,
        {
            end = end + 1;
        }
        proof {
            lemma_line_end_unique(input, end - start);
        }
        if end < len {
            let mut stop: usize = end;
            if stop > start && self.data[stop - 1] == CR {
                stop = stop - 1;
            }
            let text = vstd::slice::slice_to_vec(
                vstd::slice::slice_subrange(self.data.as_slice(), start, stop),
            );
            proof {
                let raw = input.take(end - start);
                assert(raw =~= self.data@.subrange(start as int, end as int));
                assert(text@ =~= strip_cr(raw));
                assert(self.data@.skip(end + 1) =~= input.skip(end - start + 1));
            }
            self.pos = end + 1;
            Some(text)
        } else {
            let text = vstd::slice::slice_to_vec(
                vstd::slice::slice_subrange(self.data.as_slice(), start, len),
            );
            proof {
                assert(text@ =~= input);
                assert(self.data@.skip(len as int) =~= Seq::<u8>::empty());
            }
            self.pos = len;
            Some(text)
        }
    }

    /// Skips whatever is left of the input.
    pub fn skip_to_end(&mut self)
        ensures
            final(self)@ == Seq::<u8>::empty(),
    {
        let len: usize = self.data.len();
        proof {
            assert(self.data@.skip(len as int) =~= Seq::<u8>::empty());
        }
        self.pos = len;
    }

    /// Hands out the next `n` bytes. When fewer are left, hands out nothing
    /// and skips to the end of the input.
    pub fn read_exact(&mut self, n: usize) -> (block: Option<Vec<u8>>)
        ensures
            n <= old(self)@.len() ==> block.is_some() && block.unwrap()@ == old(self)@.take(
                n as int,
            ) && final(self)@ == old(self)@.skip(n as int),
            n > old(self)@.len() ==> block.is_none() && final(self)@ == Seq::<u8>::empty(),
    {
        proof {
            use_type_invariant(&*self);
        }
        let start: usize = self.pos;
        let len: usize = self.data.len();
        if n <= len - start {
            let block = vstd::slice::slice_to_vec(
                vstd::slice::slice_subrange(self.data.as_slice(), start, start + n),
            );
            proof {
                assert(block@ =~= self@.take(n as int));
                assert(self.data@.skip(start + n) =~= self@.skip(n as int));
            }
            self.pos = start + n;
            Some(block)
        } else {
            proof {
                assert(self.data@.skip(len as int) =~= Seq::<u8>::empty());
            }
            self.pos = len;
            None
        }
    }
}


/// `std::time::SystemTime`, carried through as an opaque value.
#[verifier::external_type_specification]
#[verifier::external_body]
pub struct ExSystemTime(std::time::SystemTime);

/// Calls `SystemTime::now`. Nothing is claimed of the clock.
#[verifier::external_body]
fn system_time_now() -> (now: std::time::SystemTime) {
    std::time::SystemTime::now()
}

/// Calls `SystemTime::duration_since` with `UNIX_EPOCH`; `None` stands for
/// its error, a clock set before the epoch.
#[verifier::external_body]
fn since_unix_epoch(t: &std::time::SystemTime) -> (elapsed: Option<core::time::Duration>) {
    match t.duration_since(std::time::UNIX_EPOCH) {
        Ok(elapsed) => Some(elapsed),
        Err(_) => None,
    }
}

/// Calls `Duration::as_secs`. Nothing is claimed of the number.
#[verifier::external_body]
fn whole_seconds(elapsed: &core::time::Duration) -> (secs: u64) {
    elapsed.as_secs()
}

/// The timestamp that stands for `secs` seconds since the epoch: the same
/// number, or the largest timestamp when it does not fit.
pub open spec fn timestamp_of(secs: u64) -> u32 {
    if secs > u32::MAX {
        u32::MAX
    } else {
        secs as u32
    }
}

/// Narrows a count of seconds to a timestamp.
pub fn timestamp_from_secs(secs: u64) -> (t: u32)
    ensures
        t == timestamp_of(secs),
{
    if secs > 4294967295u64 {
        u32::MAX
    } else {
        secs as u32
    }
}

/// The current time in whole seconds since the Unix epoch; zero when the
/// clock stands before the epoch.
pub fn current_timestamp() -> u32 {
    let now = system_time_now();
    match since_unix_epoch(&now) {
        Some(elapsed) => timestamp_from_secs(whole_seconds(&elapsed)),
        None => 0,
    }
}


/// Whether `b` is an ASCII decimal digit.
pub open spec fn is_digit(b: u8) -> bool {
    48 <= b <= 57
}

/// Whether `d` holds ASCII decimal digits only.
pub open spec fn all_digits(d: Seq<u8>) -> bool {
    forall|i: int| 0 <= i < d.len() ==> is_digit(#[trigger] d[i])
}

/// The number that the decimal digits `d` write.
pub open spec fn digits_value(d: Seq<u8>) -> int
    decreases d.len(),
{
    if d.len() == 0 {
        0
    } else {
        digits_value(d.drop_last()) * 10 + (d.last() - 48)
    }
}

/// The digits up to any place write no more than all of them.
pub proof fn lemma_digits_prefix(d: Seq<u8>, n: int)
    requires
        all_digits(d),
        0 <= n <= d.len(),
    ensures
        0 <= digits_value(d.take(n)) <= digits_value(d),
    decreases d.len() - n,
{
    if n == d.len() {
        assert(d.take(n) =~= d);
        lemma_digits_nonnegative(d);
    } else {
        lemma_digits_prefix(d, n + 1);
        let longer = d.take(n + 1);
        assert(longer.drop_last() =~= d.take(n));
        assert(is_digit(d[n]));
        assert(longer.last() == d[n]);
        lemma_digits_nonnegative(d.take(n));
    }
}

/// Digits write no negative number.
pub proof fn lemma_digits_nonnegative(d: Seq<u8>)
    requires
        all_digits(d),
    ensures
        0 <= digits_value(d),
    decreases d.len(),
{
    if d.len() > 0 {
        assert(is_digit(d[d.len() - 1]));
        lemma_digits_nonnegative(d.drop_last());
    }
}

} // verus!
