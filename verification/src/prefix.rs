//! The size prefix of a frame, and the lookup that finds a payload behind it.
//!
//! A payload of length `L` is preceded by the base-128 digits of `L`, most
//! significant digit first and without leading zero digits. Every digit but
//! the last has its high bit set (a continuation byte); the last digit has it
//! clear. With `L < 2^28` a prefix has at most three continuation bytes.

use vstd::prelude::*;

verus! {

/// Payload lengths are below this bound, `2^28`.
pub const MAX_PAYLOAD_LEN: usize = 268435456;

/// A prefix has at most this many bytes, the last of which is no
/// continuation byte.
pub const MAX_PREFIX_LEN: usize = 4;

/// The base-128 digits of `high`, most significant first, each with the
/// continuation bit set. Zero has no digits.
pub open spec fn continuation_bytes(high: nat) -> Seq<u8>
    decreases high,
{
    if high == 0 {
        Seq::empty()
    } else {
        continuation_bytes(high / 128).push((128 + high % 128) as u8)
    }
}

/// The size prefix of a payload of length `len`.
pub open spec fn size_prefix(len: nat) -> Seq<u8> {
    continuation_bytes(len / 128).push((len % 128) as u8)
}

/// The number of bytes in the size prefix of a payload of length `len`,
/// for `len < 2^28`.
pub open spec fn prefix_len(len: nat) -> nat {
    if len < 128 {
        1
    } else if len < 16384 {
        2
    } else if len < 2097152 {
        3
    } else {
        4
    }
}

/// The number that the base-128 digits in `bytes` spell, most significant
/// digit first. The continuation bits do not count.
pub open spec fn prefix_value(bytes: Seq<u8>) -> nat
    decreases bytes.len(),
{
    if bytes.len() == 0 {
        0
    } else {
        prefix_value(bytes.drop_last()) * 128 + (bytes.last() % 128) as nat
    }
}

/// The frame that carries `payload`.
pub open spec fn frame(payload: Seq<u8>) -> Seq<u8> {
    size_prefix(payload.len()) + payload
}

/// What a boundary lookup finds at an offset of a buffer.
pub enum Lookup {
    /// A whole prefix was read; the payload it announces is `[start, end)`.
    /// The range may reach past the end of the buffer.
    Located { start: int, end: int },
    /// The buffer ends before the prefix does.
    Incomplete,
    /// The prefix has a fourth continuation byte.
    Malformed,
}

impl Lookup {
    /// The same outcome, with a located range moved up by `by`.
    pub open spec fn shifted(self, by: int) -> Lookup {
        match self {
            Lookup::Located { start, end } => Lookup::Located { start: start + by, end: end + by },
            Lookup::Incomplete => Lookup::Incomplete,
            Lookup::Malformed => Lookup::Malformed,
        }
    }
}

/// The lookup after `seen` continuation bytes, which have accumulated `acc`,
/// about to read the byte at `at`.
pub open spec fn lookup_from(buf: Seq<u8>, at: int, seen: nat, acc: nat) -> Lookup
    decreases buf.len() - at,
{
    if at < 0 || at >= buf.len() {
        Lookup::Incomplete
    } else if buf[at] < 128 {
        Lookup::Located { start: at + 1, end: at + 1 + acc + buf[at] }
    } else if seen + 1 >= MAX_PREFIX_LEN {
        Lookup::Malformed
    } else {
        lookup_from(buf, at + 1, seen + 1, ((acc + (buf[at] - 128)) * 128) as nat)
    }
}

/// The boundary lookup at offset `pos` of `buf`.
pub open spec fn lookup(buf: Seq<u8>, pos: int) -> Lookup {
    lookup_from(buf, pos, 0, 0)
}

/// The largest value that `seen` continuation bytes can have accumulated.
pub open spec fn acc_bound(seen: nat) -> nat {
    if seen == 0 {
        0
    } else if seen == 1 {
        16256
    } else if seen == 2 {
        2097024
    } else {
        268435328
    }
}

/// The result of [`find_frame`].
#[derive(Debug, Clone, Copy, PartialEq, Eq)]
pub enum Boundary {
    /// A whole prefix was read. The payload it announces starts at `start`
    /// and has `len` bytes, which the buffer may not hold yet.
    Located { start: usize, len: usize },
    /// The buffer ends before the prefix does: more bytes are needed.
    Incomplete,
    /// The prefix has a fourth continuation byte: the stream is corrupt.
    Malformed,
}

impl View for Boundary {
    type V = Lookup;

    open spec fn view(&self) -> Lookup {
        match *self {
            Boundary::Located { start, len } => Lookup::Located {
                start: start as int,
                end: start + len,
            },
            Boundary::Incomplete => Lookup::Incomplete,
            Boundary::Malformed => Lookup::Malformed,
        }
    }
}

/// Looks for a size prefix at offset `pos` of `buf`.
///
/// Reads at most four bytes. A lookup that comes back `Incomplete` has to be
/// made again from the same offset once the buffer has grown.
pub fn find_frame(buf: &[u8], pos: usize) -> (found: Boundary)
    ensures
        found@ == lookup(buf@, pos as int),
        found matches Boundary::Located { start, len } ==> pos < start <= buf@.len() && start
            <= pos + MAX_PREFIX_LEN && len < MAX_PAYLOAD_LEN,
{
    let mut at: usize = pos;
    let mut seen: usize = 0;
    let mut acc: usize = 0;
    while at < buf.len()
        invariant
            pos <= at,
            at == pos + seen,
            seen < MAX_PREFIX_LEN,
            acc <= acc_bound(seen as nat),
            lookup_from(buf@, at as int, seen as nat, acc as nat) == lookup(buf@, pos as int),
        decreases buf.len() - at,
    {
        let byte: u8 = buf[at];
        at = at + 1;
        if byte < 128 {
            return Boundary::Located { start: at, len: acc + byte as usize };
        }
        seen = seen + 1;
        if seen >= MAX_PREFIX_LEN {
            return Boundary::Malformed;
        }
        acc = (acc + (byte - 128) as usize) * 128;
    }
    Boundary::Incomplete
}

/// A located payload starts behind a prefix of one to four bytes that the
/// buffer holds in full, and is shorter than `2^28` bytes.
pub proof fn lemma_lookup_from_located(buf: Seq<u8>, at: int, seen: nat, acc: nat)
    requires
        seen < MAX_PREFIX_LEN,
        acc <= acc_bound(seen),
        lookup_from(buf, at, seen, acc) is Located,
    ensures
        at < lookup_from(buf, at, seen, acc)->start <= buf.len(),
        lookup_from(buf, at, seen, acc)->start <= at + MAX_PREFIX_LEN - seen,
        lookup_from(buf, at, seen, acc)->start <= lookup_from(buf, at, seen, acc)->end,
        lookup_from(buf, at, seen, acc)->end - lookup_from(buf, at, seen, acc)->start
            < MAX_PAYLOAD_LEN,
    decreases buf.len() - at,
{
    if 0 <= at < buf.len() && buf[at] >= 128 && seen + 1 < MAX_PREFIX_LEN {
        lemma_lookup_from_located(
            buf,
            at + 1,
            seen + 1,
            ((acc + (buf[at] - 128)) * 128) as nat,
        );
    }
}

/// A located payload starts behind a prefix of one to four bytes that the
/// buffer holds in full, and is shorter than `2^28` bytes.
pub proof fn lemma_lookup_located(buf: Seq<u8>, pos: int)
    requires
        lookup(buf, pos) is Located,
    ensures
        pos < lookup(buf, pos)->start <= buf.len(),
        lookup(buf, pos)->start <= pos + MAX_PREFIX_LEN,
        lookup(buf, pos)->start <= lookup(buf, pos)->end,
        lookup(buf, pos)->end - lookup(buf, pos)->start < MAX_PAYLOAD_LEN,
{
    lemma_lookup_from_located(buf, pos, 0, 0);
}

/// A located payload is as long as the digits of its prefix spell, and the
/// prefix is made of continuation bytes up to its last byte, which is none.
pub proof fn lemma_lookup_from_value(buf: Seq<u8>, pos: int, at: int, seen: nat, acc: nat)
    requires
        0 <= pos <= at,
        acc == prefix_value(buf.subrange(pos, at)) * 128,
        forall|k: int| pos <= k < at ==> buf[k] >= 128,
        lookup_from(buf, at, seen, acc) is Located,
    ensures
        ({
            let start = lookup_from(buf, at, seen, acc)->start;
            let end = lookup_from(buf, at, seen, acc)->end;
            &&& end - start == prefix_value(buf.subrange(pos, start))
            &&& forall|k: int| pos <= k < start - 1 ==> buf[k] >= 128
            &&& buf[start - 1] < 128
        }),
    decreases buf.len() - at,
{
    assert(buf.subrange(pos, at + 1).drop_last() == buf.subrange(pos, at));
    if buf[at] >= 128 {
        lemma_lookup_from_value(
            buf,
            pos,
            at + 1,
            seen + 1,
            ((acc + (buf[at] - 128)) * 128) as nat,
        );
    }
}

/// A located payload is as long as the digits of its prefix spell, and the
/// prefix is made of continuation bytes up to its last byte, which is none.
pub proof fn lemma_lookup_value(buf: Seq<u8>, pos: int)
    requires
        lookup(buf, pos) is Located,
    ensures
        lookup(buf, pos)->end - lookup(buf, pos)->start == prefix_value(
            buf.subrange(pos, lookup(buf, pos)->start),
        ),
        forall|k: int| pos <= k < lookup(buf, pos)->start - 1 ==> buf[k] >= 128,
        buf[lookup(buf, pos)->start - 1] < 128,
{
    lemma_lookup_from_value(buf, pos, pos, 0, 0);
}

/// A lookup that has come to a decision is not changed by bytes that
/// arrive later.
pub proof fn lemma_lookup_from_extend(buf: Seq<u8>, more: Seq<u8>, at: int, seen: nat, acc: nat)
    requires
        !(lookup_from(buf, at, seen, acc) is Incomplete),
    ensures
        lookup_from(buf + more, at, seen, acc) == lookup_from(buf, at, seen, acc),
    decreases buf.len() - at,
{
    if buf[at] >= 128 && seen + 1 < MAX_PREFIX_LEN {
        lemma_lookup_from_extend(
            buf,
            more,
            at + 1,
            seen + 1,
            ((acc + (buf[at] - 128)) * 128) as nat,
        );
    }
}

/// A lookup that has come to a decision is not changed by bytes that
/// arrive later.
pub proof fn lemma_lookup_extend(buf: Seq<u8>, more: Seq<u8>, pos: int)
    requires
        !(lookup(buf, pos) is Incomplete),
    ensures
        lookup(buf + more, pos) == lookup(buf, pos),
{
    lemma_lookup_from_extend(buf, more, pos, 0, 0);
}

/// A lookup reads nothing before its offset: dropping the first `skip`
/// bytes of the buffer moves the outcome down by `skip`.
pub proof fn lemma_lookup_from_skip(buf: Seq<u8>, skip: int, at: int, seen: nat, acc: nat)
    requires
        0 <= skip <= buf.len(),
        0 <= at,
    ensures
        lookup_from(buf, skip + at, seen, acc) == lookup_from(buf.skip(skip), at, seen, acc).shifted(
            skip,
        ),
    decreases buf.len() - at,
{
    if at < buf.len() - skip {
        if buf[skip + at] >= 128 && seen + 1 < MAX_PREFIX_LEN {
            lemma_lookup_from_skip(
                buf,
                skip,
                at + 1,
                seen + 1,
                ((acc + (buf[skip + at] - 128)) * 128) as nat,
            );
        }
    }
}

/// A lookup reads nothing before its offset: the lookup at `pos` is the
/// lookup at the start of what follows `pos`, moved up by `pos`.
pub proof fn lemma_lookup_skip(buf: Seq<u8>, pos: int)
    requires
        0 <= pos <= buf.len(),
    ensures
        lookup(buf, pos) == lookup(buf.skip(pos), 0).shifted(pos),
{
    lemma_lookup_from_skip(buf, pos, 0, 0, 0);
}

/// A lookup fails as malformed exactly where four continuation bytes stand
/// in a row.
pub proof fn lemma_lookup_malformed(buf: Seq<u8>, pos: int)
    ensures
        lookup(buf, pos) is Malformed <==> 0 <= pos && pos + MAX_PREFIX_LEN <= buf.len() && forall|
            k: int,
        | pos <= k < pos + MAX_PREFIX_LEN ==> buf[k] >= 128,
{
    reveal_with_fuel(lookup_from, 5);
}

/// A lookup is incomplete exactly where fewer than four bytes follow the
/// offset and all of them are continuation bytes.
pub proof fn lemma_lookup_incomplete(buf: Seq<u8>, pos: int)
    ensures
        lookup(buf, pos) is Incomplete <==> pos < 0 || (buf.len() - pos < MAX_PREFIX_LEN && forall|
            k: int,
        | pos <= k < buf.len() ==> buf[k] >= 128),
{
    reveal_with_fuel(lookup_from, 5);
}

/// The digits of a size prefix spell the length that it was made for.
pub proof fn lemma_size_prefix_value(len: nat)
    ensures
        prefix_value(continuation_bytes(len)) == len,
        prefix_value(size_prefix(len)) == len,
    decreases len,
{
    if len > 0 {
        lemma_size_prefix_value(len / 128);
        assert(continuation_bytes(len).drop_last() == continuation_bytes(len / 128));
    }
    assert(size_prefix(len).drop_last() == continuation_bytes(len / 128));
}

/// The size prefix is minimal: one byte below `2^7`, two below `2^14`, three
/// below `2^21`, four below `2^28`. Its last byte has the high bit clear and
/// every byte before it has the high bit set.
pub proof fn lemma_size_prefix_shape(len: nat)
    requires
        len < MAX_PAYLOAD_LEN,
    ensures
        size_prefix(len).len() == prefix_len(len),
        size_prefix(len).last() < 128,
        forall|k: int| 0 <= k < prefix_len(len) - 1 ==> size_prefix(len)[k] >= 128,
{
    reveal_with_fuel(continuation_bytes, 4);
}

/// The lookup inverts the size prefix: at the start of a prefix for `len`,
/// whatever follows it, the lookup locates `len` bytes right behind it.
pub proof fn lemma_lookup_size_prefix(len: nat, tail: Seq<u8>)
    requires
        len < MAX_PAYLOAD_LEN,
    ensures
        lookup(size_prefix(len) + tail, 0) == (Lookup::Located {
            start: prefix_len(len) as int,
            end: (prefix_len(len) + len) as int,
        }),
{
    reveal_with_fuel(continuation_bytes, 4);
    reveal_with_fuel(lookup_from, 5);
    let prefix = size_prefix(len);
    assert forall|k: int| 0 <= k < prefix.len() implies (prefix + tail)[k] == prefix[k] by {}
}

} // verus!
