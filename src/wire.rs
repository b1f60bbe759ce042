//! Response framing on the serial link: the escape byte, response codes,
//! and the doubling of escape-valued payload bytes.
use vstd::prelude::*;

verus! {

/// Marks a frame boundary; a literal payload byte of this value is doubled.
pub const ESCAPE_CHAR: u8 = 0xFC;

pub const RES_PONG: u8 = 0x11;
pub const RES_INTERNAL_ERROR: u8 = 0x13;
pub const RES_BADARGS: u8 = 0x14;
pub const RES_OK: u8 = 0x15;
pub const RES_UNKNOWN: u8 = 0x16;
pub const RES_READ_RANGE: u8 = 0x20;
pub const RES_GET_ATTR: u8 = 0x22;
pub const RES_CRCIF: u8 = 0x23;
pub const RES_INFO: u8 = 0x25;

/// How one payload byte appears on the wire.
pub open spec fn escape_one(b: u8) -> Seq<u8> {
    if b == ESCAPE_CHAR {
        seq![ESCAPE_CHAR, ESCAPE_CHAR]
    } else {
        seq![b]
    }
}

/// How a payload appears on the wire: every escape-valued byte doubled.
pub open spec fn escaped(s: Seq<u8>) -> Seq<u8>
    decreases s.len(),
{
    if s.len() == 0 {
        Seq::empty()
    } else {
        escape_one(s[0]) + escaped(s.drop_first())
    }
}

/// The receiver's reading of an escaped payload: a doubled escape byte
/// stands for one literal escape byte.
pub open spec fn unescaped(t: Seq<u8>) -> Seq<u8>
    decreases t.len(),
{
    if t.len() == 0 {
        Seq::empty()
    } else if t.len() >= 2 && t[0] == ESCAPE_CHAR && t[1] == ESCAPE_CHAR {
        seq![ESCAPE_CHAR] + unescaped(t.subrange(2, t.len() as int))
    } else {
        seq![t[0]] + unescaped(t.drop_first())
    }
}

/// Number of source bytes of `s` that fit when copied escaped into a buffer
/// of `cap` bytes starting at `idx`: a byte is copied only while at least two
/// bytes of the buffer are still free.
pub open spec fn fit_count(s: Seq<u8>, idx: int, cap: int) -> nat
    decreases s.len(),
{
    if s.len() == 0 || idx >= cap - 1 {
        0
    } else {
        1 + fit_count(s.drop_first(), idx + escape_one(s[0]).len(), cap)
    }
}

/// No more bytes are copied than there are, and what is written stays
/// within the buffer.
pub proof fn lemma_fit_le(s: Seq<u8>, idx: int, cap: int)
    requires
        0 <= idx,
    ensures
        fit_count(s, idx, cap) <= s.len(),
        fit_count(s, idx, cap) > 0 ==> idx + escaped(s.take(fit_count(s, idx, cap) as int)).len() <= cap,
    decreases s.len(),
{
    if s.len() > 0 && idx < cap - 1 {
        let w = escape_one(s[0]).len() as int;
        lemma_fit_le(s.drop_first(), idx + w, cap);
        let k = fit_count(s, idx, cap) as int;
        assert(s.take(k).drop_first() =~= s.drop_first().take(k - 1));
        assert(s.take(k)[0] == s[0]);
        assert(escaped(s.take(k)) == escape_one(s[0]) + escaped(s.drop_first().take(k - 1)));
        if k - 1 == 0 {
            assert(s.drop_first().take(0) =~= Seq::<u8>::empty());
        }
    }
}

/// Where the buffer has room for every byte escaped, all of them are copied.
pub proof fn lemma_fit_all(s: Seq<u8>, idx: int, cap: int)
    requires
        idx + 2 * s.len() <= cap,
    ensures
        fit_count(s, idx, cap) == s.len(),
    decreases s.len(),
{
    if s.len() > 0 {
        lemma_fit_all(s.drop_first(), idx + escape_one(s[0]).len(), cap);
    }
}

/// Escaping a payload and then reading it back gives the payload again.
pub proof fn lemma_escape_round_trip(s: Seq<u8>)
    ensures
        unescaped(escaped(s)) == s,
    decreases s.len(),
{
    if s.len() > 0 {
        let t = escaped(s);
        let rest = escaped(s.drop_first());
        lemma_escape_round_trip(s.drop_first());
        if s[0] == ESCAPE_CHAR {
            assert(t.subrange(2, t.len() as int) =~= rest);
        } else {
            assert(t.drop_first() =~= rest);
        }
        assert(unescaped(t) =~= s);
    }
}

/// Escaping one more byte appends its wire form.
pub proof fn lemma_escaped_push(s: Seq<u8>, b: u8)
    ensures
        escaped(s.push(b)) == escaped(s) + escape_one(b),
    decreases s.len(),
{
    if s.len() == 0 {
        assert(s.push(b).drop_first() =~= Seq::<u8>::empty());
        assert(s.push(b)[0] == b);
        assert(escaped(s.push(b)) == escape_one(b) + escaped(s.push(b).drop_first()));
        assert(escaped(s.push(b)) =~= escaped(s) + escape_one(b));
    } else {
        lemma_escaped_push(s.drop_first(), b);
        assert(s.push(b).drop_first() =~= s.drop_first().push(b));
        assert(s.push(b)[0] == s[0]);
        assert(escaped(s.push(b)) == escape_one(s[0]) + escaped(s.drop_first().push(b)));
        assert(escaped(s.push(b)) =~= escaped(s) + escape_one(b));
    }
}

/// The wire form is at most twice as long as the payload.
pub proof fn lemma_escaped_len(s: Seq<u8>)
    ensures
        s.len() <= escaped(s).len() <= 2 * s.len(),
    decreases s.len(),
{
    if s.len() > 0 {
        lemma_escaped_len(s.drop_first());
    }
}

/// Copies `src[start..start + n]` escaped into `buf` from `idx` on, while at
/// least two bytes of `buf` are free. Returns the number of source bytes
/// copied and the index just past the last byte written.
pub fn copy_escaped(buf: &mut Vec<u8>, idx: usize, src: &Vec<u8>, start: usize, n: usize) -> (r: (
    usize,
    usize,
))
    requires
        start + n <= src@.len(),
        idx <= old(buf)@.len(),
    ensures
        ({
            let s = src@.subrange(start as int, start + n);
            let k = fit_count(s, idx as int, old(buf)@.len() as int);
            &&& r.0 == k
            &&& r.0 <= n
            &&& r.1 == idx + escaped(s.take(k as int)).len()
            &&& r.1 <= final(buf)@.len()
            &&& final(buf)@.len() == old(buf)@.len()
            &&& final(buf)@ == old(buf)@.take(idx as int) + escaped(s.take(k as int))
                + old(buf)@.skip(r.1 as int)
        }),
{
    let ghost s = src@.subrange(start as int, start + n);
    let ghost cap = buf@.len() as int;
    let ghost orig = buf@;
    let mut index: usize = idx;
    let mut i: usize = 0;
    let len = buf.len();
    let slen = src.len();
    assert(s.skip(0) =~= s);
    assert(s.take(0) =~= Seq::<u8>::empty());
    assert(buf@ =~= orig.take(idx as int) + escaped(s.take(0)) + orig.skip(idx as int));
    while i < n && len - index >= 2
        invariant
            start + n <= src@.len(),
            s == src@.subrange(start as int, start + n),
            cap == len,
            orig.len() == cap,
            slen == src@.len(),
            buf@.len() == len,
            idx <= index <= len,
            i <= n,
            index == idx + escaped(s.take(i as int)).len(),
            fit_count(s, idx as int, cap) == i + fit_count(s.skip(i as int), index as int, cap),
            buf@ == orig.take(idx as int) + escaped(s.take(i as int)) + orig.skip(index as int),
        decreases n - i,
    {
        let b = src[start + i];
        proof {
            assert(s.skip(i as int).drop_first() =~= s.skip(i as int + 1));
            assert(s[i as int] == b);
            assert(s.take(i as int + 1) =~= s.take(i as int).push(b));
            lemma_escaped_push(s.take(i as int), b);
        }
        let ghost pre = buf@;
        let ghost i0 = index as int;
        let ghost e_old = escaped(s.take(i as int));
        assert(pre.len() == len);
        assert(pre.take(i0) =~= orig.take(idx as int) + e_old);
        if b == ESCAPE_CHAR {
            buf.set(index, ESCAPE_CHAR);
            index += 1;
        }
        buf.set(index, b);
        index += 1;
        i += 1;
        proof {
            let w = escape_one(b).len() as int;
            assert(buf@ =~= pre.take(i0) + escape_one(b) + pre.skip(i0 + w));
            assert(pre.skip(i0 + w) =~= orig.skip(index as int));
            assert(buf@ =~= orig.take(idx as int) + escaped(s.take(i as int)) + orig.skip(
                index as int,
            ));
        }
    }
    proof {
        assert(fit_count(s.skip(i as int), index as int, cap) == 0);
        lemma_escaped_len(s.take(i as int));
        assert(fit_count(s, idx as int, cap) == i);
        assert(buf@.len() == len);
    }
    (i, index)
}

} // verus!
