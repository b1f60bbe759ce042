//! Where things live in flash: the metadata page with the version string,
//! and the attribute slots.
use vstd::prelude::*;

verus! {

/// Page holding the bootloader metadata.
pub const INFO_PAGE: usize = 2;

/// Byte offset of the version string within the metadata page.
pub const VERSION_OFFSET: usize = 14;

/// Longest version string.
pub const VERSION_MAX: usize = 8;

/// First page of attribute storage.
pub const ATTR_FIRST_PAGE: usize = 3;

/// Attribute slots in one page.
pub const ATTRS_PER_PAGE: usize = 8;

/// Size of one attribute slot.
pub const RECORD_LEN: usize = 64;

/// Size of an attribute key.
pub const KEY_LEN: usize = 8;

/// Longest attribute value.
pub const VALUE_MAX: usize = 55;

pub open spec fn attr_page(index: u8) -> nat {
    (ATTR_FIRST_PAGE + index / 8) as nat
}

pub open spec fn attr_offset(index: u8) -> nat {
    ((index % 8) * 64) as nat
}

/// The page that holds attribute slot `index`.
pub fn attribute_page(index: u8) -> (r: usize)
    ensures
        r == attr_page(index),
{
    ATTR_FIRST_PAGE + (index as usize) / ATTRS_PER_PAGE
}

/// The byte offset of attribute slot `index` within its page.
pub fn attribute_offset(index: u8) -> (r: usize)
    ensures
        r == attr_offset(index),
        r + RECORD_LEN <= ATTRS_PER_PAGE * RECORD_LEN,
{
    ((index as usize) % ATTRS_PER_PAGE) * RECORD_LEN
}

/// The 64-byte record of an attribute: the key, the value's length, and the
/// value padded with zeros.
pub open spec fn record(key: Seq<u8>, value: Seq<u8>) -> Seq<u8> {
    key + seq![value.len() as u8] + value + Seq::new((VALUE_MAX - value.len()) as nat, |j: int| 0u8)
}

/// Byte `j` of a value padded with zeros.
pub open spec fn padded_at(value: Seq<u8>, j: int) -> u8 {
    if j < value.len() {
        value[j]
    } else {
        0u8
    }
}

/// Writes the record of (`key`, `value`) into the first 64 bytes of `buf`.
pub fn stage_record(buf: &mut Vec<u8>, key: &Vec<u8>, value: &Vec<u8>)
    requires
        key@.len() == KEY_LEN,
        value@.len() <= VALUE_MAX,
        old(buf)@.len() >= RECORD_LEN,
    ensures
        final(buf)@.len() == old(buf)@.len(),
        final(buf)@.take(RECORD_LEN as int) == record(key@, value@),
        final(buf)@.skip(RECORD_LEN as int) == old(buf)@.skip(RECORD_LEN as int),
{
    let ghost orig = buf@;
    let mut i: usize = 0;
    while i < KEY_LEN
        invariant
            i <= KEY_LEN,
            key@.len() == KEY_LEN,
            buf@.len() == orig.len(),
            orig.len() >= RECORD_LEN,
            forall|j: int| 0 <= j < i ==> buf@[j] == key@[j],
            forall|j: int| i <= j < orig.len() ==> buf@[j] == orig[j],
        decreases KEY_LEN - i,
    {
        buf.set(i, key[i]);
        i += 1;
    }
    buf.set(KEY_LEN, value.len() as u8);
    let mut i: usize = 0;
    while i < VALUE_MAX
        invariant
            i <= VALUE_MAX,
            key@.len() == KEY_LEN,
            value@.len() <= VALUE_MAX,
            buf@.len() == orig.len(),
            orig.len() >= RECORD_LEN,
            forall|j: int| 0 <= j < KEY_LEN ==> buf@[j] == key@[j],
            buf@[KEY_LEN as int] == value@.len() as u8,
            forall|j: int| 9 <= j < 9 + i ==> buf@[j] == padded_at(value@, j - 9),
            forall|j: int| KEY_LEN + 1 + i <= j < orig.len() ==> buf@[j] == orig[j],
        decreases VALUE_MAX - i,
    {
        if i < value.len() {
            buf.set(KEY_LEN + 1 + i, value[i]);
        } else {
            buf.set(KEY_LEN + 1 + i, 0);
        }
        i += 1;
    }
    let ghost rec = record(key@, value@);
    assert forall|j: int| 0 <= j < RECORD_LEN implies buf@[j] == rec[j] by {
        if j >= 9 {
            assert(buf@[j] == padded_at(value@, j - 9));
        }
    }
    assert(buf@.take(RECORD_LEN as int) =~= rec);
    assert(buf@.skip(RECORD_LEN as int) =~= orig.skip(RECORD_LEN as int));
}

/// Length of the version string stored in a metadata page, counted from
/// entry `k` on: it ends at the first zero byte, after eight bytes, or at the
/// end of the page.
pub open spec fn version_run(page: Seq<u8>, k: nat) -> nat
    decreases VERSION_MAX - k,
{
    if k < VERSION_MAX && VERSION_OFFSET + k < page.len() && page[VERSION_OFFSET + k] != 0 {
        version_run(page, k + 1)
    } else {
        k
    }
}

/// Length of the version string stored in a metadata page.
pub open spec fn version_len(page: Seq<u8>) -> nat {
    version_run(page, 0)
}

/// The version string is at most eight bytes and lies within the page.
pub proof fn lemma_version_len(page: Seq<u8>)
    ensures
        version_len(page) <= VERSION_MAX,
        VERSION_OFFSET + version_len(page) <= page.len() || version_len(page) == 0,
{
    lemma_version_run(page, 0);
}

proof fn lemma_version_run(page: Seq<u8>, k: nat)
    requires
        k <= VERSION_MAX,
        k == 0 || VERSION_OFFSET + k <= page.len(),
    ensures
        k <= version_run(page, k) <= VERSION_MAX,
        VERSION_OFFSET + version_run(page, k) <= page.len() || version_run(page, k) == 0,
    decreases VERSION_MAX - k,
{
    if k < VERSION_MAX && VERSION_OFFSET + k < page.len() && page[VERSION_OFFSET + k] != 0 {
        lemma_version_run(page, k + 1);
    }
}

} // verus!
