//! Fixed-size pages of a persisted B+ tree. A page holds one node: a type
//! byte, the length of the node's serialized data as four little-endian
//! bytes, the data, and zeros up to the page size. A tree file starts with
//! the root page's offset as eight little-endian bytes.
use vstd::prelude::*;
use crate::error::IronBaseError;
use crate::limits::NODE_PAGE_SIZE;
use crate::text::{concat2, decimal, u64_text};

verus! {

/// Type byte of an internal node's page.
pub const NODE_TYPE_INTERNAL: u8 = 0;

/// Type byte of a leaf's page.
pub const NODE_TYPE_LEAF: u8 = 1;

/// Little-endian bytes of a 32-bit number.
pub open spec fn le32(n: u32) -> Seq<u8> {
    seq![(n & 0xff) as u8, ((n >> 8u32) & 0xff) as u8, ((n >> 16u32) & 0xff) as u8, ((n >> 24u32) & 0xff) as u8]
}

/// The 32-bit number of four little-endian bytes.
pub open spec fn le32_value(b: Seq<u8>) -> u32 {
    (b[0] as u32) | ((b[1] as u32) << 8u32) | ((b[2] as u32) << 16u32) | ((b[3] as u32) << 24u32)
}

/// Little-endian bytes of a 64-bit number.
pub open spec fn le64(n: u64) -> Seq<u8> {
    seq![
        (n & 0xff) as u8,
        ((n >> 8u64) & 0xff) as u8,
        ((n >> 16u64) & 0xff) as u8,
        ((n >> 24u64) & 0xff) as u8,
        ((n >> 32u64) & 0xff) as u8,
        ((n >> 40u64) & 0xff) as u8,
        ((n >> 48u64) & 0xff) as u8,
        ((n >> 56u64) & 0xff) as u8,
    ]
}

/// The 64-bit number of eight little-endian bytes.
pub open spec fn le64_value(b: Seq<u8>) -> u64 {
    (b[0] as u64) | ((b[1] as u64) << 8u64) | ((b[2] as u64) << 16u64) | ((b[3] as u64) << 24u64) | ((b[4] as u64)
        << 32u64) | ((b[5] as u64) << 40u64) | ((b[6] as u64) << 48u64) | ((b[7] as u64) << 56u64)
}

/// The page of a node of type `t` whose serialized data is `data`.
pub open spec fn page_of(t: u8, data: Seq<u8>) -> Seq<u8> {
    seq![t] + le32(data.len() as u32) + data + Seq::new((NODE_PAGE_SIZE - 5 - data.len()) as nat, |i: int| 0u8)
}

/// Length of the data a page says it holds.
pub open spec fn page_data_len(page: Seq<u8>) -> int {
    le32_value(page.subrange(1, 5)) as int
}

/// The page of a node: refused with an `IndexError` when the data does not
/// fit in a page beside the five header bytes.
pub fn encode_node_page(node_type: u8, data: &[u8]) -> (res: Result<Vec<u8>, IronBaseError>)
    ensures
        res is Err <==> data@.len() > NODE_PAGE_SIZE - 5,
        res matches Err(e) ==> e is IndexError && e.message() == "Node size "@ + decimal(data@.len() as int)
            + " exceeds page size "@ + decimal(NODE_PAGE_SIZE - 5),
        res matches Ok(p) ==> p@ == page_of(node_type, data@),
{
    let len = data.len();
    if len > NODE_PAGE_SIZE - 5 {
        let mut m = concat2("Node size ", u64_text(len as u64).as_str());
        m.append(" exceeds page size ");
        m.append(u64_text((NODE_PAGE_SIZE - 5) as u64).as_str());
        return Err(IronBaseError::IndexError(m));
    }
    let n = len as u32;
    let mut page: Vec<u8> = Vec::new();
    page.push(node_type);
    page.push((n & 0xff) as u8);
    page.push(((n >> 8u32) & 0xff) as u8);
    page.push(((n >> 16u32) & 0xff) as u8);
    page.push(((n >> 24u32) & 0xff) as u8);
    let ghost head = seq![node_type] + le32(n);
    assert(page@ =~= head);
    let mut i: usize = 0;
    while i < len
        invariant
            len == data@.len(),
            i <= len,
            page@ == head + data@.take(i as int),
        decreases len - i,
    {
        page.push(data[i]);
        assert(data@.take(i + 1) =~= data@.take(i as int).push(data@[i as int]));
        i = i + 1;
    }
    assert(data@.take(len as int) =~= data@);
    let ghost body = head + data@;
    while page.len() < NODE_PAGE_SIZE
        invariant
            body.len() == 5 + len,
            len <= NODE_PAGE_SIZE - 5,
            body.len() <= page@.len() <= NODE_PAGE_SIZE,
            page@ == body + Seq::new((page@.len() - body.len()) as nat, |i: int| 0u8),
        decreases NODE_PAGE_SIZE - page@.len(),
    {
        let ghost before = page@;
        page.push(0u8);
        assert(page@ =~= body + Seq::new((page@.len() - body.len()) as nat, |i: int| 0u8));
    }
    assert(page@ =~= page_of(node_type, data@));
    Ok(page)
}

/// The type byte and data of a page.
pub fn decode_node_page(page: &[u8]) -> (res: (u8, Vec<u8>))
    requires
        page@.len() >= 5,
        5 + page_data_len(page@) <= page@.len(),
    ensures
        res.0 == page@[0],
        res.1@ == page@.subrange(5, 5 + page_data_len(page@)),
{
    let b1 = page[1] as u32;
    let b2 = page[2] as u32;
    let b3 = page[3] as u32;
    let b4 = page[4] as u32;
    let len = (b1 | (b2 << 8u32) | (b3 << 16u32) | (b4 << 24u32)) as usize;
    proof {
        let h = page@.subrange(1, 5);
        assert(h[0] == page@[1] && h[1] == page@[2] && h[2] == page@[3] && h[3] == page@[4]);
        assert(len == page_data_len(page@));
    }
    let plen = page.len();
    let mut data: Vec<u8> = Vec::new();
    let mut i: usize = 0;
    while i < len
        invariant
            plen == page@.len(),
            len == page_data_len(page@),
            5 + len <= page@.len(),
            i <= len,
            data@ == page@.subrange(5, 5 + i),
        decreases len - i,
    {
        data.push(page[5 + i]);
        assert(page@.subrange(5, 5 + i + 1) =~= page@.subrange(5, 5 + i).push(page@[5 + i]));
        i = i + 1;
    }
    (page[0], data)
}

/// That a page's type byte names the kind of node read from it; a
/// `Corruption` error naming the page's offset when it does not.
pub fn check_node_type(node_type: u8, is_internal: bool, offset: u64) -> (res: Result<(), IronBaseError>)
    ensures
        res is Ok <==> (if is_internal {
            node_type == NODE_TYPE_INTERNAL
        } else {
            node_type == NODE_TYPE_LEAF
        }),
        res matches Err(e) ==> e is Corruption && e.message() == "Node type mismatch at offset "@ + decimal(
            offset as int,
        ),
{
    let expected = if is_internal {
        NODE_TYPE_INTERNAL
    } else {
        NODE_TYPE_LEAF
    };
    if node_type == expected {
        Ok(())
    } else {
        Err(IronBaseError::Corruption(concat2("Node type mismatch at offset ", u64_text(offset).as_str())))
    }
}

/// The eight header bytes of a tree file: the root page's offset.
pub fn encode_root_offset(offset: u64) -> (b: Vec<u8>)
    ensures
        b@ == le64(offset),
{
    let mut b: Vec<u8> = Vec::new();
    b.push((offset & 0xff) as u8);
    b.push(((offset >> 8u64) & 0xff) as u8);
    b.push(((offset >> 16u64) & 0xff) as u8);
    b.push(((offset >> 24u64) & 0xff) as u8);
    b.push(((offset >> 32u64) & 0xff) as u8);
    b.push(((offset >> 40u64) & 0xff) as u8);
    b.push(((offset >> 48u64) & 0xff) as u8);
    b.push(((offset >> 56u64) & 0xff) as u8);
    assert(b@ =~= le64(offset));
    b
}

/// The root page's offset that a tree file's first eight bytes hold.
pub fn decode_root_offset(header: &[u8]) -> (offset: u64)
    requires
        header@.len() >= 8,
    ensures
        offset == le64_value(header@),
{
    (header[0] as u64) | ((header[1] as u64) << 8u64) | ((header[2] as u64) << 16u64) | ((header[3] as u64)
        << 24u64) | ((header[4] as u64) << 32u64) | ((header[5] as u64) << 40u64) | ((header[6] as u64) << 48u64)
        | ((header[7] as u64) << 56u64)
}

/// Reading a page back gives the node type and data it was written with.
pub proof fn lemma_page_roundtrip(t: u8, data: Seq<u8>)
    requires
        data.len() <= NODE_PAGE_SIZE - 5,
    ensures
        page_of(t, data).len() == NODE_PAGE_SIZE,
        page_of(t, data)[0] == t,
        page_data_len(page_of(t, data)) == data.len(),
        page_of(t, data).subrange(5, 5 + data.len() as int) == data,
{
    let p = page_of(t, data);
    let n = data.len() as u32;
    let h = p.subrange(1, 5);
    assert(h =~= le32(n));
    lemma_le32_roundtrip(n);
    assert(p.subrange(5, 5 + data.len() as int) =~= data);
}

/// The number of the little-endian bytes of a 32-bit number is that number.
pub proof fn lemma_le32_roundtrip(n: u32)
    ensures
        le32_value(le32(n)) == n,
{
    let b0 = (n & 0xff) as u8;
    let b1 = ((n >> 8u32) & 0xff) as u8;
    let b2 = ((n >> 16u32) & 0xff) as u8;
    let b3 = ((n >> 24u32) & 0xff) as u8;
    assert(((b0 as u32) | ((b1 as u32) << 8u32) | ((b2 as u32) << 16u32) | ((b3 as u32) << 24u32)) == n) by (bit_vector)
        requires
            b0 == (n & 0xff) as u8,
            b1 == ((n >> 8u32) & 0xff) as u8,
            b2 == ((n >> 16u32) & 0xff) as u8,
            b3 == ((n >> 24u32) & 0xff) as u8,
    ;
}

/// Reading the header back gives the root offset it was written with.
pub proof fn lemma_root_offset_roundtrip(offset: u64)
    ensures
        le64_value(le64(offset)) == offset,
{
    let b = le64(offset);
    let (b0, b1, b2, b3, b4, b5, b6, b7) = (b[0], b[1], b[2], b[3], b[4], b[5], b[6], b[7]);
    assert(((b0 as u64) | ((b1 as u64) << 8u64) | ((b2 as u64) << 16u64) | ((b3 as u64) << 24u64) | ((b4 as u64)
        << 32u64) | ((b5 as u64) << 40u64) | ((b6 as u64) << 48u64) | ((b7 as u64) << 56u64)) == offset)
        by (bit_vector)
        requires
            b0 == (offset & 0xff) as u8,
            b1 == ((offset >> 8u64) & 0xff) as u8,
            b2 == ((offset >> 16u64) & 0xff) as u8,
            b3 == ((offset >> 24u64) & 0xff) as u8,
            b4 == ((offset >> 32u64) & 0xff) as u8,
            b5 == ((offset >> 40u64) & 0xff) as u8,
            b6 == ((offset >> 48u64) & 0xff) as u8,
            b7 == ((offset >> 56u64) & 0xff) as u8,
    ;
}

} // verus!
