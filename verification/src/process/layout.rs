use vstd::prelude::*;
use crate::primitives::aabb::AABB;
use crate::process::tree::BVHNode;

verus! {

/// Length of the buffer's header: the root index and twelve bytes of zero.
pub const HEADER_BYTES: usize = 16;

/// Length of one node record in the buffer.
pub const NODE_BYTES: usize = 48;

/// Number of four-byte words in one node record.
pub const NODE_WORDS: usize = 12;

/// Why a byte buffer is not a serialized tree.
#[derive(Copy, Clone, Debug, PartialEq, Eq)]
pub enum LayoutError {
    /// The buffer is shorter than the header.
    Truncated,
    /// What follows the header is not a whole number of node records.
    Misaligned,
    /// A padding byte, in the header or in a node record, is not zero.
    Padding,
}

/// The value of a 32-bit word read as unsigned (two's complement).
pub open spec fn unsigned(x: i32) -> int {
    if x < 0 {
        x + 0x1_0000_0000
    } else {
        x as int
    }
}

/// The word whose unsigned reading is `u`.
pub open spec fn signed(u: int) -> i32 {
    if u >= 0x8000_0000 {
        (u - 0x1_0000_0000) as i32
    } else {
        u as i32
    }
}

/// The four bytes of a word, least significant first.
#[verifier::opaque]
pub open spec fn word_bytes(x: i32) -> Seq<u8> {
    let u = unsigned(x);
    seq![
        (u % 256) as u8,
        ((u / 256) % 256) as u8,
        ((u / 65536) % 256) as u8,
        (u / 16777216) as u8,
    ]
}

/// The word stored in the four bytes from `at` on, least significant first.
#[verifier::opaque]
pub open spec fn word_at(bytes: Seq<u8>, at: int) -> i32 {
    signed(bytes[at] + 256 * bytes[at + 1] + 65536 * bytes[at + 2] + 16777216 * bytes[at + 3])
}

/// Word `f` of a node record: the four components of the box's lower
/// corner, the four of its upper corner, the left child, the right child,
/// the primitive, and a word of zero.
pub open spec fn node_word(node: BVHNode, f: int) -> i32 {
    if 0 <= f < 4 {
        node.aabb.min[f]
    } else if 4 <= f < 8 {
        node.aabb.max[f - 4]
    } else if f == 8 {
        node.left
    } else if f == 9 {
        node.right
    } else if f == 10 {
        node.triangle
    } else {
        0
    }
}

/// The first `count` words of a node record as bytes.
pub open spec fn node_words_bytes(node: BVHNode, count: int) -> Seq<u8>
    decreases count,
{
    if count <= 0 {
        Seq::empty()
    } else {
        node_words_bytes(node, count - 1) + word_bytes(node_word(node, count - 1))
    }
}

/// The 48 bytes of a node record.
pub open spec fn node_bytes(node: BVHNode) -> Seq<u8> {
    node_words_bytes(node, NODE_WORDS as int)
}

/// The records of a node array, one after the other.
pub open spec fn records_bytes(nodes: Seq<BVHNode>) -> Seq<u8>
    decreases nodes.len(),
{
    if nodes.len() == 0 {
        Seq::empty()
    } else {
        records_bytes(nodes.drop_last()) + node_bytes(nodes.last())
    }
}

/// The header: the root index, then twelve bytes of zero.
pub open spec fn header_bytes(root: i32) -> Seq<u8> {
    word_bytes(root) + Seq::new(12, |i: int| 0u8)
}

/// The whole buffer: the header, then the node records.
pub open spec fn buffer_bytes(root: i32, nodes: Seq<BVHNode>) -> Seq<u8> {
    header_bytes(root) + records_bytes(nodes)
}

/// The node record stored in the 48 bytes from `at` on.
pub open spec fn node_at(bytes: Seq<u8>, at: int) -> BVHNode {
    BVHNode {
        aabb: AABB {
            min: [
                word_at(bytes, at),
                word_at(bytes, at + 4),
                word_at(bytes, at + 8),
                word_at(bytes, at + 12),
            ],
            max: [
                word_at(bytes, at + 16),
                word_at(bytes, at + 20),
                word_at(bytes, at + 24),
                word_at(bytes, at + 28),
            ],
        },
        left: word_at(bytes, at + 32),
        right: word_at(bytes, at + 36),
        triangle: word_at(bytes, at + 40),
    }
}

/// Number of node records that a buffer of this length holds.
pub open spec fn record_count(bytes: Seq<u8>) -> int {
    (bytes.len() - HEADER_BYTES) / NODE_BYTES as int
}

/// The node records that a buffer holds.
pub open spec fn records_of(bytes: Seq<u8>) -> Seq<BVHNode> {
    Seq::new(
        record_count(bytes) as nat,
        |i: int| node_at(bytes, HEADER_BYTES + NODE_BYTES * i),
    )
}

/// Whether a buffer has the length of a header and a whole number of node
/// records.
pub open spec fn is_framed(bytes: Seq<u8>) -> bool {
    bytes.len() >= HEADER_BYTES && (bytes.len() - HEADER_BYTES) % NODE_BYTES as int == 0
}

/// Whether the twelve padding bytes of the header are zero.
pub open spec fn header_padding_clear(bytes: Seq<u8>) -> bool {
    forall|i: int| 4 <= i < HEADER_BYTES ==> #[trigger] bytes[i] == 0
}

/// Whether the four padding bytes of record `i` are zero.
pub open spec fn record_padding_clear(bytes: Seq<u8>, i: int) -> bool {
    let at = HEADER_BYTES + NODE_BYTES * i;
    bytes[at + 44] == 0 && bytes[at + 45] == 0 && bytes[at + 46] == 0 && bytes[at + 47] == 0
}

/// Whether every padding byte of a framed buffer is zero.
pub open spec fn padding_clear(bytes: Seq<u8>) -> bool {
    &&& header_padding_clear(bytes)
    &&& forall|i: int| 0 <= i < record_count(bytes) ==> #[trigger] record_padding_clear(bytes, i)
}

/// Whether a buffer is the serialized form of some root index and node
/// array.
pub open spec fn is_buffer(bytes: Seq<u8>) -> bool {
    is_framed(bytes) && padding_clear(bytes)
}

/// A word's four bytes give the word back.
pub proof fn lemma_word_roundtrip(x: i32)
    ensures
        word_bytes(x).len() == 4,
        word_at(word_bytes(x), 0) == x,
{
    reveal(word_bytes);
    reveal(word_at);
}

/// The digits of a number written in base 256 are found again by division.
pub proof fn lemma_digits(b0: int, b1: int, b2: int, b3: int)
    requires
        0 <= b0 < 256,
        0 <= b1 < 256,
        0 <= b2 < 256,
        0 <= b3 < 256,
    ensures
        ({
            let u = b0 + 256 * b1 + 65536 * b2 + 16777216 * b3;
            &&& 0 <= u < 0x1_0000_0000
            &&& u % 256 == b0
            &&& (u / 256) % 256 == b1
            &&& (u / 65536) % 256 == b2
            &&& u / 16777216 == b3
        }),
{
    let u = b0 + 256 * b1 + 65536 * b2 + 16777216 * b3;
    let q1 = b1 + 256 * b2 + 65536 * b3;
    let q2 = b2 + 256 * b3;
    assert(u == 256 * q1 + b0);
    assert(u / 256 == q1 && u % 256 == b0);
    assert(q1 == 256 * q2 + b1);
    assert(q1 / 256 == q2 && q1 % 256 == b1);
    assert(u == 65536 * q2 + (b0 + 256 * b1));
    assert(u / 65536 == q2);
    assert(q2 == 256 * b3 + b2);
    assert(q2 % 256 == b2);
    assert(u == 16777216 * b3 + (b0 + 256 * b1 + 65536 * b2));
    assert(u / 16777216 == b3);
}

/// Four bytes are the bytes of the word they hold.
pub proof fn lemma_bytes_roundtrip(bytes: Seq<u8>, at: int)
    requires
        0 <= at,
        at + 4 <= bytes.len(),
    ensures
        word_bytes(word_at(bytes, at)) == bytes.subrange(at, at + 4),
{
    reveal(word_bytes);
    reveal(word_at);
    lemma_digits(bytes[at] as int, bytes[at + 1] as int, bytes[at + 2] as int, bytes[at + 3] as int);
    let u = bytes[at] + 256 * bytes[at + 1] + 65536 * bytes[at + 2] + 16777216 * bytes[at + 3];
    assert(unsigned(signed(u)) == u);
    assert(word_bytes(word_at(bytes, at)) =~= bytes.subrange(at, at + 4));
}

/// The word read at a place depends on the four bytes at that place only.
pub proof fn lemma_word_window(bytes: Seq<u8>, at: int, other: Seq<u8>, other_at: int)
    requires
        0 <= at,
        at + 4 <= bytes.len(),
        0 <= other_at,
        other_at + 4 <= other.len(),
        bytes.subrange(at, at + 4) == other.subrange(other_at, other_at + 4),
    ensures
        word_at(bytes, at) == word_at(other, other_at),
{
    reveal(word_at);
    let a = bytes.subrange(at, at + 4);
    let b = other.subrange(other_at, other_at + 4);
    assert(a[0] == bytes[at] && a[1] == bytes[at + 1] && a[2] == bytes[at + 2] && a[3] == bytes[at
        + 3]);
    assert(b[0] == other[other_at] && b[1] == other[other_at + 1] && b[2] == other[other_at + 2]
        && b[3] == other[other_at + 3]);
}

/// The record read at a place depends on the 48 bytes at that place only.
pub proof fn lemma_node_window(bytes: Seq<u8>, at: int, other: Seq<u8>, other_at: int)
    requires
        0 <= at,
        at + NODE_BYTES <= bytes.len(),
        0 <= other_at,
        other_at + NODE_BYTES <= other.len(),
        bytes.subrange(at, at + NODE_BYTES) == other.subrange(other_at, other_at + NODE_BYTES),
    ensures
        node_at(bytes, at) == node_at(other, other_at),
{
    lemma_word_in_window(bytes, at, other, other_at, 0);
    lemma_word_in_window(bytes, at, other, other_at, 1);
    lemma_word_in_window(bytes, at, other, other_at, 2);
    lemma_word_in_window(bytes, at, other, other_at, 3);
    lemma_word_in_window(bytes, at, other, other_at, 4);
    lemma_word_in_window(bytes, at, other, other_at, 5);
    lemma_word_in_window(bytes, at, other, other_at, 6);
    lemma_word_in_window(bytes, at, other, other_at, 7);
    lemma_word_in_window(bytes, at, other, other_at, 8);
    lemma_word_in_window(bytes, at, other, other_at, 9);
    lemma_word_in_window(bytes, at, other, other_at, 10);
    assert(node_at(bytes, at).aabb.min =~= node_at(other, other_at).aabb.min);
    assert(node_at(bytes, at).aabb.max =~= node_at(other, other_at).aabb.max);
}

/// Word `f` of equal 48-byte windows is the same word.
proof fn lemma_word_in_window(bytes: Seq<u8>, at: int, other: Seq<u8>, other_at: int, f: int)
    requires
        0 <= at,
        at + NODE_BYTES <= bytes.len(),
        0 <= other_at,
        other_at + NODE_BYTES <= other.len(),
        bytes.subrange(at, at + NODE_BYTES) == other.subrange(other_at, other_at + NODE_BYTES),
        0 <= f < 12,
    ensures
        word_at(bytes, at + 4 * f) == word_at(other, other_at + 4 * f),
{
    let a = bytes.subrange(at, at + NODE_BYTES);
    let b = other.subrange(other_at, other_at + NODE_BYTES);
    assert(bytes.subrange(at + 4 * f, at + 4 * f + 4) =~= a.subrange(4 * f, 4 * f + 4));
    assert(other.subrange(other_at + 4 * f, other_at + 4 * f + 4) =~= b.subrange(
        4 * f,
        4 * f + 4,
    ));
    lemma_word_window(bytes, at + 4 * f, other, other_at + 4 * f);
}

/// The four bytes of word `f` in a run of words.
pub open spec fn word_slot(bytes: Seq<u8>, f: int) -> Seq<u8> {
    bytes.subrange(4 * f, 4 * f + 4)
}

/// The first `count` words of a record take four bytes each.
pub proof fn lemma_node_words_len(node: BVHNode, count: int)
    requires
        0 <= count,
    ensures
        node_words_bytes(node, count).len() == 4 * count,
    decreases count,
{
    if count > 0 {
        lemma_node_words_len(node, count - 1);
        lemma_word_roundtrip(node_word(node, count - 1));
    }
}

/// Word `f` of a record's bytes is word `f` of the record.
pub proof fn lemma_node_word_at(node: BVHNode, count: int, f: int)
    requires
        0 <= f < count,
    ensures
        node_words_bytes(node, count).len() == 4 * count,
        word_slot(node_words_bytes(node, count), f) == word_bytes(node_word(node, f)),
        word_at(node_words_bytes(node, count), 4 * f) == node_word(node, f),
    decreases count,
{
    lemma_node_words_len(node, count);
    lemma_node_words_len(node, count - 1);
    lemma_word_roundtrip(node_word(node, count - 1));
    let whole = node_words_bytes(node, count);
    if f < count - 1 {
        lemma_node_word_at(node, count - 1, f);
        assert(word_slot(whole, f) =~= word_slot(node_words_bytes(node, count - 1), f));
    } else {
        assert(word_slot(whole, f) =~= word_bytes(node_word(node, f)));
    }
    lemma_word_roundtrip(node_word(node, f));
    let word = word_bytes(node_word(node, f));
    assert(whole.subrange(4 * f, 4 * f + 4) =~= word.subrange(0, 4));
    lemma_word_window(whole, 4 * f, word, 0);
}

/// The bytes of the zero word are zero.
pub proof fn lemma_zero_word()
    ensures
        word_bytes(0) == seq![0u8, 0u8, 0u8, 0u8],
{
    reveal(word_bytes);
    assert(word_bytes(0) =~= seq![0u8, 0u8, 0u8, 0u8]);
}

/// A record's 48 bytes give the record back, and their last four are zero.
pub proof fn lemma_node_roundtrip(node: BVHNode)
    ensures
        node_bytes(node).len() == NODE_BYTES,
        node_at(node_bytes(node), 0) == node,
        forall|o: int| 44 <= o < 48 ==> #[trigger] node_bytes(node)[o] == 0,
{
    let bytes = node_bytes(node);
    lemma_node_word_at(node, 12, 0);
    lemma_node_word_at(node, 12, 1);
    lemma_node_word_at(node, 12, 2);
    lemma_node_word_at(node, 12, 3);
    lemma_node_word_at(node, 12, 4);
    lemma_node_word_at(node, 12, 5);
    lemma_node_word_at(node, 12, 6);
    lemma_node_word_at(node, 12, 7);
    lemma_node_word_at(node, 12, 8);
    lemma_node_word_at(node, 12, 9);
    lemma_node_word_at(node, 12, 10);
    lemma_node_word_at(node, 12, 11);
    let decoded = node_at(bytes, 0);
    assert(decoded.aabb.min =~= node.aabb.min);
    assert(decoded.aabb.max =~= node.aabb.max);
    lemma_zero_word();
    assert forall|o: int| 44 <= o < 48 implies #[trigger] bytes[o] == 0 by {
        assert(word_slot(bytes, 11)[o - 44] == bytes[o]);
    }
}

/// Word `f` of the record read at `at` is the word read at `at + 4 * f`.
pub proof fn lemma_node_at_word(bytes: Seq<u8>, at: int, f: int)
    requires
        0 <= f < 11,
    ensures
        node_word(node_at(bytes, at), f) == word_at(bytes, at + 4 * f),
{
}

/// Slot `f` of the bytes of the record read at `at` is slot `f` of the
/// bytes that were read.
proof fn lemma_record_slot(bytes: Seq<u8>, at: int, f: int)
    requires
        0 <= at,
        at + NODE_BYTES <= bytes.len(),
        bytes[at + 44] == 0 && bytes[at + 45] == 0 && bytes[at + 46] == 0 && bytes[at + 47] == 0,
        0 <= f < 12,
    ensures
        word_slot(node_bytes(node_at(bytes, at)), f) == word_slot(
            bytes.subrange(at, at + NODE_BYTES),
            f,
        ),
{
    let node = node_at(bytes, at);
    let want = bytes.subrange(at, at + NODE_BYTES);
    lemma_node_word_at(node, 12, f);
    if f < 11 {
        lemma_node_at_word(bytes, at, f);
        lemma_bytes_roundtrip(bytes, at + 4 * f);
        assert(word_slot(want, f) =~= bytes.subrange(at + 4 * f, at + 4 * f + 4));
    } else {
        lemma_zero_word();
        assert(word_slot(want, f) =~= seq![0u8, 0u8, 0u8, 0u8]);
    }
}

/// The 48 bytes from `at` on are the bytes of the record they hold, if
/// their last four are zero.
pub proof fn lemma_record_bytes(bytes: Seq<u8>, at: int)
    requires
        0 <= at,
        at + NODE_BYTES <= bytes.len(),
        bytes[at + 44] == 0 && bytes[at + 45] == 0 && bytes[at + 46] == 0 && bytes[at + 47] == 0,
    ensures
        node_bytes(node_at(bytes, at)) == bytes.subrange(at, at + NODE_BYTES),
{
    let node = node_at(bytes, at);
    let want = bytes.subrange(at, at + NODE_BYTES);
    let got = node_bytes(node);
    lemma_node_words_len(node, 12);
    assert forall|o: int| 0 <= o < 48 implies got[o] == want[o] by {
        let f = o / 4;
        lemma_record_slot(bytes, at, f);
        assert(word_slot(got, f)[o - 4 * f] == got[o]);
        assert(word_slot(want, f)[o - 4 * f] == want[o]);
    }
    assert(got =~= want);
}

/// The records of a node array take 48 bytes each.
pub proof fn lemma_records_len(nodes: Seq<BVHNode>)
    ensures
        records_bytes(nodes).len() == NODE_BYTES * nodes.len(),
    decreases nodes.len(),
{
    if nodes.len() > 0 {
        lemma_records_len(nodes.drop_last());
        lemma_node_words_len(nodes.last(), 12);
    }
}

/// Record `i` of a node array starts at byte `48 * i` of the array's bytes.
pub proof fn lemma_records_at(nodes: Seq<BVHNode>, i: int)
    requires
        0 <= i < nodes.len(),
    ensures
        records_bytes(nodes).len() == NODE_BYTES * nodes.len(),
        records_bytes(nodes).subrange(NODE_BYTES * i, NODE_BYTES * i + NODE_BYTES) == node_bytes(
            nodes[i],
        ),
    decreases nodes.len(),
{
    lemma_records_len(nodes);
    lemma_records_len(nodes.drop_last());
    lemma_node_words_len(nodes.last(), 12);
    let whole = records_bytes(nodes);
    if i < nodes.len() - 1 {
        lemma_records_at(nodes.drop_last(), i);
        assert(whole.subrange(48 * i, 48 * i + 48) =~= records_bytes(nodes.drop_last()).subrange(
            48 * i,
            48 * i + 48,
        ));
    } else {
        assert(whole.subrange(48 * i, 48 * i + 48) =~= node_bytes(nodes.last()));
    }
}

/// Appends the four bytes of a word.
fn push_word(out: &mut Vec<u8>, x: i32)
    ensures
        final(out)@ == old(out)@ + word_bytes(x),
{
    let u: u32 = if x < 0 {
        (x as i64 + 0x1_0000_0000i64) as u32
    } else {
        x as u32
    };
    out.push((u % 256) as u8);
    out.push(((u / 256) % 256) as u8);
    out.push(((u / 65536) % 256) as u8);
    out.push((u / 16777216) as u8);
    proof {
        reveal(word_bytes);
        assert(out@ =~= old(out)@ + word_bytes(x));
    }
}

/// Word `f` of a node record.
fn word_of_node(node: &BVHNode, f: usize) -> (r: i32)
    requires
        f < NODE_WORDS,
    ensures
        r == node_word(*node, f as int),
{
    if f < 4 {
        node.aabb.min[f]
    } else if f < 8 {
        node.aabb.max[f - 4]
    } else if f == 8 {
        node.left
    } else if f == 9 {
        node.right
    } else if f == 10 {
        node.triangle
    } else {
        0
    }
}

/// Appends the 48 bytes of a node record.
fn push_node(out: &mut Vec<u8>, node: &BVHNode)
    ensures
        final(out)@ == old(out)@ + node_bytes(*node),
{
    let mut f: usize = 0;
    while f < NODE_WORDS
        invariant
            f <= NODE_WORDS,
            out@ == old(out)@ + node_words_bytes(*node, f as int),
        decreases NODE_WORDS - f,
    {
        let ghost before = out@;
        push_word(out, word_of_node(node, f));
        proof {
            assert(out@ =~= old(out)@ + node_words_bytes(*node, f + 1));
        }
        f += 1;
    }
}

/// Packs a root index and a node array into the fixed layout: the root
/// index as a little-endian word and twelve bytes of zero, then one 48-byte
/// record per node. The eight words of a record's box are the box's grid
/// coordinates as signed integers; floating-point boxes, where a reader
/// wants them, are made from these words outside this library.
pub fn serialize(root: i32, nodes: &Vec<BVHNode>) -> (out: Vec<u8>)
    ensures
        out@ == buffer_bytes(root, nodes@),
{
    let mut out: Vec<u8> = Vec::new();
    push_word(&mut out, root);
    proof {
        assert(out@ =~= word_bytes(root) + Seq::new(0, |k: int| 0u8));
    }
    let mut i: usize = 0;
    while i < 12
        invariant
            i <= 12,
            out@ == word_bytes(root) + Seq::new(i as nat, |k: int| 0u8),
        decreases 12 - i,
    {
        out.push(0);
        proof {
            assert(out@ =~= word_bytes(root) + Seq::new((i + 1) as nat, |k: int| 0u8));
        }
        i += 1;
    }
    let mut n: usize = 0;
    assert(nodes@.subrange(0, 0) =~= Seq::empty());
    while n < nodes.len()
        invariant
            n <= nodes@.len(),
            out@ == header_bytes(root) + records_bytes(nodes@.subrange(0, n as int)),
        decreases nodes@.len() - n,
    {
        push_node(&mut out, &nodes[n]);
        proof {
            let longer = nodes@.subrange(0, n + 1);
            assert(longer.drop_last() =~= nodes@.subrange(0, n as int));
            assert(out@ =~= header_bytes(root) + records_bytes(longer));
        }
        n += 1;
    }
    assert(nodes@.subrange(0, n as int) =~= nodes@);
    out
}

/// Reads the word stored in the four bytes from `at` on.
fn read_word(bytes: &[u8], at: usize) -> (r: i32)
    requires
        at + 4 <= bytes@.len() <= usize::MAX,
    ensures
        r == word_at(bytes@, at as int),
{
    proof {
        reveal(word_at);
    }
    let u: u64 = bytes[at] as u64 + 256 * (bytes[at + 1] as u64) + 65536 * (bytes[at + 2] as u64)
        + 16777216 * (bytes[at + 3] as u64);
    if u >= 0x8000_0000 {
        (u as i64 - 0x1_0000_0000i64) as i32
    } else {
        u as i32
    }
}

/// Reads the node record stored in the 48 bytes from `at` on.
fn read_node(bytes: &[u8], at: usize) -> (r: BVHNode)
    requires
        at + NODE_BYTES <= bytes@.len() <= usize::MAX,
    ensures
        r == node_at(bytes@, at as int),
{
    BVHNode {
        aabb: AABB {
            min: [
                read_word(bytes, at),
                read_word(bytes, at + 4),
                read_word(bytes, at + 8),
                read_word(bytes, at + 12),
            ],
            max: [
                read_word(bytes, at + 16),
                read_word(bytes, at + 20),
                read_word(bytes, at + 24),
                read_word(bytes, at + 28),
            ],
        },
        left: read_word(bytes, at + 32),
        right: read_word(bytes, at + 36),
        triangle: read_word(bytes, at + 40),
    }
}

/// Reads a buffer in the fixed layout back into the root index and the node
/// records. The buffer is refused if it is shorter than a header, if what
/// follows the header is not a whole number of records, or if a padding
/// byte is not zero; the first of these that applies is reported.
pub fn parse(bytes: &[u8]) -> (r: Result<(i32, Vec<BVHNode>), LayoutError>)
    ensures
        r is Ok <==> is_buffer(bytes@),
        r matches Ok((root, nodes)) ==> root == word_at(bytes@, 0) && nodes@ == records_of(bytes@),
        r matches Err(e) ==> e == (if bytes@.len() < HEADER_BYTES {
            LayoutError::Truncated
        } else if !is_framed(bytes@) {
            LayoutError::Misaligned
        } else {
            LayoutError::Padding
        }),
{
    let len = bytes.len();
    if len < HEADER_BYTES {
        return Err(LayoutError::Truncated);
    }
    if (len - HEADER_BYTES) % NODE_BYTES != 0 {
        return Err(LayoutError::Misaligned);
    }
    let mut i: usize = 4;
    while i < HEADER_BYTES
        invariant
            4 <= i <= HEADER_BYTES <= len == bytes@.len(),
            is_framed(bytes@),
            forall|k: int| 4 <= k < i ==> #[trigger] bytes@[k] == 0,
        decreases HEADER_BYTES - i,
    {
        if bytes[i] != 0 {
            return Err(LayoutError::Padding);
        }
        i += 1;
    }
    let root = read_word(bytes, 0);
    let count = (len - HEADER_BYTES) / NODE_BYTES;
    let mut nodes: Vec<BVHNode> = Vec::with_capacity(count);
    let mut n: usize = 0;
    while n < count
        invariant
            n <= count,
            len == bytes@.len(),
            is_framed(bytes@),
            count == record_count(bytes@),
            nodes@.len() == n,
            forall|k: int| 0 <= k < n ==> #[trigger] nodes@[k] == records_of(bytes@)[k],
            forall|k: int| 0 <= k < n ==> #[trigger] record_padding_clear(bytes@, k),
        decreases count - n,
    {
        assert(NODE_BYTES * n + NODE_BYTES <= len - HEADER_BYTES) by (nonlinear_arith)
            requires
                n < count,
                count == (len - HEADER_BYTES) / 48,
                len >= HEADER_BYTES,
                NODE_BYTES == 48,
        ;
        let at = HEADER_BYTES + NODE_BYTES * n;
        if bytes[at + 44] != 0 || bytes[at + 45] != 0 || bytes[at + 46] != 0 || bytes[at + 47] != 0 {
            assert(!record_padding_clear(bytes@, n as int));
            return Err(LayoutError::Padding);
        }
        nodes.push(read_node(bytes, at));
        n += 1;
    }
    assert(nodes@ =~= records_of(bytes@));
    Ok((root, nodes))
}

/// Reading a serialized tree gives back the root index and the node
/// records it was made from.
pub proof fn lemma_parse_serialized(root: i32, nodes: Seq<BVHNode>)
    ensures
        is_buffer(buffer_bytes(root, nodes)),
        word_at(buffer_bytes(root, nodes), 0) == root,
        records_of(buffer_bytes(root, nodes)) == nodes,
{
    let bytes = buffer_bytes(root, nodes);
    let header = header_bytes(root);
    let records = records_bytes(nodes);
    lemma_records_len(nodes);
    lemma_word_roundtrip(root);
    assert(header.len() == 16);
    assert(bytes.len() == 16 + 48 * nodes.len());
    assert(record_count(bytes) == nodes.len());
    assert(bytes.subrange(0, 4) =~= word_bytes(root).subrange(0, 4));
    lemma_word_window(bytes, 0, word_bytes(root), 0);
    assert forall|i: int| 0 <= i < nodes.len() implies #[trigger] record_padding_clear(bytes, i)
        && node_at(bytes, 16 + 48 * i) == nodes[i] by {
        lemma_records_at(nodes, i);
        lemma_node_roundtrip(nodes[i]);
        let record = node_bytes(nodes[i]);
        assert(bytes.subrange(16 + 48 * i, 16 + 48 * i + 48) =~= records.subrange(
            48 * i,
            48 * i + 48,
        ));
        assert(record.subrange(0, 48) =~= record);
        lemma_node_window(bytes, 16 + 48 * i, record, 0);
        let window = bytes.subrange(16 + 48 * i, 16 + 48 * i + 48);
        assert(window[44] == bytes[16 + 48 * i + 44] && window[45] == bytes[16 + 48 * i + 45]
            && window[46] == bytes[16 + 48 * i + 46] && window[47] == bytes[16 + 48 * i + 47]);
        assert(record[44] == 0 && record[45] == 0 && record[46] == 0 && record[47] == 0);
    }
    assert forall|i: int| 0 <= i < nodes.len() implies #[trigger] records_of(bytes)[i] == nodes[i] by {
        assert(record_padding_clear(bytes, i));
    }
    assert(records_of(bytes) =~= nodes);
}

/// The bytes of record `i` of what was read from a buffer are the bytes of
/// the buffer at that record's place.
proof fn lemma_parsed_record(bytes: Seq<u8>, i: int)
    requires
        is_buffer(bytes),
        0 <= i < record_count(bytes),
    ensures
        records_bytes(records_of(bytes)).len() == bytes.len() - HEADER_BYTES,
        records_bytes(records_of(bytes)).subrange(NODE_BYTES * i, NODE_BYTES * i + NODE_BYTES)
            == bytes.subrange(
            HEADER_BYTES + NODE_BYTES * i,
            HEADER_BYTES + NODE_BYTES * i + NODE_BYTES,
        ),
{
    let nodes = records_of(bytes);
    lemma_records_at(nodes, i);
    assert(record_padding_clear(bytes, i));
    lemma_record_bytes(bytes, 16 + 48 * i);
}

/// Serializing what was read from a buffer gives the buffer back.
pub proof fn lemma_serialize_parsed(bytes: Seq<u8>)
    requires
        is_buffer(bytes),
    ensures
        buffer_bytes(word_at(bytes, 0), records_of(bytes)) == bytes,
{
    let root = word_at(bytes, 0);
    let nodes = records_of(bytes);
    let records = records_bytes(nodes);
    let again = buffer_bytes(root, nodes);
    lemma_records_len(nodes);
    lemma_bytes_roundtrip(bytes, 0);
    assert(header_bytes(root).len() == 16);
    assert(again.len() == bytes.len());
    assert forall|j: int| 0 <= j < bytes.len() implies again[j] == bytes[j] by {
        if j < 4 {
            assert(bytes.subrange(0, 4)[j] == bytes[j]);
        } else if j < 16 {
        } else {
            let i = (j - 16) / 48;
            let o = j - 16 - 48 * i;
            assert(0 <= o < 48);
            lemma_parsed_record(bytes, i);
            assert(again[j] == records[j - 16]);
            assert(records.subrange(48 * i, 48 * i + 48)[o] == records[48 * i + o]);
            assert(bytes.subrange(16 + 48 * i, 16 + 48 * i + 48)[o] == bytes[16 + 48 * i + o]);
        }
    }
    assert(again =~= bytes);
}

} // verus!
