use vstd::prelude::*;

use crate::model::NodeModel;
use crate::node::{lemma_view_nodes, view_nodes, HtreeNode, HtreeNodeWritable};

verus! {

/// Number of bytes of a key in the serialized form of a node.
pub const UUID_BYTES: usize = 16;

/// The 16 bytes of a key, most significant first.
pub open spec fn be16(k: u128) -> Seq<u8> {
    seq![
        (k >> 120u128) as u8, (k >> 112u128) as u8, (k >> 104u128) as u8, (k >> 96u128) as u8,
        (k >> 88u128) as u8, (k >> 80u128) as u8, (k >> 72u128) as u8, (k >> 64u128) as u8,
        (k >> 56u128) as u8, (k >> 48u128) as u8, (k >> 40u128) as u8, (k >> 32u128) as u8,
        (k >> 24u128) as u8, (k >> 16u128) as u8, (k >> 8u128) as u8, k as u8,
    ]
}

/// The key whose 16 bytes, most significant first, are `b`.
pub open spec fn from_be16(b: Seq<u8>) -> u128 {
    ((b[0] as u128) << 120u128) | ((b[1] as u128) << 112u128) | ((b[2] as u128) << 104u128)
        | ((b[3] as u128) << 96u128) | ((b[4] as u128) << 88u128) | ((b[5] as u128) << 80u128)
        | ((b[6] as u128) << 72u128) | ((b[7] as u128) << 64u128) | ((b[8] as u128) << 56u128)
        | ((b[9] as u128) << 48u128) | ((b[10] as u128) << 40u128) | ((b[11] as u128) << 32u128)
        | ((b[12] as u128) << 24u128) | ((b[13] as u128) << 16u128) | ((b[14] as u128) << 8u128)
        | (b[15] as u128)
}

pub proof fn lemma_be16_roundtrip(k: u128)
    ensures
        from_be16(be16(k)) == k,
        be16(k).len() == 16,
{
    let b = be16(k);
    let (b0, b1, b2, b3, b4, b5, b6, b7) = (b[0], b[1], b[2], b[3], b[4], b[5], b[6], b[7]);
    let (b8, b9, b10, b11, b12, b13, b14, b15) = (b[8], b[9], b[10], b[11], b[12], b[13], b[14], b[15]);
    assert(((b0 as u128) << 120u128) | ((b1 as u128) << 112u128) | ((b2 as u128) << 104u128)
        | ((b3 as u128) << 96u128) | ((b4 as u128) << 88u128) | ((b5 as u128) << 80u128)
        | ((b6 as u128) << 72u128) | ((b7 as u128) << 64u128) | ((b8 as u128) << 56u128)
        | ((b9 as u128) << 48u128) | ((b10 as u128) << 40u128) | ((b11 as u128) << 32u128)
        | ((b12 as u128) << 24u128) | ((b13 as u128) << 16u128) | ((b14 as u128) << 8u128)
        | (b15 as u128) == k) by (bit_vector)
        requires
            b0 == (k >> 120u128) as u8, b1 == (k >> 112u128) as u8, b2 == (k >> 104u128) as u8,
            b3 == (k >> 96u128) as u8, b4 == (k >> 88u128) as u8, b5 == (k >> 80u128) as u8,
            b6 == (k >> 72u128) as u8, b7 == (k >> 64u128) as u8, b8 == (k >> 56u128) as u8,
            b9 == (k >> 48u128) as u8, b10 == (k >> 40u128) as u8, b11 == (k >> 32u128) as u8,
            b12 == (k >> 24u128) as u8, b13 == (k >> 16u128) as u8, b14 == (k >> 8u128) as u8,
            b15 == k as u8,
    ;
}

/// The serialized form of one child: key, length of the hkey, hkey.
pub open spec fn encode_entry(e: (u128, Seq<u8>)) -> Seq<u8> {
    be16(e.0) + seq![e.1.len() as u8] + e.1
}

/// The serialized forms of several children, one after the other.
pub open spec fn encode_entries(es: Seq<(u128, Seq<u8>)>) -> Seq<u8>
    decreases es.len(),
{
    if es.len() == 0 {
        Seq::empty()
    } else {
        encode_entries(es.drop_last()) + encode_entry(es.last())
    }
}

/// The key and hkey of a node: what its parent records of it.
pub open spec fn entry_of(n: NodeModel) -> (u128, Seq<u8>) {
    (n.key, n.hkey)
}

pub open spec fn entries_of(s: Seq<NodeModel>) -> Seq<(u128, Seq<u8>)> {
    s.map_values(|n: NodeModel| entry_of(n))
}

/// The children recorded in `b`, or `None` when `b` is not a well-formed list of children.
pub open spec fn parse_entries(b: Seq<u8>) -> Option<Seq<(u128, Seq<u8>)>>
    decreases b.len(),
{
    if b.len() == 0 {
        Some(Seq::empty())
    } else if b.len() < 17 {
        None
    } else {
        let n = b[16] as int;
        if b.len() < 17 + n {
            None
        } else {
            match parse_entries(b.subrange(17 + n, b.len() as int)) {
                Some(rest) => Some(
                    seq![(from_be16(b.subrange(0, 16)), b.subrange(17, 17 + n))] + rest,
                ),
                None => None,
            }
        }
    }
}

pub proof fn lemma_encode_entries_front(es: Seq<(u128, Seq<u8>)>)
    requires
        es.len() > 0,
    ensures
        encode_entries(es) == encode_entry(es[0]) + encode_entries(es.drop_first()),
    decreases es.len(),
{
    if es.len() == 1 {
        assert(es.drop_last() =~= Seq::<(u128, Seq<u8>)>::empty());
        assert(es.drop_first() =~= Seq::<(u128, Seq<u8>)>::empty());
        assert(encode_entries(es.drop_last()) == Seq::<u8>::empty());
        assert(encode_entries(es.drop_first()) == Seq::<u8>::empty());
        assert(es.last() == es[0]);
        assert(encode_entries(es) =~= encode_entry(es[0]));
        assert(encode_entry(es[0]) + Seq::<u8>::empty() =~= encode_entry(es[0]));
    } else {
        lemma_encode_entries_front(es.drop_last());
        assert(es.drop_last().drop_first() =~= es.drop_first().drop_last());
        assert(es.drop_first().last() == es.last());
        assert(encode_entries(es.drop_first()) == encode_entries(es.drop_first().drop_last())
            + encode_entry(es.drop_first().last()));
        assert(encode_entries(es) =~= encode_entry(es[0]) + encode_entries(es.drop_first()));
    }
}

proof fn lemma_parse_one(e: (u128, Seq<u8>), r: Seq<u8>)
    requires
        e.1.len() <= 255,
    ensures
        parse_entries(encode_entry(e) + r) == match parse_entries(r) {
            Some(rest) => Some(seq![e] + rest),
            None => None::<Seq<(u128, Seq<u8>)>>,
        },
{
    let b = encode_entry(e) + r;
    let n = e.1.len() as int;
    lemma_be16_roundtrip(e.0);
    assert(b.len() >= 17);
    assert(b[16] == n as u8);
    assert(b.subrange(0, 16) =~= be16(e.0));
    assert(b.subrange(17, 17 + n) =~= e.1);
    assert(b.subrange(17 + n, b.len() as int) =~= r);
}

/// Reading back what was written gives the same records: parsing the encoding of
/// records whose hkeys fit a length byte gives those records.
pub proof fn lemma_parse_encode(es: Seq<(u128, Seq<u8>)>)
    requires
        forall|i: int| 0 <= i < es.len() ==> (#[trigger] es[i]).1.len() <= 255,
    ensures
        parse_entries(encode_entries(es)) == Some(es),
    decreases es.len(),
{
    if es.len() == 0 {
        assert(encode_entries(es) =~= Seq::<u8>::empty());
        assert(es =~= Seq::<(u128, Seq<u8>)>::empty());
    } else {
        lemma_encode_entries_front(es);
        let rest = es.drop_first();
        assert forall|i: int| 0 <= i < rest.len() implies (#[trigger] rest[i]).1.len() <= 255 by {
            assert(rest[i] == es[i + 1]);
        }
        lemma_parse_encode(rest);
        assert(es[0].1.len() <= 255);
        lemma_parse_one(es[0], encode_entries(rest));
        assert(seq![es[0]] + rest =~= es);
    }
}

/// The children of a parent node, as recorded in its serialized form.
pub open spec fn unpacked_child(e: (u128, Seq<u8>), child_height: u8) -> NodeModel {
    NodeModel {
        key: e.0,
        height: child_height,
        hkey: e.1,
        nil_hkey: false,
        state: if child_height == 0 {
            crate::model::StateModel::Leaf
        } else {
            crate::model::StateModel::Wrapped
        },
    }
}

/// Why a serialized list of children could not be read.
#[derive(Debug)]
pub enum HtreeNodeUnpackChildrenError {
    /// The buffer holds no height byte.
    MissingHeight,
    /// The height byte is zero, which no parent node has.
    InvalidHeight,
    /// The buffer ends in the middle of a child.
    Truncated,
}

/// Writes the 16 bytes of `key`, most significant first.
pub(crate) fn push_key(buf: &mut Vec<u8>, key: u128)
    ensures
        final(buf)@ == old(buf)@ + be16(key),
{
    buf.push((key >> 120u128) as u8);
    buf.push((key >> 112u128) as u8);
    buf.push((key >> 104u128) as u8);
    buf.push((key >> 96u128) as u8);
    buf.push((key >> 88u128) as u8);
    buf.push((key >> 80u128) as u8);
    buf.push((key >> 72u128) as u8);
    buf.push((key >> 64u128) as u8);
    buf.push((key >> 56u128) as u8);
    buf.push((key >> 48u128) as u8);
    buf.push((key >> 40u128) as u8);
    buf.push((key >> 32u128) as u8);
    buf.push((key >> 24u128) as u8);
    buf.push((key >> 16u128) as u8);
    buf.push((key >> 8u128) as u8);
    buf.push(key as u8);
    assert(final(buf)@ =~= old(buf)@ + be16(key));
}

/// Reads a key from 16 bytes, most significant first.
fn read_key(b: &[u8], at: usize) -> (k: u128)
    requires
        at + 16 <= b@.len(),
    ensures
        k == from_be16(b@.subrange(at as int, at + 16)),
{
    let s = Ghost(b@.subrange(at as int, at + 16));
    assert(s@[0] == b[at as int]);
    ((b[at] as u128) << 120u128) | ((b[at + 1] as u128) << 112u128) | ((b[at + 2] as u128) << 104u128)
        | ((b[at + 3] as u128) << 96u128) | ((b[at + 4] as u128) << 88u128) | ((b[at + 5] as u128)
        << 80u128) | ((b[at + 6] as u128) << 72u128) | ((b[at + 7] as u128) << 64u128) | ((b[at
        + 8] as u128) << 56u128) | ((b[at + 9] as u128) << 48u128) | ((b[at + 10] as u128)
        << 40u128) | ((b[at + 11] as u128) << 32u128) | ((b[at + 12] as u128) << 24u128) | ((b[at
        + 13] as u128) << 16u128) | ((b[at + 14] as u128) << 8u128) | (b[at + 15] as u128)
}

/// Serializes the records (key and hkey) of `children` after the height byte `height`.
///
/// Returns `None` if an hkey is longer than 255 bytes, since its length must fit in one byte.
pub fn serialize_children(height: u8, children: &[HtreeNode]) -> (r: Option<Vec<u8>>)
    ensures
        match r {
            Some(buf) => {
                &&& buf@ == seq![height] + encode_entries(entries_of(view_nodes(children@)))
                &&& forall|i: int| 0 <= i < children@.len() ==> (#[trigger] children@[i]).hkey@.len() <= 255
            },
            None => exists|i: int|
                0 <= i < children@.len() && (#[trigger] children@[i]).hkey@.len() > 255,
        },
{
    let ghost es = entries_of(view_nodes(children@));
    proof {
        lemma_view_nodes(children@);
    }
    let mut buf: Vec<u8> = Vec::new();
    buf.push(height);
    let mut i: usize = 0;
    while i < children.len()
        invariant
            i <= children@.len(),
            es == entries_of(view_nodes(children@)),
            es.len() == children@.len(),
            forall|j: int| 0 <= j < children@.len() ==> #[trigger] es[j] == (children@[j].key, children@[j].hkey@),
            buf@ == seq![height] + encode_entries(es.subrange(0, i as int)),
            forall|j: int| 0 <= j < i ==> (#[trigger] children@[j]).hkey@.len() <= 255,
        decreases children@.len() - i,
    {
        let child = &children[i];
        if child.hkey.len() > 255 {
            return None;
        }
        push_key(&mut buf, child.key);
        buf.push(child.hkey.len() as u8);
        let mut j: usize = 0;
        let ghost before = buf@;
        while j < child.hkey.len()
            invariant
                j <= child.hkey@.len(),
                buf@ == before + child.hkey@.subrange(0, j as int),
            decreases child.hkey@.len() - j,
        {
            buf.push(child.hkey[j]);
            j += 1;
            assert(buf@ =~= before + child.hkey@.subrange(0, j as int));
        }
        proof {
            let pre = es.subrange(0, i as int);
            let post = es.subrange(0, i + 1);
            assert(post.drop_last() =~= pre);
            assert(post.last() == es[i as int]);
            assert(child.hkey@.subrange(0, j as int) =~= child.hkey@);
            assert(buf@ =~= seq![height] + encode_entries(post));
        }
        i += 1;
    }
    assert(es.subrange(0, i as int) =~= es);
    Some(buf)
}

/// Reads a serialized list of children: the parent's height byte, then one record per child.
///
/// The children come back holding only their key, height and hkey: leaves when the
/// parent's height is one, unresolved (wrapped) nodes otherwise.
pub fn unpack_children(b: &[u8]) -> (r: Result<(u8, Vec<HtreeNode>), HtreeNodeUnpackChildrenError>)
    ensures
        b@.len() == 0 <==> r == Err::<(u8, Vec<HtreeNode>), _>(HtreeNodeUnpackChildrenError::MissingHeight),
        b@.len() > 0 && b@[0] == 0 <==> r == Err::<(u8, Vec<HtreeNode>), _>(HtreeNodeUnpackChildrenError::InvalidHeight),
        b@.len() > 0 && b@[0] > 0 && parse_entries(b@.subrange(1, b@.len() as int)) is None
            <==> r == Err::<(u8, Vec<HtreeNode>), _>(HtreeNodeUnpackChildrenError::Truncated),
        match r {
            Ok((h, children)) => {
                &&& h == b@[0]
                &&& parse_entries(b@.subrange(1, b@.len() as int)) matches Some(es)
                &&& view_nodes(children@) == es.map_values(|e: (u128, Seq<u8>)| unpacked_child(e, (h - 1) as u8))
            },
            Err(_) => true,
        },
{
    if b.len() == 0 {
        return Err(HtreeNodeUnpackChildrenError::MissingHeight);
    }
    let height = b[0];
    if height == 0 {
        return Err(HtreeNodeUnpackChildrenError::InvalidHeight);
    }
    let child_height = height - 1;
    let ghost whole = b@.subrange(1, b@.len() as int);
    let ghost f = |e: (u128, Seq<u8>)| unpacked_child(e, child_height);
    let mut children: Vec<HtreeNode> = Vec::new();
    let mut pos: usize = 1;
    let ghost mut acc: Seq<(u128, Seq<u8>)> = Seq::empty();
    while pos < b.len()
        invariant
            1 <= pos <= b@.len(),
            whole == b@.subrange(1, b@.len() as int),
            b@.len() > 0,
            view_nodes(children@) == acc.map_values(f),
            f == (|e: (u128, Seq<u8>)| unpacked_child(e, child_height)),
            child_height == b@[0] - 1,
            match parse_entries(b@.subrange(pos as int, b@.len() as int)) {
                Some(rest) => parse_entries(whole) == Some(acc + rest),
                None => parse_entries(whole) is None,
            },
        decreases b@.len() - pos,
    {
        let ghost cur = b@.subrange(pos as int, b@.len() as int);
        if b.len() - pos < 17 {
            assert(parse_entries(cur) is None);
            return Err(HtreeNodeUnpackChildrenError::Truncated);
        }
        let len = b[pos + 16] as usize;
        assert(cur[16] == b@[pos + 16]);
        if b.len() - pos - 17 < len {
            assert(parse_entries(cur) is None);
            return Err(HtreeNodeUnpackChildrenError::Truncated);
        }
        let key = read_key(b, pos);
        let mut hkey: Vec<u8> = Vec::with_capacity(len);
        let start = pos + 17;
        let mut j: usize = 0;
        while j < len
            invariant
                j <= len,
                start + len <= b.len(),
                hkey@ == b@.subrange(start as int, start + j),
            decreases len - j,
        {
            hkey.push(b[start + j]);
            j += 1;
            assert(hkey@ =~= b@.subrange(start as int, start + j));
        }
        let node = HtreeNode {
            key,
            height: child_height,
            hkey,
            nil_hkey: false,
            writable: if child_height == 0 { HtreeNodeWritable::Leaf } else { HtreeNodeWritable::Wrapped },
        };
        let ghost e = (key, hkey@);
        proof {
            assert(cur.subrange(0, 16) =~= b@.subrange(pos as int, pos + 16));
            assert(cur.subrange(17, 17 + len as int) =~= hkey@);
            assert(cur.subrange(17 + len as int, cur.len() as int) =~= b@.subrange(pos + 17 + len, b@.len() as int));
            assert(node@ == f(e));
            crate::node::lemma_view_nodes_push(children@, node);
        }
        children.push(node);
        proof {
            let next = b@.subrange(pos + 17 + len, b@.len() as int);
            match parse_entries(next) {
                Some(rest) => {
                    assert(parse_entries(cur) == Some(seq![e] + rest));
                    assert(acc + (seq![e] + rest) =~= acc.push(e) + rest);
                }
                None => {}
            }
            assert(acc.push(e).map_values(f) =~= acc.map_values(f).push(f(e)));
            acc = acc.push(e);
        }
        pos = pos + 17 + len;
    }
    proof {
        assert(b@.subrange(pos as int, b@.len() as int) =~= Seq::<u8>::empty());
        assert(acc + Seq::<(u128, Seq<u8>)>::empty() =~= acc);
    }
    Ok((height, children))
}

} // verus!
