use crate::codec::entry_bytes;
use crate::codec::lemma_entry_read_sound;
use crate::codec::lemma_entry_read_written;
use crate::codec::parse_entry;
use crate::codec::read_entry;
use crate::codec::write_entry;
use crate::codec::SerializationError;
use crate::entry::Entry;
use crate::node::Node;
use crate::tree::Tree;
use vstd::prelude::*;

verus! {

/// The bytes of a subtree, shape included: a 0 for an empty subtree;
/// otherwise a 1, the entry at the top, the bytes of the left subtree and
/// the bytes of the right subtree.
pub open spec fn tree_bytes(link: Option<Box<Node<Entry>>>) -> Seq<u8>
    decreases link,
{
    match link {
        None => seq![0u8],
        Some(n) => seq![1u8] + entry_bytes(n.entry) + tree_bytes(n.left) + tree_bytes(n.right),
    }
}

/// Every node of the subtree records the count and the height that are due.
pub open spec fn counted(link: Option<Box<Node<Entry>>>) -> bool
    decreases link,
{
    match link {
        None => true,
        Some(n) => counted(n.left) && counted(n.right) && n.count == n.due_count() && n.height
            == n.due_height(),
    }
}

/// What a strict reader finds at the start of `b` as a subtree, and how many
/// bytes it took. Counts and heights are not read but computed.
pub open spec fn parse_tree(b: Seq<u8>) -> Option<(Option<Box<Node<Entry>>>, nat)>
    decreases b.len(),
{
    if b.len() == 0 {
        None
    } else if b[0] == 0 {
        Some((None, 1))
    } else if b[0] == 1 {
        match parse_entry(b.skip(1)) {
            None => None,
            Some((e, n1)) => if 1 + n1 <= b.len() {
                match parse_tree(b.skip((1 + n1) as int)) {
                    None => None,
                    Some((l, n2)) => if 1 + n1 + n2 <= b.len() {
                        match parse_tree(b.skip((1 + n1 + n2) as int)) {
                            None => None,
                            Some((r, n3)) => Some(
                                (Some(Box::new(Node::joined(l, e, r))), 1 + n1 + n2 + n3),
                            ),
                        }
                    } else {
                        None
                    },
                }
            } else {
                None
            },
        }
    } else {
        None
    }
}

/// What a strict reader takes as a subtree is exactly the bytes of that
/// subtree; the subtree has correct counts and heights and fewer nodes than
/// bytes were taken.
pub proof fn lemma_tree_read_sound(b: Seq<u8>)
    requires
        b.len() <= usize::MAX,
    ensures
        parse_tree(b) matches Some(p) ==> 1 <= p.1 <= b.len() && b.take(p.1 as int) == tree_bytes(p.0)
            && counted(p.0) && Node::<Entry>::count_of(p.0) < p.1 && Node::<Entry>::height_of(p.0)
            <= Node::<Entry>::count_of(p.0),
    decreases b.len(),
{
    if let Some(p) = parse_tree(b) {
        if b[0] == 0 {
            assert(b.take(1) =~= seq![0u8]);
        } else {
            let b1 = b.skip(1);
            lemma_entry_read_sound(b1);
            let (e, n1) = parse_entry(b1).unwrap();
            let b2 = b.skip((1 + n1) as int);
            lemma_tree_read_sound(b2);
            let (l, n2) = parse_tree(b2).unwrap();
            let b3 = b.skip((1 + n1 + n2) as int);
            lemma_tree_read_sound(b3);
            let (r, n3) = parse_tree(b3).unwrap();
            let node = Node::joined(l, e, r);
            assert(p.0 == Some(Box::new(node)));
            assert(p.1 == 1 + n1 + n2 + n3);
            assert(node.count == node.due_count());
            assert(node.height == node.due_height());
            let eb = b1.take(n1 as int);
            let lb = b2.take(n2 as int);
            let rb = b3.take(n3 as int);
            assert(eb == entry_bytes(e));
            assert(lb == tree_bytes(l));
            assert(rb == tree_bytes(r));
            assert(tree_bytes(p.0) == seq![1u8] + entry_bytes(e) + tree_bytes(l) + tree_bytes(r));
            lemma_cut_in_four(b, n1 as int, n2 as int, n3 as int);
        }
    }
}

/// Bytes that start with a 1 are that 1 followed by the three runs that
/// come next.
proof fn lemma_cut_in_four(b: Seq<u8>, n1: int, n2: int, n3: int)
    requires
        0 <= n1,
        0 <= n2,
        0 <= n3,
        1 + n1 + n2 + n3 <= b.len(),
        b[0] == 1,
    ensures
        b.take(1 + n1 + n2 + n3) == seq![1u8] + b.skip(1).take(n1) + b.skip(1 + n1).take(n2)
            + b.skip(1 + n1 + n2).take(n3),
{
    assert(b.take(1 + n1 + n2 + n3) =~= seq![1u8] + b.skip(1).take(n1) + b.skip(1 + n1).take(n2)
        + b.skip(1 + n1 + n2).take(n3));
}

/// What is left of four runs of bytes after the first, the first two and
/// the first three of them.
proof fn lemma_skip_runs(a: Seq<u8>, x: Seq<u8>, y: Seq<u8>, z: Seq<u8>, rest: Seq<u8>)
    ensures
        (a + x + y + z + rest).skip(a.len() as int) == x + (y + z + rest),
        (a + x + y + z + rest).skip((a.len() + x.len()) as int) == y + (z + rest),
        (a + x + y + z + rest).skip((a.len() + x.len() + y.len()) as int) == z + rest,
{
    let b = a + x + y + z + rest;
    assert(b.skip(a.len() as int) =~= x + (y + z + rest));
    assert(b.skip((a.len() + x.len()) as int) =~= y + (z + rest));
    assert(b.skip((a.len() + x.len() + y.len()) as int) =~= z + rest);
}

/// Whatever follows them, the bytes of a subtree with correct counts and
/// heights read back as that subtree.
pub proof fn lemma_tree_read_written(link: Option<Box<Node<Entry>>>, rest: Seq<u8>)
    requires
        counted(link),
    ensures
        parse_tree(tree_bytes(link) + rest) == Some((link, tree_bytes(link).len())),
    decreases link,
{
    let b = tree_bytes(link) + rest;
    match link {
        None => {},
        Some(n) => {
            let eb = entry_bytes(n.entry);
            let lb = tree_bytes(n.left);
            let rb = tree_bytes(n.right);
            assert(tree_bytes(link) == seq![1u8] + eb + lb + rb);
            assert(b[0] == 1);
            lemma_skip_runs(seq![1u8], eb, lb, rb, rest);
            let b1 = b.skip(1);
            assert(b1 == eb + (lb + rb + rest));
            lemma_entry_read_written(n.entry, lb + rb + rest);
            assert(parse_entry(b1) == Some((n.entry, eb.len())));
            let b2 = b.skip((1 + eb.len()) as int);
            assert(b2 == lb + (rb + rest));
            lemma_tree_read_written(n.left, rb + rest);
            assert(parse_tree(b2) == Some((n.left, lb.len())));
            let b3 = b.skip((1 + eb.len() + lb.len()) as int);
            assert(b3 == rb + rest);
            lemma_tree_read_written(n.right, rest);
            assert(parse_tree(b3) == Some((n.right, rb.len())));
            assert(Node::joined(n.left, n.entry, n.right) == *n);
            assert(tree_bytes(link).len() == 1 + eb.len() + lb.len() + rb.len());
        },
    }
}

/// A well-formed subtree has correct counts and heights.
pub proof fn lemma_wf_counted(link: Option<Box<Node<Entry>>>)
    requires
        Node::<Entry>::wf_of(link),
    ensures
        counted(link),
    decreases link,
{
    match link {
        None => {},
        Some(n) => {
            lemma_wf_counted(n.left);
            lemma_wf_counted(n.right);
        },
    }
}

/// Appends the bytes of a subtree to `out`.
pub fn write_tree(link: &Option<Box<Node<Entry>>>, out: &mut Vec<u8>)
    ensures
        final(out)@ == old(out)@ + tree_bytes(*link),
    decreases *link,
{
    match link {
        None => {
            out.push(0u8);
            assert(out@ =~= old(out)@ + tree_bytes(*link));
        },
        Some(n) => {
            out.push(1u8);
            write_entry(out, &n.entry);
            write_tree(&n.left, out);
            write_tree(&n.right, out);
            assert(out@ =~= old(out)@ + tree_bytes(*link));
        },
    }
}

/// Reads a subtree at position `pos` of `bytes`, strictly. Returns the
/// subtree, with counts and heights computed, and the position behind it.
pub fn read_tree(bytes: &[u8], pos: usize) -> (r: Option<(Option<Box<Node<Entry>>>, usize)>)
    requires
        pos <= bytes@.len(),
    ensures
        r is Some == parse_tree(bytes@.skip(pos as int)) is Some,
        r matches Some(p) ==> parse_tree(bytes@.skip(pos as int)) == Some((p.0, (p.1 - pos) as nat))
            && pos < p.1 <= bytes@.len(),
    decreases bytes@.len() - pos,
{
    let ghost b = bytes@.skip(pos as int);
    if pos >= bytes.len() {
        return None;
    }
    let flag = bytes[pos];
    assert(b[0] == flag);
    if flag == 0 {
        return Some((None, pos + 1));
    }
    if flag != 1 {
        return None;
    }
    assert(bytes@.skip(pos + 1) =~= b.skip(1));
    let (e, p1) = match read_entry(bytes, pos + 1) {
        Some(x) => x,
        None => {
            return None;
        },
    };
    assert(bytes@.skip(p1 as int) =~= b.skip(p1 - pos));
    let (left, p2) = match read_tree(bytes, p1) {
        Some(x) => x,
        None => {
            return None;
        },
    };
    assert(bytes@.skip(p2 as int) =~= b.skip(p2 - pos));
    let (right, p3) = match read_tree(bytes, p2) {
        Some(x) => x,
        None => {
            return None;
        },
    };
    proof {
        lemma_tree_read_sound(b.skip(p1 - pos));
        lemma_tree_read_sound(b.skip(p2 - pos));
    }
    let mut node = Node { left, right, entry: e, count: 0, height: 0 };
    node.fix_count();
    node.fix_height();
    Some((Some(Box::new(node)), p3))
}

/// The bytes of a tree, shape included.
pub fn encode_tree(tree: &Tree<Entry>) -> (bytes: Vec<u8>)
    ensures
        bytes@ == tree_bytes(tree.root()),
{
    let mut out: Vec<u8> = Vec::new();
    write_tree(tree.root_link(), &mut out);
    assert(out@ =~= tree_bytes(tree.root()));
    out
}

/// Reads a tree back. Succeeds exactly on the bytes that `encode_tree`
/// writes for some well-formed tree, and then returns a tree of the same
/// shape with the same entries; so writing the result again gives the same
/// bytes. Anything else is malformed: bytes left over at the end, and bytes
/// that describe a tree out of order or out of balance.
pub fn decode_tree(bytes: &[u8]) -> (r: Result<Tree<Entry>, SerializationError>)
    ensures
        r matches Ok(t) ==> t.wf() && tree_bytes(t.root()) == bytes@,
        r is Err ==> r == Err::<Tree<Entry>, SerializationError>(SerializationError::Malformed)
            && forall|link: Option<Box<Node<Entry>>>|
            Node::<Entry>::wf_of(link) ==> #[trigger] tree_bytes(link) != bytes@,
{
    let ghost b = bytes@;
    let total = bytes.len();
    proof {
        assert(b.skip(0) =~= b);
        lemma_tree_read_sound(b);
        assert forall|link: Option<Box<Node<Entry>>>|
            Node::<Entry>::wf_of(link) && #[trigger] tree_bytes(link) == b implies parse_tree(b)
            == Some((link, b.len())) by {
            lemma_wf_counted(link);
            lemma_tree_read_written(link, Seq::<u8>::empty());
            assert(tree_bytes(link) + Seq::<u8>::empty() =~= tree_bytes(link));
        }
    }
    let (root, end) = match read_tree(bytes, 0) {
        Some(x) => x,
        None => {
            return Err(SerializationError::Malformed);
        },
    };
    if end != total {
        return Err(SerializationError::Malformed);
    }
    assert(b.take(end as int) =~= b);
    let tree = Tree::from_root(root);
    if tree.validate() {
        Ok(tree)
    } else {
        Err(SerializationError::Malformed)
    }
}

} // verus!
