use crate::entry::Entry;
use crate::wire::lemma_read_sound;
use crate::wire::lemma_read_written;
use crate::wire::lemma_varint_len;
use crate::wire::lemma_zigzag;
use crate::wire::read_i64;
use crate::wire::read_u64;
use crate::wire::strict_read;
use crate::wire::strict_read_signed;
use crate::wire::varint;
use crate::wire::varint_len;
use crate::wire::write_i64;
use crate::wire::write_u64;
use crate::wire::zigzag;
use vstd::prelude::*;

verus! {

/// Why bytes could not be read back.
#[derive(Clone, Copy, Debug, PartialEq, Eq, Structural)]
pub enum SerializationError {
    /// The bytes are not what the encoder writes for any value.
    Malformed,
}

/// The bytes of one entry: key, timestamp and points, each as a number of
/// variable length, the signed ones by their zigzag image.
pub open spec fn entry_bytes(e: Entry) -> Seq<u8> {
    varint(zigzag(e.key)) + varint(e.timestamp) + varint(zigzag(e.points))
}

/// The bytes of a run of entries: those of each entry, one after the other.
pub open spec fn entries_bytes(s: Seq<Entry>) -> Seq<u8>
    decreases s.len(),
{
    if s.len() == 0 {
        Seq::empty()
    } else {
        entries_bytes(s.drop_last()) + entry_bytes(s.last())
    }
}

/// The bytes of a saved board: the number of entries, then the entries.
pub open spec fn board_bytes(s: Seq<Entry>) -> Seq<u8> {
    varint(s.len() as u64) + entries_bytes(s)
}

/// What a strict reader finds at the start of `b` as one entry, and how many
/// bytes it took.
#[verifier::opaque]
pub open spec fn parse_entry(b: Seq<u8>) -> Option<(Entry, nat)> {
    match strict_read_signed(b) {
        None => None,
        Some((key, n1)) => match strict_read(b.skip(n1 as int)) {
            None => None,
            Some((timestamp, n2)) => match strict_read_signed(b.skip((n1 + n2) as int)) {
                None => None,
                Some((points, n3)) => Some((Entry { timestamp, points, key }, n1 + n2 + n3)),
            },
        },
    }
}

/// Whatever follows them, the bytes of an entry read back as that entry.
pub proof fn lemma_entry_read_written(e: Entry, rest: Seq<u8>)
    ensures
        parse_entry(entry_bytes(e) + rest) == Some((e, entry_bytes(e).len())),
        entry_bytes(e).len() >= 3,
{
    reveal(parse_entry);
    let k = varint(zigzag(e.key));
    let t = varint(e.timestamp);
    let p = varint(zigzag(e.points));
    let b = entry_bytes(e) + rest;
    lemma_varint_len(zigzag(e.key));
    lemma_varint_len(e.timestamp);
    lemma_varint_len(zigzag(e.points));
    assert(b =~= k + (t + p + rest));
    lemma_read_written(zigzag(e.key), t + p + rest);
    assert(b.skip(k.len() as int) =~= t + (p + rest));
    lemma_read_written(e.timestamp, p + rest);
    assert(b.skip((k.len() + t.len()) as int) =~= p + rest);
    lemma_read_written(zigzag(e.points), rest);
    lemma_zigzag(e.key, 0);
    lemma_zigzag(e.points, 0);
}

/// What a strict reader takes as an entry is exactly the bytes of that entry.
pub proof fn lemma_entry_read_sound(b: Seq<u8>)
    ensures
        parse_entry(b) matches Some(p) ==> 3 <= p.1 <= b.len() && b.take(p.1 as int) == entry_bytes(
            p.0,
        ),
{
    reveal(parse_entry);
    if let Some(p) = parse_entry(b) {
        let (key, n1) = strict_read_signed(b).unwrap();
        let (u1, _) = strict_read(b).unwrap();
        lemma_read_sound(b);
        let b2 = b.skip(n1 as int);
        let (timestamp, n2) = strict_read(b2).unwrap();
        lemma_read_sound(b2);
        let b3 = b.skip((n1 + n2) as int);
        let (points, n3) = strict_read_signed(b3).unwrap();
        let (u3, _) = strict_read(b3).unwrap();
        lemma_read_sound(b3);
        lemma_zigzag(0, u1);
        lemma_zigzag(0, u3);
        assert(b.take((n1 + n2 + n3) as int) =~= b.take(n1 as int) + b2.take(n2 as int) + b3.take(
            n3 as int,
        ));
    }
}

/// The bytes of a run of entries are those of the first entry followed by
/// those of the rest.
pub proof fn lemma_entries_bytes_front(s: Seq<Entry>)
    requires
        s.len() > 0,
    ensures
        entries_bytes(s) == entry_bytes(s.first()) + entries_bytes(s.drop_first()),
    decreases s.len(),
{
    if s.len() == 1 {
        assert(s.drop_last() =~= Seq::<Entry>::empty());
        assert(s.drop_first() =~= Seq::<Entry>::empty());
        assert(entries_bytes(s) =~= entry_bytes(s.first()) + entries_bytes(s.drop_first()));
    } else {
        let t = s.drop_last();
        lemma_entries_bytes_front(t);
        assert(t.first() == s.first());
        assert(t.drop_first() =~= s.drop_first().drop_last());
        assert(s.drop_first().last() == s.last());
        assert(entries_bytes(s) =~= entry_bytes(s.first()) + entries_bytes(s.drop_first()));
    }
}

/// Appends the bytes of one entry to `out`.
pub fn write_entry(out: &mut Vec<u8>, e: &Entry)
    ensures
        final(out)@ == old(out)@ + entry_bytes(*e),
{
    write_i64(out, e.key);
    write_u64(out, e.timestamp);
    write_i64(out, e.points);
    assert(out@ =~= old(out)@ + entry_bytes(*e));
}

/// Reads one entry at position `pos` of `bytes`, strictly. Returns the
/// entry and the position behind it.
pub fn read_entry(bytes: &[u8], pos: usize) -> (r: Option<(Entry, usize)>)
    requires
        pos <= bytes@.len(),
    ensures
        r is Some == parse_entry(bytes@.skip(pos as int)) is Some,
        r matches Some(p) ==> parse_entry(bytes@.skip(pos as int)) == Some((p.0, (p.1 - pos) as nat))
            && pos < p.1 <= bytes@.len(),
{
    let ghost b = bytes@.skip(pos as int);
    reveal(parse_entry);
    let (key, p1) = match read_i64(bytes, pos) {
        Some(x) => x,
        None => {
            return None;
        },
    };
    assert(bytes@.skip(p1 as int) =~= b.skip(p1 - pos));
    let (timestamp, p2) = match read_u64(bytes, p1) {
        Some(x) => x,
        None => {
            return None;
        },
    };
    assert(bytes@.skip(p2 as int) =~= b.skip(p2 - pos));
    let (points, p3) = match read_i64(bytes, p2) {
        Some(x) => x,
        None => {
            return None;
        },
    };
    Some((Entry { timestamp, points, key }, p3))
}

/// The bytes of a saved board with the given entries: their number, then
/// each entry in turn.
pub fn encode_entries(entries: &Vec<Entry>) -> (bytes: Vec<u8>)
    ensures
        bytes@ == board_bytes(entries@),
{
    let mut out: Vec<u8> = Vec::new();
    write_u64(&mut out, entries.len() as u64);
    let mut i: usize = 0;
    assert(entries@.take(0) =~= Seq::<Entry>::empty());
    while i < entries.len()
        invariant
            0 <= i <= entries@.len(),
            out@ == varint(entries@.len() as u64) + entries_bytes(entries@.take(i as int)),
        decreases entries@.len() - i,
    {
        write_entry(&mut out, &entries[i]);
        proof {
            let t = entries@.take(i + 1);
            assert(t.drop_last() =~= entries@.take(i as int));
            assert(t.last() == entries@[i as int]);
            assert(out@ =~= varint(entries@.len() as u64) + entries_bytes(t));
        }
        i = i + 1;
    }
    assert(entries@.take(entries@.len() as int) =~= entries@);
    out
}

/// Reads a saved board back. Succeeds exactly on the bytes that
/// `encode_entries` writes for some run of entries, and then returns that
/// run; so writing the result again gives the same bytes. Anything else,
/// bytes left over at the end included, is malformed.
pub fn decode_entries(bytes: &[u8]) -> (r: Result<Vec<Entry>, SerializationError>)
    ensures
        r matches Ok(v) ==> board_bytes(v@) == bytes@,
        r is Err ==> r == Err::<Vec<Entry>, SerializationError>(SerializationError::Malformed)
            && forall|s: Seq<Entry>| s.len() <= u64::MAX ==> #[trigger] board_bytes(s) != bytes@,
{
    let ghost b = bytes@;
    proof {
        assert(b.skip(0) =~= b);
        lemma_read_sound(b);
        assert forall|s: Seq<Entry>| s.len() <= u64::MAX && #[trigger] board_bytes(s) == b implies strict_read(
            b,
        ) == Some((s.len() as u64, varint_len(s.len() as u64))) by {
            lemma_read_written(s.len() as u64, entries_bytes(s));
        }
    }
    let (count, start) = match read_u64(bytes, 0) {
        Some(x) => x,
        None => {
            return Err(SerializationError::Malformed);
        },
    };
    let mut out: Vec<Entry> = Vec::new();
    let mut pos: usize = start;
    let mut i: u64 = 0;
    proof {
        assert(b.take(start as int) == varint(count));
        assert(b.take(pos as int) =~= varint(count) + entries_bytes(out@));
        assert forall|s: Seq<Entry>| s.len() <= u64::MAX && #[trigger] board_bytes(s) == b implies s.len()
            == count && s.take(0) == out@ && b.skip(pos as int) == entries_bytes(s.skip(0)) by {
            lemma_varint_len(count);
            assert(s.take(0) =~= out@);
            assert(s.skip(0) =~= s);
            assert(b.skip(pos as int) =~= entries_bytes(s));
        }
    }
    while i < count
        invariant
            b == bytes@,
            0 <= i <= count,
            start <= pos <= b.len(),
            out@.len() == i,
            b.take(pos as int) == varint(count) + entries_bytes(out@),
            forall|s: Seq<Entry>|
                s.len() <= u64::MAX && #[trigger] board_bytes(s) == b ==> s.len() == count && s.take(
                    i as int,
                ) == out@ && b.skip(pos as int) == entries_bytes(s.skip(i as int)),
        decreases count - i,
    {
        proof {
            lemma_entry_read_sound(b.skip(pos as int));
            assert forall|s: Seq<Entry>| s.len() <= u64::MAX && #[trigger] board_bytes(s) == b implies parse_entry(
                b.skip(pos as int),
            ) == Some((s[i as int], entry_bytes(s[i as int]).len())) by {
                let t = s.skip(i as int);
                lemma_entries_bytes_front(t);
                lemma_entry_read_written(t.first(), entries_bytes(t.drop_first()));
            }
        }
        let (e, next) = match read_entry(bytes, pos) {
            Some(x) => x,
            None => {
                return Err(SerializationError::Malformed);
            },
        };
        proof {
            let grown = out@.push(e);
            assert(grown.drop_last() =~= out@);
            assert(b.take(next as int) =~= b.take(pos as int) + b.skip(pos as int).take(next - pos));
            assert(b.take(next as int) =~= varint(count) + entries_bytes(grown));
            assert forall|s: Seq<Entry>| s.len() <= u64::MAX && #[trigger] board_bytes(s) == b implies s.take(
                i + 1,
            ) == grown && b.skip(next as int) == entries_bytes(s.skip(i + 1)) by {
                let t = s.skip(i as int);
                lemma_entries_bytes_front(t);
                assert(t.first() == s[i as int]);
                assert(t.drop_first() =~= s.skip(i + 1));
                assert(s.take(i + 1) =~= s.take(i as int).push(s[i as int]));
                assert(b.skip(next as int) =~= b.skip(pos as int).skip(next - pos));
                assert(b.skip(pos as int).skip(next - pos) =~= entries_bytes(t.drop_first()));
            }
        }
        out.push(e);
        pos = next;
        i = i + 1;
    }
    if pos != bytes.len() {
        proof {
            assert forall|s: Seq<Entry>| s.len() <= u64::MAX implies #[trigger] board_bytes(s) != b by {
                if board_bytes(s) == b {
                    assert(s.skip(count as int) =~= Seq::<Entry>::empty());
                    assert(b.skip(pos as int).len() == 0);
                }
            }
        }
        return Err(SerializationError::Malformed);
    }
    assert(b.take(pos as int) =~= b);
    Ok(out)
}

/// Reading back what was written gives what was written.
pub proof fn law_decode_of_encode(s: Seq<Entry>, t: Seq<Entry>)
    requires
        s.len() <= u64::MAX,
        t.len() <= u64::MAX,
        board_bytes(s) == board_bytes(t),
    ensures
        s == t,
    decreases s.len(),
{
    lemma_read_written(s.len() as u64, entries_bytes(s));
    lemma_read_written(t.len() as u64, entries_bytes(t));
    lemma_varint_len(s.len() as u64);
    assert(s.len() == t.len());
    assert(entries_bytes(s) =~= board_bytes(s).skip(varint_len(s.len() as u64) as int));
    assert(entries_bytes(t) =~= board_bytes(t).skip(varint_len(t.len() as u64) as int));
    lemma_entries_bytes_unique(s, t);
}

/// Two runs of equally many entries with the same bytes are the same run.
pub proof fn lemma_entries_bytes_unique(s: Seq<Entry>, t: Seq<Entry>)
    requires
        s.len() == t.len(),
        entries_bytes(s) == entries_bytes(t),
    ensures
        s == t,
    decreases s.len(),
{
    if s.len() == 0 {
        assert(s =~= t);
    } else {
        lemma_entries_bytes_front(s);
        lemma_entries_bytes_front(t);
        lemma_entry_read_written(s.first(), entries_bytes(s.drop_first()));
        lemma_entry_read_written(t.first(), entries_bytes(t.drop_first()));
        assert(s.first() == t.first());
        let n = entry_bytes(s.first()).len() as int;
        assert(entries_bytes(s.drop_first()) =~= entries_bytes(s).skip(n));
        assert(entries_bytes(t.drop_first()) =~= entries_bytes(t).skip(n));
        lemma_entries_bytes_unique(s.drop_first(), t.drop_first());
        assert(s =~= seq![s.first()] + s.drop_first());
        assert(t =~= seq![t.first()] + t.drop_first());
    }
}

} // verus!
