use crate::board::Board;
use crate::codec::board_bytes;
use crate::codec::law_decode_of_encode;
use crate::entry::Entry;
use vstd::prelude::*;

verus! {

/// What to do for a board at start-up, given which of its two files exist.
#[derive(Clone, Copy, Debug, PartialEq, Eq, Structural)]
pub enum Recovery {
    /// Neither file exists: start with an empty board.
    Fresh,
    /// Only the board file exists: load it.
    Load,
    /// Only the part file exists, left behind by a save that was cut short
    /// after writing: rename it to the board file and load that.
    Adopt,
    /// Both exist: load the board file and remove the part file.
    LoadAndSweep,
}

/// Which step of saving a board went wrong.
#[derive(Clone, Copy, Debug, PartialEq, Eq, Structural)]
pub enum SaveFault {
    /// The part file could not be opened.
    Open,
    /// The bytes could not be written to the part file.
    Write,
    /// The part file could not be renamed to the board file.
    Rename,
}

/// Decides what start-up does for a board: the board file is preferred; a
/// part file stands in for a missing board file and is swept away otherwise.
pub fn recovery_plan(board_file: bool, part_file: bool) -> (plan: Recovery)
    ensures
        plan == (if board_file {
            if part_file {
                Recovery::LoadAndSweep
            } else {
                Recovery::Load
            }
        } else if part_file {
            Recovery::Adopt
        } else {
            Recovery::Fresh
        }),
{
    if board_file {
        if part_file {
            Recovery::LoadAndSweep
        } else {
            Recovery::Load
        }
    } else if part_file {
        Recovery::Adopt
    } else {
        Recovery::Fresh
    }
}

/// Whether a save cycle goes on to the next board after a fault: it does
/// unless the rename failed.
pub fn save_goes_on(fault: SaveFault) -> (on: bool)
    ensures
        on == (fault != SaveFault::Rename),
{
    match fault {
        SaveFault::Rename => false,
        _ => true,
    }
}

/// Puts two pieces of text together with the `format!` macro of the
/// standard library. The contract claims that the result is the first piece
/// followed by the second.
#[verifier::external_body]
fn joined_text(a: &str, b: &str) -> (text: String)
    ensures
        text@ == a@ + b@,
{
    format!("{a}{b}")
}

/// The name of the file that holds a board.
pub fn board_file_name(name: &str) -> (file: String)
    ensures
        file@ == name@ + ".board"@,
{
    joined_text(name, ".board")
}

/// The name of the file that a save writes before it takes the place of
/// the board file.
pub fn part_file_name(name: &str) -> (file: String)
    ensures
        file@ == name@ + "_saving.part"@,
{
    joined_text(name, "_saving.part")
}

/// A run of entries lists a key index: it holds every entry of the index
/// once and nothing else.
pub open spec fn lists(s: Seq<Entry>, m: Map<i64, Entry>) -> bool {
    &&& s.no_duplicates()
    &&& forall|e: Entry| s.contains(e) <==> (m.contains_key(e.key) && m[e.key] == e)
}

/// Filing the entries of a listing of an index gives that index back.
pub proof fn lemma_filed_listing(s: Seq<Entry>, m: Map<i64, Entry>)
    requires
        lists(s, m),
        Board::keyed(m),
    ensures
        Board::filed(s) == m,
    decreases s.len(),
{
    if s.len() == 0 {
        assert forall|k: i64| !m.contains_key(k) by {
            if m.contains_key(k) {
                assert(s.contains(m[k]));
            }
        }
        assert(m =~= Map::<i64, Entry>::empty());
    } else {
        let e = s.last();
        let t = s.drop_last();
        let rest = m.remove(e.key);
        assert(s[s.len() - 1] == e);
        assert(s.contains(e));
        assert forall|x: Entry| t.contains(x) <==> (rest.contains_key(x.key) && rest[x.key] == x) by {
            if t.contains(x) {
                let i = choose|i: int| 0 <= i < t.len() && t[i] == x;
                assert(s[i] == x);
                assert(s.contains(x));
            }
            if rest.contains_key(x.key) && rest[x.key] == x {
                assert(s.contains(x));
                let i = choose|i: int| 0 <= i < s.len() && s[i] == x;
                assert(t[i] == x);
            }
        }
        assert(t.no_duplicates()) by {
            assert forall|i: int, j: int| 0 <= i < t.len() && 0 <= j < t.len() && i != j implies t[i]
                != t[j] by {
                assert(t[i] == s[i] && t[j] == s[j]);
            }
        }
        lemma_filed_listing(t, rest);
        assert(rest.insert(e.key, e) =~= m);
    }
}

/// Durability, as far as it is a matter of values: a board that is built
/// from the bytes of a saved board has the ranking and the index of the
/// board that was saved. `s` is the listing that was written, `v` the run of
/// entries that was read back from its bytes.
pub proof fn law_reload(board: &Board, s: Seq<Entry>, v: Seq<Entry>, reloaded: &Board)
    requires
        board.wf(),
        reloaded.wf(),
        lists(s, board.index()),
        s.len() <= u64::MAX,
        v.len() <= u64::MAX,
        board_bytes(v) == board_bytes(s),
        reloaded.index() == Board::filed(v),
    ensures
        reloaded.index() == board.index(),
        reloaded@ == board@,
{
    law_decode_of_encode(v, s);
    board.lemma_wf();
    assert(Board::keyed(board.index())) by {
        assert forall|k: i64| board.index().contains_key(k) implies (
        #[trigger] board.index()[k]).key == k by {}
    }
    lemma_filed_listing(s, board.index());
    reloaded.law_index_decides_ranking(board);
}

} // verus!
