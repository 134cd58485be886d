use crate::board::Board;
use crate::board::BoardError;
use crate::entry::Entry;
use crate::ranking::rank_in;
use crate::window::after_of;
use crate::window::around_of;
use crate::window::before_of;
use crate::window::bottom_of;
use crate::window::range_of;
use crate::window::top_of;
use vstd::prelude::*;

verus! {

/// The kinds of request that a client can make of a board.
#[derive(Clone, Copy, Debug, PartialEq, Eq, Hash, Structural)]
pub enum ActionType {
    Update,
    Remove,
    Get,
    Info,
    Board,
    AtRank,
    Top,
    Bottom,
    After,
    Before,
    Around,
    Range,
}

/// A request with what it carries.
#[derive(Clone, Copy, Debug, PartialEq, Eq, Structural)]
pub enum Request {
    Update { id: i64, value: i64 },
    Remove { id: i64 },
    Get { id: i64 },
    Info { id: i64 },
    Board,
    AtRank { rank: usize },
    Top { count: usize, no_cache: bool },
    Bottom { count: usize, no_cache: bool },
    After { id: i64, count: usize },
    Before { id: i64, count: usize },
    Around { id: i64, before: usize, after: usize },
    Range { start: usize, end: usize },
}

/// Why a request was not carried out.
#[derive(Clone, Copy, Debug, PartialEq, Eq, Structural)]
pub enum Refusal {
    /// The request wants to write and the key that made it may not.
    Forbidden,
    /// The request does not fit the action it came under, or names rank 0.
    BadRequest,
}

/// What came of a request that was carried out.
#[derive(Clone, Copy, Debug, PartialEq, Eq, Structural)]
pub enum Outcome {
    /// The key was on the board; its points are as asked.
    Updated,
    /// The key was new and went in.
    Added,
    /// The key was new and the board turned it away.
    Rejected,
    /// The key was on the board and is gone.
    Removed,
    /// The key was not on the board.
    AlreadyAbsent,
    /// The entry asked for is attached.
    Found,
    /// The board holds no such key, or no such rank.
    NotFound,
    /// The entries asked for are attached.
    Listed,
}

/// The answer to a request about one key or one rank: a code (0 for
/// success, 1 for success with something to note, -1 for not found), what
/// happened, and the entry, rank and entries that belong to the answer.
pub struct Response {
    pub code: i64,
    pub outcome: Outcome,
    pub entry: Option<Entry>,
    pub rank: Option<usize>,
    pub entries: Option<Vec<(usize, Entry)>>,
}

/// The answer to a request about the board as a whole.
#[derive(Clone, Copy, Debug, PartialEq, Eq, Structural)]
pub struct BoardResponse {
    pub cap: Option<usize>,
    pub size: usize,
    pub min: Option<i64>,
}

/// The answer to any request.
pub enum Reply {
    /// The answer to a request about one key or one rank.
    Single(Response),
    /// The answer to a request about the board as a whole.
    Summary(BoardResponse),
    /// The answer to a request for a stretch of the ranking.
    Listing(Vec<(usize, Entry)>),
}

/// A request could not be answered in the shape that was expected.
#[derive(Clone, Copy, Debug, PartialEq, Eq, Structural)]
pub enum RequestError {
    InvalidResult,
}

/// What is wrong with the API key of a request.
#[derive(Clone, Copy, Debug, PartialEq, Eq, Structural)]
pub enum ApiKeyError {
    /// The request carries no key.
    Missing,
    /// The request carries a key that is not registered.
    Invalid,
}

impl Request {
    /// The action a request belongs to.
    pub open spec fn spec_action(self) -> ActionType {
        match self {
            Request::Update { .. } => ActionType::Update,
            Request::Remove { .. } => ActionType::Remove,
            Request::Get { .. } => ActionType::Get,
            Request::Info { .. } => ActionType::Info,
            Request::Board => ActionType::Board,
            Request::AtRank { .. } => ActionType::AtRank,
            Request::Top { .. } => ActionType::Top,
            Request::Bottom { .. } => ActionType::Bottom,
            Request::After { .. } => ActionType::After,
            Request::Before { .. } => ActionType::Before,
            Request::Around { .. } => ActionType::Around,
            Request::Range { .. } => ActionType::Range,
        }
    }

    /// The action a request belongs to.
    pub fn action(&self) -> (a: ActionType)
        ensures
            a == self.spec_action(),
    {
        match self {
            Request::Update { .. } => ActionType::Update,
            Request::Remove { .. } => ActionType::Remove,
            Request::Get { .. } => ActionType::Get,
            Request::Info { .. } => ActionType::Info,
            Request::Board => ActionType::Board,
            Request::AtRank { .. } => ActionType::AtRank,
            Request::Top { .. } => ActionType::Top,
            Request::Bottom { .. } => ActionType::Bottom,
            Request::After { .. } => ActionType::After,
            Request::Before { .. } => ActionType::Before,
            Request::Around { .. } => ActionType::Around,
            Request::Range { .. } => ActionType::Range,
        }
    }
}

impl ActionType {
    /// Whether the action changes the board, so that the key that asks for
    /// it must be allowed to write.
    pub open spec fn spec_writes(self) -> bool {
        self == ActionType::Update || self == ActionType::Remove
    }

    /// Whether the action changes the board.
    pub fn writes(&self) -> (w: bool)
        ensures
            w == self.spec_writes(),
    {
        match self {
            ActionType::Update => true,
            ActionType::Remove => true,
            _ => false,
        }
    }
}

/// An answer about one key or one rank without entries attached.
fn plain(code: i64, outcome: Outcome, entry: Option<Entry>, rank: Option<usize>) -> (r: Response)
    ensures
        r.code == code,
        r.outcome == outcome,
        r.entry == entry,
        r.rank == rank,
        r.entries is None,
{
    Response { code, outcome, entry, rank, entries: None }
}

/// An answer that lists entries around a key, or says that the key is not
/// on the board.
fn listed(found: Option<Vec<(usize, Entry)>>) -> (r: Response)
    ensures
        r.entry is None,
        r.rank is None,
        found is Some ==> r.code == 0 && r.outcome == Outcome::Listed && r.entries == found,
        found is None ==> r.code == -1 && r.outcome == Outcome::NotFound && r.entries is None,
{
    match found {
        Some(v) => Response {
            code: 0,
            outcome: Outcome::Listed,
            entry: None,
            rank: None,
            entries: Some(v),
        },
        None => Response {
            code: -1,
            outcome: Outcome::NotFound,
            entry: None,
            rank: None,
            entries: None,
        },
    }
}

/// Sets the points of a key at time `now`, if the caller may write. The
/// answer has code 0 if the key was on the board, code 1 if it was added,
/// and code 1 with `Rejected` if the board turned it away.
pub fn execute_update(board: &mut Board, write: bool, id: i64, value: i64, now: u64) -> (r: Result<
    Response,
    Refusal,
>)
    requires
        old(board).wf(),
        old(board)@.len() < usize::MAX,
    ensures
        final(board).wf(),
        final(board).cap() == old(board).cap(),
        !write ==> r == Err::<Response, Refusal>(Refusal::Forbidden) && final(board)@ == old(board)@
            && final(board).index_state() == old(board).index_state(),
        write ==> r is Ok && ({
            let out = Board::update_outcome(
                old(board)@,
                old(board).index(),
                old(board).cap(),
                id,
                value,
                now,
            );
            &&& final(board)@ == out.0
            &&& r.unwrap().entry is None
            &&& r.unwrap().rank is None
            &&& r.unwrap().entries is None
            &&& out.1 == Ok::<bool, BoardError>(false) ==> r.unwrap().code == 0 && r.unwrap().outcome
                == Outcome::Updated
            &&& out.1 == Ok::<bool, BoardError>(true) ==> r.unwrap().code == 1 && r.unwrap().outcome
                == Outcome::Added
            &&& out.1 is Err ==> r.unwrap().code == 1 && r.unwrap().outcome == Outcome::Rejected
        }),
{
    if !write {
        return Err(Refusal::Forbidden);
    }
    match board.update_entry_at(id, value, now) {
        Ok(inserted) => if inserted {
            Ok(plain(1, Outcome::Added, None, None))
        } else {
            Ok(plain(0, Outcome::Updated, None, None))
        },
        Err(_) => Ok(plain(1, Outcome::Rejected, None, None)),
    }
}

/// Removes a key, if the caller may write. The answer has code 0 and the
/// entry that left, or code 1 if the key was not on the board.
pub fn execute_remove(board: &mut Board, write: bool, id: i64) -> (r: Result<Response, Refusal>)
    requires
        old(board).wf(),
    ensures
        final(board).wf(),
        final(board).cap() == old(board).cap(),
        !write ==> r == Err::<Response, Refusal>(Refusal::Forbidden) && final(board)@ == old(board)@
            && final(board).index_state() == old(board).index_state(),
        write ==> r is Ok && final(board).index() == old(board).index().remove(id) && r.unwrap().rank
            is None && r.unwrap().entries is None,
        write && old(board).index().contains_key(id) ==> r.unwrap().code == 0 && r.unwrap().outcome
            == Outcome::Removed && r.unwrap().entry == Some(old(board).index()[id]) && final(board)@
            == old(board)@.remove(rank_in(old(board)@, old(board).index()[id]) as int),
        write && !old(board).index().contains_key(id) ==> r.unwrap().code == 1
            && r.unwrap().outcome == Outcome::AlreadyAbsent && r.unwrap().entry is None && final(board)@ == old(board)@,
{
    if !write {
        return Err(Refusal::Forbidden);
    }
    match board.remove_entry(&id) {
        Some(e) => Ok(plain(0, Outcome::Removed, Some(e), None)),
        None => Ok(plain(1, Outcome::AlreadyAbsent, None, None)),
    }
}

/// Looks a key up. The answer has code 0 and the entry, or code -1 if the
/// key is not on the board.
pub fn execute_get(board: &Board, id: i64) -> (r: Response)
    ensures
        r.rank is None,
        r.entries is None,
        board.index().contains_key(id) ==> r.code == 0 && r.outcome == Outcome::Found && r.entry
            == Some(board.index()[id]),
        !board.index().contains_key(id) ==> r.code == -1 && r.outcome == Outcome::NotFound
            && r.entry is None,
{
    match board.get_entry(&id) {
        Some(e) => plain(0, Outcome::Found, Some(e), None),
        None => plain(-1, Outcome::NotFound, None, None),
    }
}

/// Looks a key up with its rank. The answer has code 0, the entry and its
/// rank, counted from 1, or code -1 if the key is not on the board.
pub fn execute_info(board: &Board, id: i64) -> (r: Response)
    requires
        board.wf(),
    ensures
        r.entries is None,
        board.index().contains_key(id) ==> r.code == 0 && r.outcome == Outcome::Found && r.entry
            == Some(board.index()[id]) && r.rank == Some(
            (rank_in(board@, board.index()[id]) + 1) as usize,
        ),
        !board.index().contains_key(id) ==> r.code == -1 && r.outcome == Outcome::NotFound
            && r.entry is None && r.rank is None,
{
    match board.get_entry_and_rank(&id) {
        Some(p) => plain(0, Outcome::Found, Some(p.1), Some(p.0)),
        None => plain(-1, Outcome::NotFound, None, None),
    }
}

/// Describes the board: its cap, its size and the points of its
/// lowest-ranked entry.
pub fn execute_board(board: &Board) -> (r: BoardResponse)
    requires
        board.wf(),
    ensures
        r.cap == board.cap(),
        r.size == board@.len(),
        r.min == (if board@.len() > 0 {
            Some(board@.last().points)
        } else {
            None
        }),
{
    BoardResponse { cap: board.get_size_cap(), size: board.get_size(), min: board.get_min() }
}

/// Looks a rank up, counted from 1. Rank 0 is a bad request. The answer has
/// code 0 and the entry, or code -1 if the board is smaller; either way it
/// repeats the rank.
pub fn execute_at_rank(board: &Board, rank: usize) -> (r: Result<Response, Refusal>)
    requires
        board.wf(),
    ensures
        rank == 0 ==> r == Err::<Response, Refusal>(Refusal::BadRequest),
        rank > 0 ==> r is Ok && r.unwrap().rank == Some(rank) && r.unwrap().entries is None,
        0 < rank <= board@.len() ==> r.unwrap().code == 0 && r.unwrap().outcome == Outcome::Found
            && r.unwrap().entry == Some(board@[rank - 1]),
        rank > board@.len() ==> r.unwrap().code == -1 && r.unwrap().outcome == Outcome::NotFound
            && r.unwrap().entry is None,
{
    if rank == 0 {
        return Err(Refusal::BadRequest);
    }
    match board.at_rank(rank) {
        Some(e) => Ok(plain(0, Outcome::Found, Some(e), Some(rank))),
        None => Ok(plain(-1, Outcome::NotFound, None, Some(rank))),
    }
}

/// The `count` highest-ranked entries at time `now`; see
/// [`Board::get_top_at`] for the use of memory.
pub fn execute_top(board: &mut Board, count: usize, no_cache: bool, expire_len: u64, now: u64) -> (r:
    Vec<(usize, Entry)>)
    requires
        old(board).wf(),
    ensures
        final(board).wf(),
        final(board)@ == old(board)@,
        final(board).cap() == old(board).cap(),
        final(board).index_state() == old(board).index_state(),
        r@ == top_of(old(board)@, count as int),
{
    board.get_top_at(count, no_cache, expire_len, now)
}

/// The `count` lowest-ranked entries at time `now`; see
/// [`Board::get_bottom_at`] for the use of memory.
pub fn execute_bottom(board: &mut Board, count: usize, no_cache: bool, expire_len: u64, now: u64) -> (r:
    Vec<(usize, Entry)>)
    requires
        old(board).wf(),
    ensures
        final(board).wf(),
        final(board)@ == old(board)@,
        final(board).cap() == old(board).cap(),
        final(board).index_state() == old(board).index_state(),
        r@ == bottom_of(old(board)@, count as int),
{
    board.get_bottom_at(count, no_cache, expire_len, now)
}

/// Up to `count` entries right below a key. The answer has code 0 and the
/// entries, or code -1 if the key is not on the board.
pub fn execute_after(board: &Board, id: i64, count: usize) -> (r: Response)
    requires
        board.wf(),
    ensures
        r.entry is None,
        r.rank is None,
        board.index().contains_key(id) ==> r.code == 0 && r.outcome == Outcome::Listed && r.entries
            is Some && r.entries.unwrap()@ == after_of(
            board@,
            rank_in(board@, board.index()[id]) as int,
            count as int,
        ),
        !board.index().contains_key(id) ==> r.code == -1 && r.outcome == Outcome::NotFound
            && r.entries is None,
{
    listed(board.get_after(&id, count))
}

/// Up to `count` entries right above a key. The answer has code 0 and the
/// entries, or code -1 if the key is not on the board.
pub fn execute_before(board: &Board, id: i64, count: usize) -> (r: Response)
    requires
        board.wf(),
    ensures
        r.entry is None,
        r.rank is None,
        board.index().contains_key(id) ==> r.code == 0 && r.outcome == Outcome::Listed && r.entries
            is Some && r.entries.unwrap()@ == before_of(
            board@,
            rank_in(board@, board.index()[id]) as int,
            count as int,
        ),
        !board.index().contains_key(id) ==> r.code == -1 && r.outcome == Outcome::NotFound
            && r.entries is None,
{
    listed(board.get_before(&id, count))
}

/// A key with up to `before` entries above it and up to `after` entries
/// below it. The answer has code 0 and the entries, or code -1 if the key
/// is not on the board.
pub fn execute_around(board: &Board, id: i64, before: usize, after: usize) -> (r: Response)
    requires
        board.wf(),
    ensures
        r.entry is None,
        r.rank is None,
        board.index().contains_key(id) ==> r.code == 0 && r.outcome == Outcome::Listed && r.entries
            is Some && r.entries.unwrap()@ == around_of(
            board@,
            rank_in(board@, board.index()[id]) as int,
            before as int,
            after as int,
        ),
        !board.index().contains_key(id) ==> r.code == -1 && r.outcome == Outcome::NotFound
            && r.entries is None,
{
    listed(board.get_around(&id, before, after))
}

/// The entries with ranks from `start` to `end`, both included.
pub fn execute_range(board: &Board, start: usize, end: usize) -> (r: Vec<(usize, Entry)>)
    requires
        board.wf(),
    ensures
        r@ == range_of(board@, start as int, end as int),
{
    board.get_range(start, end)
}

/// Why a request of the holder of an API key was not answered.
#[derive(Clone, Copy, Debug, PartialEq, Eq, Structural)]
pub enum Denial {
    /// The key is missing or not registered.
    Key(ApiKeyError),
    /// The request was refused.
    Refused(Refusal),
    /// The board of the key is not registered, or is too full to take part.
    Internal,
}

/// The answer about one key or one rank that has the given parts and no
/// entries attached.
pub open spec fn is_plain(
    a: Response,
    code: i64,
    outcome: Outcome,
    entry: Option<Entry>,
    rank: Option<usize>,
) -> bool {
    a.code == code && a.outcome == outcome && a.entry == entry && a.rank == rank && a.entries
        is None
}

/// The answer that lists the given entries around a key, or that says that
/// the key is not on the board.
pub open spec fn is_listed(a: Response, on_board: bool, entries: Seq<(usize, Entry)>) -> bool {
    &&& a.entry is None
    &&& a.rank is None
    &&& on_board ==> a.code == 0 && a.outcome == Outcome::Listed && a.entries is Some
        && a.entries.unwrap()@ == entries
    &&& !on_board ==> a.code == -1 && a.outcome == Outcome::NotFound && a.entries is None
}

/// The answer is one about a key or a rank, with the given parts and no
/// entries attached.
pub open spec fn is_single(
    r: Result<Reply, Refusal>,
    code: i64,
    outcome: Outcome,
    entry: Option<Entry>,
    rank: Option<usize>,
) -> bool {
    match r {
        Ok(Reply::Single(a)) => is_plain(a, code, outcome, entry, rank),
        _ => false,
    }
}

/// The answer is one that lists the given entries around a key, or says
/// that the key is not on the board.
pub open spec fn is_single_listed(
    r: Result<Reply, Refusal>,
    on_board: bool,
    entries: Seq<(usize, Entry)>,
) -> bool {
    match r {
        Ok(Reply::Single(a)) => is_listed(a, on_board, entries),
        _ => false,
    }
}

/// The answer is the given stretch of the ranking.
pub open spec fn is_listing(r: Result<Reply, Refusal>, entries: Seq<(usize, Entry)>) -> bool {
    match r {
        Ok(Reply::Listing(v)) => v@ == entries,
        _ => false,
    }
}

/// The answer describes the given board: its cap, its size and the points
/// of its lowest-ranked entry.
pub open spec fn is_summary(r: Result<Reply, Refusal>, board: Board) -> bool {
    match r {
        Ok(Reply::Summary(s)) => s.cap == board.cap() && s.size == board@.len() && s.min == (
        if board@.len() > 0 {
            Some(board@.last().points)
        } else {
            None
        }),
        _ => false,
    }
}

/// What carrying out a request means for the board and the answer.
///
/// A request that does not fit its action is a bad request, and a request
/// that writes is forbidden without the right to write; both leave the
/// board as it is. Requests that read leave the ranking and the index as
/// they are. Each kind of request is answered as its own function says.
pub open spec fn carried_out(
    before: Board,
    after: Board,
    action: ActionType,
    write: bool,
    request: Request,
    now: u64,
    r: Result<Reply, Refusal>,
) -> bool {
    let index = before.index();
    if request.spec_action() != action {
        r == Err::<Reply, Refusal>(Refusal::BadRequest) && after == before
    } else if action.spec_writes() && !write {
        r == Err::<Reply, Refusal>(Refusal::Forbidden) && after@ == before@ && after.index_state()
            == before.index_state()
    } else {
        match request {
            Request::Update { id, value } => {
                let out = Board::update_outcome(before@, index, before.cap(), id, value, now);
                &&& after@ == out.0
                &&& is_single(
                    r,
                    if out.1 == Ok::<bool, BoardError>(false) {
                        0
                    } else {
                        1
                    },
                    match out.1 {
                        Ok(inserted) => if inserted {
                            Outcome::Added
                        } else {
                            Outcome::Updated
                        },
                        Err(_) => Outcome::Rejected,
                    },
                    None,
                    None,
                )
            },
            Request::Remove { id } => {
                &&& after.index() == index.remove(id)
                &&& index.contains_key(id) ==> after@ == before@.remove(
                    rank_in(before@, index[id]) as int,
                ) && is_single(
                    r,
                    0,
                    Outcome::Removed,
                    Some(index[id]),
                    None,
                )
                &&& !index.contains_key(id) ==> after@ == before@ && is_single(
                    r, 1, Outcome::AlreadyAbsent, None, None)
            },
            Request::Get { id } => {
                &&& after == before
                &&& index.contains_key(id) ==> is_single(
                    r,
                    0,
                    Outcome::Found,
                    Some(index[id]),
                    None,
                )
                &&& !index.contains_key(id) ==> is_single(
                    r,
                    -1i64,
                    Outcome::NotFound,
                    None,
                    None,
                )
            },
            Request::Info { id } => {
                &&& after == before
                &&& index.contains_key(id) ==> is_single(
                    r,
                    0,
                    Outcome::Found,
                    Some(index[id]),
                    Some((rank_in(before@, index[id]) + 1) as usize),
                )
                &&& !index.contains_key(id) ==> is_single(
                    r,
                    -1i64,
                    Outcome::NotFound,
                    None,
                    None,
                )
            },
            Request::Board => {
                &&& after == before
                &&& is_summary(r, before)
            },
            Request::AtRank { rank } => {
                &&& after == before
                &&& rank == 0 ==> r == Err::<Reply, Refusal>(Refusal::BadRequest)
                &&& 0 < rank <= before@.len() ==> is_single(
                    r,
                    0,
                    Outcome::Found,
                    Some(before@[rank - 1]),
                    Some(rank),
                )
                &&& rank > before@.len() ==> is_single(
                    r,
                    -1i64,
                    Outcome::NotFound,
                    None,
                    Some(rank),
                )
            },
            Request::Top { count, no_cache } => {
                &&& after@ == before@
                &&& after.index_state() == before.index_state()
                &&& is_listing(r, top_of(before@, count as int))
            },
            Request::Bottom { count, no_cache } => {
                &&& after@ == before@
                &&& after.index_state() == before.index_state()
                &&& is_listing(r, bottom_of(before@, count as int))
            },
            Request::After { id, count } => {
                &&& after == before
                &&& is_single_listed(
                    r,
                    index.contains_key(id),
                    after_of(before@, rank_in(before@, index[id]) as int, count as int),
                )
            },
            Request::Before { id, count } => {
                &&& after == before
                &&& is_single_listed(
                    r,
                    index.contains_key(id),
                    before_of(before@, rank_in(before@, index[id]) as int, count as int),
                )
            },
            Request::Around { id, before: ahead, after: behind } => {
                &&& after == before
                &&& is_single_listed(
                    r,
                    index.contains_key(id),
                    around_of(
                        before@,
                        rank_in(before@, index[id]) as int,
                        ahead as int,
                        behind as int,
                    ),
                )
            },
            Request::Range { start, end } => {
                &&& after == before
                &&& is_listing(r, range_of(before@, start as int, end as int))
            },
        }
    }
}

/// What serving a request means for the board of the key that made it, and
/// for the answer: what [`carried_out`] says, with a refusal handed on as a
/// denial.
pub open spec fn served(
    before: Board,
    after: Board,
    action: ActionType,
    write: bool,
    request: Request,
    now: u64,
    r: Result<Reply, Denial>,
) -> bool {
    match r {
        Ok(reply) => carried_out(
            before,
            after,
            action,
            write,
            request,
            now,
            Ok::<Reply, Refusal>(reply),
        ),
        Err(Denial::Refused(e)) => carried_out(
            before,
            after,
            action,
            write,
            request,
            now,
            Err::<Reply, Refusal>(e),
        ),
        Err(_) => false,
    }
}

/// Carries out a request that came under the action `action`, at time `now`.
///
/// A request that does not fit the action is a bad request. A request that
/// writes is forbidden unless `write` is set. Everything else is handed to
/// the function that belongs to the action, and the board changes as that
/// function says.
pub fn execute_action(
    action: ActionType,
    board: &mut Board,
    write: bool,
    request: &Request,
    expire_len: u64,
    now: u64,
) -> (r: Result<Reply, Refusal>)
    requires
        old(board).wf(),
        old(board)@.len() < usize::MAX,
    ensures
        final(board).wf(),
        final(board).cap() == old(board).cap(),
        carried_out(*old(board), *final(board), action, write, *request, now, r),
{
    if request.action() != action {
        return Err(Refusal::BadRequest);
    }
    match *request {
        Request::Update { id, value } => match execute_update(board, write, id, value, now) {
            Ok(a) => Ok(Reply::Single(a)),
            Err(e) => Err(e),
        },
        Request::Remove { id } => match execute_remove(board, write, id) {
            Ok(a) => Ok(Reply::Single(a)),
            Err(e) => Err(e),
        },
        Request::Get { id } => Ok(Reply::Single(execute_get(board, id))),
        Request::Info { id } => Ok(Reply::Single(execute_info(board, id))),
        Request::Board => Ok(Reply::Summary(execute_board(board))),
        Request::AtRank { rank } => match execute_at_rank(board, rank) {
            Ok(a) => Ok(Reply::Single(a)),
            Err(e) => Err(e),
        },
        Request::Top { count, no_cache } => Ok(
            Reply::Listing(execute_top(board, count, no_cache, expire_len, now)),
        ),
        Request::Bottom { count, no_cache } => Ok(
            Reply::Listing(execute_bottom(board, count, no_cache, expire_len, now)),
        ),
        Request::After { id, count } => Ok(Reply::Single(execute_after(board, id, count))),
        Request::Before { id, count } => Ok(Reply::Single(execute_before(board, id, count))),
        Request::Around { id, before, after } => Ok(
            Reply::Single(execute_around(board, id, before, after)),
        ),
        Request::Range { start, end } => Ok(Reply::Listing(execute_range(board, start, end))),
    }
}

} // verus!
