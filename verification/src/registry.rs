use crate::board::Board;
use crate::entry::Entry;
use vstd::prelude::*;

verus! {

/// What the journal records of one API key: whether it may write.
pub struct ConfigUser {
    pub write: bool,
}

/// What the journal records of one board: the API keys bound to it, each
/// once, and its size cap.
pub struct ConfigBoard {
    pub keys: Vec<(String, ConfigUser)>,
    pub cap: Option<usize>,
}

/// The settings of the service.
pub struct Config {
    pub port: usize,
    pub save_interval: u64,
}

/// What an API key stands for: a board and the right to write to it or not.
pub struct User {
    pub board: String,
    pub write: bool,
}

/// One API key as contracts see it.
pub struct KeyView {
    pub key: Seq<char>,
    pub board: Seq<char>,
    pub write: bool,
}

/// One line of the journal as contracts see it.
pub struct JournalLine {
    pub name: Seq<char>,
    pub cap: Option<usize>,
    pub keys: Seq<(Seq<char>, bool)>,
}

/// The registry as contracts see it: the boards by name, in the order in
/// which they came, each with its cap; and the API keys in the order in
/// which they came.
pub struct RegistryModel {
    pub boards: Seq<(Seq<char>, Option<usize>)>,
    pub keys: Seq<KeyView>,
}

/// The keys of `keys` that are bound to `board`, each with its write flag.
pub open spec fn keys_of_board(keys: Seq<KeyView>, board: Seq<char>) -> Seq<(Seq<char>, bool)>
    decreases keys.len(),
{
    if keys.len() == 0 {
        Seq::empty()
    } else {
        let rest = keys_of_board(keys.drop_last(), board);
        if keys.last().board == board {
            rest.push((keys.last().key, keys.last().write))
        } else {
            rest
        }
    }
}

/// The keys of `keys` that are not bound to `board`.
pub open spec fn keys_off_board(keys: Seq<KeyView>, board: Seq<char>) -> Seq<KeyView>
    decreases keys.len(),
{
    if keys.len() == 0 {
        Seq::empty()
    } else {
        let rest = keys_off_board(keys.drop_last(), board);
        if keys.last().board == board {
            rest
        } else {
            rest.push(keys.last())
        }
    }
}

/// Whether a line of the journal carries `name`.
pub open spec fn lines_name(lines: Seq<JournalLine>, name: Seq<char>) -> bool {
    exists|i: int| 0 <= i < lines.len() && (#[trigger] lines[i]).name == name
}

impl RegistryModel {
    /// Whether a board of that name is registered.
    pub open spec fn has_board(self, name: Seq<char>) -> bool {
        exists|i: int| 0 <= i < self.boards.len() && (#[trigger] self.boards[i]).0 == name
    }

    /// Whether that API key is registered.
    pub open spec fn has_key(self, key: Seq<char>) -> bool {
        exists|i: int| 0 <= i < self.keys.len() && (#[trigger] self.keys[i]).key == key
    }

    /// Where the board of that name stands.
    pub open spec fn board_position(self, name: Seq<char>) -> int {
        choose|i: int| 0 <= i < self.boards.len() && (#[trigger] self.boards[i]).0 == name
    }

    /// Where that API key stands.
    pub open spec fn key_position(self, key: Seq<char>) -> int {
        choose|i: int| 0 <= i < self.keys.len() && (#[trigger] self.keys[i]).key == key
    }

    /// No board name and no API key occurs twice.
    pub open spec fn wf(self) -> bool {
        &&& forall|i: int, j: int|
            0 <= i < j < self.boards.len() ==> (#[trigger] self.boards[i]).0 != (
            #[trigger] self.boards[j]).0
        &&& forall|i: int, j: int|
            0 <= i < j < self.keys.len() ==> (#[trigger] self.keys[i]).key != (
            #[trigger] self.keys[j]).key
    }

    /// The registry with a new board at the end; unchanged if the name is
    /// taken.
    pub open spec fn with_board(self, name: Seq<char>, cap: Option<usize>) -> Self {
        if self.has_board(name) {
            self
        } else {
            RegistryModel { boards: self.boards.push((name, cap)), keys: self.keys }
        }
    }

    /// The registry with another cap for the board of that name; unchanged
    /// if there is no such board.
    pub open spec fn with_cap(self, name: Seq<char>, cap: Option<usize>) -> Self {
        if self.has_board(name) {
            RegistryModel {
                boards: self.boards.update(self.board_position(name), (name, cap)),
                keys: self.keys,
            }
        } else {
            self
        }
    }

    /// The registry without the board of that name and without the keys
    /// bound to it; unchanged if there is no such board.
    pub open spec fn without_board(self, name: Seq<char>) -> Self {
        if self.has_board(name) {
            RegistryModel {
                boards: self.boards.remove(self.board_position(name)),
                keys: keys_off_board(self.keys, name),
            }
        } else {
            self
        }
    }

    /// The registry with a new API key at the end; unchanged if the key is
    /// taken. The board need not exist.
    pub open spec fn with_key(self, key: Seq<char>, board: Seq<char>, write: bool) -> Self {
        if self.has_key(key) {
            self
        } else {
            RegistryModel { boards: self.boards, keys: self.keys.push(KeyView { key, board, write }) }
        }
    }

    /// The registry without that API key; unchanged if there is no such key.
    pub open spec fn without_key(self, key: Seq<char>) -> Self {
        if self.has_key(key) {
            RegistryModel { boards: self.boards, keys: self.keys.remove(self.key_position(key)) }
        } else {
            self
        }
    }

    /// The registry with another write flag for that API key; unchanged if
    /// there is no such key.
    pub open spec fn with_write(self, key: Seq<char>, write: bool) -> Self {
        if self.has_key(key) {
            let i = self.key_position(key);
            RegistryModel {
                boards: self.boards,
                keys: self.keys.update(i, KeyView { key, board: self.keys[i].board, write }),
            }
        } else {
            self
        }
    }

    /// The lines of the journal for the boards: one for each, in order, with
    /// its cap and the keys bound to it.
    pub open spec fn board_lines(self) -> Seq<JournalLine> {
        Seq::new(
            self.boards.len(),
            |i: int|
                JournalLine {
                    name: self.boards[i].0,
                    cap: self.boards[i].1,
                    keys: keys_of_board(self.keys, self.boards[i].0),
                },
        )
    }

    /// The lines of the journal for names that only keys mention, as far as
    /// the first `n` keys mention them: one for each such name, without a
    /// cap, with all keys bound to the name.
    pub open spec fn stray_lines(self, n: nat) -> Seq<JournalLine>
        decreases n,
    {
        if n == 0 || n > self.keys.len() {
            Seq::empty()
        } else {
            let before = self.stray_lines((n - 1) as nat);
            let name = self.keys[n - 1].board;
            if self.has_board(name) || lines_name(before, name) {
                before
            } else {
                before.push(JournalLine { name, cap: None, keys: keys_of_board(self.keys, name) })
            }
        }
    }

    /// The journal: the lines for the boards, then the lines for names that
    /// only keys mention.
    pub open spec fn journal(self) -> Seq<JournalLine> {
        self.board_lines() + self.stray_lines(self.keys.len())
    }

    /// The registry after the keys of one line of the journal, from the
    /// first to the `n`th, were bound to the name of the line.
    pub open spec fn with_keys(self, name: Seq<char>, keys: Seq<(Seq<char>, bool)>, n: nat) -> Self
        decreases n,
    {
        if n == 0 || n > keys.len() {
            self
        } else {
            self.with_keys(name, keys, (n - 1) as nat).with_key(keys[n - 1].0, name, keys[n - 1].1)
        }
    }

    /// The registry after the first `n` lines of a journal were read: each
    /// line registers its board, if the name is new, and then its keys, as
    /// far as they are new.
    pub open spec fn opened(lines: Seq<JournalLine>, n: nat) -> Self
        decreases n,
    {
        if n == 0 || n > lines.len() {
            RegistryModel { boards: Seq::empty(), keys: Seq::empty() }
        } else {
            let line = lines[n - 1];
            Self::opened(lines, (n - 1) as nat).with_board(line.name, line.cap).with_keys(
                line.name,
                line.keys,
                line.keys.len(),
            )
        }
    }

    /// Registering boards and keys keeps names and keys unique.
    pub proof fn lemma_grows_wf(self, name: Seq<char>, cap: Option<usize>, key: Seq<char>, write: bool)
        requires
            self.wf(),
        ensures
            self.with_board(name, cap).wf(),
            self.with_key(key, name, write).wf(),
            self.with_cap(name, cap).wf(),
            self.with_write(key, write).wf(),
    {
        if self.has_board(name) {
            let b2 = self.with_cap(name, cap).boards;
            assert forall|i: int, j: int| 0 <= i < j < b2.len() implies (#[trigger] b2[i]).0 != (
            #[trigger] b2[j]).0 by {
                assert(b2[i].0 == self.boards[i].0);
                assert(b2[j].0 == self.boards[j].0);
            }
        }
        if self.has_key(key) {
            let k2 = self.with_write(key, write).keys;
            assert forall|i: int, j: int| 0 <= i < j < k2.len() implies (#[trigger] k2[i]).key != (
            #[trigger] k2[j]).key by {
                assert(k2[i].key == self.keys[i].key);
                assert(k2[j].key == self.keys[j].key);
            }
        }
    }
}

/// The keys of one line of a journal as contracts see them.
pub open spec fn pairs_of(keys: Seq<(String, ConfigUser)>) -> Seq<(Seq<char>, bool)> {
    Seq::new(keys.len(), |j: int| (keys[j].0@, keys[j].1.write))
}

/// One line of a journal as contracts see it.
pub open spec fn line_of(line: (String, ConfigBoard)) -> JournalLine {
    JournalLine { name: line.0@, cap: line.1.cap, keys: pairs_of(line.1.keys@) }
}

/// The lines of a journal as contracts see them.
pub open spec fn lines_of(journal: Seq<(String, ConfigBoard)>) -> Seq<JournalLine> {
    Seq::new(journal.len(), |i: int| line_of(journal[i]))
}

/// The registry of the service: the boards by name and the API keys.
pub struct AppState {
    boards: Vec<(String, Board)>,
    api_keys: Vec<(String, User)>,
    port: usize,
    save_interval: u64,
}

impl AppState {
    /// The registry as contracts see it.
    pub closed spec fn model(&self) -> RegistryModel {
        RegistryModel {
            boards: Seq::new(self.boards@.len(), |i: int| (self.boards@[i].0@, self.boards@[i].1.cap())),
            keys: Seq::new(
                self.api_keys@.len(),
                |i: int|
                    KeyView {
                        key: self.api_keys@[i].0@,
                        board: self.api_keys@[i].1.board@,
                        write: self.api_keys@[i].1.write,
                    },
            ),
        }
    }

    /// The port the service listens on and the number of seconds between
    /// two saves.
    pub closed spec fn settings(&self) -> (usize, u64) {
        (self.port, self.save_interval)
    }

    /// The port the service listens on.
    pub fn port(&self) -> (port: usize)
        ensures
            port == self.settings().0,
    {
        self.port
    }

    /// The number of seconds between two saves.
    pub fn save_interval(&self) -> (seconds: u64)
        ensures
            seconds == self.settings().1,
    {
        self.save_interval
    }

    /// The board that stands at position `i`.
    pub closed spec fn board_at(&self, i: int) -> Board {
        self.boards@[i].1
    }

    /// The invariant of the registry: every board is well formed, and no
    /// board name and no API key occurs twice.
    pub closed spec fn wf(&self) -> bool {
        &&& self.model().wf()
        &&& forall|i: int| 0 <= i < self.boards@.len() ==> (#[trigger] self.boards@[i]).1.wf()
    }

    /// What the invariant gives.
    pub proof fn lemma_wf(&self)
        requires
            self.wf(),
        ensures
            self.model().wf(),
            forall|i: int| 0 <= i < self.model().boards.len() ==> (#[trigger] self.board_at(i)).wf(),
            forall|i: int|
                0 <= i < self.model().boards.len() ==> self.model().boards[i].1 == (
                #[trigger] self.board_at(i)).cap(),
    {
        assert forall|i: int| 0 <= i < self.model().boards.len() implies (#[trigger] self.board_at(
            i,
        )).wf() by {
            assert(self.boards@[i].1.wf());
        }
    }

    /// A registry without boards and keys.
    pub fn new(config: Config) -> (state: Self)
        ensures
            state.wf(),
            state.model().boards.len() == 0,
            state.model().keys.len() == 0,
            state.settings() == (config.port, config.save_interval),
    {
        AppState {
            boards: Vec::new(),
            api_keys: Vec::new(),
            port: config.port,
            save_interval: config.save_interval,
        }
    }

    /// Where the board of that name stands, if there is one.
    pub fn find_board(&self, name: &String) -> (found: Option<usize>)
        ensures
            found is Some == self.model().has_board(name@),
            found matches Some(i) ==> i < self.model().boards.len() && self.model().boards[i as int].0
                == name@,
    {
        let mut i: usize = 0;
        while i < self.boards.len()
            invariant
                0 <= i <= self.boards@.len(),
                forall|j: int| 0 <= j < i ==> (#[trigger] self.model().boards[j]).0 != name@,
            decreases self.boards@.len() - i,
        {
            if self.boards[i].0 == *name {
                assert(self.model().boards[i as int].0 == name@);
                return Some(i);
            }
            i = i + 1;
        }
        None
    }

    /// Where that API key stands, if it is registered.
    pub fn find_key(&self, api_key: &String) -> (found: Option<usize>)
        ensures
            found is Some == self.model().has_key(api_key@),
            found matches Some(i) ==> i < self.model().keys.len() && self.model().keys[i as int].key
                == api_key@,
    {
        let mut i: usize = 0;
        while i < self.api_keys.len()
            invariant
                0 <= i <= self.api_keys@.len(),
                forall|j: int| 0 <= j < i ==> (#[trigger] self.model().keys[j]).key != api_key@,
            decreases self.api_keys@.len() - i,
        {
            if self.api_keys[i].0 == *api_key {
                assert(self.model().keys[i as int].key == api_key@);
                return Some(i);
            }
            i = i + 1;
        }
        None
    }

    /// What that API key stands for, if it is registered.
    pub fn find_user(&self, api_key: &String) -> (found: Option<User>)
        requires
            self.wf(),
        ensures
            found is Some == self.model().has_key(api_key@),
            found matches Some(u) ==> u.board@ == self.model().keys[self.model().key_position(
                api_key@,
            )].board && u.write == self.model().keys[self.model().key_position(api_key@)].write,
    {
        match self.find_key(api_key) {
            None => None,
            Some(i) => {
                proof {
                    let p = self.model().key_position(api_key@);
                    assert(self.model().keys[i as int].key == self.model().keys[p].key);
                }
                Some(User { board: self.api_keys[i].1.board.clone(), write: self.api_keys[i].1.write })
            },
        }
    }

    /// Registers a board under a name that is free, and says whether it did.
    pub fn adopt_board(&mut self, name: String, board: Board) -> (added: bool)
        requires
            old(self).wf(),
            board.wf(),
        ensures
            final(self).wf(),
            added == !old(self).model().has_board(name@),
            final(self).model() == old(self).model().with_board(name@, board.cap()),
            added ==> final(self).board_at(old(self).model().boards.len() as int) == board,
            forall|i: int|
                0 <= i < old(self).model().boards.len() ==> final(self).board_at(i) == old(
                    self).board_at(i),
            final(self).settings() == old(self).settings(),
    {
        if self.find_board(&name).is_some() {
            return false;
        }
        let ghost before = self.model();
        self.boards.push((name, board));
        proof {
            assert(self.model().boards =~= before.boards.push((name@, board.cap())));
            assert(self.model().keys =~= before.keys);
            before.lemma_grows_wf(name@, board.cap(), name@, false);
        }
        true
    }

    /// Registers an empty board without a cap under a name that is free,
    /// and says whether it did.
    pub fn create_board(&mut self, name: String) -> (added: bool)
        requires
            old(self).wf(),
        ensures
            final(self).wf(),
            added == !old(self).model().has_board(name@),
            final(self).model() == old(self).model().with_board(name@, None),
            added ==> final(self).board_at(old(self).model().boards.len() as int)@ == Seq::<
                Entry,
            >::empty(),
            forall|i: int|
                0 <= i < old(self).model().boards.len() ==> final(self).board_at(i) == old(
                    self).board_at(i),
            final(self).settings() == old(self).settings(),
    {
        self.adopt_board(name, Board::new())
    }

    /// Sets or lifts the cap of the board at position `i`.
    fn put_cap(&mut self, i: usize, cap: Option<usize>)
        requires
            old(self).wf(),
            i < old(self).model().boards.len(),
        ensures
            final(self).wf(),
            final(self).model().keys == old(self).model().keys,
            final(self).model().boards == old(self).model().boards.update(
                i as int,
                (old(self).model().boards[i as int].0, cap),
            ),
            final(self).board_at(i as int)@ == old(self).board_at(i as int)@,
            forall|j: int|
                0 <= j < old(self).model().boards.len() && j != i ==> final(self).board_at(j) == old(
                    self).board_at(j),
            final(self).settings() == old(self).settings(),
    {
        let ghost before = self.model();
        let ghost name = before.boards[i as int].0;
        let (label, mut board) = self.boards.remove(i);
        match cap {
            Some(c) => board.set_size_cap(c),
            None => board.remove_size_cap(),
        }
        self.boards.insert(i, (label, board));
        proof {
            assert(self.model().boards =~= before.boards.update(i as int, (name, cap)));
            assert(self.model().keys =~= before.keys);
            let b2 = self.model().boards;
            assert forall|a: int, b: int| 0 <= a < b < b2.len() implies (#[trigger] b2[a]).0 != (
            #[trigger] b2[b]).0 by {
                assert(b2[a].0 == before.boards[a].0);
                assert(b2[b].0 == before.boards[b].0);
            }
            assert forall|j: int| 0 <= j < self.boards@.len() implies (#[trigger] self.boards@[j]).1.wf() by {
                if j != i {
                    assert(self.boards@[j] == old(self).boards@[j]);
                }
            }
        }
    }

    /// Sets the size cap of the board of that name, and says whether there
    /// is such a board. The board is not trimmed.
    pub fn set_board_cap(&mut self, board: &String, cap: usize) -> (found: bool)
        requires
            old(self).wf(),
        ensures
            final(self).wf(),
            found == old(self).model().has_board(board@),
            final(self).model() == old(self).model().with_cap(board@, Some(cap)),
            forall|j: int|
                0 <= j < old(self).model().boards.len() ==> (#[trigger] final(self).board_at(j))@
                    == old(self).board_at(j)@,
            final(self).settings() == old(self).settings(),
    {
        match self.find_board(board) {
            None => false,
            Some(i) => {
                proof {
                    self.lemma_position(board@, i as int);
                }
                self.put_cap(i, Some(cap));
                true
            },
        }
    }

    /// Lifts the size cap of the board of that name, and says whether there
    /// is such a board.
    pub fn rem_board_cap(&mut self, board: &String) -> (found: bool)
        requires
            old(self).wf(),
        ensures
            final(self).wf(),
            found == old(self).model().has_board(board@),
            final(self).model() == old(self).model().with_cap(board@, None),
            forall|j: int|
                0 <= j < old(self).model().boards.len() ==> (#[trigger] final(self).board_at(j))@
                    == old(self).board_at(j)@,
            final(self).settings() == old(self).settings(),
    {
        match self.find_board(board) {
            None => false,
            Some(i) => {
                proof {
                    self.lemma_position(board@, i as int);
                }
                self.put_cap(i, None);
                true
            },
        }
    }

    /// In a well-formed registry a name stands at one position only, and so
    /// does a key.
    proof fn lemma_position(&self, name: Seq<char>, i: int)
        requires
            self.wf(),
        ensures
            0 <= i < self.model().boards.len() && self.model().boards[i].0 == name
                ==> self.model().board_position(name) == i,
            0 <= i < self.model().keys.len() && self.model().keys[i].key == name
                ==> self.model().key_position(name) == i,
    {
        let m = self.model();
        if 0 <= i < m.boards.len() && m.boards[i].0 == name {
            let p = m.board_position(name);
            if p < i {
                assert(m.boards[p].0 != m.boards[i].0);
            } else if i < p {
                assert(m.boards[i].0 != m.boards[p].0);
            }
        }
        if 0 <= i < m.keys.len() && m.keys[i].key == name {
            let p = m.key_position(name);
            if p < i {
                assert(m.keys[p].key != m.keys[i].key);
            } else if i < p {
                assert(m.keys[i].key != m.keys[p].key);
            }
        }
    }

    /// Removes the board of that name and every API key bound to it, and
    /// says whether there was such a board.
    pub fn delete_board(&mut self, name: &String) -> (found: bool)
        requires
            old(self).wf(),
        ensures
            final(self).wf(),
            found == old(self).model().has_board(name@),
            final(self).model() == old(self).model().without_board(name@),
            final(self).settings() == old(self).settings(),
    {
        let i = match self.find_board(name) {
            None => {
                return false;
            },
            Some(i) => i,
        };
        let ghost before = self.model();
        proof {
            self.lemma_position(name@, i as int);
        }
        self.boards.remove(i);
        let mut kept: Vec<(String, User)> = Vec::new();
        let mut j: usize = 0;
        let ghost keys = before.keys;
        assert(keys.take(0) =~= Seq::<KeyView>::empty());
        while j < self.api_keys.len()
            invariant
                0 <= j <= self.api_keys@.len(),
                self.api_keys == old(self).api_keys,
                keys == old(self).model().keys,
                keys.len() == self.api_keys@.len(),
                Seq::new(
                    kept@.len(),
                    |a: int|
                        KeyView { key: kept@[a].0@, board: kept@[a].1.board@, write: kept@[a].1.write },
                ) == keys_off_board(keys.take(j as int), name@),
            decreases self.api_keys@.len() - j,
        {
            let ghost head = keys.take(j as int);
            let ghost grown = keys.take(j + 1);
            proof {
                assert(grown.drop_last() =~= head);
                assert(grown.last() == keys[j as int]);
                assert(keys[j as int].board == self.api_keys@[j as int].1.board@);
            }
            if self.api_keys[j].1.board != *name {
                kept.push(
                    (
                        self.api_keys[j].0.clone(),
                        User { board: self.api_keys[j].1.board.clone(), write: self.api_keys[j].1.write },
                    ),
                );
                assert(Seq::new(
                    kept@.len(),
                    |a: int|
                        KeyView { key: kept@[a].0@, board: kept@[a].1.board@, write: kept@[a].1.write },
                ) =~= keys_off_board(head, name@).push(keys[j as int]));
            }
            j = j + 1;
        }
        assert(keys.take(keys.len() as int) =~= keys);
        self.api_keys = kept;
        proof {
            let m = self.model();
            assert(m.boards =~= before.boards.remove(i as int));
            assert(m.keys =~= keys_off_board(keys, name@));
            assert forall|a: int, b: int| 0 <= a < b < m.boards.len() implies (#[trigger] m.boards[a]).0
                != (#[trigger] m.boards[b]).0 by {
                let a0 = if a < i {
                    a
                } else {
                    a + 1
                };
                let b0 = if b < i {
                    b
                } else {
                    b + 1
                };
                assert(m.boards[a] == before.boards[a0]);
                assert(m.boards[b] == before.boards[b0]);
            }
            lemma_off_board_unique(keys, name@);
            assert forall|a: int| 0 <= a < self.boards@.len() implies (#[trigger] self.boards@[a]).1.wf() by {
                let a0 = if a < i {
                    a
                } else {
                    a + 1
                };
                assert(self.boards@[a] == old(self).boards@[a0]);
            }
        }
        true
    }

    /// Registers an API key that is free for a board, and says whether it
    /// did. The board need not exist.
    pub fn create_key(&mut self, api_key: String, board: String, write: bool) -> (added: bool)
        requires
            old(self).wf(),
        ensures
            final(self).wf(),
            added == !old(self).model().has_key(api_key@),
            final(self).model() == old(self).model().with_key(api_key@, board@, write),
            forall|j: int|
                0 <= j < old(self).model().boards.len() ==> final(self).board_at(j) == old(
                    self).board_at(j),
            final(self).settings() == old(self).settings(),
    {
        if self.find_key(&api_key).is_some() {
            return false;
        }
        let ghost before = self.model();
        self.api_keys.push((api_key, User { board, write }));
        proof {
            assert(self.model().keys =~= before.keys.push(
                KeyView { key: api_key@, board: board@, write },
            ));
            assert(self.model().boards =~= before.boards);
            before.lemma_grows_wf(board@, None, api_key@, write);
        }
        true
    }

    /// Removes an API key, and says whether it was registered.
    pub fn delete_key(&mut self, api_key: &String) -> (found: bool)
        requires
            old(self).wf(),
        ensures
            final(self).wf(),
            found == old(self).model().has_key(api_key@),
            final(self).model() == old(self).model().without_key(api_key@),
            forall|j: int|
                0 <= j < old(self).model().boards.len() ==> final(self).board_at(j) == old(
                    self).board_at(j),
            final(self).settings() == old(self).settings(),
    {
        let i = match self.find_key(api_key) {
            None => {
                return false;
            },
            Some(i) => i,
        };
        let ghost before = self.model();
        proof {
            self.lemma_position(api_key@, i as int);
        }
        self.api_keys.remove(i);
        proof {
            let m = self.model();
            assert(m.keys =~= before.keys.remove(i as int));
            assert(m.boards =~= before.boards);
            assert forall|a: int, b: int| 0 <= a < b < m.keys.len() implies (#[trigger] m.keys[a]).key
                != (#[trigger] m.keys[b]).key by {
                let a0 = if a < i {
                    a
                } else {
                    a + 1
                };
                let b0 = if b < i {
                    b
                } else {
                    b + 1
                };
                assert(m.keys[a] == before.keys[a0]);
                assert(m.keys[b] == before.keys[b0]);
            }
        }
        true
    }

    /// Sets the write flag of an API key, and says whether it is registered.
    pub fn set_key_write_perms(&mut self, api_key: &String, write: bool) -> (found: bool)
        requires
            old(self).wf(),
        ensures
            final(self).wf(),
            found == old(self).model().has_key(api_key@),
            final(self).model() == old(self).model().with_write(api_key@, write),
            forall|j: int|
                0 <= j < old(self).model().boards.len() ==> final(self).board_at(j) == old(
                    self).board_at(j),
            final(self).settings() == old(self).settings(),
    {
        let i = match self.find_key(api_key) {
            None => {
                return false;
            },
            Some(i) => i,
        };
        let ghost before = self.model();
        proof {
            self.lemma_position(api_key@, i as int);
        }
        let (label, user) = self.api_keys.remove(i);
        self.api_keys.insert(i, (label, User { board: user.board, write }));
        proof {
            let m = self.model();
            assert(m.keys =~= before.keys.update(
                i as int,
                KeyView { key: api_key@, board: before.keys[i as int].board, write },
            ));
            assert(m.boards =~= before.boards);
            before.lemma_grows_wf(api_key@, None, api_key@, write);
        }
        true
    }

    /// The names of the boards, in order.
    pub fn board_names(&self) -> (names: Vec<String>)
        ensures
            names@.len() == self.model().boards.len(),
            forall|i: int| 0 <= i < names@.len() ==> (#[trigger] names@[i])@ == self.model().boards[i].0,
    {
        let mut names: Vec<String> = Vec::new();
        let mut i: usize = 0;
        while i < self.boards.len()
            invariant
                0 <= i <= self.boards@.len(),
                names@.len() == i,
                forall|j: int| 0 <= j < i ==> (#[trigger] names@[j])@ == self.model().boards[j].0,
            decreases self.boards@.len() - i,
        {
            names.push(self.boards[i].0.clone());
            i = i + 1;
        }
        names
    }

    /// The API keys bound to a name, each with its write flag, in the order
    /// in which they were registered.
    pub fn keys_for(&self, name: &String) -> (keys: Vec<(String, ConfigUser)>)
        ensures
            pairs_of(keys@) == keys_of_board(self.model().keys, name@),
    {
        let mut keys: Vec<(String, ConfigUser)> = Vec::new();
        let mut j: usize = 0;
        let ghost all = self.model().keys;
        assert(all.take(0) =~= Seq::<KeyView>::empty());
        assert(pairs_of(keys@) =~= keys_of_board(all.take(0), name@));
        while j < self.api_keys.len()
            invariant
                0 <= j <= self.api_keys@.len(),
                all == self.model().keys,
                all.len() == self.api_keys@.len(),
                pairs_of(keys@) == keys_of_board(all.take(j as int), name@),
            decreases self.api_keys@.len() - j,
        {
            let ghost head = all.take(j as int);
            let ghost grown = all.take(j + 1);
            proof {
                assert(grown.drop_last() =~= head);
                assert(grown.last() == all[j as int]);
                assert(all[j as int].board == self.api_keys@[j as int].1.board@);
            }
            if self.api_keys[j].1.board == *name {
                keys.push((self.api_keys[j].0.clone(), ConfigUser { write: self.api_keys[j].1.write }));
                assert(pairs_of(keys@) =~= keys_of_board(head, name@).push(
                    (all[j as int].key, all[j as int].write),
                ));
            }
            j = j + 1;
        }
        assert(all.take(all.len() as int) =~= all);
        keys
    }

    /// Whether a line of the journal carries that name.
    fn journal_names(journal: &Vec<(String, ConfigBoard)>, name: &String) -> (found: bool)
        ensures
            found == lines_name(lines_of(journal@), name@),
    {
        let mut i: usize = 0;
        while i < journal.len()
            invariant
                0 <= i <= journal@.len(),
                forall|j: int| 0 <= j < i ==> (#[trigger] lines_of(journal@)[j]).name != name@,
            decreases journal@.len() - i,
        {
            if journal[i].0 == *name {
                assert(lines_of(journal@)[i as int].name == name@);
                return true;
            }
            i = i + 1;
        }
        false
    }

    /// The journal of the registry: a line for each board, in order, with
    /// its cap and the keys bound to it; then a line without a cap for each
    /// name that only keys mention, with the keys bound to it.
    pub fn journal(&self) -> (journal: Vec<(String, ConfigBoard)>)
        requires
            self.wf(),
        ensures
            lines_of(journal@) == self.model().journal(),
    {
        let ghost m = self.model();
        let mut out: Vec<(String, ConfigBoard)> = Vec::new();
        let mut i: usize = 0;
        assert(lines_of(out@) =~= m.board_lines().take(0));
        while i < self.boards.len()
            invariant
                0 <= i <= self.boards@.len(),
                m == self.model(),
                m.boards.len() == self.boards@.len(),
                lines_of(out@) == m.board_lines().take(i as int),
            decreases self.boards@.len() - i,
        {
            let keys = self.keys_for(&self.boards[i].0);
            let cap = self.boards[i].1.get_size_cap();
            let ghost prior = lines_of(out@);
            out.push((self.boards[i].0.clone(), ConfigBoard { keys, cap }));
            proof {
                assert(lines_of(out@) =~= prior.push(m.board_lines()[i as int]));
                assert(m.board_lines().take(i + 1) =~= m.board_lines().take(i as int).push(
                    m.board_lines()[i as int],
                ));
            }
            i = i + 1;
        }
        assert(m.board_lines().take(m.boards.len() as int) =~= m.board_lines());
        let mut j: usize = 0;
        assert(lines_of(out@) =~= m.board_lines() + m.stray_lines(0));
        while j < self.api_keys.len()
            invariant
                0 <= j <= self.api_keys@.len(),
                m == self.model(),
                m.keys.len() == self.api_keys@.len(),
                lines_of(out@) == m.board_lines() + m.stray_lines(j as nat),
            decreases self.api_keys@.len() - j,
        {
            let ghost name = m.keys[j as int].board;
            let ghost before = m.stray_lines(j as nat);
            let known = self.find_board(&self.api_keys[j].1.board).is_some();
            let listed = Self::journal_names(&out, &self.api_keys[j].1.board);
            proof {
                assert(name == self.api_keys@[j as int].1.board@);
                let all = m.board_lines() + before;
                if !known {
                    if lines_name(all, name) {
                        let p = choose|p: int| 0 <= p < all.len() && (#[trigger] all[p]).name == name;
                        if p < m.board_lines().len() {
                            assert(m.boards[p].0 == name);
                        } else {
                            assert(before[p - m.board_lines().len()].name == name);
                        }
                    }
                    if lines_name(before, name) {
                        let p = choose|p: int|
                            0 <= p < before.len() && (#[trigger] before[p]).name == name;
                        assert(all[m.board_lines().len() + p].name == name);
                    }
                }
            }
            if !known && !listed {
                let keys = self.keys_for(&self.api_keys[j].1.board);
                let ghost prior = lines_of(out@);
                out.push((self.api_keys[j].1.board.clone(), ConfigBoard { keys, cap: None }));
                proof {
                    let line = JournalLine { name, cap: None, keys: keys_of_board(m.keys, name) };
                    assert(lines_of(out@) =~= prior.push(line));
                    assert(prior.push(line) =~= m.board_lines() + before.push(line));
                }
            }
            j = j + 1;
        }
        out
    }

    /// The registry that a journal describes: each line registers its
    /// board, empty and with the cap of the line, if the name is new, and
    /// then its keys, as far as they are new.
    pub fn from_journal(config: Config, journal: &Vec<(String, ConfigBoard)>) -> (state: Self)
        ensures
            state.wf(),
            state.settings() == (config.port, config.save_interval),
            state.model() == RegistryModel::opened(lines_of(journal@), journal@.len() as nat),
            forall|i: int|
                0 <= i < state.model().boards.len() ==> (#[trigger] state.board_at(i))@ == Seq::<
                    Entry,
                >::empty(),
    {
        let mut state = AppState::new(config);
        let ghost lines = lines_of(journal@);
        let mut i: usize = 0;
        assert(state.model().boards =~= Seq::empty());
        assert(state.model().keys =~= Seq::empty());
        while i < journal.len()
            invariant
                0 <= i <= journal@.len(),
                lines == lines_of(journal@),
                state.wf(),
                state.settings() == (config.port, config.save_interval),
                state.model() == RegistryModel::opened(lines, i as nat),
                forall|a: int|
                    0 <= a < state.model().boards.len() ==> (#[trigger] state.board_at(a))@ == Seq::<
                        Entry,
                    >::empty(),
            decreases journal@.len() - i,
        {
            let mut board = Board::new();
            match journal[i].1.cap {
                Some(c) => board.set_size_cap(c),
                None => {},
            }
            let ghost line = lines[i as int];
            assert(line == line_of(journal@[i as int]));
            state.adopt_board(journal[i].0.clone(), board);
            let mut k: usize = 0;
            let ghost base = state.model();
            while k < journal[i].1.keys.len()
                invariant
                    0 <= i < journal@.len(),
                    0 <= k <= journal@[i as int].1.keys@.len(),
                    line == line_of(journal@[i as int]),
                    state.wf(),
                    state.settings() == (config.port, config.save_interval),
                    state.model() == base.with_keys(line.name, line.keys, k as nat),
                    forall|a: int|
                        0 <= a < state.model().boards.len() ==> (#[trigger] state.board_at(a))@
                            == Seq::<Entry>::empty(),
                decreases journal@[i as int].1.keys@.len() - k,
            {
                state.create_key(
                    journal[i].1.keys[k].0.clone(),
                    journal[i].0.clone(),
                    journal[i].1.keys[k].1.write,
                );
                k = k + 1;
            }
            i = i + 1;
        }
        state
    }

    /// The bytes to save for the board at position `i`: a snapshot of its
    /// index is taken, what the snapshot reads is written out as a saved
    /// board, and the snapshot is given back. Nothing that readers see
    /// changes. If no snapshot was outstanding, the bytes hold a listing of
    /// the index of the board. `None` if there is no such position, or if
    /// the board has as many snapshots outstanding as the machine can count.
    pub fn save_image(&mut self, i: usize) -> (image: Option<Vec<u8>>)
        requires
            old(self).wf(),
        ensures
            final(self).wf(),
            final(self).model() == old(self).model(),
            final(self).settings() == old(self).settings(),
            image is Some == (i < old(self).model().boards.len() && old(self).board_at(
                i as int,
            ).index_state().borrows < usize::MAX),
            i < old(self).model().boards.len() ==> final(self).board_at(i as int)@ == old(
                self).board_at(i as int)@ && final(self).board_at(i as int).index() == old(
                self).board_at(i as int).index(),
            forall|j: int|
                0 <= j < old(self).model().boards.len() && j != i ==> final(self).board_at(j) == old(
                    self).board_at(j),
            image matches Some(bytes) ==> exists|s: Seq<Entry>|
                #![trigger crate::codec::board_bytes(s)]
                bytes@ == crate::codec::board_bytes(s) && s.len() <= usize::MAX
                    && crate::saver::lists(
                    s,
                    if old(self).board_at(i as int).index_state().borrows == 0 {
                        old(self).board_at(i as int).index()
                    } else {
                        old(self).board_at(i as int).index_state().base
                    },
                ),
    {
        if i >= self.boards.len() {
            return None;
        }
        if self.boards[i].1.map_snapshot_count() == usize::MAX {
            return None;
        }
        let ghost before = self.model();
        let (label, mut board) = self.boards.remove(i);
        let ghost b0 = board;
        proof {
            assert(b0 == old(self).boards@[i as int].1);
            assert(b0.wf());
            b0.lemma_wf();
            b0.index_state().law_lent();
        }
        let receipt = board.get_map_snapshot();
        let entries = board.snapshot_entries();
        let ghost target = if b0.index_state().borrows == 0 {
            b0.index()
        } else {
            b0.index_state().base
        };
        proof {
            assert(board.index_state().base == target);
            assert(crate::saver::lists(entries@, target));
        }
        let bytes = crate::codec::encode_entries(&entries);
        board.release_map_snapshot(receipt);
        self.boards.insert(i, (label, board));
        proof {
            let m = self.model();
            assert(m.boards =~= before.boards);
            assert(m.keys =~= before.keys);
            assert forall|j: int| 0 <= j < self.boards@.len() implies (#[trigger] self.boards@[j]).1.wf() by {
                if j != i {
                    assert(self.boards@[j] == old(self).boards@[j]);
                }
            }
            assert(bytes@ == crate::codec::board_bytes(entries@));
        }
        Some(bytes)
    }

    /// Takes a snapshot of the index of the board at position `i`, to save
    /// it from. Until the receipt is given back with [`AppState::end_save`],
    /// changes of the board leave what [`AppState::saved_bytes`] reads
    /// alone. `None`, and no change, if there is no such position, or if the
    /// board has as many snapshots outstanding as the machine can count.
    pub fn begin_save(&mut self, i: usize) -> (receipt: Option<crate::diff_map::SnapshotBorrow>)
        requires
            old(self).wf(),
        ensures
            final(self).wf(),
            final(self).model() == old(self).model(),
            final(self).settings() == old(self).settings(),
            receipt is Some == (i < old(self).model().boards.len() && old(self).board_at(
                i as int,
            ).index_state().borrows < usize::MAX),
            receipt is Some ==> final(self).board_at(i as int)@ == old(self).board_at(i as int)@
                && final(self).board_at(i as int).index_state() == old(self).board_at(
                i as int,
            ).index_state().lent(),
            forall|j: int|
                0 <= j < old(self).model().boards.len() && !(receipt is Some && j == i) ==> final(
                    self).board_at(j) == old(self).board_at(j),
    {
        if i >= self.boards.len() {
            return None;
        }
        if self.boards[i].1.map_snapshot_count() == usize::MAX {
            return None;
        }
        let ghost before = self.model();
        let (label, mut board) = self.boards.remove(i);
        let receipt = board.get_map_snapshot();
        self.boards.insert(i, (label, board));
        proof {
            let m = self.model();
            assert(m.boards =~= before.boards);
            assert(m.keys =~= before.keys);
            assert forall|j: int| 0 <= j < self.boards@.len() implies (#[trigger] self.boards@[j]).1.wf() by {
                if j != i {
                    assert(self.boards@[j] == old(self).boards@[j]);
                }
            }
        }
        Some(receipt)
    }

    /// The bytes to save for the board at position `i`: what a snapshot of
    /// its index reads, written out as a saved board. `None` if there is no
    /// such position.
    pub fn saved_bytes(&self, i: usize) -> (image: Option<Vec<u8>>)
        requires
            self.wf(),
        ensures
            image is Some == (i < self.model().boards.len()),
            image matches Some(bytes) ==> exists|s: Seq<Entry>|
                #![trigger crate::codec::board_bytes(s)]
                bytes@ == crate::codec::board_bytes(s) && s.len() <= usize::MAX
                    && crate::saver::lists(s, self.board_at(i as int).index_state().base),
    {
        if i >= self.boards.len() {
            return None;
        }
        assert(self.boards@[i as int].1.wf());
        let entries = self.boards[i].1.snapshot_entries();
        let bytes = crate::codec::encode_entries(&entries);
        let count = entries.len();
        proof {
            assert(entries@.len() == count);
            assert(self.boards@[i as int].1 == self.board_at(i as int));
            assert(crate::saver::lists(entries@, self.board_at(i as int).index_state().base));
            assert(bytes@ == crate::codec::board_bytes(entries@));
        }
        Some(bytes)
    }

    /// Gives a snapshot of the index of the board at position `i` back, and
    /// says whether there is such a position. Readers see no change.
    pub fn end_save(&mut self, i: usize, receipt: crate::diff_map::SnapshotBorrow) -> (done: bool)
        requires
            old(self).wf(),
        ensures
            final(self).wf(),
            final(self).model() == old(self).model(),
            final(self).settings() == old(self).settings(),
            done == (i < old(self).model().boards.len()),
            done ==> final(self).board_at(i as int)@ == old(self).board_at(i as int)@ && final(
                self).board_at(i as int).index() == old(self).board_at(i as int).index() && final(
                self).board_at(i as int).index_state() == old(self).board_at(
                i as int,
            ).index_state().settled(),
            forall|j: int|
                0 <= j < old(self).model().boards.len() && !(done && j == i) ==> final(
                    self).board_at(j) == old(self).board_at(j),
    {
        if i >= self.boards.len() {
            return false;
        }
        let ghost before = self.model();
        let (label, mut board) = self.boards.remove(i);
        board.release_map_snapshot(receipt);
        self.boards.insert(i, (label, board));
        proof {
            let m = self.model();
            assert(m.boards =~= before.boards);
            assert(m.keys =~= before.keys);
            assert forall|j: int| 0 <= j < self.boards@.len() implies (#[trigger] self.boards@[j]).1.wf() by {
                if j != i {
                    assert(self.boards@[j] == old(self).boards@[j]);
                }
            }
        }
        true
    }

    /// Removes every entry of the board of that name, and says whether there
    /// is such a board.
    pub fn clear_board(&mut self, name: &String) -> (found: bool)
        requires
            old(self).wf(),
        ensures
            final(self).wf(),
            final(self).model() == old(self).model(),
            final(self).settings() == old(self).settings(),
            found == old(self).model().has_board(name@),
            found ==> final(self).board_at(old(self).model().board_position(name@))@ == Seq::<
                Entry,
            >::empty(),
            forall|j: int|
                0 <= j < old(self).model().boards.len() && !(found && j == old(
                    self).model().board_position(name@)) ==> final(self).board_at(j) == old(
                    self).board_at(j),
    {
        let i = match self.find_board(name) {
            None => {
                return false;
            },
            Some(i) => i,
        };
        proof {
            self.lemma_position(name@, i as int);
        }
        let ghost before = self.model();
        let (label, mut board) = self.boards.remove(i);
        board.clear();
        self.boards.insert(i, (label, board));
        proof {
            let m = self.model();
            assert(m.boards =~= before.boards);
            assert(m.keys =~= before.keys);
            assert forall|j: int| 0 <= j < self.boards@.len() implies (#[trigger] self.boards@[j]).1.wf() by {
                if j != i {
                    assert(self.boards@[j] == old(self).boards@[j]);
                }
            }
        }
        true
    }

    /// Trims the board of that name to its cap, and says whether there is
    /// such a board.
    pub fn trim_board(&mut self, name: &String) -> (found: bool)
        requires
            old(self).wf(),
        ensures
            final(self).wf(),
            final(self).model() == old(self).model(),
            final(self).settings() == old(self).settings(),
            found == old(self).model().has_board(name@),
            found ==> final(self).board_at(old(self).model().board_position(name@)).within_cap()
                && (old(self).board_at(old(self).model().board_position(name@)).cap() matches Some(
                c,
            ) ==> final(self).board_at(old(self).model().board_position(name@))@ == old(
                self).board_at(old(self).model().board_position(name@))@.take(
                crate::window::least(
                    c as int,
                    old(self).board_at(old(self).model().board_position(name@))@.len() as int,
                ),
            )),
            forall|j: int|
                0 <= j < old(self).model().boards.len() && !(found && j == old(
                    self).model().board_position(name@)) ==> final(self).board_at(j) == old(
                    self).board_at(j),
    {
        let i = match self.find_board(name) {
            None => {
                return false;
            },
            Some(i) => i,
        };
        proof {
            self.lemma_position(name@, i as int);
        }
        let ghost before = self.model();
        let (label, mut board) = self.boards.remove(i);
        board.trim_after_cap();
        self.boards.insert(i, (label, board));
        proof {
            let m = self.model();
            assert(m.boards =~= before.boards);
            assert(m.keys =~= before.keys);
            assert forall|j: int| 0 <= j < self.boards@.len() implies (#[trigger] self.boards@[j]).1.wf() by {
                if j != i {
                    assert(self.boards@[j] == old(self).boards@[j]);
                }
            }
        }
        true
    }

    /// Replaces the contents of the board at position `i` by the given
    /// entries, filed as [`Board::from_entries`] files them. The cap of the
    /// board stays and is not enforced.
    pub fn install_entries(&mut self, i: usize, entries: &Vec<Entry>)
        requires
            old(self).wf(),
            i < old(self).model().boards.len(),
        ensures
            final(self).wf(),
            final(self).model() == old(self).model(),
            final(self).settings() == old(self).settings(),
            final(self).board_at(i as int).index() == Board::filed(entries@),
            final(self).board_at(i as int).cap() == old(self).board_at(i as int).cap(),
            forall|j: int|
                0 <= j < old(self).model().boards.len() && j != i ==> final(self).board_at(j) == old(
                    self).board_at(j),
    {
        let ghost before = self.model();
        let (label, old_board) = self.boards.remove(i);
        let mut board = Board::from_entries(entries);
        match old_board.get_size_cap() {
            Some(c) => board.set_size_cap(c),
            None => {},
        }
        self.boards.insert(i, (label, board));
        proof {
            let m = self.model();
            assert(m.boards =~= before.boards);
            assert(m.keys =~= before.keys);
            assert forall|j: int| 0 <= j < self.boards@.len() implies (#[trigger] self.boards@[j]).1.wf() by {
                if j != i {
                    assert(self.boards@[j] == old(self).boards@[j]);
                }
            }
        }
    }

    /// Carries out a request for the holder of an API key, at time `now`.
    ///
    /// Without a key the answer is `Missing`; with a key that is not
    /// registered, `Invalid`. A key whose board is not registered, and a
    /// board too full for the machine to count one more entry, give
    /// `Internal`. Otherwise the request goes to the board of the key as
    /// [`execute_action`](crate::backend::execute_action) says, with the
    /// write flag of the key. Only that board can change; the registry stays
    /// as it is.
    pub fn serve(
        &mut self,
        api_key: Option<&String>,
        action: crate::backend::ActionType,
        request: &crate::backend::Request,
        expire_len: u64,
        now: u64,
    ) -> (r: Result<crate::backend::Reply, crate::backend::Denial>)
        requires
            old(self).wf(),
        ensures
            final(self).wf(),
            final(self).model() == old(self).model(),
            final(self).settings() == old(self).settings(),
            api_key is None ==> r == Err::<crate::backend::Reply, crate::backend::Denial>(
                crate::backend::Denial::Key(crate::backend::ApiKeyError::Missing),
            ),
            api_key matches Some(k) && !old(self).model().has_key(k@) ==> r == Err::<
                crate::backend::Reply,
                crate::backend::Denial,
            >(crate::backend::Denial::Key(crate::backend::ApiKeyError::Invalid)),
            r matches Err(crate::backend::Denial::Key(e)) ==> (api_key is None || !old(
                self).model().has_key(api_key.unwrap()@)),
            (r matches Err(d) && !(d matches crate::backend::Denial::Refused(_))) ==> forall|j: int|
                0 <= j < old(self).model().boards.len() ==> final(self).board_at(j) == old(
                    self).board_at(j),
            api_key matches Some(k) && old(self).model().has_key(k@) ==> ({
                let user = old(self).model().keys[old(self).model().key_position(
                    api_key.unwrap()@,
                )];
                &&& !old(self).model().has_board(user.board) ==> r == Err::<
                    crate::backend::Reply,
                    crate::backend::Denial,
                >(crate::backend::Denial::Internal)
                &&& old(self).model().has_board(user.board) ==> ({
                    let b = old(self).model().board_position(user.board);
                    &&& forall|j: int|
                        0 <= j < old(self).model().boards.len() && j != b ==> final(self).board_at(j)
                            == old(self).board_at(j)
                    &&& old(self).board_at(b)@.len() == usize::MAX ==> r == Err::<
                        crate::backend::Reply,
                        crate::backend::Denial,
                    >(crate::backend::Denial::Internal)
                    &&& old(self).board_at(b)@.len() < usize::MAX ==> crate::backend::served(
                        old(self).board_at(b),
                        final(self).board_at(b),
                        action,
                        user.write,
                        *request,
                        now,
                        r,
                    )
                })
            }),
    {
        let key = match api_key {
            None => {
                return Err(crate::backend::Denial::Key(crate::backend::ApiKeyError::Missing));
            },
            Some(k) => k,
        };
        let ki = match self.find_key(key) {
            None => {
                return Err(crate::backend::Denial::Key(crate::backend::ApiKeyError::Invalid));
            },
            Some(i) => i,
        };
        proof {
            self.lemma_position(key@, ki as int);
        }
        let write = self.api_keys[ki].1.write;
        let name = self.api_keys[ki].1.board.clone();
        self.serve_board(&name, write, action, request, expire_len, now)
    }

    /// Carries out a request on the board of the given name, with or
    /// without the right to write, at time `now`.
    ///
    /// A name that is not registered, and a board too full for the machine
    /// to count one more entry, give `Internal`. Otherwise the request goes
    /// to the board as [`execute_action`](crate::backend::execute_action)
    /// says. Only that board can change; the registry stays as it is.
    pub fn serve_board(
        &mut self,
        name: &String,
        write: bool,
        action: crate::backend::ActionType,
        request: &crate::backend::Request,
        expire_len: u64,
        now: u64,
    ) -> (r: Result<crate::backend::Reply, crate::backend::Denial>)
        requires
            old(self).wf(),
        ensures
            final(self).wf(),
            final(self).model() == old(self).model(),
            final(self).settings() == old(self).settings(),
            !(r matches Err(crate::backend::Denial::Key(_))),
            (r matches Err(d) && !(d matches crate::backend::Denial::Refused(_))) ==> forall|j: int|
                0 <= j < old(self).model().boards.len() ==> final(self).board_at(j) == old(
                    self).board_at(j),
            !old(self).model().has_board(name@) ==> r == Err::<
                crate::backend::Reply,
                crate::backend::Denial,
            >(crate::backend::Denial::Internal),
            old(self).model().has_board(name@) ==> ({
                let b = old(self).model().board_position(name@);
                &&& forall|j: int|
                    0 <= j < old(self).model().boards.len() && j != b ==> final(self).board_at(j)
                        == old(self).board_at(j)
                &&& old(self).board_at(b)@.len() == usize::MAX ==> r == Err::<
                    crate::backend::Reply,
                    crate::backend::Denial,
                >(crate::backend::Denial::Internal)
                &&& old(self).board_at(b)@.len() < usize::MAX ==> crate::backend::served(
                    old(self).board_at(b),
                    final(self).board_at(b),
                    action,
                    write,
                    *request,
                    now,
                    r,
                )
            }),
    {
        let bi = match self.find_board(name) {
            None => {
                return Err(crate::backend::Denial::Internal);
            },
            Some(i) => i,
        };
        proof {
            self.lemma_position(name@, bi as int);
            assert(self.boards@[bi as int].1.wf());
        }
        if self.boards[bi].1.get_size() == usize::MAX {
            return Err(crate::backend::Denial::Internal);
        }
        let ghost before = self.model();
        let (label, mut board) = self.boards.remove(bi);
        let r = crate::backend::execute_action(action, &mut board, write, request, expire_len, now);
        self.boards.insert(bi, (label, board));
        proof {
            let m = self.model();
            assert(m.boards =~= before.boards);
            assert(m.keys =~= before.keys);
            assert forall|j: int| 0 <= j < self.boards@.len() implies (#[trigger] self.boards@[j]).1.wf() by {
                if j != bi {
                    assert(self.boards@[j] == old(self).boards@[j]);
                }
            }
        }
        match r {
            Ok(reply) => Ok(reply),
            Err(e) => Err(crate::backend::Denial::Refused(e)),
        }
    }

    /// The board at position `i`, for reading.
    pub fn board_ref(&self, i: usize) -> (board: &Board)
        requires
            i < self.model().boards.len(),
        ensures
            *board == self.board_at(i as int),
    {
        &self.boards[i].1
    }
}

/// Dropping the keys of a board leaves the other keys unique, and none of
/// them is bound to that board.
pub proof fn lemma_off_board_unique(keys: Seq<KeyView>, board: Seq<char>)
    requires
        forall|i: int, j: int|
            0 <= i < j < keys.len() ==> (#[trigger] keys[i]).key != (#[trigger] keys[j]).key,
    ensures
        forall|i: int, j: int|
            0 <= i < j < keys_off_board(keys, board).len() ==> (#[trigger] keys_off_board(
                keys,
                board,
            )[i]).key != (#[trigger] keys_off_board(keys, board)[j]).key,
        forall|i: int|
            0 <= i < keys_off_board(keys, board).len() ==> keys.contains(
                #[trigger] keys_off_board(keys, board)[i],
            ) && keys_off_board(keys, board)[i].board != board,
    decreases keys.len(),
{
    if keys.len() > 0 {
        let head = keys.drop_last();
        assert forall|i: int, j: int| 0 <= i < j < head.len() implies (#[trigger] head[i]).key != (
        #[trigger] head[j]).key by {
            assert(head[i] == keys[i] && head[j] == keys[j]);
        }
        lemma_off_board_unique(head, board);
        let rest = keys_off_board(head, board);
        let all = keys_off_board(keys, board);
        assert forall|i: int| 0 <= i < all.len() implies keys.contains(#[trigger] all[i]) && all[i].board
            != board by {
            if i < rest.len() {
                assert(all[i] == rest[i]);
                assert(head.contains(rest[i]));
                let p = choose|p: int| 0 <= p < head.len() && head[p] == rest[i];
                assert(keys[p] == rest[i]);
            } else {
                assert(all[i] == keys.last());
                assert(keys[keys.len() - 1] == keys.last());
            }
        }
        assert forall|i: int, j: int| 0 <= i < j < all.len() implies (#[trigger] all[i]).key != (
        #[trigger] all[j]).key by {
            if j < rest.len() {
                assert(all[i] == rest[i] && all[j] == rest[j]);
            } else {
                assert(all[j] == keys.last());
                assert(all[i] == rest[i]);
                assert(head.contains(rest[i]));
                let p = choose|p: int| 0 <= p < head.len() && head[p] == rest[i];
                assert(keys[p].key != keys[keys.len() - 1].key);
            }
        }
    }
}

} // verus!
