//! The store of visited paths, most recently used first.

use vstd::prelude::*;
use vstd::string::*;

verus! {

/// The texts of a list of strings, in order.
pub open spec fn texts(paths: Seq<String>) -> Seq<Seq<char>> {
    paths.map_values(|p: String| p@)
}

/// `entries` with every occurrence of `path` taken out, the rest in order.
pub open spec fn without(entries: Seq<Seq<char>>, path: Seq<char>) -> Seq<Seq<char>> {
    entries.filter(|e: Seq<char>| e != path)
}

/// `entries` after `path` was used: `path` in front, then the others in order.
pub open spec fn promoted(entries: Seq<Seq<char>>, path: Seq<char>) -> Seq<Seq<char>> {
    seq![path] + without(entries, path)
}

/// No path occurs twice.
pub open spec fn distinct(entries: Seq<Seq<char>>) -> bool {
    forall|i: int, j: int| 0 <= i < j < entries.len() ==> entries[i] != entries[j]
}

/// The persisted record: the visited paths, most recently used first.
#[derive(Debug, Clone)]
pub struct DBContent {
    pub paths: Vec<String>,
}

impl View for DBContent {
    type V = Seq<Seq<char>>;

    open spec fn view(&self) -> Seq<Seq<char>> {
        texts(self.paths@)
    }
}

impl DBContent {
    /// An empty record.
    pub fn new() -> (content: Self)
        ensures
            content@ == Seq::<Seq<char>>::empty(),
    {
        let content = DBContent { paths: Vec::new() };
        assert(content@ =~= Seq::<Seq<char>>::empty());
        content
    }
}

/// Copies of the strings of `paths` that differ from `path`, in order.
fn retain_others(paths: &Vec<String>, path: &String) -> (kept: Vec<String>)
    ensures
        texts(kept@) == without(texts(paths@), path@),
{
    let mut kept: Vec<String> = Vec::new();
    let ghost differs = |e: Seq<char>| e != path@;
    let mut i: usize = 0;
    assert(texts(paths@).take(0) =~= Seq::<Seq<char>>::empty());
    assert(texts(kept@) =~= Seq::<Seq<char>>::empty());
    while i < paths.len()
        invariant
            i <= paths.len(),
            differs == (|e: Seq<char>| e != path@),
            texts(kept@) == texts(paths@).take(i as int).filter(differs),
        decreases paths.len() - i,
    {
        let ghost before = texts(paths@).take(i as int);
        let ghost kept_before = texts(kept@);
        proof {
            let next = texts(paths@).take(i + 1);
            assert(next.drop_last() =~= before);
            assert(next.last() == paths@[i as int]@);
            reveal(Seq::filter);
        }
        if paths[i] != *path {
            let p = paths[i].clone();
            kept.push(p);
            assert(texts(kept@) =~= kept_before.push(paths@[i as int]@));
        }
        i += 1;
    }
    assert(texts(paths@).take(i as int) =~= texts(paths@));
    kept
}

/// What was found at the store's location when it was read.
#[derive(Debug, Clone)]
pub enum Stored {
    /// Nothing exists there.
    Missing,
    /// Something exists there that is no valid record.
    Corrupted,
    /// Reading failed for another reason, described by the text.
    Failed(String),
    /// A valid record.
    Record(DBContent),
}

/// A read of the store that failed for a reason other than absence or damage.
#[derive(Debug, Clone)]
pub struct ReadFailure {
    pub cause: String,
}

/// The history, together with the location it is kept at.
#[derive(Debug, Clone)]
pub struct DB {
    pub file_path: String,
    pub content: DBContent,
}

/// A history that was opened, and whether a damaged record had to be given up.
#[derive(Debug, Clone)]
pub struct Opened {
    pub db: DB,
    pub corrupted: bool,
}

impl View for DB {
    type V = Seq<Seq<char>>;

    open spec fn view(&self) -> Seq<Seq<char>> {
        self.content@
    }
}

/// The place of the store below a data directory.
pub const STORE_NAME: &'static str = "wd/wddb";

/// The directory that the store goes below where the user has no data
/// directory.
pub const FALLBACK_DIR: &'static str = "/tmp/";

/// `rest` appended to the path `base` as further components: a separator
/// goes between the two unless `base` is empty or ends in one.
pub open spec fn joined(base: Seq<char>, rest: Seq<char>) -> Seq<char> {
    if base.len() == 0 || base.last() == '/' {
        base + rest
    } else {
        base + seq!['/'] + rest
    }
}

/// The location of the store for a user whose data directory is `data_dir`.
pub open spec fn default_location(data_dir: Option<Seq<char>>) -> Seq<char> {
    match data_dir {
        Some(dir) => joined(dir, STORE_NAME@),
        None => joined(FALLBACK_DIR@, STORE_NAME@),
    }
}

impl DB {
    /// The location of the store where none is given: `wd/wddb` below the
    /// user's data directory, or below `/tmp/` where there is none.
    pub fn default_db_path(data_dir: Option<String>) -> (location: String)
        ensures
            location@ == default_location(
                match data_dir {
                    Some(dir) => Some(dir@),
                    None => None,
                },
            ),
    {
        let base = match data_dir {
            Some(dir) => dir,
            None => String::from_str(FALLBACK_DIR),
        };
        let length = base.as_str().unicode_len();
        if length == 0 || base.as_str().get_char(length - 1) == '/' {
            base.concat(STORE_NAME)
        } else {
            proof {
                reveal_strlit("/");
                assert("/"@ =~= seq!['/']);
            }
            base.concat("/").concat(STORE_NAME)
        }
    }

    /// Builds the history kept at `file_path` from what was found there.
    ///
    /// A missing record and a damaged one both give an empty history, the
    /// damaged one with `corrupted` set; a valid record is taken as it is; any
    /// other failure is handed on.
    pub fn open(file_path: String, stored: Stored) -> (opened: Result<Opened, ReadFailure>)
        ensures
            match stored {
                Stored::Missing => opened is Ok && opened->Ok_0.db@.len() == 0
                    && !opened->Ok_0.corrupted,
                Stored::Corrupted => opened is Ok && opened->Ok_0.db@.len() == 0
                    && opened->Ok_0.corrupted,
                Stored::Failed(cause) => opened is Err && opened->Err_0.cause == cause,
                Stored::Record(content) => opened is Ok && opened->Ok_0.db.content == content
                    && !opened->Ok_0.corrupted,
            },
            opened is Ok ==> opened->Ok_0.db.file_path == file_path,
    {
        match stored {
            Stored::Missing => Ok(Opened {
                db: DB { file_path, content: DBContent::new() },
                corrupted: false,
            }),
            Stored::Corrupted => Ok(Opened {
                db: DB { file_path, content: DBContent::new() },
                corrupted: true,
            }),
            Stored::Failed(cause) => Err(ReadFailure { cause }),
            Stored::Record(content) => Ok(Opened {
                db: DB { file_path, content },
                corrupted: false,
            }),
        }
    }

    /// The stored paths, most recently used first.
    pub fn paths(&self) -> (paths: &[String])
        ensures
            paths@ == self.content.paths@,
    {
        self.content.paths.as_slice()
    }

    /// Moves `path` to the front, adding it if it was not there.
    pub fn bump(&mut self, path: &str) -> (db: &mut Self)
        ensures
            db@ == promoted(old(self)@, path@),
            db@[0] == path@,
            distinct(old(self)@) ==> distinct(db@),
            db.file_path == old(self).file_path,
            *final(self) == *final(db),
    {
        proof {
            if distinct(self@) {
                lemma_promote_keeps_distinct(self@, path@);
            }
        }
        let front = String::from_str(path);
        let mut paths = retain_others(&self.content.paths, &front);
        paths.insert(0, front);
        assert(texts(paths@) =~= promoted(texts(old(self).content.paths@), path@));
        self.content.paths = paths;
        self
    }

    /// Takes `path` out of the history; nothing changes if it is not there.
    pub fn forget(&mut self, path: &str) -> (db: &mut Self)
        ensures
            db@ == without(old(self)@, path@),
            !db@.contains(path@),
            distinct(old(self)@) ==> distinct(db@),
            db.file_path == old(self).file_path,
            *final(self) == *final(db),
    {
        proof {
            lemma_without_contains(self@, path@, path@);
            if distinct(self@) {
                lemma_remove_keeps_distinct(self@, path@);
            }
        }
        let gone = String::from_str(path);
        let paths = retain_others(&self.content.paths, &gone);
        self.content.paths = paths;
        self
    }
}

/// Taking `path` out of a list extended by `last` is taking it out of the
/// list and then keeping `last` if it differs from `path`.
pub proof fn lemma_without_push(entries: Seq<Seq<char>>, last: Seq<char>, path: Seq<char>)
    ensures
        without(entries.push(last), path) == if last != path {
            without(entries, path).push(last)
        } else {
            without(entries, path)
        },
{
    reveal(Seq::filter);
    assert(entries.push(last).drop_last() =~= entries);
}

/// What is left after taking `path` out are exactly the entries that differ
/// from `path`.
pub proof fn lemma_without_contains(entries: Seq<Seq<char>>, path: Seq<char>, other: Seq<char>)
    ensures
        without(entries, path).contains(other) <==> entries.contains(other) && other != path,
    decreases entries.len(),
{
    if entries.len() == 0 {
        reveal(Seq::filter);
        assert(without(entries, path) =~= Seq::<Seq<char>>::empty());
    } else {
        let init = entries.drop_last();
        let last = entries.last();
        assert(entries =~= init.push(last));
        lemma_without_push(init, last, path);
        lemma_without_contains(init, path, other);
        let kept = without(init, path);
        if entries.contains(other) {
            let i = choose|i: int| 0 <= i < entries.len() && entries[i] == other;
            if i < init.len() {
                assert(init[i] == other);
            }
        }
        if init.contains(other) {
            let i = choose|i: int| 0 <= i < init.len() && init[i] == other;
            assert(entries[i] == other);
        }
        if last != path {
            assert(kept.push(last).last() == last);
            if kept.contains(other) {
                let i = choose|i: int| 0 <= i < kept.len() && kept[i] == other;
                assert(kept.push(last)[i] == other);
            }
            if kept.push(last).contains(other) {
                let i = choose|i: int| 0 <= i < kept.push(last).len() && kept.push(last)[i] == other;
                if i < kept.len() {
                    assert(kept[i] == other);
                }
            }
        }
    }
}

/// Removing a path that is not in the history changes nothing.
pub proof fn lemma_remove_absent(entries: Seq<Seq<char>>, path: Seq<char>)
    requires
        !entries.contains(path),
    ensures
        without(entries, path) == entries,
    decreases entries.len(),
{
    if entries.len() == 0 {
        reveal(Seq::filter);
        assert(without(entries, path) =~= entries);
    } else {
        let init = entries.drop_last();
        let last = entries.last();
        assert(entries =~= init.push(last));
        assert(entries[entries.len() - 1] == last);
        assert forall|i: int| 0 <= i < init.len() implies init[i] != path by {
            assert(entries[i] == init[i]);
        }
        lemma_without_push(init, last, path);
        lemma_remove_absent(init, path);
    }
}

/// Removing a path leaves what stood before it and what stood after it, in
/// order, when it occurs once.
pub proof fn lemma_remove_between(
    before: Seq<Seq<char>>,
    path: Seq<char>,
    after: Seq<Seq<char>>,
)
    requires
        !before.contains(path),
        !after.contains(path),
    ensures
        without(before + seq![path] + after, path) == before + after,
{
    let differs = |e: Seq<char>| e != path;
    Seq::filter_distributes_over_add(before + seq![path], after, differs);
    Seq::filter_distributes_over_add(before, seq![path], differs);
    lemma_remove_absent(before, path);
    lemma_remove_absent(after, path);
    assert(seq![path] =~= Seq::<Seq<char>>::empty().push(path));
    lemma_without_push(Seq::<Seq<char>>::empty(), path, path);
    lemma_remove_absent(Seq::<Seq<char>>::empty(), path);
    assert(before + Seq::<Seq<char>>::empty() =~= before);
}

/// Removing a path from a history without repetitions leaves one without
/// repetitions.
pub proof fn lemma_remove_keeps_distinct(entries: Seq<Seq<char>>, path: Seq<char>)
    requires
        distinct(entries),
    ensures
        distinct(without(entries, path)),
    decreases entries.len(),
{
    if entries.len() == 0 {
        reveal(Seq::filter);
        assert(without(entries, path) =~= entries);
    } else {
        let init = entries.drop_last();
        let last = entries.last();
        assert(entries =~= init.push(last));
        assert forall|i: int, j: int| 0 <= i < j < init.len() implies init[i] != init[j] by {
            assert(entries[i] == init[i] && entries[j] == init[j]);
        }
        lemma_without_push(init, last, path);
        lemma_remove_keeps_distinct(init, path);
        let kept = without(init, path);
        if last != path {
            lemma_without_contains(init, path, last);
            if init.contains(last) {
                let i = choose|i: int| 0 <= i < init.len() && init[i] == last;
                assert(entries[i] == entries[entries.len() - 1]);
            }
            assert forall|i: int, j: int| 0 <= i < j < kept.push(last).len() implies kept.push(
                last,
            )[i] != kept.push(last)[j] by {
                if j == kept.len() {
                    assert(kept.contains(kept[i]));
                }
            }
        }
    }
}

/// Promoting a path in a history without repetitions leaves one without
/// repetitions, whether or not the path was there.
pub proof fn lemma_promote_keeps_distinct(entries: Seq<Seq<char>>, path: Seq<char>)
    requires
        distinct(entries),
    ensures
        distinct(promoted(entries, path)),
{
    lemma_remove_keeps_distinct(entries, path);
    let rest = without(entries, path);
    let all = promoted(entries, path);
    assert forall|i: int, j: int| 0 <= i < j < all.len() implies all[i] != all[j] by {
        assert(all[j] == rest[j - 1]);
        if i == 0 {
            lemma_without_contains(entries, path, path);
            assert(rest.contains(rest[j - 1]));
        } else {
            assert(all[i] == rest[i - 1]);
        }
    }
}

/// After a promotion the path stands in front, and nowhere else.
pub proof fn lemma_promote_front(entries: Seq<Seq<char>>, path: Seq<char>)
    ensures
        promoted(entries, path)[0] == path,
        forall|i: int| 0 < i < promoted(entries, path).len() ==> promoted(entries, path)[i] != path,
        promoted(entries, path).len() <= entries.len() + 1,
{
    let rest = without(entries, path);
    let all = promoted(entries, path);
    lemma_without_contains(entries, path, path);
    entries.lemma_filter_len(|e: Seq<char>| e != path);
    assert forall|i: int| 0 < i < all.len() implies all[i] != path by {
        assert(all[i] == rest[i - 1]);
        assert(rest.contains(rest[i - 1]));
    }
}

/// Promoting the same path twice in a row gives what promoting it once gives.
pub proof fn lemma_promote_idempotent(entries: Seq<Seq<char>>, path: Seq<char>)
    ensures
        promoted(promoted(entries, path), path) == promoted(entries, path),
{
    let rest = without(entries, path);
    lemma_without_contains(entries, path, path);
    lemma_remove_between(Seq::<Seq<char>>::empty(), path, rest);
    assert(Seq::<Seq<char>>::empty() + seq![path] + rest =~= promoted(entries, path));
    assert(Seq::<Seq<char>>::empty() + rest =~= rest);
}

/// Promoting `first`, then `second`, then `first` again puts `first` in front
/// and `second` right behind it, followed by the other entries in the order
/// they had.
pub proof fn lemma_promote_returns_to_front(
    entries: Seq<Seq<char>>,
    first: Seq<char>,
    second: Seq<char>,
)
    requires
        first != second,
    ensures
        promoted(promoted(promoted(entries, first), second), first) == seq![first, second]
            + without(without(entries, first), second),
{
    let rest = without(entries, first);
    let others = without(rest, second);
    lemma_without_contains(entries, first, first);
    lemma_without_contains(rest, second, first);
    // after the second promotion: second, first, others
    assert(Seq::<Seq<char>>::empty().contains(second) ==> false);
    assert(seq![first].contains(second) ==> seq![first][0] == second);
    Seq::filter_distributes_over_add(seq![first], rest, |e: Seq<char>| e != second);
    lemma_remove_absent(seq![first], second);
    let twice = promoted(promoted(entries, first), second);
    assert(twice =~= seq![second] + seq![first] + others);
    // the third promotion takes `first` from between `second` and the others
    assert(seq![second].contains(first) ==> seq![second][0] == first);
    lemma_remove_between(seq![second], first, others);
    assert(seq![first] + (seq![second] + others) =~= seq![first, second] + others);
}

} // verus!