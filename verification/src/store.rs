//! The library and the settings.
//!
//! Both live next to the user's other application data rather than beside the
//! executable, so a portable copy on a memory stick does not carry one
//! person's movie list to another machine.
//!
//! Times are milliseconds, fractions thousandths.

use vstd::prelude::*;
use vstd::string::StringExecFns;

use crate::paths;
use crate::paths::{FilePath, PathView};
use crate::reading;

verus! {

/// Per-movie state the player remembers.
#[derive(Debug, Clone)]
pub struct MovieState {
    pub subtitle: Option<String>,
    pub sub_delay: i64,
    /// Where the viewer stopped, so a long film can be resumed.
    pub position: i64,
}

/// Nothing is remembered of a movie.
pub open spec fn blank(s: MovieState) -> bool {
    s.subtitle is None && s.sub_delay == 0 && s.position == 0
}

impl Default for MovieState {
    fn default() -> (s: MovieState)
        ensures
            blank(s),
    {
        MovieState { subtitle: None, sub_delay: 0, position: 0 }
    }
}

impl MovieState {
    fn copied(&self) -> (s: MovieState)
        ensures
            s == *self,
    {
        MovieState {
            subtitle: match &self.subtitle {
                Some(p) => Some(p.clone()),
                None => None,
            },
            sub_delay: self.sub_delay,
            position: self.position,
        }
    }
}

/// What the viewer can change.
#[derive(Debug, Clone)]
pub struct Settings {
    /// "light", "dark" or "system".
    pub theme: String,
    pub censor_style: String,
    pub volume: i64,
    /// Minutes detection runs ahead before live playback starts.
    pub head_start_minutes: u32,
    pub lead_before: i64,
    pub hold_after: i64,
    pub margin: i64,
    pub threshold: i64,
}

impl Default for Settings {
    fn default() -> (s: Settings)
        ensures
            s.theme@ == "system"@,
            s.censor_style@ == "black_box"@,
            s.volume == 100,
            s.head_start_minutes == 5,
            s.lead_before == 5000,
            s.hold_after == 10000,
            s.margin == 80,
            s.threshold == 550,
    {
        Settings {
            theme: "system".to_owned(),
            censor_style: "black_box".to_owned(),
            volume: 100,
            head_start_minutes: 5,
            lead_before: 5000,
            hold_after: 10000,
            margin: 80,
            threshold: 550,
        }
    }
}

/// What is remembered of one movie, and what it is remembered under.
#[derive(Debug, Clone)]
pub struct StateEntry {
    pub key: String,
    pub state: MovieState,
}

/// The movies, and what is remembered of them.
#[derive(Debug, Clone)]
pub struct Library {
    pub movies: Vec<FilePath>,
    pub state: Vec<StateEntry>,
}

impl Default for Library {
    fn default() -> (l: Library)
        ensures
            l.movies@.len() == 0,
            l.state@.len() == 0,
    {
        Library { movies: Vec::new(), state: Vec::new() }
    }
}

/// The library and the settings.
#[derive(Debug, Clone)]
pub struct Store {
    pub library: Library,
    pub settings: Settings,
}

/// Nothing is remembered under one key twice.
pub open spec fn keys_differ(entries: Seq<StateEntry>) -> bool {
    forall|i: int, j: int|
        0 <= i < j < entries.len() ==> (#[trigger] entries[i]).key@ != (#[trigger] entries[j]).key@
}

/// Whether an entry is the one under a key.
pub open spec fn under(entries: Seq<StateEntry>, key: Seq<char>, i: int) -> bool {
    0 <= i < entries.len() && entries[i].key@ == key
}

/// What is remembered under a key.
pub open spec fn remembered(entries: Seq<StateEntry>, key: Seq<char>) -> Option<MovieState> {
    if exists|i: int| #[trigger] under(entries, key, i) {
        let i = choose|i: int| #[trigger] under(entries, key, i);
        Some(entries[i].state)
    } else {
        None
    }
}

/// The movies once some were added: those that exist and are not listed yet.
pub open spec fn added(
    movies: Seq<PathView>,
    more: Seq<PathView>,
    present: Seq<bool>,
) -> Seq<PathView>
    decreases more.len(),
{
    if more.len() == 0 {
        movies
    } else {
        let before = added(movies, more.drop_last(), present);
        if present[more.len() - 1] && !before.contains(more.last()) {
            before.push(more.last())
        } else {
            before
        }
    }
}

/// The movies without one of them.
pub open spec fn without(movies: Seq<PathView>, path: PathView) -> Seq<PathView>
    decreases movies.len(),
{
    if movies.len() == 0 {
        Seq::empty()
    } else if movies.last() == path {
        without(movies.drop_last(), path)
    } else {
        without(movies.drop_last(), path).push(movies.last())
    }
}

/// The movies that are present.
pub open spec fn those_present(movies: Seq<PathView>, present: Seq<bool>) -> Seq<PathView>
    decreases movies.len(),
{
    if movies.len() == 0 {
        Seq::empty()
    } else if present[movies.len() - 1] {
        those_present(movies.drop_last(), present).push(movies.last())
    } else {
        those_present(movies.drop_last(), present)
    }
}

fn lists(movies: &Vec<FilePath>, path: &FilePath) -> (r: bool)
    ensures
        r == paths::path_views(movies@).contains(path@),
{
    let n: usize = movies.len();
    let mut i: usize = 0;
    while i < n
        invariant
            i <= n,
            n == movies@.len(),
            forall|k: int| 0 <= k < i ==> (#[trigger] paths::path_views(movies@)[k]) != path@,
        decreases n - i,
    {
        if movies[i].same(path) {
            assert(paths::path_views(movies@)[i as int] == path@);
            return true;
        }
        i += 1;
    }
    false
}

fn position(entries: &Vec<StateEntry>, key: &str) -> (r: Option<usize>)
    ensures
        match r {
            Some(i) => under(entries@, key@, i as int),
            None => forall|i: int| !(#[trigger] under(entries@, key@, i)),
        },
{
    let wanted: String = key.to_owned();
    let n: usize = entries.len();
    let mut i: usize = 0;
    while i < n
        invariant
            i <= n,
            n == entries@.len(),
            wanted@ == key@,
            forall|k: int| 0 <= k < i ==> !(#[trigger] under(entries@, key@, k)),
        decreases n - i,
    {
        if entries[i].key == wanted {
            return Some(i);
        }
        assert(!under(entries@, key@, i as int));
        i += 1;
    }
    None
}

/// With no key twice, what stands under a key is what is remembered.
proof fn lemma_remembered(entries: Seq<StateEntry>, key: Seq<char>, i: int)
    requires
        keys_differ(entries),
        under(entries, key, i),
    ensures
        remembered(entries, key) == Some(entries[i].state),
{
    let j = choose|j: int| #[trigger] under(entries, key, j);
    assert(under(entries, key, j));
    if i < j {
        assert(entries[i].key@ != entries[j].key@);
    } else if j < i {
        assert(entries[j].key@ != entries[i].key@);
    }
}

/// What a movie's state may be taken to be: what is remembered, or nothing.
pub open spec fn state_is(entries: Seq<StateEntry>, key: Seq<char>, s: MovieState) -> bool {
    match remembered(entries, key) {
        Some(known) => s == known,
        None => blank(s),
    }
}

impl Store {
    /// What every store keeps.
    pub open spec fn wf(self) -> bool {
        keys_differ(self.library.state@)
    }

    /// The movies of the library.
    pub open spec fn movies(self) -> Seq<PathView> {
        paths::path_views(self.library.movies@)
    }

    /// A store with what was read, given which of its movies are present.
    /// Movies that have been moved or deleted are dropped rather than left in
    /// the list to fail on play.
    pub fn loaded(library: Library, settings: Settings, present: &Vec<bool>) -> (store: Store)
        requires
            present@.len() == library.movies@.len(),
        ensures
            store.movies() == those_present(paths::path_views(library.movies@), present@),
            store.library.state == library.state,
            store.settings == settings,
    {
        let ghost all = paths::path_views(library.movies@);
        let n: usize = library.movies.len();
        let mut movies: Vec<FilePath> = Vec::new();
        let mut i: usize = 0;
        assert(all.take(0) =~= Seq::empty());
        assert(paths::path_views(movies@) =~= Seq::empty());
        while i < n
            invariant
                i <= n,
                n == library.movies@.len(),
                n == present@.len(),
                all == paths::path_views(library.movies@),
                paths::path_views(movies@) == those_present(all.take(i as int), present@),
            decreases n - i,
        {
            assert(all.take(i + 1).drop_last() =~= all.take(i as int));
            assert(all.take(i + 1).last() == library.movies@[i as int]@);
            if present[i] {
                let ghost before = paths::path_views(movies@);
                movies.push(library.movies[i].copied());
                assert(paths::path_views(movies@) =~= before.push(library.movies@[i as int]@));
            }
            i += 1;
        }
        assert(all.take(n as int) =~= all);
        Store { library: Library { movies, state: library.state }, settings }
    }

    /// Add movies, given which of them are present. How many were new.
    pub fn add(&mut self, more: &Vec<FilePath>, present: &Vec<bool>) -> (count: usize)
        requires
            present@.len() == more@.len(),
        ensures
            final(self).movies() == added(
                old(self).movies(),
                paths::path_views(more@),
                present@,
            ),
            count == final(self).movies().len() - old(self).movies().len(),
            final(self).library.state == old(self).library.state,
            final(self).settings == old(self).settings,
    {
        let ghost start = self.movies();
        let ghost all = paths::path_views(more@);
        let before: usize = self.library.movies.len();
        let n: usize = more.len();
        let mut i: usize = 0;
        assert(all.take(0) =~= Seq::empty());
        while i < n
            invariant
                i <= n,
                n == more@.len(),
                n == present@.len(),
                all == paths::path_views(more@),
                start == old(self).movies(),
                before == start.len(),
                self.movies().len() >= before,
                self.movies() == added(start, all.take(i as int), present@),
                self.library.state == old(self).library.state,
                self.settings == old(self).settings,
            decreases n - i,
        {
            assert(all.take(i + 1).drop_last() =~= all.take(i as int));
            assert(all.take(i + 1).last() == more@[i as int]@);
            if present[i] && !lists(&self.library.movies, &more[i]) {
                let ghost listed = self.movies();
                self.library.movies.push(more[i].copied());
                assert(self.movies() =~= listed.push(more@[i as int]@));
            }
            i += 1;
        }
        assert(all.take(n as int) =~= all);
        self.library.movies.len() - before
    }

    /// Forget a movie, and what is remembered of it.
    pub fn remove(&mut self, path: &FilePath, key: &str)
        requires
            old(self).wf(),
        ensures
            final(self).wf(),
            final(self).movies() == without(old(self).movies(), path@),
            remembered(final(self).library.state@, key@) is None,
            forall|k: Seq<char>|
                k != key@ ==> #[trigger] remembered(final(self).library.state@, k) == remembered(
                    old(self).library.state@,
                    k,
                ),
            final(self).settings == old(self).settings,
    {
        let ghost all = self.movies();
        let n: usize = self.library.movies.len();
        let mut movies: Vec<FilePath> = Vec::new();
        let mut i: usize = 0;
        assert(all.take(0) =~= Seq::empty());
        assert(paths::path_views(movies@) =~= Seq::empty());
        while i < n
            invariant
                i <= n,
                n == self.library.movies@.len(),
                *self == *old(self),
                all == self.movies(),
                paths::path_views(movies@) == without(all.take(i as int), path@),
            decreases n - i,
        {
            assert(all.take(i + 1).drop_last() =~= all.take(i as int));
            assert(all.take(i + 1).last() == self.library.movies@[i as int]@);
            if !self.library.movies[i].same(path) {
                let ghost before = paths::path_views(movies@);
                movies.push(self.library.movies[i].copied());
                assert(paths::path_views(movies@) =~= before.push(
                    self.library.movies@[i as int]@,
                ));
            }
            i += 1;
        }
        assert(all.take(n as int) =~= all);
        self.library.movies = movies;
        let ghost entries = self.library.state@;
        match position(&self.library.state, key) {
            Some(at) => {
                self.library.state.remove(at);
                proof {
                    lemma_dropped(entries, key@, at as int);
                }
            },
            None => {},
        }
    }

    /// What is remembered of a movie.
    pub fn state_of(&self, key: &str) -> (s: MovieState)
        requires
            self.wf(),
        ensures
            state_is(self.library.state@, key@, s),
    {
        match position(&self.library.state, key) {
            Some(at) => {
                proof {
                    lemma_remembered(self.library.state@, key@, at as int);
                }
                self.library.state[at].state.copied()
            },
            None => MovieState::default(),
        }
    }

    /// Change what is remembered of a movie.
    pub fn update_state<F: FnOnce(MovieState) -> MovieState>(&mut self, key: &str, f: F)
        requires
            old(self).wf(),
            forall|s: MovieState|
                state_is(old(self).library.state@, key@, s) ==> f.requires((s,)),
        ensures
            final(self).wf(),
            final(self).library.movies == old(self).library.movies,
            final(self).settings == old(self).settings,
            exists|s: MovieState, changed: MovieState|
                {
                    &&& state_is(old(self).library.state@, key@, s)
                    &&& #[trigger] f.ensures((s,), changed)
                    &&& remembered(final(self).library.state@, key@) == Some(changed)
                },
            forall|k: Seq<char>|
                k != key@ ==> #[trigger] remembered(final(self).library.state@, k) == remembered(
                    old(self).library.state@,
                    k,
                ),
    {
        let ghost entries = self.library.state@;
        let s: MovieState = self.state_of(key);
        let changed: MovieState = f(s);
        let ghost known = changed;
        match position(&self.library.state, key) {
            Some(at) => {
                let entry: StateEntry = StateEntry {
                    key: self.library.state[at].key.clone(),
                    state: changed,
                };
                self.library.state.set(at, entry);
                proof {
                    lemma_replaced(entries, key@, at as int, entry);
                }
            },
            None => {
                let entry: StateEntry = StateEntry { key: key.to_owned(), state: changed };
                self.library.state.push(entry);
                proof {
                    lemma_appended(entries, key@, entry);
                }
            },
        }
        assert(remembered(self.library.state@, key@) == Some(known));
    }
}

proof fn lemma_dropped(entries: Seq<StateEntry>, key: Seq<char>, at: int)
    requires
        keys_differ(entries),
        under(entries, key, at),
    ensures
        keys_differ(entries.remove(at)),
        remembered(entries.remove(at), key) is None,
        forall|k: Seq<char>|
            k != key ==> #[trigger] remembered(entries.remove(at), k) == remembered(entries, k),
{
    let rest = entries.remove(at);
    assert forall|i: int, j: int| 0 <= i < j < rest.len() implies (#[trigger] rest[i]).key@ != (
    #[trigger] rest[j]).key@ by {
        let x = if i < at {
            i
        } else {
            i + 1
        };
        let y = if j < at {
            j
        } else {
            j + 1
        };
        assert(rest[i] == entries[x] && rest[j] == entries[y]);
    }
    assert forall|i: int| !(#[trigger] under(rest, key, i)) by {
        if under(rest, key, i) {
            let x = if i < at {
                i
            } else {
                i + 1
            };
            assert(rest[i] == entries[x]);
            if x < at {
                assert(entries[x].key@ != entries[at].key@);
            } else {
                assert(entries[at].key@ != entries[x].key@);
            }
        }
    }
    assert forall|k: Seq<char>| k != key implies #[trigger] remembered(rest, k) == remembered(
        entries,
        k,
    ) by {
        if exists|i: int| #[trigger] under(entries, k, i) {
            let i = choose|i: int| #[trigger] under(entries, k, i);
            let x = if i < at {
                i
            } else {
                i - 1
            };
            assert(rest[x] == entries[i]);
            assert(under(rest, k, x));
            lemma_remembered(entries, k, i);
            lemma_remembered(rest, k, x);
        } else if exists|i: int| #[trigger] under(rest, k, i) {
            let i = choose|i: int| #[trigger] under(rest, k, i);
            let x = if i < at {
                i
            } else {
                i + 1
            };
            assert(under(entries, k, x));
        }
    }
}

proof fn lemma_replaced(entries: Seq<StateEntry>, key: Seq<char>, at: int, entry: StateEntry)
    requires
        keys_differ(entries),
        under(entries, key, at),
        entry.key@ == key,
    ensures
        keys_differ(entries.update(at, entry)),
        remembered(entries.update(at, entry), key) == Some(entry.state),
        forall|k: Seq<char>|
            k != key ==> #[trigger] remembered(entries.update(at, entry), k) == remembered(
                entries,
                k,
            ),
{
    let all = entries.update(at, entry);
    assert(forall|i: int| 0 <= i < all.len() ==> (#[trigger] all[i]).key@ == entries[i].key@);
    assert(keys_differ(all));
    assert(under(all, key, at));
    lemma_remembered(all, key, at);
    assert forall|k: Seq<char>| k != key implies #[trigger] remembered(all, k) == remembered(
        entries,
        k,
    ) by {
        if exists|i: int| #[trigger] under(entries, k, i) {
            let i = choose|i: int| #[trigger] under(entries, k, i);
            assert(under(all, k, i));
            lemma_remembered(entries, k, i);
            lemma_remembered(all, k, i);
        } else if exists|i: int| #[trigger] under(all, k, i) {
            let i = choose|i: int| #[trigger] under(all, k, i);
            assert(under(entries, k, i));
        }
    }
}

proof fn lemma_appended(entries: Seq<StateEntry>, key: Seq<char>, entry: StateEntry)
    requires
        keys_differ(entries),
        forall|i: int| !(#[trigger] under(entries, key, i)),
        entry.key@ == key,
    ensures
        keys_differ(entries.push(entry)),
        remembered(entries.push(entry), key) == Some(entry.state),
        forall|k: Seq<char>|
            k != key ==> #[trigger] remembered(entries.push(entry), k) == remembered(entries, k),
{
    let all = entries.push(entry);
    let n = entries.len() as int;
    assert forall|i: int, j: int| 0 <= i < j < all.len() implies (#[trigger] all[i]).key@ != (
    #[trigger] all[j]).key@ by {
        assert(all[i] == entries[i]);
        if j == n {
            assert(!under(entries, key, i));
        } else {
            assert(all[j] == entries[j]);
        }
    }
    assert(under(all, key, n));
    lemma_remembered(all, key, n);
    assert forall|k: Seq<char>| k != key implies #[trigger] remembered(all, k) == remembered(
        entries,
        k,
    ) by {
        if exists|i: int| #[trigger] under(entries, k, i) {
            let i = choose|i: int| #[trigger] under(entries, k, i);
            assert(under(all, k, i));
            lemma_remembered(entries, k, i);
            lemma_remembered(all, k, i);
        } else if exists|i: int| #[trigger] under(all, k, i) {
            let i = choose|i: int| #[trigger] under(all, k, i);
            assert(under(entries, k, i));
        }
    }
}

// ---------------------------------------------------------------------------
// Files
// ---------------------------------------------------------------------------

/// A text without the byte order marks in front of it.
pub open spec fn unmarked(s: Seq<char>) -> Seq<char>
    decreases s.len(),
{
    if s.len() > 0 && s[0] == '\u{feff}' {
        unmarked(s.drop_first())
    } else {
        s
    }
}

/// Take the byte order marks off a file's text.
///
/// A JSON parser treats one as a syntax error, and plenty of things write
/// them. Silently losing someone's library to an invisible character is not
/// acceptable.
pub fn without_marks(text: &str) -> (out: String)
    ensures
        out@ == unmarked(text@),
{
    let chars: Vec<char> = reading::chars_of(text);
    let n: usize = chars.len();
    let mut i: usize = 0;
    assert(chars@.skip(0) =~= chars@);
    while i < n && chars[i] == '\u{feff}'
        invariant
            i <= n,
            n == chars@.len(),
            unmarked(chars@) == unmarked(chars@.skip(i as int)),
        decreases n - i,
    {
        assert(chars@.skip(i as int).drop_first() =~= chars@.skip(i + 1));
        i += 1;
    }
    let mut out: String = String::new();
    let mut j: usize = i;
    while j < n
        invariant
            i <= j <= n,
            n == chars@.len(),
            out@ =~= chars@.subrange(i as int, j as int),
        decreases n - j,
    {
        out.push(chars[j]);
        j += 1;
    }
    assert(chars@.subrange(i as int, n as int) =~= chars@.skip(i as int));
    out
}

/// What a movie's plan is called: by the movie's full name.
pub open spec fn plan_name_text(name: Seq<char>) -> Seq<char> {
    name + ".scrimplan.json"@
}

/// What a movie's plan is called.
pub fn plan_name(file_name: &str) -> (out: String)
    ensures
        out@ == plan_name_text(file_name@),
{
    let mut out: String = file_name.to_owned();
    out.append(".scrimplan.json");
    out
}

/// Where a movie's plan lives: next to the movie.
pub open spec fn plan_at(video: PathView) -> PathView {
    if video.has_file_name() {
        PathView {
            root: video.root,
            parts: video.parts.drop_last().push(plan_name_text(video.parts.last())),
        }
    } else {
        video.child(plan_name_text(Seq::empty()))
    }
}

/// Where a movie's plan lives: next to the movie.
pub fn plan_path(video: &FilePath) -> (p: FilePath)
    ensures
        p@ == plan_at(video@),
{
    match video.file_name() {
        Some(name) => {
            let plan: String = plan_name(name.as_str());
            match video.parent() {
                Some(dir) => {
                    assert(dir@.parts =~= video@.parts.drop_last());
                    dir.join(plan.as_str())
                },
                None => video.join(plan.as_str()),
            }
        },
        None => {
            let plan: String = plan_name("");
            proof {
                reveal_strlit("");
                assert(""@ =~= Seq::<char>::empty());
            }
            video.join(plan.as_str())
        },
    }
}

} // verus!
