//! Finding the binaries and the model that the player ships with.
//!
//! The player is meant to be copied to a machine that has nothing installed,
//! so it never looks on PATH for mpv or ffmpeg. It looks next to itself.
//!
//! Three layouts have to work: the installed app, a portable folder, and a
//! developer running it from the repository.

use vstd::prelude::*;
use vstd::string::StringExecFns;

verus! {

/// What the player is called.
pub const MPV: &'static str = "mpv.exe";

/// What the decoder is called.
pub const FFMPEG: &'static str = "ffmpeg.exe";

/// What the detection model is called.
pub const MODEL: &'static str = "320n.onnx";

/// What the runtime of the model is called.
pub const ONNXRUNTIME: &'static str = "onnxruntime.dll";

/// A path, part by part.
#[derive(Debug, Clone)]
pub struct FilePath {
    /// `C:\`, or nothing where the path is relative.
    pub root: Option<String>,
    pub parts: Vec<String>,
}

/// A path as a mathematical value.
pub struct PathView {
    pub root: Option<Seq<char>>,
    pub parts: Seq<Seq<char>>,
}

/// Parts as mathematical values.
pub open spec fn part_views(parts: Seq<String>) -> Seq<Seq<char>> {
    Seq::new(parts.len(), |i: int| parts[i]@)
}

pub open spec fn root_view(root: Option<String>) -> Option<Seq<char>> {
    match root {
        Some(r) => Some(r@),
        None => None,
    }
}

impl View for FilePath {
    type V = PathView;

    open spec fn view(&self) -> PathView {
        PathView { root: root_view(self.root), parts: part_views(self.parts@) }
    }
}

/// Paths as mathematical values.
pub open spec fn path_views(list: Seq<FilePath>) -> Seq<PathView> {
    Seq::new(list.len(), |i: int| list[i]@)
}

/// Parts with separators between them.
pub open spec fn parts_text(parts: Seq<Seq<char>>) -> Seq<char>
    decreases parts.len(),
{
    if parts.len() == 0 {
        Seq::empty()
    } else if parts.len() == 1 {
        parts[0]
    } else {
        parts_text(parts.drop_last()) + "\\"@ + parts.last()
    }
}

impl PathView {
    /// A path one part further down.
    pub open spec fn child(self, name: Seq<char>) -> PathView {
        PathView { root: self.root, parts: self.parts.push(name) }
    }

    /// A path some parts further up.
    pub open spec fn up(self, levels: int) -> Option<PathView> {
        if 0 <= levels <= self.parts.len() {
            Some(PathView { root: self.root, parts: self.parts.take(self.parts.len() - levels) })
        } else {
            None
        }
    }

    /// How a path is spelled.
    pub open spec fn spelled(self) -> Seq<char> {
        match self.root {
            Some(r) => r + parts_text(self.parts),
            None => parts_text(self.parts),
        }
    }

    /// Whether the last part names a file, as `.` and `..` do not.
    pub open spec fn has_file_name(self) -> bool {
        self.parts.len() > 0 && self.parts.last() != "."@ && self.parts.last() != ".."@
    }
}

impl FilePath {
    /// A path with a single part.
    pub fn of_name(name: &str) -> (p: FilePath)
        ensures
            p@ == (PathView { root: None, parts: seq![name@] }),
    {
        let parts: Vec<String> = vec![name.to_owned()];
        assert(part_views(parts@) =~= seq![name@]);
        FilePath { root: None, parts }
    }

    fn copy_root(&self) -> (root: Option<String>)
        ensures
            root_view(root) == self@.root,
    {
        match &self.root {
            Some(r) => Some(r.clone()),
            None => None,
        }
    }

    fn copy_parts(&self, n: usize) -> (parts: Vec<String>)
        requires
            n <= self.parts@.len(),
        ensures
            part_views(parts@) == self@.parts.take(n as int),
    {
        let mut parts: Vec<String> = Vec::new();
        let mut i: usize = 0;
        while i < n
            invariant
                i <= n <= self.parts@.len(),
                part_views(parts@) =~= self@.parts.take(i as int),
            decreases n - i,
        {
            let ghost before = part_views(parts@);
            parts.push(self.parts[i].clone());
            assert(part_views(parts@) =~= before.push(self@.parts[i as int]));
            i += 1;
        }
        parts
    }

    /// The same path again.
    pub fn copied(&self) -> (p: FilePath)
        ensures
            p@ == self@,
    {
        let parts: Vec<String> = self.copy_parts(self.parts.len());
        assert(part_views(parts@) =~= self@.parts);
        FilePath { root: self.copy_root(), parts }
    }

    /// A path one part further down.
    pub fn join(&self, name: &str) -> (p: FilePath)
        ensures
            p@ == self@.child(name@),
    {
        let mut parts: Vec<String> = self.copy_parts(self.parts.len());
        let ghost before = part_views(parts@);
        assert(before =~= self@.parts);
        parts.push(name.to_owned());
        assert(part_views(parts@) =~= before.push(name@));
        FilePath { root: self.copy_root(), parts }
    }

    /// A path some parts further up.
    pub fn ancestor(&self, levels: usize) -> (r: Option<FilePath>)
        ensures
            r is Some <==> self@.up(levels as int) is Some,
            r matches Some(p) ==> self@.up(levels as int) == Some(p@),
    {
        let n: usize = self.parts.len();
        if levels > n {
            return None;
        }
        let parts: Vec<String> = self.copy_parts(n - levels);
        Some(FilePath { root: self.copy_root(), parts })
    }

    /// The directory that a path lies in.
    pub fn parent(&self) -> (r: Option<FilePath>)
        ensures
            r is Some <==> self@.up(1) is Some,
            r matches Some(p) ==> self@.up(1) == Some(p@),
    {
        self.ancestor(1)
    }

    /// The name of the file that a path leads to.
    pub fn file_name(&self) -> (r: Option<String>)
        ensures
            r is Some <==> self@.has_file_name(),
            r matches Some(name) ==> name@ == self@.parts.last(),
    {
        let n: usize = self.parts.len();
        if n == 0 || self.parts[n - 1] == ".".to_owned() || self.parts[n - 1] == "..".to_owned() {
            None
        } else {
            Some(self.parts[n - 1].clone())
        }
    }

    /// Whether two paths are the same, part by part.
    pub fn same(&self, other: &FilePath) -> (r: bool)
        ensures
            r == (self@ == other@),
    {
        let roots: bool = match (&self.root, &other.root) {
            (Some(a), Some(b)) => *a == *b,
            (None, None) => true,
            _ => false,
        };
        if !roots {
            return false;
        }
        let n: usize = self.parts.len();
        if n != other.parts.len() {
            assert(self@.parts.len() != other@.parts.len());
            return false;
        }
        let mut i: usize = 0;
        while i < n
            invariant
                i <= n,
                n == self.parts@.len(),
                n == other.parts@.len(),
                forall|k: int| 0 <= k < i ==> self@.parts[k] == #[trigger] other@.parts[k],
            decreases n - i,
        {
            if self.parts[i] != other.parts[i] {
                assert(self@.parts[i as int] != other@.parts[i as int]);
                return false;
            }
            i += 1;
        }
        assert(self@.parts =~= other@.parts);
        true
    }

    /// How a path is spelled.
    pub fn display(&self) -> (out: String)
        ensures
            out@ == self@.spelled(),
    {
        let n: usize = self.parts.len();
        let mut list: String = String::new();
        let mut i: usize = 0;
        let ghost all = self@.parts;
        assert(all.take(0) =~= Seq::empty());
        while i < n
            invariant
                i <= n,
                n == self.parts@.len(),
                all == self@.parts,
                list@ == parts_text(all.take(i as int)),
            decreases n - i,
        {
            assert(all.take(i + 1).drop_last() =~= all.take(i as int));
            assert(all.take(i + 1).last() == self.parts@[i as int]@);
            if i > 0 {
                list.append("\\");
            }
            list.append(self.parts[i].as_str());
            assert(list@ =~= parts_text(all.take(i + 1)));
            i += 1;
        }
        assert(all.take(n as int) =~= all);
        match &self.root {
            Some(r) => {
                let mut out: String = r.clone();
                out.append(list.as_str());
                out
            },
            None => list,
        }
    }
}

/// Where everything is.
#[derive(Debug, Clone)]
pub struct Paths {
    pub mpv: FilePath,
    pub ffmpeg: FilePath,
    pub model: FilePath,
    pub onnxruntime: FilePath,
    /// Where per-user state lives: library, settings, playback conf.
    pub data_dir: FilePath,
}

/// Something that should be there and is not.
#[derive(Debug, Clone)]
pub struct MissingResource {
    pub name: String,
    pub expected_at: String,
}

/// A missing resource as a mathematical value.
pub struct MissingView {
    pub name: Seq<char>,
    pub expected_at: Seq<char>,
}

impl View for MissingResource {
    type V = MissingView;

    open spec fn view(&self) -> MissingView {
        MissingView { name: self.name@, expected_at: self.expected_at@ }
    }
}

pub open spec fn missing_views(list: Seq<MissingResource>) -> Seq<MissingView> {
    Seq::new(list.len(), |i: int| list[i]@)
}

/// The directory that resources are kept in, some levels above `dir`.
pub open spec fn resources_above(dir: PathView, levels: int) -> Seq<PathView> {
    match dir.up(levels) {
        Some(p) => seq![p.child("resources"@)],
        None => Seq::empty(),
    }
}

/// Where to look, given where the program and the user are: beside the program
/// (installed and portable), some levels above it (built in the repository),
/// and where it was called from.
pub open spec fn roots_of(exe: Option<PathView>, cwd: Option<PathView>) -> Seq<PathView> {
    let near = match exe {
        Some(e) => match e.up(1) {
            Some(dir) => seq![dir.child("resources"@), dir] + resources_above(dir, 2)
                + resources_above(dir, 3),
            None => Seq::empty(),
        },
        None => Seq::empty(),
    };
    match cwd {
        Some(c) => near.push(c.child("resources"@)),
        None => near,
    }
}

pub open spec fn optional_view(p: Option<FilePath>) -> Option<PathView> {
    match p {
        Some(p) => Some(p@),
        None => None,
    }
}

fn push_resources(roots: &mut Vec<FilePath>, dir: &FilePath, levels: usize)
    ensures
        path_views(final(roots)@) == path_views(old(roots)@) + resources_above(
            dir@,
            levels as int,
        ),
{
    match dir.ancestor(levels) {
        Some(p) => {
            roots.push(p.join("resources"));
        },
        None => {},
    }
    assert(path_views(roots@) =~= path_views(old(roots)@) + resources_above(dir@, levels as int));
}

/// Where to look.
pub fn search_roots(exe: &Option<FilePath>, cwd: &Option<FilePath>) -> (roots: Vec<FilePath>)
    ensures
        path_views(roots@) == roots_of(optional_view(*exe), optional_view(*cwd)),
{
    let mut roots: Vec<FilePath> = Vec::new();
    assert(path_views(roots@) =~= Seq::empty());
    match exe {
        Some(exe) => {
            match exe.parent() {
                Some(dir) => {
                    roots.push(dir.join("resources"));
                    roots.push(dir.copied());
                    assert(path_views(roots@) =~= seq![dir@.child("resources"@), dir@]);
                    push_resources(&mut roots, &dir, 2);
                    push_resources(&mut roots, &dir, 3);
                },
                None => {},
            }
        },
        None => {},
    }
    match cwd {
        Some(cwd) => {
            let ghost before = path_views(roots@);
            roots.push(cwd.join("resources"));
            assert(path_views(roots@) =~= before.push(cwd@.child("resources"@)));
        },
        None => {},
    }
    roots
}

/// The first of the roots, from `i` on, under which something is present.
pub open spec fn first_present(present: Seq<bool>, i: int) -> Option<int>
    decreases present.len() - i,
{
    if i < 0 || i >= present.len() {
        None
    } else if present[i] {
        Some(i)
    } else {
        first_present(present, i + 1)
    }
}

/// Where a file is: under the first root that has it, else where it should be,
/// under the first root; by its name alone where there is no root.
pub open spec fn found_at(roots: Seq<PathView>, name: Seq<char>, present: Seq<bool>) -> PathView {
    match first_present(present, 0) {
        Some(i) => roots[i].child(name),
        None => if roots.len() > 0 {
            roots[0].child(name)
        } else {
            PathView { root: None, parts: seq![name] }
        },
    }
}

/// Where a file is, given under which of the roots it is present.
pub fn find(roots: &Vec<FilePath>, name: &str, present: &Vec<bool>) -> (p: FilePath)
    requires
        present@.len() == roots@.len(),
    ensures
        p@ == found_at(path_views(roots@), name@, present@),
{
    let n: usize = roots.len();
    let mut i: usize = 0;
    while i < n
        invariant
            i <= n,
            n == roots@.len(),
            n == present@.len(),
            first_present(present@, 0) == first_present(present@, i as int),
        decreases n - i,
    {
        if present[i] {
            assert(path_views(roots@)[i as int] == roots@[i as int]@);
            return roots[i].join(name);
        }
        i += 1;
    }
    if n > 0 {
        assert(path_views(roots@)[0] == roots@[0]@);
        roots[0].join(name)
    } else {
        FilePath::of_name(name)
    }
}

/// Under which of the roots each resource is present.
#[derive(Debug, Clone)]
pub struct Presence {
    pub mpv: Vec<bool>,
    pub ffmpeg: Vec<bool>,
    pub model: Vec<bool>,
    pub onnxruntime: Vec<bool>,
}

impl Presence {
    /// Every root was looked at for every resource.
    pub open spec fn of(self, roots: int) -> bool {
        &&& self.mpv@.len() == roots
        &&& self.ffmpeg@.len() == roots
        &&& self.model@.len() == roots
        &&& self.onnxruntime@.len() == roots
    }
}

/// What to list of something that may be missing.
pub open spec fn lacking(name: Seq<char>, p: PathView, present: bool) -> Seq<MissingView> {
    if present {
        Seq::empty()
    } else {
        seq![MissingView { name, expected_at: p.spelled() }]
    }
}

fn push_missing(list: &mut Vec<MissingResource>, name: &str, p: &FilePath, present: bool)
    ensures
        missing_views(final(list)@) == missing_views(old(list)@) + lacking(name@, p@, present),
{
    if !present {
        list.push(MissingResource { name: name.to_owned(), expected_at: p.display() });
    }
    assert(missing_views(list@) =~= missing_views(old(list)@) + lacking(name@, p@, present));
}

impl Paths {
    /// Where everything is, given where to look and what is present there.
    pub fn discover(data_dir: FilePath, roots: &Vec<FilePath>, present: &Presence) -> (paths: Paths)
        requires
            present.of(roots@.len() as int),
        ensures
            paths.mpv@ == found_at(path_views(roots@), MPV@, present.mpv@),
            paths.ffmpeg@ == found_at(path_views(roots@), FFMPEG@, present.ffmpeg@),
            paths.model@ == found_at(path_views(roots@), MODEL@, present.model@),
            paths.onnxruntime@ == found_at(
                path_views(roots@),
                ONNXRUNTIME@,
                present.onnxruntime@,
            ),
            paths.data_dir == data_dir,
    {
        Paths {
            mpv: find(roots, MPV, &present.mpv),
            ffmpeg: find(roots, FFMPEG, &present.ffmpeg),
            model: find(roots, MODEL, &present.model),
            onnxruntime: find(roots, ONNXRUNTIME, &present.onnxruntime),
            data_dir,
        }
    }

    /// Everything that is missing, so the interface can say precisely what to
    /// do instead of failing later with a confusing error from ffmpeg.
    pub fn missing(&self, mpv: bool, ffmpeg: bool, model: bool, onnxruntime: bool) -> (list: Vec<
        MissingResource,
    >)
        ensures
            missing_views(list@) == lacking("mpv"@, self.mpv@, mpv) + lacking(
                "ffmpeg"@,
                self.ffmpeg@,
                ffmpeg,
            ) + lacking("detection model"@, self.model@, model) + lacking(
                "ONNX Runtime"@,
                self.onnxruntime@,
                onnxruntime,
            ),
    {
        let mut list: Vec<MissingResource> = Vec::new();
        push_missing(&mut list, "mpv", &self.mpv, mpv);
        assert(missing_views(list@) =~= lacking("mpv"@, self.mpv@, mpv));
        push_missing(&mut list, "ffmpeg", &self.ffmpeg, ffmpeg);
        push_missing(&mut list, "detection model", &self.model, model);
        push_missing(&mut list, "ONNX Runtime", &self.onnxruntime, onnxruntime);
        list
    }

    /// The mpv conf holding this playback's filtergraph.
    pub fn playback_conf(&self) -> (p: FilePath)
        ensures
            p@ == self.data_dir@.child("current_play.conf"@),
    {
        self.data_dir.join("current_play.conf")
    }

    pub fn library_file(&self) -> (p: FilePath)
        ensures
            p@ == self.data_dir@.child("library.json"@),
    {
        self.data_dir.join("library.json")
    }

    pub fn settings_file(&self) -> (p: FilePath)
        ensures
            p@ == self.data_dir@.child("settings.json"@),
    {
        self.data_dir.join("settings.json")
    }
}

} // verus!
