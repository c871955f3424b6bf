//! The things that can be searched: a file, a directory, or either.

use crate::hits::{file_matches, search_text, GreprMatch, MatchView};
use crate::order::{lemma_sort_by_path, sort_by_path, sort_matches, sorted_by_path};
use crate::tree::{Entry, Node};
use vstd::prelude::*;

verus! {

/// The path of the entry `name` of the directory at `parent`: the two
/// joined by one slash. Nothing is normalized.
pub open spec fn child_path(parent: Seq<char>, name: Seq<char>) -> Seq<char> {
    parent + seq!['/'] + name
}

/// What the search of the file at `path` returns, where `node` is what
/// stands there: its hits where its content was read, and nothing where it
/// was not.
pub open spec fn file_search(path: Seq<char>, query: Seq<char>, node: Node) -> Option<
    Seq<MatchView>,
> {
    match node {
        Node::File(Some(text)) => Some(file_matches(path, text@, query)),
        _ => None,
    }
}

/// The hits under the entries of the directory at `dir`, entry by entry in
/// the order of the listing, before they are sorted.
///
/// A file gives its hits, and none where it could not be read. A directory
/// gives what its own search returns where `recursive` is set and it could
/// be listed, and nothing else. Any other entry gives nothing.
pub open spec fn gathered(
    dir: Seq<char>,
    query: Seq<char>,
    recursive: bool,
    entries: Seq<Entry>,
) -> Seq<MatchView>
    decreases entries,
{
    if entries.len() == 0 {
        Seq::empty()
    } else {
        let path = child_path(dir, entries.last().name@);
        gathered(dir, query, recursive, entries.drop_last()) + match entries.last().node {
            Node::File(Some(text)) => file_matches(path, text@, query),
            Node::Directory(Some(below)) => if recursive {
                sort_by_path(gathered(path, query, recursive, below@))
            } else {
                Seq::empty()
            },
            _ => Seq::empty(),
        }
    }
}

/// The hits that one entry of the directory at `dir` adds: `gathered`
/// is these, entry after entry.
pub open spec fn entry_hits(dir: Seq<char>, query: Seq<char>, recursive: bool, entry: Entry) -> Seq<
    MatchView,
> {
    let path = child_path(dir, entry.name@);
    match entry.node {
        Node::File(Some(text)) => file_matches(path, text@, query),
        Node::Directory(Some(below)) => if recursive {
            sort_by_path(gathered(path, query, recursive, below@))
        } else {
            Seq::empty()
        },
        _ => Seq::empty(),
    }
}

/// What the search of the directory at `path` returns, where `node` is
/// what stands there: nothing where it could not be listed, else the hits
/// under its entries, sorted by path, those of one file in the order of
/// its lines.
pub open spec fn directory_search(
    path: Seq<char>,
    query: Seq<char>,
    recursive: bool,
    node: Node,
) -> Option<Seq<MatchView>> {
    match node {
        Node::Directory(Some(entries)) => Some(
            sort_by_path(gathered(path, query, recursive, entries@)),
        ),
        _ => None,
    }
}

/// A regular file, known by its pathname.
pub struct File {
    pathname: String,
}

/// A directory, known by its pathname, which ends in no separator.
pub struct Directory {
    pathname: String,
}

impl View for File {
    type V = Seq<char>;

    closed spec fn view(&self) -> Seq<char> {
        self.pathname@
    }
}

impl DeepView for File {
    type V = Seq<char>;

    open spec fn deep_view(&self) -> Seq<char> {
        self@
    }
}

impl View for Directory {
    type V = Seq<char>;

    closed spec fn view(&self) -> Seq<char> {
        self.pathname@
    }
}

impl DeepView for Directory {
    type V = Seq<char>;

    open spec fn deep_view(&self) -> Seq<char> {
        self@
    }
}

/// The path of the entry `name` of the directory at `parent`.
pub fn join(parent: &str, name: &str) -> (path: String)
    ensures
        path@ == child_path(parent@, name@),
{
    let mut path = parent.to_owned();
    proof {
        reveal_strlit("/");
    }
    path.append("/");
    path.append(name);
    path
}

impl File {
    /// The file at `pathname`.
    pub fn new(pathname: &str) -> (file: File)
        ensures
            file@ == pathname@,
    {
        File { pathname: pathname.to_owned() }
    }

    /// The pathname of the file.
    pub fn pathname(&self) -> (path: &str)
        ensures
            path@ == self@,
    {
        self.pathname.as_str()
    }

    /// A word on what this is, for a reader: `File: ` and the pathname.
    pub fn describe(&self) -> (out: String)
        ensures
            out@ == "File: "@ + self@,
    {
        let mut out = "File: ".to_owned();
        out.append(self.pathname.as_str());
        out
    }

    /// Searches the file for `query`, where `node` is what was read at its
    /// pathname. The result is `None` where the content could not be read,
    /// else the lines that hold `query`, in the order of the file. A file
    /// has nothing below it, so `recursive` changes nothing.
    pub fn search(&self, query: &str, recursive: bool, node: &Node) -> (found: Option<
        Vec<GreprMatch>,
    >)
        ensures
            found.deep_view() == file_search(self@, query@, *node),
    {
        match node {
            Node::File(Some(text)) => Some(
                search_text(self.pathname.as_str(), text.as_str(), query),
            ),
            _ => None,
        }
    }
}

impl Directory {
    /// The directory at `pathname`.
    pub fn new(pathname: &str) -> (directory: Directory)
        ensures
            directory@ == pathname@,
    {
        Directory { pathname: pathname.to_owned() }
    }

    /// The pathname of the directory.
    pub fn pathname(&self) -> (path: &str)
        ensures
            path@ == self@,
    {
        self.pathname.as_str()
    }

    /// A word on what this is, for a reader: `Directory: ` and the
    /// pathname.
    pub fn describe(&self) -> (out: String)
        ensures
            out@ == "Directory: "@ + self@,
    {
        let mut out = "Directory: ".to_owned();
        out.append(self.pathname.as_str());
        out
    }

    /// Searches the directory for `query`, where `node` is what was read
    /// at its pathname.
    ///
    /// The result is `None` where the directory could not be listed. Else
    /// it holds the hits of the files among its entries and, where
    /// `recursive` is set, of the directories among them, searched in the
    /// same way. A file that could not be read and a directory that could
    /// not be listed add nothing. The hits come sorted by path, those of
    /// one file in the order of its lines.
    pub fn search(&self, query: &str, recursive: bool, node: &Node) -> (found: Option<
        Vec<GreprMatch>,
    >)
        ensures
            found.deep_view() == directory_search(self@, query@, recursive, *node),
            found matches Some(hits) ==> sorted_by_path(hits.deep_view()),
        decreases node,
    {
        match node {
            Node::Directory(Some(entries)) => {
                let mut hits: Vec<GreprMatch> = Vec::new();
                let mut i: usize = 0;
                while i < entries.len()
                    invariant
                        i <= entries.len(),
                        *node == Node::Directory(Some(*entries)),
                        hits.deep_view() == gathered(
                            self@,
                            query@,
                            recursive,
                            entries@.take(i as int),
                        ),
                    decreases entries.len() - i,
                {
                    let entry = &entries[i];
                    proof {
                        let upto = entries@.take(i + 1);
                        assert(upto.drop_last() =~= entries@.take(i as int));
                    }
                    match &entry.node {
                        Node::File(_) => {
                            let file = File {
                                pathname: join(self.pathname.as_str(), entry.name.as_str()),
                            };
                            if let Some(mut more) = file.search(query, recursive, &entry.node) {
                                hits.append(&mut more);
                            }
                        },
                        Node::Directory(_) => {
                            if recursive {
                                proof {
                                    let listing = node->Directory_0;
                                    assert(decreases_to!(listing => listing->0));
                                }
                                let below = Directory {
                                    pathname: join(self.pathname.as_str(), entry.name.as_str()),
                                };
                                let found = below.search(query, recursive, &entry.node);
                                if let Some(mut more) = found {
                                    hits.append(&mut more);
                                }
                            }
                        },
                        Node::Other => {},
                    }
                    i += 1;
                }
                assert(entries@.take(i as int) =~= entries@);
                proof {
                    lemma_sort_by_path(hits.deep_view());
                }
                Some(sort_matches(hits))
            },
            _ => None,
        }
    }
}

/// Either kind of thing that can be searched.
pub enum SearchTarget {
    /// A regular file.
    File(File),
    /// A directory.
    Directory(Directory),
}

/// What a [`SearchTarget`] stands for: its kind and its pathname.
pub enum TargetView {
    /// A regular file at the pathname.
    File(Seq<char>),
    /// A directory at the pathname.
    Directory(Seq<char>),
}

impl View for SearchTarget {
    type V = TargetView;

    open spec fn view(&self) -> TargetView {
        match *self {
            SearchTarget::File(file) => TargetView::File(file@),
            SearchTarget::Directory(directory) => TargetView::Directory(directory@),
        }
    }
}

impl DeepView for SearchTarget {
    type V = TargetView;

    open spec fn deep_view(&self) -> TargetView {
        self@
    }
}

/// The pathname of a target.
pub open spec fn target_path(target: TargetView) -> Seq<char> {
    match target {
        TargetView::File(path) => path,
        TargetView::Directory(path) => path,
    }
}

/// What the search of `target` returns, where `node` is what stands at
/// its pathname.
pub open spec fn target_search(
    target: TargetView,
    query: Seq<char>,
    recursive: bool,
    node: Node,
) -> Option<Seq<MatchView>> {
    match target {
        TargetView::File(path) => file_search(path, query, node),
        TargetView::Directory(path) => directory_search(path, query, recursive, node),
    }
}

impl SearchTarget {
    /// The pathname of the target.
    pub fn pathname(&self) -> (path: &str)
        ensures
            path@ == target_path(self@),
    {
        match self {
            SearchTarget::File(file) => file.pathname(),
            SearchTarget::Directory(directory) => directory.pathname(),
        }
    }

    /// Searches the target for `query`, where `node` is what was read at
    /// its pathname: a file as [`File::search`] does, a directory as
    /// [`Directory::search`] does.
    pub fn search(&self, query: &str, recursive: bool, node: &Node) -> (found: Option<
        Vec<GreprMatch>,
    >)
        ensures
            found.deep_view() == target_search(self@, query@, recursive, *node),
    {
        match self {
            SearchTarget::File(file) => file.search(query, recursive, node),
            SearchTarget::Directory(directory) => directory.search(query, recursive, node),
        }
    }
}

/// The hits under a listing are those that its entries add, and no others.
pub proof fn lemma_gathered_holds(
    dir: Seq<char>,
    query: Seq<char>,
    recursive: bool,
    entries: Seq<Entry>,
    m: MatchView,
)
    ensures
        gathered(dir, query, recursive, entries).contains(m) <==> exists|i: int|
            0 <= i < entries.len() && #[trigger] entry_hits(
                dir,
                query,
                recursive,
                entries[i],
            ).contains(m),
    decreases entries.len(),
{
    let all = gathered(dir, query, recursive, entries);
    if entries.len() > 0 {
        let head = entries.drop_last();
        let before = gathered(dir, query, recursive, head);
        let last = entry_hits(dir, query, recursive, entries.last());
        lemma_gathered_holds(dir, query, recursive, head, m);
        if all.contains(m) {
            let k = choose|k: int| 0 <= k < all.len() && all[k] == m;
            if k >= before.len() {
                assert(entry_hits(dir, query, recursive, entries[entries.len() - 1]).contains(m));
            }
        }
        if exists|i: int|
            0 <= i < entries.len() && #[trigger] entry_hits(
                dir,
                query,
                recursive,
                entries[i],
            ).contains(m) {
            let i = choose|i: int|
                0 <= i < entries.len() && #[trigger] entry_hits(
                    dir,
                    query,
                    recursive,
                    entries[i],
                ).contains(m);
            if i < head.len() {
                assert(head[i] == entries[i]);
                let k = choose|k: int| 0 <= k < before.len() && before[k] == m;
                assert(all[k] == m);
            } else {
                let k = choose|k: int| 0 <= k < last.len() && last[k] == m;
                assert(all[before.len() + k] == m);
            }
        }
    }
}

/// The search of a directory returns the hits that its entries add, and
/// no others.
pub proof fn lemma_search_holds_entry_hits(
    dir: Seq<char>,
    query: Seq<char>,
    recursive: bool,
    entries: Seq<Entry>,
    m: MatchView,
)
    ensures
        sort_by_path(gathered(dir, query, recursive, entries)).contains(m) <==> exists|i: int|
            0 <= i < entries.len() && #[trigger] entry_hits(
                dir,
                query,
                recursive,
                entries[i],
            ).contains(m),
{
    crate::order::lemma_sort_keeps_hits(gathered(dir, query, recursive, entries), m);
    lemma_gathered_holds(dir, query, recursive, entries, m);
}

/// With `recursive` set, a line that holds the query in a file of a
/// directory among the entries is among the hits, under the path of that
/// file and its position in the file.
pub proof fn lemma_recursion_reaches_nested_file(
    dir: Seq<char>,
    query: Seq<char>,
    entries: Seq<Entry>,
    i: int,
    j: int,
    k: int,
)
    requires
        0 <= i < entries.len(),
        entries[i].node matches Node::Directory(Some(below)) && 0 <= j < below.len() && (
        below[j].node matches Node::File(Some(text)) && 0 <= k < crate::text::lines(text@).len()
            && crate::text::occurs_in(query, crate::text::lines(text@)[k])),
    ensures
        ({
            let below = entries[i].node->Directory_0->0;
            let text = below[j].node->File_0->0;
            let path = child_path(child_path(dir, entries[i].name@), below[j].name@);
            sort_by_path(gathered(dir, query, true, entries)).contains(
                MatchView {
                    path,
                    line_number: (k + 1) as nat,
                    text: crate::text::lines(text@)[k],
                },
            )
        }),
{
    let below = entries[i].node->Directory_0->0;
    let text = below[j].node->File_0->0;
    let middle = child_path(dir, entries[i].name@);
    let path = child_path(middle, below[j].name@);
    let m = MatchView { path, line_number: (k + 1) as nat, text: crate::text::lines(text@)[k] };
    crate::hits::lemma_one_match_per_matching_line(path, crate::text::lines(text@), query);
    assert(entry_hits(middle, query, true, below@[j]).contains(m));
    lemma_search_holds_entry_hits(middle, query, true, below@, m);
    assert(entry_hits(dir, query, true, entries[i]).contains(m));
    lemma_search_holds_entry_hits(dir, query, true, entries, m);
}

/// Without `recursive`, what the directories among the entries hold
/// changes nothing: two listings that differ only there give the same
/// hits.
pub proof fn lemma_flat_search_skips_directories(
    dir: Seq<char>,
    query: Seq<char>,
    a: Seq<Entry>,
    b: Seq<Entry>,
)
    requires
        a.len() == b.len(),
        forall|i: int|
            0 <= i < a.len() ==> (#[trigger] a[i]).name@ == (#[trigger] b[i]).name@ && (a[i].node
                == b[i].node || (a[i].node is Directory && b[i].node is Directory)),
    ensures
        gathered(dir, query, false, a) == gathered(dir, query, false, b),
    decreases a.len(),
{
    if a.len() > 0 {
        lemma_flat_search_skips_directories(dir, query, a.drop_last(), b.drop_last());
    }
}

} // verus!
