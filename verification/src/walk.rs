//! The search of a configuration's targets, one read at a time.
//!
//! A [`Walk`] reads nothing. It says what it needs next, the content of a
//! file or the listing of a directory, and takes the answer; its caller
//! does the reading. So nothing is read that the search does not look at,
//! and nothing before it is needed. What a walk has found at its end is
//! what [`run`](crate::config::run) finds in the same files and
//! directories read ahead: `lemma_walk_finds_what_run_finds`.

use crate::config::{found_in_directories, found_in_files, run_result, Config, ConfigView};
use crate::hits::{file_matches, search_text, GreprMatch, MatchView};
use crate::order::{sort_by_path, sort_matches};
use crate::target::{child_path, directory_search, file_search, gathered, join};
use crate::tree::{lookup, Entry, Node};
use std::collections::VecDeque;
use vstd::prelude::*;

verus! {

/// What a listing tells of an entry.
#[derive(Clone, Copy, PartialEq, Eq, Structural)]
pub enum EntryKind {
    /// A regular file.
    File,
    /// A directory.
    Directory,
    /// Neither, or not known.
    Other,
}

/// What an entry of a listing stands for.
pub struct ListedView {
    /// The name of the entry within its directory.
    pub name: Seq<char>,
    /// What kind of thing it is.
    pub kind: EntryKind,
}

/// One entry of a directory as its listing shows it: a name and a kind.
pub struct Listed {
    /// The name of the entry within its directory.
    pub name: String,
    /// What kind of thing it is.
    pub kind: EntryKind,
}

impl View for Listed {
    type V = ListedView;

    open spec fn view(&self) -> ListedView {
        ListedView { name: self.name@, kind: self.kind }
    }
}

impl DeepView for Listed {
    type V = ListedView;

    open spec fn deep_view(&self) -> ListedView {
        self@
    }
}

/// What a [`Request`] stands for.
pub enum RequestView {
    /// The content of the file at this path.
    ReadFile(Seq<char>),
    /// The listing of the directory at this path.
    ListDirectory(Seq<char>),
    /// Nothing: the walk is at its end.
    Done,
}

/// What a walk needs next.
pub enum Request {
    /// The content of the file at this path.
    ReadFile(String),
    /// The listing of the directory at this path.
    ListDirectory(String),
    /// Nothing: the walk is at its end.
    Done,
}

impl View for Request {
    type V = RequestView;

    open spec fn view(&self) -> RequestView {
        match *self {
            Request::ReadFile(path) => RequestView::ReadFile(path@),
            Request::ListDirectory(path) => RequestView::ListDirectory(path@),
            Request::Done => RequestView::Done,
        }
    }
}

/// What a [`Reply`] stands for.
pub enum ReplyView {
    /// The content of the file, or `None` where it could not be read.
    Contents(Option<Seq<char>>),
    /// The entries of the directory in the order of the listing, or `None`
    /// where it could not be listed.
    Listing(Option<Seq<ListedView>>),
}

/// The answer to a request.
pub enum Reply {
    /// The content of the file, or `None` where it could not be read.
    Contents(Option<String>),
    /// The entries of the directory in the order of the listing, or `None`
    /// where it could not be listed. An entry that could not be read is not
    /// among them.
    Listing(Option<Vec<Listed>>),
}

impl View for Reply {
    type V = ReplyView;

    open spec fn view(&self) -> ReplyView {
        match *self {
            Reply::Contents(text) => ReplyView::Contents(text.deep_view()),
            Reply::Listing(entries) => ReplyView::Listing(entries.deep_view()),
        }
    }
}

/// What one level of a walk stands for: a directory that is being
/// searched, or, at the bottom, the targets of the configuration.
pub struct FrameView {
    /// The path of the directory, or `None` at the bottom, where each
    /// child is named by its whole path.
    pub dir: Option<Seq<char>>,
    /// The entries that are not done yet, the next one first.
    pub children: Seq<ListedView>,
    /// The hits of the entries that are done.
    pub hits: Seq<MatchView>,
}

/// What a [`Walk`] stands for.
pub struct WalkView {
    /// The string that is searched for.
    pub query: Seq<char>,
    /// Whether a directory's search goes into the directories below it.
    pub recursive: bool,
    /// The levels that are open, the deepest last. None is left at the
    /// end.
    pub stack: Seq<FrameView>,
    /// The hits of the whole walk, once it is at its end.
    pub found: Seq<MatchView>,
}

/// Whether an entry of this kind is searched. A file is. A directory is
/// where it is a target of the configuration, and below a target where
/// `recursive` is set.
pub open spec fn searched(kind: EntryKind, recursive: bool, root: bool) -> bool {
    kind == EntryKind::File || (kind == EntryKind::Directory && (recursive || root))
}

/// The path of the entry `name` at a level of a walk.
pub open spec fn path_of(dir: Option<Seq<char>>, name: Seq<char>) -> Seq<char> {
    match dir {
        Some(parent) => child_path(parent, name),
        None => name,
    }
}

/// The walk with `hits` added to its deepest level.
pub open spec fn with_hits(walk: WalkView, hits: Seq<MatchView>) -> WalkView {
    let top = walk.stack.last();
    WalkView {
        stack: walk.stack.update(walk.stack.len() - 1, FrameView { hits: top.hits + hits, ..top }),
        ..walk
    }
}

/// The walk without the next entry of its deepest level.
pub open spec fn without_child(walk: WalkView) -> WalkView {
    let top = walk.stack.last();
    WalkView {
        stack: walk.stack.update(
            walk.stack.len() - 1,
            FrameView { children: top.children.drop_first(), ..top },
        ),
        ..walk
    }
}

/// The walk brought to where it needs an answer, or to its end.
///
/// A level with no entry left is closed: its hits, sorted by path where it
/// is a directory, go to the level above, and from the bottom level to
/// `found`. An entry that is not searched is passed over.
pub open spec fn settle(walk: WalkView) -> WalkView
    decreases
        walk.stack.len(),
        (if walk.stack.len() > 0 {
            walk.stack.last().children.len()
        } else {
            0
        }),
{
    if walk.stack.len() == 0 {
        walk
    } else {
        let top = walk.stack.last();
        if top.children.len() == 0 {
            let hits = if top.dir is Some {
                sort_by_path(top.hits)
            } else {
                top.hits
            };
            let rest = WalkView { stack: walk.stack.drop_last(), ..walk };
            if rest.stack.len() == 0 {
                WalkView { found: walk.found + hits, ..rest }
            } else {
                settle(with_hits(rest, hits))
            }
        } else if searched(top.children[0].kind, walk.recursive, top.dir is None) {
            walk
        } else {
            settle(without_child(walk))
        }
    }
}

/// The walk needs an answer, or is at its end.
pub open spec fn ready(walk: WalkView) -> bool {
    walk.stack.len() > 0 ==> walk.stack.last().children.len() > 0 && searched(
        walk.stack.last().children[0].kind,
        walk.recursive,
        walk.stack.last().dir is None,
    )
}

/// What the walk needs next.
pub open spec fn requested(walk: WalkView) -> RequestView {
    if walk.stack.len() == 0 || walk.stack.last().children.len() == 0 {
        RequestView::Done
    } else {
        let top = walk.stack.last();
        let path = path_of(top.dir, top.children[0].name);
        match top.children[0].kind {
            EntryKind::File => RequestView::ReadFile(path),
            EntryKind::Directory => RequestView::ListDirectory(path),
            EntryKind::Other => RequestView::Done,
        }
    }
}

/// The walk after it got `reply` to what it needed.
///
/// The content of a file gives the file's hits. The listing of a directory
/// opens a level below. An answer of the wrong kind, and `None`, say that
/// the read failed: the entry adds nothing. A walk at its end stays as it
/// is.
pub open spec fn supplied(walk: WalkView, reply: ReplyView) -> WalkView {
    if walk.stack.len() == 0 || walk.stack.last().children.len() == 0 {
        walk
    } else {
        let top = walk.stack.last();
        let child = top.children[0];
        let path = path_of(top.dir, child.name);
        let rest = without_child(walk);
        match (child.kind, reply) {
            (EntryKind::File, ReplyView::Contents(Some(text))) => settle(
                with_hits(rest, file_matches(path, text, walk.query)),
            ),
            (EntryKind::Directory, ReplyView::Listing(Some(entries))) => settle(
                WalkView {
                    stack: rest.stack.push(
                        FrameView { dir: Some(path), children: entries, hits: Seq::empty() },
                    ),
                    ..rest
                },
            ),
            _ => settle(rest),
        }
    }
}

/// The targets of a configuration as the entries of the bottom level: the
/// files in their order, then the directories in theirs.
pub open spec fn root_children(config: ConfigView) -> Seq<ListedView> {
    Seq::new(
        config.files.len(),
        |i: int| ListedView { name: config.files[i], kind: EntryKind::File },
    ) + Seq::new(
        config.directories.len(),
        |i: int| ListedView { name: config.directories[i], kind: EntryKind::Directory },
    )
}

/// The walk that searches what `config` asks for, before its first read.
pub open spec fn begun(config: ConfigView) -> WalkView {
    settle(
        WalkView {
            query: config.query,
            recursive: config.recursive,
            stack: seq![
                FrameView { dir: None, children: root_children(config), hits: Seq::empty() },
            ],
            found: Seq::empty(),
        },
    )
}

/// The kind of what stands at a node.
pub open spec fn kind_of(node: Node) -> EntryKind {
    match node {
        Node::File(_) => EntryKind::File,
        Node::Directory(_) => EntryKind::Directory,
        Node::Other => EntryKind::Other,
    }
}

/// The listing that shows `entries`: the name and the kind of each.
pub open spec fn listed(entries: Seq<Entry>) -> Seq<ListedView> {
    Seq::new(
        entries.len(),
        |i: int| ListedView { name: entries[i].name@, kind: kind_of(entries[i].node) },
    )
}

/// The answers to the requests that a walk makes when it searches an
/// entry of kind `kind`, where `node` is what stands there: the content or
/// the listing, and for a listing the answers for what stands below, as
/// far as the search goes.
pub open spec fn replies_for(kind: EntryKind, node: Node, recursive: bool) -> Seq<ReplyView> {
    match kind {
        EntryKind::File => seq![
            ReplyView::Contents(
                match node {
                    Node::File(Some(text)) => Some(text@),
                    _ => None,
                },
            ),
        ],
        EntryKind::Directory => match node {
            Node::Directory(Some(below)) => seq![ReplyView::Listing(Some(listed(below@)))]
                + replies_below(below@, recursive),
            _ => seq![ReplyView::Listing(None)],
        },
        EntryKind::Other => Seq::empty(),
    }
}

/// The answers to the requests that a walk makes for the entries of a
/// directory, in the order in which it makes them.
pub open spec fn replies_below(entries: Seq<Entry>, recursive: bool) -> Seq<ReplyView>
    decreases entries,
{
    if entries.len() == 0 {
        Seq::empty()
    } else {
        replies_below(entries.drop_last(), recursive) + match entries.last().node {
            Node::File(Some(text)) => seq![ReplyView::Contents(Some(text@))],
            Node::File(None) => seq![ReplyView::Contents(None)],
            Node::Directory(Some(below)) => if recursive {
                seq![ReplyView::Listing(Some(listed(below@)))] + replies_below(below@, recursive)
            } else {
                Seq::empty()
            },
            Node::Directory(None) => if recursive {
                seq![ReplyView::Listing(None)]
            } else {
                Seq::empty()
            },
            Node::Other => Seq::empty(),
        }
    }
}

/// What stands at the target `name`: its entry among `roots`, and
/// something unknown where it has none.
pub open spec fn found_at(roots: Seq<Entry>, name: Seq<char>) -> Node {
    match lookup(roots, name) {
        Some(node) => node,
        None => Node::Other,
    }
}

/// The answers to the requests that a walk makes for the targets
/// `children`, where `roots` holds what stands at each.
pub open spec fn root_replies(children: Seq<ListedView>, roots: Seq<Entry>, recursive: bool) -> Seq<
    ReplyView,
>
    decreases children.len(),
{
    if children.len() == 0 {
        Seq::empty()
    } else {
        root_replies(children.drop_last(), roots, recursive) + replies_for(
            children.last().kind,
            found_at(roots, children.last().name),
            recursive,
        )
    }
}

/// The walk after it got `replies`, one after the other.
pub open spec fn fed(walk: WalkView, replies: Seq<ReplyView>) -> WalkView
    decreases replies.len(),
{
    if replies.len() == 0 {
        walk
    } else {
        supplied(fed(walk, replies.drop_last()), replies.last())
    }
}

/// The hits of the entry of kind `kind` at `path`, where `node` is what
/// stands there; none where the search of the entry fails.
pub open spec fn hits_for(
    path: Seq<char>,
    kind: EntryKind,
    node: Node,
    query: Seq<char>,
    recursive: bool,
) -> Seq<MatchView> {
    match kind {
        EntryKind::File => match file_search(path, query, node) {
            Some(hits) => hits,
            None => Seq::empty(),
        },
        EntryKind::Directory => match directory_search(path, query, recursive, node) {
            Some(hits) => hits,
            None => Seq::empty(),
        },
        EntryKind::Other => Seq::empty(),
    }
}

/// The hits of the targets `children`, target after target.
pub open spec fn root_hits(
    children: Seq<ListedView>,
    roots: Seq<Entry>,
    query: Seq<char>,
    recursive: bool,
) -> Seq<MatchView>
    decreases children.len(),
{
    if children.len() == 0 {
        Seq::empty()
    } else {
        root_hits(children.drop_last(), roots, query, recursive) + hits_for(
            children.last().name,
            children.last().kind,
            found_at(roots, children.last().name),
            query,
            recursive,
        )
    }
}

/// Answers taken in two parts are taken one part after the other.
pub proof fn lemma_fed_add(walk: WalkView, a: Seq<ReplyView>, b: Seq<ReplyView>)
    ensures
        fed(walk, a + b) == fed(fed(walk, a), b),
    decreases b.len(),
{
    if b.len() > 0 {
        lemma_fed_add(walk, a, b.drop_last());
        assert((a + b).drop_last() =~= a + b.drop_last());
    }
}

/// One answer taken is the answer supplied.
proof fn lemma_fed_one(walk: WalkView, reply: ReplyView)
    ensures
        fed(walk, seq![reply]) == supplied(walk, reply),
{
    assert(seq![reply].drop_last() =~= Seq::<ReplyView>::empty());
    assert(fed(walk, Seq::<ReplyView>::empty()) == walk);
}

/// Adding no hits changes nothing.
proof fn lemma_with_no_hits(walk: WalkView)
    requires
        walk.stack.len() > 0,
    ensures
        with_hits(walk, Seq::empty()) == walk,
{
    assert(with_hits(walk, Seq::empty()).stack =~= walk.stack);
}

/// The deepest level of `walk` after the first `k` of `entries`, which it
/// lists, are done.
spec fn progressed(walk: WalkView, entries: Seq<Entry>, k: int) -> WalkView {
    let top = walk.stack.last();
    WalkView {
        stack: walk.stack.update(
            walk.stack.len() - 1,
            FrameView {
                children: listed(entries).skip(k),
                hits: top.hits + gathered(top.dir->0, walk.query, walk.recursive, entries.take(k)),
                ..top
            },
        ),
        ..walk
    }
}

/// Searching the next entry of a level, with all that stands below it,
/// adds the entry's hits to the level and goes on to the next.
proof fn lemma_child_searched(walk: WalkView, node: Node)
    requires
        walk.stack.len() > 0,
        walk.stack.last().children.len() > 0,
        searched(walk.stack.last().children[0].kind, walk.recursive, walk.stack.last().dir is None),
    ensures
        fed(walk, replies_for(walk.stack.last().children[0].kind, node, walk.recursive)) == settle(
            with_hits(
                without_child(walk),
                hits_for(
                    path_of(walk.stack.last().dir, walk.stack.last().children[0].name),
                    walk.stack.last().children[0].kind,
                    node,
                    walk.query,
                    walk.recursive,
                ),
            ),
        ),
    decreases node, 0int,
{
    let top = walk.stack.last();
    let child = top.children[0];
    let path = path_of(top.dir, child.name);
    let rest = without_child(walk);
    lemma_with_no_hits(rest);
    match child.kind {
        EntryKind::File => {
            let reply = ReplyView::Contents(
                match node {
                    Node::File(Some(text)) => Some(text@),
                    _ => None,
                },
            );
            lemma_fed_one(walk, reply);
        },
        EntryKind::Directory => {
            match node {
                Node::Directory(Some(below)) => {
                    let listing = ReplyView::Listing(Some(listed(below@)));
                    let after = replies_below(below@, walk.recursive);
                    lemma_fed_add(walk, seq![listing], after);
                    lemma_fed_one(walk, listing);
                    let opened = WalkView {
                        stack: rest.stack.push(
                            FrameView {
                                dir: Some(path),
                                children: listed(below@),
                                hits: Seq::empty(),
                            },
                        ),
                        ..rest
                    };
                    lemma_children_searched(opened, below@, below@.len() as int);
                    assert(below@.take(below@.len() as int) =~= below@);
                    let closed = progressed(opened, below@, below@.len() as int);
                    assert(closed.stack.drop_last() =~= rest.stack);
                },
                _ => {
                    lemma_fed_one(walk, ReplyView::Listing(None));
                },
            }
        },
        EntryKind::Other => {},
    }
}

/// Searching the first `k` entries of the level that lists `entries` adds
/// their hits to the level, entry after entry.
proof fn lemma_children_searched(walk: WalkView, entries: Seq<Entry>, k: int)
    requires
        walk.stack.len() > 0,
        walk.stack.last().dir is Some,
        walk.stack.last().children == listed(entries),
        0 <= k <= entries.len(),
    ensures
        fed(settle(walk), replies_below(entries.take(k), walk.recursive)) == settle(
            progressed(walk, entries, k),
        ),
    decreases entries, k,
{
    let top = walk.stack.last();
    let dir = top.dir->0;
    if k == 0 {
        assert(listed(entries).skip(0) =~= listed(entries));
        assert(progressed(walk, entries, 0).stack =~= walk.stack);
    } else {
        lemma_children_searched(walk, entries, k - 1);
        let entry = entries[k - 1];
        let upto = entries.take(k);
        assert(upto.drop_last() =~= entries.take(k - 1));
        let before = progressed(walk, entries, k - 1);
        let after = progressed(walk, entries, k);
        let earlier = replies_below(entries.take(k - 1), walk.recursive);
        let kind = kind_of(entry.node);
        let own = if searched(kind, walk.recursive, false) {
            replies_for(kind, entry.node, walk.recursive)
        } else {
            Seq::empty()
        };
        lemma_fed_add(settle(walk), earlier, own);
        let path = child_path(dir, entry.name@);
        let hits = hits_for(path, kind, entry.node, walk.query, walk.recursive);
        assert(listed(entries).skip(k) =~= listed(entries).skip(k - 1).drop_first());
        if searched(kind, walk.recursive, false) {
            lemma_child_searched(before, entry.node);
            let done = gathered(dir, walk.query, walk.recursive, entries.take(k - 1));
            assert((top.hits + done) + hits =~= top.hits + (done + hits));
            assert(with_hits(without_child(before), hits).stack =~= after.stack);
        } else {
            assert(without_child(before).stack =~= after.stack);
        }
    }
}

/// The bottom level of `walk` after the first `k` of its targets
/// `children` are done.
spec fn root_progressed(
    walk: WalkView,
    children: Seq<ListedView>,
    roots: Seq<Entry>,
    k: int,
) -> WalkView {
    let top = walk.stack.last();
    WalkView {
        stack: walk.stack.update(
            walk.stack.len() - 1,
            FrameView {
                children: children.skip(k),
                hits: top.hits + root_hits(children.take(k), roots, walk.query, walk.recursive),
                ..top
            },
        ),
        ..walk
    }
}

/// Searching the first `k` targets adds their hits to the bottom level,
/// target after target.
proof fn lemma_roots_searched(
    walk: WalkView,
    children: Seq<ListedView>,
    roots: Seq<Entry>,
    k: int,
)
    requires
        walk.stack.len() > 0,
        walk.stack.last().dir is None,
        walk.stack.last().children == children,
        forall|i: int|
            0 <= i < children.len() ==> (#[trigger] children[i]).kind != EntryKind::Other,
        0 <= k <= children.len(),
    ensures
        fed(settle(walk), root_replies(children.take(k), roots, walk.recursive)) == settle(
            root_progressed(walk, children, roots, k),
        ),
    decreases k,
{
    let top = walk.stack.last();
    if k == 0 {
        assert(children.skip(0) =~= children);
        assert(root_progressed(walk, children, roots, 0).stack =~= walk.stack);
    } else {
        lemma_roots_searched(walk, children, roots, k - 1);
        let child = children[k - 1];
        let upto = children.take(k);
        assert(upto.drop_last() =~= children.take(k - 1));
        let before = root_progressed(walk, children, roots, k - 1);
        let after = root_progressed(walk, children, roots, k);
        let earlier = root_replies(children.take(k - 1), roots, walk.recursive);
        let node = found_at(roots, child.name);
        let own = replies_for(child.kind, node, walk.recursive);
        lemma_fed_add(settle(walk), earlier, own);
        lemma_child_searched(before, node);
        let hits = hits_for(child.name, child.kind, node, walk.query, walk.recursive);
        assert(children.skip(k) =~= children.skip(k - 1).drop_first());
        let done = root_hits(children.take(k - 1), roots, walk.query, walk.recursive);
        assert((top.hits + done) + hits =~= top.hits + (done + hits));
        assert(with_hits(without_child(before), hits).stack =~= after.stack);
    }
}

/// The hits of targets in two parts are those of the first part followed
/// by those of the second.
proof fn lemma_root_hits_add(
    a: Seq<ListedView>,
    b: Seq<ListedView>,
    roots: Seq<Entry>,
    query: Seq<char>,
    recursive: bool,
)
    ensures
        root_hits(a + b, roots, query, recursive) == root_hits(a, roots, query, recursive)
            + root_hits(b, roots, query, recursive),
    decreases b.len(),
{
    if b.len() > 0 {
        lemma_root_hits_add(a, b.drop_last(), roots, query, recursive);
        assert((a + b).drop_last() =~= a + b.drop_last());
    }
}

/// The hits of the files as targets are those that a run finds in them.
proof fn lemma_root_hits_of_files(
    files: Seq<Seq<char>>,
    roots: Seq<Entry>,
    query: Seq<char>,
    recursive: bool,
)
    ensures
        root_hits(
            Seq::new(files.len(), |i: int| ListedView { name: files[i], kind: EntryKind::File }),
            roots,
            query,
            recursive,
        ) == found_in_files(files, query, roots),
    decreases files.len(),
{
    let children = Seq::new(
        files.len(),
        |i: int| ListedView { name: files[i], kind: EntryKind::File },
    );
    if files.len() > 0 {
        let head = files.drop_last();
        lemma_root_hits_of_files(head, roots, query, recursive);
        assert(children.drop_last() =~= Seq::new(
            head.len(),
            |i: int| ListedView { name: head[i], kind: EntryKind::File },
        ));
    }
}

/// The hits of the directories as targets are those that a run finds in
/// them.
proof fn lemma_root_hits_of_directories(
    directories: Seq<Seq<char>>,
    roots: Seq<Entry>,
    query: Seq<char>,
    recursive: bool,
)
    ensures
        root_hits(
            Seq::new(
                directories.len(),
                |i: int| ListedView { name: directories[i], kind: EntryKind::Directory },
            ),
            roots,
            query,
            recursive,
        ) == found_in_directories(directories, query, recursive, roots),
    decreases directories.len(),
{
    let children = Seq::new(
        directories.len(),
        |i: int| ListedView { name: directories[i], kind: EntryKind::Directory },
    );
    if directories.len() > 0 {
        let head = directories.drop_last();
        lemma_root_hits_of_directories(head, roots, query, recursive);
        assert(children.drop_last() =~= Seq::new(
            head.len(),
            |i: int| ListedView { name: head[i], kind: EntryKind::Directory },
        ));
    }
}

/// A walk finds what a run finds. Answered from what stands at the
/// targets and below them, a walk comes to its end, and has then found the
/// hits that a run over the same files and directories returns, in the
/// same order.
pub proof fn lemma_walk_finds_what_run_finds(config: ConfigView, roots: Seq<Entry>)
    ensures
        fed(
            begun(config),
            root_replies(root_children(config), roots, config.recursive),
        ).stack.len() == 0,
        fed(begun(config), root_replies(root_children(config), roots, config.recursive)).found
            == run_result(config, roots),
{
    let children = root_children(config);
    let first = WalkView {
        query: config.query,
        recursive: config.recursive,
        stack: seq![FrameView { dir: None, children, hits: Seq::empty() }],
        found: Seq::empty(),
    };
    let n = children.len() as int;
    lemma_roots_searched(first, children, roots, n);
    assert(children.take(n) =~= children);
    lemma_root_hits_add(
        Seq::new(
            config.files.len(),
            |i: int| ListedView { name: config.files[i], kind: EntryKind::File },
        ),
        Seq::new(
            config.directories.len(),
            |i: int| ListedView { name: config.directories[i], kind: EntryKind::Directory },
        ),
        roots,
        config.query,
        config.recursive,
    );
    lemma_root_hits_of_files(config.files, roots, config.query, config.recursive);
    lemma_root_hits_of_directories(config.directories, roots, config.query, config.recursive);
}

/// One level of a walk.
struct Frame {
    dir: Option<String>,
    children: VecDeque<Listed>,
    hits: Vec<GreprMatch>,
}

impl View for Frame {
    type V = FrameView;

    closed spec fn view(&self) -> FrameView {
        FrameView {
            dir: self.dir.deep_view(),
            children: self.children.deep_view(),
            hits: self.hits.deep_view(),
        }
    }
}

impl DeepView for Frame {
    type V = FrameView;

    closed spec fn deep_view(&self) -> FrameView {
        self@
    }
}

/// A search in progress that asks for each read in turn.
pub struct Walk {
    query: String,
    recursive: bool,
    stack: Vec<Frame>,
    found: Vec<GreprMatch>,
}

impl View for Walk {
    type V = WalkView;

    closed spec fn view(&self) -> WalkView {
        WalkView {
            query: self.query@,
            recursive: self.recursive,
            stack: self.stack.deep_view(),
            found: self.found.deep_view(),
        }
    }
}

/// `settle` stops where the walk is ready.
pub proof fn lemma_settle_ready(walk: WalkView)
    ensures
        ready(settle(walk)),
        ready(walk) ==> settle(walk) == walk,
        settle(walk).query == walk.query,
        settle(walk).recursive == walk.recursive,
    decreases
        walk.stack.len(),
        (if walk.stack.len() > 0 {
            walk.stack.last().children.len()
        } else {
            0
        }),
{
    if walk.stack.len() > 0 {
        let top = walk.stack.last();
        if top.children.len() == 0 {
            let hits = if top.dir is Some {
                sort_by_path(top.hits)
            } else {
                top.hits
            };
            let rest = WalkView { stack: walk.stack.drop_last(), ..walk };
            if rest.stack.len() > 0 {
                lemma_settle_ready(with_hits(rest, hits));
            }
        } else if !searched(top.children[0].kind, walk.recursive, top.dir is None) {
            lemma_settle_ready(without_child(walk));
        }
    }
}

impl Walk {
    /// Brings the walk to where it needs an answer, or to its end.
    fn settle(&mut self)
        ensures
            final(self)@ == settle(old(self)@),
    {
        loop
            invariant
                settle(self@) == settle(old(self)@),
            decreases
                self.stack.len(),
                (if self.stack.len() > 0 {
                    self.stack.deep_view().last().children.len()
                } else {
                    0
                }),
        {
            let ghost before = self@;
            if self.stack.len() == 0 {
                return ;
            }
            let mut frame = self.stack.pop().unwrap();
            assert(self.stack.deep_view() =~= before.stack.drop_last());
            if frame.children.len() == 0 {
                let mut hits = if frame.dir.is_some() {
                    sort_matches(frame.hits)
                } else {
                    frame.hits
                };
                let ghost added = hits.deep_view();
                match self.stack.pop() {
                    None => {
                        let ghost found = self.found.deep_view();
                        self.found.append(&mut hits);
                        assert(self.found.deep_view() =~= found + added);
                    },
                    Some(mut parent) => {
                        let ghost rest = WalkView { stack: before.stack.drop_last(), ..before };
                        let ghost held = parent.hits.deep_view();
                        parent.hits.append(&mut hits);
                        assert(parent.hits.deep_view() =~= held + added);
                        self.stack.push(parent);
                        assert(self.stack.deep_view() =~= with_hits(rest, added).stack);
                    },
                }
            } else {
                let kind = frame.children[0].kind;
                let root = frame.dir.is_none();
                if kind == EntryKind::File || (kind == EntryKind::Directory && (self.recursive
                    || root)) {
                    self.stack.push(frame);
                    assert(self.stack.deep_view() =~= before.stack);
                    return ;
                } else {
                    let ghost children = frame.children.deep_view();
                    let _ = frame.children.pop_front();
                    assert(frame.children.deep_view() =~= children.drop_first());
                    self.stack.push(frame);
                    assert(self.stack.deep_view() =~= without_child(before).stack);
                }
            }
        }
    }

    /// The walk that searches what `config` asks for: each file in turn,
    /// then each directory in turn. It is ready for its first answer.
    pub fn start(config: Config) -> (walk: Walk)
        ensures
            walk@ == begun(config@),
            ready(walk@),
    {
        let mut children: VecDeque<Listed> = VecDeque::new();
        let ghost files = config.files.deep_view();
        let ghost directories = config.directories.deep_view();
        let mut i: usize = 0;
        while i < config.files.len()
            invariant
                i <= config.files.len(),
                files == config.files.deep_view(),
                children.deep_view() == Seq::new(
                    i as nat,
                    |k: int| ListedView { name: files[k], kind: EntryKind::File },
                ),
            decreases config.files.len() - i,
        {
            let ghost before = children.deep_view();
            let child = Listed {
                name: config.files[i].pathname().to_owned(),
                kind: EntryKind::File,
            };
            children.push_back(child);
            assert(children.deep_view() =~= before.push(child@));
            i += 1;
        }
        let ghost first = children.deep_view();
        let mut j: usize = 0;
        while j < config.directories.len()
            invariant
                j <= config.directories.len(),
                directories == config.directories.deep_view(),
                children.deep_view() == first + Seq::new(
                    j as nat,
                    |k: int| ListedView { name: directories[k], kind: EntryKind::Directory },
                ),
            decreases config.directories.len() - j,
        {
            let ghost before = children.deep_view();
            let child = Listed {
                name: config.directories[j].pathname().to_owned(),
                kind: EntryKind::Directory,
            };
            children.push_back(child);
            assert(children.deep_view() =~= before.push(child@));
            j += 1;
        }
        let mut stack: Vec<Frame> = Vec::new();
        let hits: Vec<GreprMatch> = Vec::new();
        assert(hits.deep_view() =~= Seq::<MatchView>::empty());
        let frame = Frame { dir: None, children, hits };
        stack.push(frame);
        let mut walk = Walk {
            query: config.query,
            recursive: config.recursive,
            stack,
            found: Vec::new(),
        };
        assert(walk@.stack =~= seq![
            FrameView { dir: None, children: root_children(config@), hits: Seq::empty() },
        ]);
        walk.settle();
        walk
    }

    /// Whether the walk is at its end.
    pub fn is_done(&self) -> (done: bool)
        ensures
            done == (self@.stack.len() == 0),
    {
        self.stack.len() == 0
    }

    /// What the walk needs next: the content of a file, the listing of a
    /// directory, or nothing more.
    pub fn request(&self) -> (request: Request)
        requires
            ready(self@),
        ensures
            request@ == requested(self@),
    {
        if self.stack.len() == 0 {
            return Request::Done;
        }
        let top = &self.stack[self.stack.len() - 1];
        let child = &top.children[0];
        let path = match &top.dir {
            Some(parent) => join(parent.as_str(), child.name.as_str()),
            None => child.name.clone(),
        };
        match child.kind {
            EntryKind::File => Request::ReadFile(path),
            EntryKind::Directory => Request::ListDirectory(path),
            EntryKind::Other => Request::Done,
        }
    }

    /// Takes the answer to what the walk needed, and goes on to where it
    /// needs the next.
    pub fn supply(&mut self, reply: Reply)
        requires
            ready(old(self)@),
        ensures
            final(self)@ == supplied(old(self)@, reply@),
            ready(final(self)@),
    {
        let ghost before = self@;
        proof {
            lemma_supplied_ready(before, reply@);
        }
        if self.stack.len() == 0 {
            return ;
        }
        let mut frame = self.stack.pop().unwrap();
        let ghost children = frame.children.deep_view();
        let child = frame.children.pop_front().unwrap();
        assert(frame.children.deep_view() =~= children.drop_first());
        let path = match &frame.dir {
            Some(parent) => join(parent.as_str(), child.name.as_str()),
            None => child.name,
        };
        let ghost rest = without_child(before);
        match (child.kind, reply) {
            (EntryKind::File, Reply::Contents(Some(text))) => {
                let mut hits = search_text(path.as_str(), text.as_str(), self.query.as_str());
                let ghost held = frame.hits.deep_view();
                let ghost added = hits.deep_view();
                frame.hits.append(&mut hits);
                assert(frame.hits.deep_view() =~= held + added);
                self.stack.push(frame);
                assert(self.stack.deep_view() =~= with_hits(rest, added).stack);
            },
            (EntryKind::Directory, Reply::Listing(Some(entries))) => {
                let mut below: VecDeque<Listed> = VecDeque::new();
                let ghost listed = entries.deep_view();
                let ghost raw = entries@;
                for entry in it: entries
                    invariant
                        it.seq() == raw,
                        listed.len() == raw.len(),
                        forall|i: int| 0 <= i < raw.len() ==> listed[i] == (#[trigger] raw[i])@,
                        below.deep_view() == listed.take(it.index() as int),
                {
                    let ghost so_far = below.deep_view();
                    below.push_back(entry);
                    assert(below.deep_view() =~= so_far.push(entry@));
                }
                let ghost k = listed.len();
                assert(listed.take(k as int) =~= listed);
                self.stack.push(frame);
                let hits: Vec<GreprMatch> = Vec::new();
                assert(hits.deep_view() =~= Seq::<MatchView>::empty());
                let opened = Frame { dir: Some(path), children: below, hits };
                self.stack.push(opened);
                assert(self.stack.deep_view() =~= rest.stack.push(opened@));
            },
            _ => {
                self.stack.push(frame);
                assert(self.stack.deep_view() =~= rest.stack);
            },
        }
        self.settle();
    }

    /// Gives up the walk for the hits that it has found. They are those of
    /// the whole search once the walk is at its end.
    pub fn into_matches(self) -> (found: Vec<GreprMatch>)
        ensures
            found.deep_view() == self@.found,
    {
        self.found
    }
}

/// After an answer the walk is ready for the next.
pub proof fn lemma_supplied_ready(walk: WalkView, reply: ReplyView)
    requires
        ready(walk),
    ensures
        ready(supplied(walk, reply)),
{
    if walk.stack.len() > 0 {
        let top = walk.stack.last();
        let child = top.children[0];
        let path = path_of(top.dir, child.name);
        let rest = without_child(walk);
        match (child.kind, reply) {
            (EntryKind::File, ReplyView::Contents(Some(text))) => {
                lemma_settle_ready(with_hits(rest, file_matches(path, text, walk.query)));
            },
            (EntryKind::Directory, ReplyView::Listing(Some(entries))) => {
                lemma_settle_ready(
                    WalkView {
                        stack: rest.stack.push(
                            FrameView { dir: Some(path), children: entries, hits: Seq::empty() },
                        ),
                        ..rest
                    },
                );
            },
            _ => {
                lemma_settle_ready(rest);
            },
        }
    }
}

} // verus!
