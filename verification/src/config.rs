//! The configuration of a run, built from the command line, and the run
//! itself: every target searched in turn.

use crate::hits::{GreprMatch, MatchView};
use crate::target::{directory_search, file_search, Directory, File};
use crate::text::str_eq;
use crate::tree::{find, lookup, Entry, Node};
use vstd::prelude::*;

verus! {

/// What a [`Config`] stands for.
pub struct ConfigView {
    /// The string that is searched for.
    pub query: Seq<char>,
    /// The pathnames of the files to search, in the order of the command
    /// line.
    pub files: Seq<Seq<char>>,
    /// The pathnames of the directories to search, in the order of the
    /// command line.
    pub directories: Seq<Seq<char>>,
    /// Whether a directory's search goes into the directories below it.
    pub recursive: bool,
}

/// What to search for, and where.
pub struct Config {
    /// The string that is searched for. It is not empty where the
    /// configuration was built from a command line.
    pub query: String,
    /// The files to search.
    pub files: Vec<File>,
    /// The directories to search.
    pub directories: Vec<Directory>,
    /// Whether a directory's search goes into the directories below it.
    pub recursive: bool,
}

impl View for Config {
    type V = ConfigView;

    open spec fn view(&self) -> ConfigView {
        ConfigView {
            query: self.query@,
            files: self.files.deep_view(),
            directories: self.directories.deep_view(),
            recursive: self.recursive,
        }
    }
}

/// What holds of a configuration that was built from a command line: its
/// query is not empty, and it names at least one file or directory.
pub open spec fn well_formed(config: ConfigView) -> bool {
    &&& config.query.len() > 0
    &&& config.files.len() + config.directories.len() > 0
}

/// The argument that asks for recursion: `-r`.
pub open spec fn is_flag(arg: Seq<char>) -> bool {
    arg == seq!['-', 'r']
}

/// Whether the argument that asks for recursion is among `paths`.
pub open spec fn flagged(paths: Seq<Seq<char>>) -> bool {
    exists|i: int| 0 <= i < paths.len() && is_flag(#[trigger] paths[i])
}

/// `path` names a file to search: it is not the flag, and a regular file
/// was found there.
pub open spec fn names_file(path: Seq<char>, probes: Seq<Entry>) -> bool {
    !is_flag(path) && lookup(probes, path) matches Some(Node::File(_))
}

/// `path` names a directory to search: it is not the flag, and a
/// directory was found there.
pub open spec fn names_directory(path: Seq<char>, probes: Seq<Entry>) -> bool {
    !is_flag(path) && lookup(probes, path) matches Some(Node::Directory(_))
}

/// The paths among `paths` that name a file, in their order.
pub open spec fn files_among(paths: Seq<Seq<char>>, probes: Seq<Entry>) -> Seq<Seq<char>>
    decreases paths.len(),
{
    if paths.len() == 0 {
        paths
    } else if names_file(paths.last(), probes) {
        files_among(paths.drop_last(), probes).push(paths.last())
    } else {
        files_among(paths.drop_last(), probes)
    }
}

/// The paths among `paths` that name a directory, in their order.
pub open spec fn directories_among(paths: Seq<Seq<char>>, probes: Seq<Entry>) -> Seq<Seq<char>>
    decreases paths.len(),
{
    if paths.len() == 0 {
        paths
    } else if names_directory(paths.last(), probes) {
        directories_among(paths.drop_last(), probes).push(paths.last())
    } else {
        directories_among(paths.drop_last(), probes)
    }
}

/// Whether a string is the argument that asks for recursion.
fn flag(arg: &str) -> (r: bool)
    ensures
        r == is_flag(arg@),
{
    proof {
        reveal_strlit("-r");
        assert("-r"@ =~= seq!['-', 'r']);
    }
    str_eq(arg, "-r")
}

/// Sorts `paths` into files and directories, and notes the flag.
///
/// `probes` holds what was found at each path: one entry per path, named
/// by the path. Each path at which a regular file was found is added to
/// `files`, each at which a directory was found to `directories`, both in
/// the order of `paths`. A path with no entry, or with an entry of another
/// kind, is passed over. The argument `-r` sets `recursive` and is no
/// path, whatever was found under that name.
pub fn filter_paths(
    files: &mut Vec<File>,
    directories: &mut Vec<Directory>,
    recursive: &mut bool,
    paths: &[String],
    probes: &Vec<Entry>,
)
    ensures
        final(files).deep_view() == old(files).deep_view() + files_among(
            paths.deep_view(),
            probes@,
        ),
        final(directories).deep_view() == old(directories).deep_view() + directories_among(
            paths.deep_view(),
            probes@,
        ),
        *final(recursive) == (*old(recursive) || flagged(paths.deep_view())),
{
    let ghost all = paths.deep_view();
    let mut i: usize = 0;
    while i < paths.len()
        invariant
            i <= paths.len(),
            all == paths.deep_view(),
            files.deep_view() == old(files).deep_view() + files_among(all.take(i as int), probes@),
            directories.deep_view() == old(directories).deep_view() + directories_among(
                all.take(i as int),
                probes@,
            ),
            *recursive == (*old(recursive) || flagged(all.take(i as int))),
        decreases paths.len() - i,
    {
        let path = &paths[i];
        let ghost upto = all.take(i + 1);
        let ghost files_before = files.deep_view();
        let ghost directories_before = directories.deep_view();
        proof {
            assert(upto.drop_last() =~= all.take(i as int));
        }
        if flag(path.as_str()) {
            *recursive = true;
        } else {
            match find(probes, path.as_str()) {
                Some(Node::File(_)) => {
                    files.push(File::new(path.as_str()));
                    assert(files.deep_view() =~= files_before.push(path@));
                },
                Some(Node::Directory(_)) => {
                    directories.push(Directory::new(path.as_str()));
                    assert(directories.deep_view() =~= directories_before.push(path@));
                },
                _ => {},
            }
        }
        i += 1;
    }
    assert(all.take(i as int) =~= all);
}

/// The hits of the files at `files`, file after file. A file with no
/// entry among `roots`, or whose content could not be read, adds nothing.
pub open spec fn found_in_files(files: Seq<Seq<char>>, query: Seq<char>, roots: Seq<Entry>) -> Seq<
    MatchView,
>
    decreases files.len(),
{
    if files.len() == 0 {
        Seq::empty()
    } else {
        found_in_files(files.drop_last(), query, roots) + match lookup(roots, files.last()) {
            Some(node) => match file_search(files.last(), query, node) {
                Some(hits) => hits,
                None => Seq::empty(),
            },
            None => Seq::empty(),
        }
    }
}

/// The hits of the directories at `directories`, directory after
/// directory, each sorted in itself. A directory with no entry among
/// `roots`, or that could not be listed, adds nothing.
pub open spec fn found_in_directories(
    directories: Seq<Seq<char>>,
    query: Seq<char>,
    recursive: bool,
    roots: Seq<Entry>,
) -> Seq<MatchView>
    decreases directories.len(),
{
    if directories.len() == 0 {
        Seq::empty()
    } else {
        found_in_directories(directories.drop_last(), query, recursive, roots) + match lookup(
            roots,
            directories.last(),
        ) {
            Some(node) => match directory_search(directories.last(), query, recursive, node) {
                Some(hits) => hits,
                None => Seq::empty(),
            },
            None => Seq::empty(),
        }
    }
}

/// What a run returns: the hits of the files, then those of the
/// directories. Nothing is sorted across targets.
pub open spec fn run_result(config: ConfigView, roots: Seq<Entry>) -> Seq<MatchView> {
    found_in_files(config.files, config.query, roots) + found_in_directories(
        config.directories,
        config.query,
        config.recursive,
        roots,
    )
}

/// Whether a command line is accepted: it holds a query, the query is not
/// empty, and at least one of its paths names a file or a directory.
pub open spec fn accepted(args: Seq<Seq<char>>, probes: Seq<Entry>) -> bool {
    &&& args.len() >= 2
    &&& args[1].len() > 0
    &&& files_among(args.skip(2), probes).len() + directories_among(args.skip(2), probes).len() > 0
}

/// The configuration that an accepted command line asks for.
pub open spec fn configured(args: Seq<Seq<char>>, probes: Seq<Entry>) -> ConfigView {
    ConfigView {
        query: args[1],
        files: files_among(args.skip(2), probes),
        directories: directories_among(args.skip(2), probes),
        recursive: flagged(args.skip(2)),
    }
}

impl Config {
    /// Builds the configuration from the command line `args`: the name of
    /// the program, the query, then the paths, with `-r` anywhere among
    /// them to ask for recursion.
    ///
    /// `probes` holds what was found at each path, as for
    /// [`filter_paths`]. The command line is refused where it holds no
    /// query or an empty one, and where none of its paths names a file or
    /// a directory.
    pub fn build(args: Vec<String>, probes: &Vec<Entry>) -> (built: Result<Config, &'static str>)
        ensures
            match built {
                Ok(config) => accepted(args.deep_view(), probes@) && config@ == configured(
                    args.deep_view(),
                    probes@,
                ) && well_formed(config@),
                Err(message) => !accepted(args.deep_view(), probes@) && message@
                    == "Not enough arguments supplied"@,
            },
    {
        let ghost all = args.deep_view();
        if args.len() < 2 {
            return Err("Not enough arguments supplied");
        }
        let mut args = args;
        let paths = args.split_off(2);
        assert(paths.deep_view() =~= all.skip(2));
        let query = args.pop().unwrap();
        if query.as_str().is_empty() {
            return Err("Not enough arguments supplied");
        }
        let mut files: Vec<File> = Vec::new();
        let mut directories: Vec<Directory> = Vec::new();
        let mut recursive = false;
        filter_paths(&mut files, &mut directories, &mut recursive, paths.as_slice(), probes);
        if files.len() == 0 && directories.len() == 0 {
            return Err("Not enough arguments supplied");
        }
        Ok(Config { query, files, directories, recursive })
    }
}

/// Runs the search that `config` asks for: each file in turn, then each
/// directory in turn, the hits in that order. A target that could not be
/// read is passed over.
///
/// `roots` holds what was read at each target: one entry per target,
/// named by its pathname.
pub fn run(config: Config, roots: &Vec<Entry>) -> (found: Vec<GreprMatch>)
    ensures
        found.deep_view() == run_result(config@, roots@),
{
    let mut found: Vec<GreprMatch> = Vec::new();
    let ghost files = config.files.deep_view();
    let ghost directories = config.directories.deep_view();
    let mut i: usize = 0;
    while i < config.files.len()
        invariant
            i <= config.files.len(),
            files == config.files.deep_view(),
            found.deep_view() == found_in_files(files.take(i as int), config.query@, roots@),
        decreases config.files.len() - i,
    {
        let file = &config.files[i];
        proof {
            let upto = files.take(i + 1);
            assert(upto.drop_last() =~= files.take(i as int));
        }
        let mut added: Vec<GreprMatch> = Vec::new();
        if let Some(node) = find(roots, file.pathname()) {
            if let Some(hits) = file.search(config.query.as_str(), config.recursive, node) {
                added = hits;
            }
        }
        found.append(&mut added);
        i += 1;
    }
    assert(files.take(i as int) =~= files);
    let ghost from_files = found.deep_view();
    let mut j: usize = 0;
    while j < config.directories.len()
        invariant
            j <= config.directories.len(),
            directories == config.directories.deep_view(),
            found.deep_view() == from_files + found_in_directories(
                directories.take(j as int),
                config.query@,
                config.recursive,
                roots@,
            ),
        decreases config.directories.len() - j,
    {
        let directory = &config.directories[j];
        let ghost before = found.deep_view();
        proof {
            let upto = directories.take(j + 1);
            assert(upto.drop_last() =~= directories.take(j as int));
        }
        let mut added: Vec<GreprMatch> = Vec::new();
        if let Some(node) = find(roots, directory.pathname()) {
            if let Some(hits) = directory.search(config.query.as_str(), config.recursive, node) {
                added = hits;
            }
        }
        let ghost more = added.deep_view();
        found.append(&mut added);
        assert(found.deep_view() =~= before + more);
        j += 1;
    }
    assert(directories.take(j as int) =~= directories);
    found
}

} // verus!
