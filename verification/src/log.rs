//! Messages to the user: what they tell, and how lists of names and files are shown.

use crate::manifest;
use crate::names;
use crate::names::PathIndex;
use crate::order;
use crate::order::{Key, SortedMap};
use crate::path;
use crate::path::{Part, Path};
use crate::text;
use vstd::prelude::*;

pub mod laws;

verus! {

/// What is going on.
#[derive(Debug)]
pub enum Message {
    /// A configuration file was found.
    ConfigFound(Path),
    /// All configuration files are found.
    ConfigWalkFinish,
    /// A repository is in a stage of its acquisition.
    Cache(String, String),
    /// Objects of a repository are received.
    CacheFetchObjectsProgress {
        id: String,
        total_objs_count: usize,
        received_objs_count: usize,
    },
    /// A build has written a line.
    CacheBuildProgress { id: String, stdtype: usize, line: String },
    /// A build is over.
    CacheBuildFinished { id: String, success: bool },
    /// Loading begins.
    LoadBegin { total: usize },
    /// A plugin is loaded.
    LoadPluginDone,
    /// Work on a plugin begins.
    LoadPluginRunning,
    /// Work on a plugin is over.
    LoadPluginRunningDone,
    /// Loading is over.
    LoadDone,
    /// A note on a fetched repository was shown long enough.
    FetchDoneIdle { idle_gen: u64 },
    /// A plugin is not installed.
    PluginNotInstalled(String),
    /// A plugin has a new revision.
    PluginUpdated(String),
    /// A plugin was installed.
    PluginInstalled(String),
    /// A plugin needs `.git`, which its snapshot lacks.
    PluginDotgitMissing(String),
    /// Plugins are merged.
    MergeFinished { total: usize, merged: usize },
    /// There is a lock file.
    DetectLockFile(Path),
    /// Revisions could not be resolved many at a time.
    GraphQLBatchFailed { reason: String },
    /// Revisions are resolved.
    GraphQLResolveProgress { resolved: usize, total: usize },
    /// A package is there already.
    InstallSkipped(String),
    /// A file is copied.
    InstallYank { id: String, which: Path },
    /// Help tags are generated.
    InstallHelp { help_dir: Path },
    /// The installation is over.
    InstallDone,
    /// Something failed.
    Error(String),
}

/// How many characters of a name are shown.
pub const NAME_DISPLAY_LIMIT: usize = 20;

/// A name, cut with a mark if it is too long to be shown.
pub open spec fn cut_name(name: Seq<char>) -> Seq<char> {
    if name.len() > NAME_DISPLAY_LIMIT {
        name.take(NAME_DISPLAY_LIMIT - 2) + "……"@
    } else {
        name
    }
}

/// The first three of the names, cut.
pub open spec fn shown_names(names: Seq<Seq<char>>) -> Seq<Seq<char>> {
    (if names.len() > 3 {
        names.take(3)
    } else {
        names
    }).map_values(|name: Seq<char>| cut_name(name))
}

/// The first three of the names, with a mark if there are more.
pub open spec fn ellipsis_text(names: Seq<Seq<char>>) -> Seq<char> {
    text::joined(shown_names(names), " · "@) + (if names.len() > 3 {
        " …"@
    } else {
        Seq::empty()
    })
}

fn truncate(name: &str) -> (cut: String)
    ensures
        cut@ == cut_name(name@),
{
    let chars = text::chars_of(name);
    if chars.len() > NAME_DISPLAY_LIMIT {
        let head = text::text_between(&chars, 0, NAME_DISPLAY_LIMIT - 2);
        assert(head@ =~= name@.take(NAME_DISPLAY_LIMIT - 2));
        head.concat("……")
    } else {
        name.to_owned()
    }
}

/// The first three of the names, each cut if it is too long, with a mark if there are more.
pub fn ellipsis_names(names: &Vec<String>) -> (body: String)
    ensures
        body@ == ellipsis_text(text::strings(names@)),
{
    let ghost all = text::strings(names@);
    let ghost wanted = shown_names(all);
    let n: usize = if names.len() > 3 {
        3
    } else {
        names.len()
    };
    let mut shown: Vec<String> = Vec::new();
    let mut i: usize = 0;
    while i < n
        invariant
            i <= n,
            n <= names@.len(),
            n == wanted.len(),
            all == text::strings(names@),
            forall|k: int| 0 <= k < n ==> #[trigger] wanted[k] == cut_name(all[k]),
            text::strings(shown@) == wanted.take(i as int),
        decreases n - i,
    {
        let ghost before = shown@;
        shown.push(truncate(names[i].as_str()));
        proof {
            assert(text::strings(shown@) =~= text::strings(before).push(wanted[i as int]));
            assert(wanted.take(i as int + 1) =~= wanted.take(i as int).push(wanted[i as int]));
        }
        i = i + 1;
    }
    assert(wanted.take(i as int) =~= wanted);
    let mut body = text::join(&shown, " · ");
    if names.len() > 3 {
        body.append(" …");
    } else {
        assert(body@ + Seq::<char>::empty() =~= body@);
    }
    body
}

/// Configuration files of one directory.
pub struct ConfigGroup {
    pub location: Path,
    pub files: Vec<Path>,
}

/// Paths in order.
pub open spec fn path_views(list: Seq<Path>) -> Seq<Seq<Part>> {
    list.map_values(|p: Path| p@)
}

/// The name of a file without its extension; nothing if it has no name.
pub open spec fn stem_text(p: Seq<Part>) -> Seq<char> {
    if p.len() > 0 && p.last() is Normal {
        path::stem_of(p.last()->0)
    } else {
        Seq::empty()
    }
}

fn stem(p: &Path) -> (s: String)
    ensures
        s@ == stem_text(p@),
{
    match p.file_name() {
        Some(name) => path::file_stem(name.as_str()),
        None => String::new(),
    }
}

impl ConfigGroup {
    /// A group with its files in order.
    pub fn new(location: Path, files: Vec<Path>) -> (group: ConfigGroup)
        ensures
            group.location == location,
            order::sorted_from::<Path>(path_views(group.files@), path_views(files@)),
    {
        let ghost given = files@;
        let files = order::sort_keys(files);
        assert(order::models(given) =~= path_views(given));
        assert(order::models(files@) =~= path_views(files@));
        ConfigGroup { location, files }
    }

    /// The name of the directory; its path if it has no name.
    pub fn location_label(&self) -> (label: String)
        ensures
            label@ == label_of(self.location@),
    {
        match self.location.file_name() {
            Some(name) => {
                if text::is_empty(name.as_str()) {
                    self.location.to_text()
                } else {
                    name.clone()
                }
            },
            None => self.location.to_text(),
        }
    }

    /// The names of the files without their extensions.
    pub fn join_names(&self) -> (names: String)
        ensures
            names@ == text::joined(
                path_views(self.files@).map_values(|p: Seq<Part>| stem_text(p)),
                " "@,
            ),
    {
        let ghost wanted = path_views(self.files@).map_values(|p: Seq<Part>| stem_text(p));
        let mut list: Vec<String> = Vec::new();
        let mut i: usize = 0;
        while i < self.files.len()
            invariant
                i <= self.files@.len(),
                wanted == path_views(self.files@).map_values(|p: Seq<Part>| stem_text(p)),
                text::strings(list@) == wanted.take(i as int),
            decreases self.files@.len() - i,
        {
            let ghost before = list@;
            list.push(stem(&self.files[i]));
            proof {
                assert(text::strings(list@) =~= text::strings(before).push(wanted[i as int]));
                assert(wanted.take(i as int + 1) =~= wanted.take(i as int).push(wanted[i as int]));
            }
            i = i + 1;
        }
        assert(wanted.take(i as int) =~= wanted);
        text::join(&list, " ")
    }
}

/// Where a configuration file lies.
pub open spec fn location_of(p: Seq<Part>) -> Seq<Part> {
    match path::parent_path(p) {
        Some(dir) => dir,
        None => seq![Part::Root],
    }
}

/// The files of a directory.
pub open spec fn files_in(files: Seq<Seq<Part>>, dir: Seq<Part>) -> Seq<Seq<Part>> {
    files.filter(|p: Seq<Part>| location_of(p) == dir)
}

/// A directory with its configuration files.
#[verifier::ext_equal]
pub struct Group {
    pub location: Seq<Part>,
    pub files: Seq<Seq<Part>>,
}

impl View for ConfigGroup {
    type V = Group;

    open spec fn view(&self) -> Group {
        Group { location: self.location@, files: path_views(self.files@) }
    }
}

/// Groups of files.
pub open spec fn groups_of(list: Seq<ConfigGroup>) -> Seq<Group> {
    list.map_values(|g: ConfigGroup| g@)
}

/// `groups` are the files by directory, the directories in order.
pub open spec fn is_groups(groups: Seq<Group>, files: Seq<Seq<Part>>) -> bool {
    &&& order::ascending::<Path>(groups.map_values(|g: Group| g.location))
    &&& forall|i: int|
        0 <= i < groups.len() ==> (#[trigger] groups[i]).files == files_in(
            files,
            groups[i].location,
        ) && groups[i].files.len() > 0
    &&& forall|k: int|
        0 <= k < files.len() ==> has_location(groups, location_of(#[trigger] files[k]))
}

/// There is a group of the directory.
pub open spec fn has_location(groups: Seq<Group>, dir: Seq<Part>) -> bool {
    exists|i: int| 0 <= i < groups.len() && (#[trigger] groups[i]).location == dir
}

/// The files by directory.
pub open spec fn grouped(files: Seq<Seq<Part>>) -> Seq<Group> {
    choose|groups: Seq<Group>| is_groups(groups, files)
}

proof fn lemma_files_in(files: Seq<Seq<Part>>, dir: Seq<Part>) -> (k: int)
    requires
        files_in(files, dir).len() > 0,
    ensures
        0 <= k < files.len(),
        location_of(files[k]) == dir,
    decreases files.len(),
{
    reveal(Seq::filter);
    if location_of(files.last()) == dir {
        files.len() - 1
    } else {
        lemma_files_in(files.drop_last(), dir)
    }
}

/// The groups are determined by the files.
pub proof fn law_groups_unique(groups: Seq<Group>, files: Seq<Seq<Part>>)
    requires
        is_groups(groups, files),
    ensures
        grouped(files) == groups,
{
    let chosen = grouped(files);
    let a = groups.map_values(|g: Group| g.location);
    let b = chosen.map_values(|g: Group| g.location);
    assert(is_groups(chosen, files));
    assert forall|dir: Seq<Part>| #[trigger] a.contains(dir) <==> b.contains(dir) by {
        if a.contains(dir) {
            let i = a.index_of(dir);
            assert(groups[i].location == dir);
            let k = lemma_files_in(files, dir);
            assert(has_location(chosen, location_of(files[k])));
            let j = choose|j: int| 0 <= j < chosen.len() && (#[trigger] chosen[j]).location == dir;
            assert(b[j] == dir);
        }
        if b.contains(dir) {
            let i = b.index_of(dir);
            assert(chosen[i].location == dir);
            let k = lemma_files_in(files, dir);
            assert(has_location(groups, location_of(files[k])));
            let j = choose|j: int| 0 <= j < groups.len() && (#[trigger] groups[j]).location == dir;
            assert(a[j] == dir);
        }
    }
    order::lemma_ascending_unique::<Path>(a, b);
    assert forall|i: int| 0 <= i < groups.len() implies groups[i] == chosen[i] by {
        assert(a[i] == b[i]);
        assert(groups[i].location == chosen[i].location);
    }
    assert(groups =~= chosen);
}

/// All configuration files.
pub struct ConfigList {
    pub files: Vec<Path>,
}

/// How many files there are.
pub open spec fn files_text(n: nat) -> Seq<char> {
    "Config "@ + text::decimal_text(n) + " file"@ + (if n == 1 {
        Seq::empty()
    } else {
        "s"@
    })
}

/// The paths, one on each line.
pub open spec fn path_lines(files: Seq<Seq<Part>>) -> Seq<Seq<char>> {
    files.map_values(|p: Seq<Part>| "  "@ + path::path_text(p))
}

/// The names of the files of a group, on a line.
pub open spec fn names_line(g: Group) -> Seq<char> {
    "        "@ + text::joined(g.files.map_values(|p: Seq<Part>| stem_text(p)), " "@)
}

/// A group with its number of files.
pub open spec fn counted_line(label: Seq<char>, n: nat) -> Seq<char> {
    "    "@ + label + " ("@ + text::decimal_text(n) + ")"@
}

/// The first of the largest groups.
pub open spec fn is_dominant(groups: Seq<Group>, d: int) -> bool {
    &&& 0 <= d < groups.len()
    &&& forall|i: int|
        0 <= i < groups.len() ==> (#[trigger] groups[i]).files.len() <= groups[d].files.len()
    &&& forall|i: int|
        0 <= i < d ==> (#[trigger] groups[i]).files.len() < groups[d].files.len()
}

/// One group stands for all: three quarters of the files are in it, and at most five are not.
pub open spec fn stands_for_all(largest: nat, total: nat) -> bool {
    4 * largest >= 3 * total && total - largest <= 5
}

/// The list with one group, and how many files are elsewhere.
pub open spec fn main_lines(main: Group, total: nat) -> Seq<Seq<char>> {
    let external = total - main.files.len();
    seq![
        files_text(total),
        counted_line(path::path_text(main.location), main.files.len()),
        names_line(main),
    ] + (if external == 0 {
        Seq::empty()
    } else {
        seq![
            "    +"@ + text::decimal_text(external as nat) + (if external == 1 {
                " external file"@
            } else {
                " external files"@
            }),
        ]
    })
}

/// The name of a directory; its path if it has no name.
pub open spec fn label_of(location: Seq<Part>) -> Seq<char> {
    if location.len() > 0 && location.last() is Normal && location.last()->0.len() > 0 {
        location.last()->0
    } else {
        path::path_text(location)
    }
}

/// The lines of a group among several.
pub open spec fn group_lines(g: Group) -> Seq<Seq<char>> {
    seq![
        counted_line(label_of(g.location), g.files.len()),
        "    "@ + path::path_text(g.location),
        names_line(g),
    ]
}

/// The lines of several groups.
pub open spec fn all_group_lines(groups: Seq<Group>) -> Seq<Seq<char>>
    decreases groups.len(),
{
    if groups.len() == 0 {
        Seq::empty()
    } else {
        all_group_lines(groups.drop_last()) + group_lines(groups.last())
    }
}

/// The files for a user: one path on each line if no two lie together; else by the directory
/// that stands for all, if there is one; else by directory.
pub open spec fn rendered(files: Seq<Seq<Part>>) -> Seq<Seq<char>> {
    let total = files.len();
    let groups = grouped(files);
    let d = choose|d: int| is_dominant(groups, d);
    if groups.len() == total {
        seq![files_text(total) + " ("@ + text::decimal_text(total) + " locations)"@] + path_lines(
            files,
        )
    } else if stands_for_all(groups[d].files.len(), total) {
        main_lines(groups[d], total)
    } else {
        seq![files_text(total) + " in "@ + text::decimal_text(groups.len()) + " locations"@]
            + all_group_lines(groups)
    }
}

proof fn lemma_dominant_unique(groups: Seq<Group>, a: int, b: int)
    requires
        is_dominant(groups, a),
        is_dominant(groups, b),
    ensures
        a == b,
{
    assert(groups[a].files.len() <= groups[b].files.len());
    assert(groups[b].files.len() <= groups[a].files.len());
}

/// There is a group of the directory.
spec fn has_group(groups: Seq<ConfigGroup>, dir: Seq<Part>) -> bool {
    exists|i: int| 0 <= i < groups.len() && (#[trigger] groups[i]).location@ == dir
}

/// Groups that are not in order yet: every file is in the group of its directory.
spec fn is_grouping(groups: Seq<ConfigGroup>, index: PathIndex, files: Seq<Seq<Part>>) -> bool {
    &&& forall|i: int|
        0 <= i < groups.len() ==> path_views((#[trigger] groups[i]).files@) == files_in(
            files,
            groups[i].location@,
        ) && groups[i].files@.len() > 0
    &&& forall|i: int, j: int|
        0 <= i < j < groups.len() ==> (#[trigger] groups[i]).location@ != (
        #[trigger] groups[j]).location@
    &&& forall|dir: Seq<Part>| #[trigger]
        names::path_index_contents(index).contains_key(manifest::path_code(dir)) <==> exists|i: int|
            0 <= i < groups.len() && (#[trigger] groups[i]).location@ == dir
    &&& forall|i: int|
        0 <= i < groups.len() ==> names::path_index_contents(index).contains_key(
            manifest::path_code((#[trigger] groups[i]).location@),
        ) && names::path_index_contents(index)[manifest::path_code(groups[i].location@)] == i
    &&& forall|k: int|
        0 <= k < files.len() ==> has_group(groups, location_of(#[trigger] files[k]))
}

proof fn lemma_files_push(files: Seq<Seq<Part>>, p: Seq<Part>, dir: Seq<Part>)
    ensures
        files_in(files.push(p), dir) == (if location_of(p) == dir {
            files_in(files, dir).push(p)
        } else {
            files_in(files, dir)
        }),
{
    reveal(Seq::filter);
    assert(files.push(p).drop_last() =~= files);
}

proof fn lemma_files_none(files: Seq<Seq<Part>>, dir: Seq<Part>)
    requires
        forall|k: int| 0 <= k < files.len() ==> location_of(#[trigger] files[k]) != dir,
    ensures
        files_in(files, dir) == Seq::<Seq<Part>>::empty(),
    decreases files.len(),
{
    reveal(Seq::filter);
    if files.len() > 0 {
        lemma_files_none(files.drop_last(), dir);
    }
}

fn location(p: &Path) -> (dir: Path)
    ensures
        dir@ == location_of(p@),
{
    match p.parent() {
        Some(dir) => dir,
        None => {
            let dir = Path::parse("/");
            proof {
                path::lemma_parse_root();
            }
            dir
        },
    }
}

/// Puts a file into the group of its directory.
fn add_to_group(
    groups: &mut Vec<ConfigGroup>,
    index: &mut PathIndex,
    p: &Path,
    Ghost(files): Ghost<Seq<Seq<Part>>>,
)
    requires
        is_grouping(old(groups)@, *old(index), files),
    ensures
        is_grouping(final(groups)@, *final(index), files.push(p@)),
{
    let ghost before = groups@;
    let ghost before_index = *index;
    let ghost all = files.push(p@);
    let dir = location(p);
    let code = manifest::code_of(&dir);
    let ghost d = dir@;
    proof {
        assert forall|x: Seq<Part>| #[trigger] files_in(all, x) == (if d == x {
            files_in(files, x).push(p@)
        } else {
            files_in(files, x)
        }) by {
            lemma_files_push(files, p@, x);
        }
    }
    match index.get(&code) {
        Some(at) => {
            proof {
                let j = choose|j: int| 0 <= j < before.len() && (#[trigger] before[j]).location@ == d;
                assert(before[j].location@ == d);
                assert(at == j);
            }
            groups[at].files.push(p.duplicated());
            proof {
                let x = at as int;
                assert(groups@[x].location == before[x].location);
                assert(path_views(groups@[x].files@) =~= path_views(before[x].files@).push(p@));
                assert forall|i: int| 0 <= i < groups@.len() implies (
                #[trigger] groups@[i]).location@ == before[i].location@ by {}
                assert forall|i: int| 0 <= i < groups@.len() implies path_views(
                    (#[trigger] groups@[i]).files@,
                ) == files_in(all, groups@[i].location@) && groups@[i].files@.len() > 0 by {
                    assert(path_views(before[i].files@) == files_in(files, before[i].location@));
                    if i != x {
                        assert(groups@[i] == before[i]);
                        assert(before[i].location@ != d);
                    }
                }
                assert forall|i: int, j: int| 0 <= i < j < groups@.len() implies (
                #[trigger] groups@[i]).location@ != (#[trigger] groups@[j]).location@ by {
                    assert(before[i].location@ != before[j].location@);
                }
                assert forall|dir: Seq<Part>| #[trigger]
                    names::path_index_contents(*index).contains_key(manifest::path_code(dir)) <==> exists|i: int|
                        0 <= i < groups@.len() && (#[trigger] groups@[i]).location@ == dir by {
                    if exists|i: int| 0 <= i < before.len() && (#[trigger] before[i]).location@ == dir {
                        let i = choose|i: int|
                            0 <= i < before.len() && (#[trigger] before[i]).location@ == dir;
                        assert(groups@[i].location@ == dir);
                    }
                    if exists|i: int| 0 <= i < groups@.len() && (#[trigger] groups@[i]).location@ == dir {
                        let i = choose|i: int|
                            0 <= i < groups@.len() && (#[trigger] groups@[i]).location@ == dir;
                        assert(before[i].location@ == dir);
                    }
                }
                assert forall|i: int| 0 <= i < groups@.len() implies names::path_index_contents(
                    *index,
                ).contains_key(manifest::path_code((#[trigger] groups@[i]).location@))
                    && names::path_index_contents(*index)[manifest::path_code(
                    groups@[i].location@,
                )] == i by {
                    assert(before[i].location@ == groups@[i].location@);
                }
                assert forall|k: int| 0 <= k < all.len() implies has_group(
                    groups@,
                    location_of(#[trigger] all[k]),
                ) by {
                    if k < files.len() {
                        assert(all[k] == files[k]);
                        assert(has_group(before, location_of(files[k])));
                        let i = choose|i: int|
                            0 <= i < before.len() && (#[trigger] before[i]).location@
                                == location_of(files[k]);
                        assert(groups@[i].location@ == location_of(all[k]));
                    } else {
                        assert(groups@[x].location@ == location_of(all[k]));
                    }
                }
            }
        },
        None => {
            let n: usize = groups.len();
            index.insert(code, n);
            let mut list: Vec<Path> = Vec::new();
            list.push(p.duplicated());
            assert(path_views(list@) =~= seq![p@]);
            groups.push(ConfigGroup { location: dir, files: list });
            proof {
                assert forall|i: int| 0 <= i < before.len() implies (
                #[trigger] before[i]).location@ != d by {
                    if before[i].location@ == d {
                        assert(names::path_index_contents(before_index).contains_key(
                            manifest::path_code(before[i].location@),
                        ));
                    }
                }
                assert forall|k: int| 0 <= k < files.len() implies location_of(
                    #[trigger] files[k],
                ) != d by {
                    assert(has_group(before, location_of(files[k])));
                    let i = choose|i: int|
                        0 <= i < before.len() && (#[trigger] before[i]).location@ == location_of(
                            files[k],
                        );
                    assert(before[i].location@ != d);
                }
                lemma_files_none(files, d);
                assert(Seq::<Seq<Part>>::empty().push(p@) =~= seq![p@]);
                assert forall|i: int| 0 <= i < groups@.len() implies path_views(
                    (#[trigger] groups@[i]).files@,
                ) == files_in(all, groups@[i].location@) && groups@[i].files@.len() > 0 by {
                    if i < n {
                        assert(groups@[i] == before[i]);
                    }
                }
                assert forall|i: int, j: int| 0 <= i < j < groups@.len() implies (
                #[trigger] groups@[i]).location@ != (#[trigger] groups@[j]).location@ by {
                    assert(groups@[i] == before[i]);
                    if j < n {
                        assert(groups@[j] == before[j]);
                    }
                }
                let contents = names::path_index_contents(*index);
                assert forall|x: Seq<Part>| #[trigger] contents.contains_key(
                    manifest::path_code(x),
                ) <==> exists|i: int|
                    0 <= i < groups@.len() && (#[trigger] groups@[i]).location@ == x by {
                    let old_has = names::path_index_contents(before_index).contains_key(
                        manifest::path_code(x),
                    );
                    if manifest::path_code(x) == manifest::path_code(d) {
                        manifest::lemma_path_code(x, d);
                        assert(groups@[n as int].location@ == x);
                    }
                    if old_has {
                        let i = choose|i: int|
                            0 <= i < before.len() && (#[trigger] before[i]).location@ == x;
                        assert(groups@[i].location@ == x);
                    }
                    if exists|i: int| 0 <= i < groups@.len() && (#[trigger] groups@[i]).location@ == x {
                        let i = choose|i: int|
                            0 <= i < groups@.len() && (#[trigger] groups@[i]).location@ == x;
                        if i < n {
                            assert(before[i].location@ == x);
                        }
                    }
                }
                assert forall|i: int| 0 <= i < groups@.len() implies contents.contains_key(
                    manifest::path_code((#[trigger] groups@[i]).location@),
                ) && contents[manifest::path_code(groups@[i].location@)] == i by {
                    if i < n {
                        assert(groups@[i] == before[i]);
                        if manifest::path_code(before[i].location@) == manifest::path_code(d) {
                            manifest::lemma_path_code(before[i].location@, d);
                        }
                    }
                }
                assert forall|k: int| 0 <= k < all.len() implies has_group(
                    groups@,
                    location_of(#[trigger] all[k]),
                ) by {
                    if k < files.len() {
                        assert(all[k] == files[k]);
                        assert(has_group(before, location_of(files[k])));
                        let i = choose|i: int|
                            0 <= i < before.len() && (#[trigger] before[i]).location@
                                == location_of(files[k]);
                        assert(groups@[i].location@ == location_of(all[k]));
                    } else {
                        assert(groups@[n as int].location@ == location_of(all[k]));
                    }
                }
            }
        },
    }
}

/// The groups by directory.
spec fn is_map_of(
    map: SortedMap<Path, Vec<Path>>,
    groups: Seq<ConfigGroup>,
) -> bool {
    &&& forall|dir: Seq<Part>| #[trigger]
        map.has(dir) <==> exists|i: int|
            0 <= i < groups.len() && (#[trigger] groups[i]).location@ == dir
    &&& forall|i: int|
        0 <= i < groups.len() ==> map.at((#[trigger] groups[i]).location@) == groups[i].files
}

impl ConfigList {
    /// The files are in order.
    pub open spec fn wf(&self) -> bool {
        order::in_order::<Path>(path_views(self.files@))
    }

    /// A list with its files in order.
    pub fn from_files(files: Vec<Path>) -> (list: ConfigList)
        ensures
            list.wf(),
            order::sorted_from::<Path>(path_views(list.files@), path_views(files@)),
    {
        let ghost given = files@;
        let files = order::sort_keys(files);
        assert(order::models(given) =~= path_views(given));
        assert(order::models(files@) =~= path_views(files@));
        ConfigList { files }
    }

    /// The files by directory, the directories in order.
    fn build_groups(&self) -> (groups: Vec<ConfigGroup>)
        ensures
            groups_of(groups@) == grouped(path_views(self.files@)),
            is_groups(groups_of(groups@), path_views(self.files@)),
    {
        let ghost all = path_views(self.files@);
        let mut found: Vec<ConfigGroup> = Vec::new();
        let mut index = PathIndex::new();
        let mut i: usize = 0;
        assert(all.take(0) =~= Seq::<Seq<Part>>::empty());
        while i < self.files.len()
            invariant
                i <= self.files@.len(),
                all == path_views(self.files@),
                is_grouping(found@, index, all.take(i as int)),
            decreases self.files@.len() - i,
        {
            assert(all.take(i as int + 1) =~= all.take(i as int).push(all[i as int]));
            add_to_group(&mut found, &mut index, &self.files[i], Ghost(all.take(i as int)));
            i = i + 1;
        }
        assert(all.take(i as int) =~= all);
        let ghost raw = found@;
        let mut map: SortedMap<Path, Vec<Path>> = SortedMap::new();
        assert(raw.take(0) =~= Seq::<ConfigGroup>::empty());
        for group in it: found
            invariant
                it.seq() == raw,
                forall|i: int, j: int|
                    0 <= i < j < raw.len() ==> (#[trigger] raw[i]).location@ != (
                    #[trigger] raw[j]).location@,
                map.wf(),
                is_map_of(map, raw.take(it.index() as int)),
        {
            let ghost n = it.index() as int;
            let ghost before = map;
            let ghost front = raw.take(n);
            let ghost more = raw.take(n + 1);
            let ConfigGroup { location, files } = group;
            let ghost d = location@;
            let ghost list = files;
            assert(raw[n] == group);
            map.insert(location, files);
            proof {
                assert(more[n] == group);
                assert forall|dir: Seq<Part>| #[trigger] map.has(dir) <==> exists|i: int|
                    0 <= i < more.len() && (#[trigger] more[i]).location@ == dir by {
                    assert(before.has(dir) <==> exists|i: int|
                        0 <= i < front.len() && (#[trigger] front[i]).location@ == dir);
                    if before.has(dir) {
                        let i = choose|i: int|
                            0 <= i < front.len() && (#[trigger] front[i]).location@ == dir;
                        assert(more[i] == front[i]);
                    }
                    if exists|i: int| 0 <= i < more.len() && (#[trigger] more[i]).location@ == dir {
                        let i = choose|i: int|
                            0 <= i < more.len() && (#[trigger] more[i]).location@ == dir;
                        if i < n {
                            assert(front[i] == more[i]);
                        }
                    }
                }
                assert forall|i: int| 0 <= i < more.len() implies map.at(
                    (#[trigger] more[i]).location@,
                ) == more[i].files by {
                    if i < n {
                        assert(front[i] == more[i]);
                        assert(before.has(front[i].location@));
                        assert(raw[i].location@ != raw[n].location@);
                    }
                }
            }
        }
        assert(raw.take(raw.len() as int) =~= raw);
        let ghost sorted = map;
        let ghost entries_raw = map.entries@;
        proof {
            order::lemma_fields(sorted);
        }
        let entries = map.entries;
        let mut groups: Vec<ConfigGroup> = Vec::new();
        for pair in it: entries
            invariant
                it.seq() == entries_raw,
                groups@.len() == it.index(),
                forall|k: int|
                    0 <= k < groups@.len() ==> (#[trigger] groups@[k]).location == entries_raw[k].0
                        && groups@[k].files == entries_raw[k].1,
        {
            let (location, files) = pair;
            groups.push(ConfigGroup { location, files });
        }
        proof {
            let found = groups_of(groups@);
            assert(found.map_values(|g: Group| g.location) =~= sorted.keys());
            assert forall|k: int| 0 <= k < found.len() implies (#[trigger] found[k]).files
                == files_in(all, found[k].location) && found[k].files.len() > 0 by {
                let dir = groups@[k].location@;
                sorted.lemma_at(k);
                assert(sorted.keys()[k] == dir);
                assert(sorted.has(dir));
                let i = choose|i: int| 0 <= i < raw.len() && (#[trigger] raw[i]).location@ == dir;
                assert(sorted.at(raw[i].location@) == raw[i].files);
                assert(sorted.values()[k] == groups@[k].files);
            }
            assert forall|k: int| 0 <= k < all.len() implies has_location(
                found,
                location_of(#[trigger] all[k]),
            ) by {
                assert(has_group(raw, location_of(all[k])));
                let x = choose|x: int|
                    0 <= x < raw.len() && (#[trigger] raw[x]).location@ == location_of(all[k]);
                assert(raw[x].location@ == location_of(all[k]));
                assert(sorted.has(location_of(all[k])));
                let i = sorted.keys().index_of(location_of(all[k]));
                assert(sorted.keys()[i] == location_of(all[k]));
                assert(found[i].location == location_of(all[k]));
            }
            law_groups_unique(found, all);
        }
        groups
    }

    /// The first of the largest groups, with its number of files.
    pub fn dominant_group(groups: &Vec<ConfigGroup>) -> (found: Option<(usize, usize)>)
        ensures
            match found {
                Some((d, count)) => is_dominant(groups_of(groups@), d as int) && count
                    == groups@[d as int].files@.len() && count > 0,
                None => forall|i: int|
                    0 <= i < groups@.len() ==> (#[trigger] groups@[i]).files@.len() == 0,
            },
    {
        let mut found: Option<(usize, usize)> = None;
        let mut i: usize = 0;
        while i < groups.len()
            invariant
                i <= groups@.len(),
                match found {
                    Some((d, count)) => {
                        &&& d < i
                        &&& count == groups@[d as int].files@.len()
                        &&& count > 0
                        &&& forall|k: int|
                            0 <= k < i ==> (#[trigger] groups@[k]).files@.len() <= count
                        &&& forall|k: int|
                            0 <= k < d ==> (#[trigger] groups@[k]).files@.len() < count
                    },
                    None => forall|k: int|
                        0 <= k < i ==> (#[trigger] groups@[k]).files@.len() == 0,
                },
            decreases groups@.len() - i,
        {
            let n: usize = groups[i].files.len();
            let largest: usize = match found {
                Some((_, count)) => count,
                None => 0,
            };
            if n > largest {
                found = Some((i, n));
            }
            i = i + 1;
        }
        proof {
            assert forall|k: int| 0 <= k < groups@.len() implies (#[trigger] groups_of(
                groups@,
            )[k]).files.len() == groups@[k].files@.len() by {}
        }
        found
    }
}

fn files_line(n: usize) -> (s: String)
    ensures
        s@ == files_text(n as nat),
{
    let mut s = String::from_str("Config ");
    s.append(text::decimal(n).as_str());
    s.append(" file");
    if n != 1 {
        s.append("s");
    } else {
        assert(s@ + Seq::<char>::empty() =~= s@);
    }
    s
}

fn counted(label: &str, n: usize) -> (s: String)
    ensures
        s@ == counted_line(label@, n as nat),
{
    let mut s = String::from_str("    ");
    s.append(label);
    s.append(" (");
    s.append(text::decimal(n).as_str());
    s.append(")");
    s
}

fn names_of(g: &ConfigGroup) -> (s: String)
    ensures
        s@ == names_line(g@),
{
    String::from_str("        ").concat(g.join_names().as_str())
}

fn lines_of_paths(files: &Vec<Path>, first: String) -> (lines: Vec<String>)
    ensures
        text::strings(lines@) == seq![first@] + path_lines(path_views(files@)),
{
    let ghost wanted = path_lines(path_views(files@));
    let ghost head = seq![first@];
    let mut lines: Vec<String> = Vec::new();
    lines.push(first);
    let mut i: usize = 0;
    assert(text::strings(lines@) =~= head + wanted.take(0));
    while i < files.len()
        invariant
            i <= files@.len(),
            wanted == path_lines(path_views(files@)),
            text::strings(lines@) == head + wanted.take(i as int),
        decreases files@.len() - i,
    {
        let ghost before = lines@;
        lines.push(String::from_str("  ").concat(files[i].to_text().as_str()));
        proof {
            assert(text::strings(lines@) =~= text::strings(before).push(wanted[i as int]));
            assert(head + wanted.take(i as int + 1) =~= (head + wanted.take(i as int)).push(
                wanted[i as int],
            ));
        }
        i = i + 1;
    }
    assert(wanted.take(i as int) =~= wanted);
    lines
}

fn lines_of_main(main: &ConfigGroup, total: usize) -> (lines: Vec<String>)
    requires
        main.files@.len() <= total,
    ensures
        text::strings(lines@) == main_lines(main@, total as nat),
{
    let mut lines: Vec<String> = Vec::new();
    lines.push(files_line(total));
    lines.push(counted(main.location.to_text().as_str(), main.files.len()));
    lines.push(names_of(main));
    let external: usize = total - main.files.len();
    if external != 0 {
        let mut s = String::from_str("    +");
        s.append(text::decimal(external).as_str());
        if external == 1 {
            s.append(" external file");
        } else {
            s.append(" external files");
        }
        lines.push(s);
    }
    assert(text::strings(lines@) =~= main_lines(main@, total as nat));
    lines
}

fn lines_of_groups(groups: &Vec<ConfigGroup>, first: String) -> (lines: Vec<String>)
    ensures
        text::strings(lines@) == seq![first@] + all_group_lines(groups_of(groups@)),
{
    let ghost head = seq![first@];
    let ghost all = groups_of(groups@);
    let mut lines: Vec<String> = Vec::new();
    lines.push(first);
    let mut i: usize = 0;
    proof {
        assert(all.take(0) =~= Seq::<Group>::empty());
        assert(text::strings(lines@) =~= head + all_group_lines(all.take(0)));
    }
    while i < groups.len()
        invariant
            i <= groups@.len(),
            all == groups_of(groups@),
            text::strings(lines@) == head + all_group_lines(all.take(i as int)),
        decreases groups@.len() - i,
    {
        let ghost before = lines@;
        let ghost shown = all_group_lines(all.take(i as int));
        let group = &groups[i];
        proof {
            assert(all.take(i as int + 1).drop_last() =~= all.take(i as int));
            assert(all.take(i as int + 1).last() == group@);
        }
        lines.push(counted(group.location_label().as_str(), group.files.len()));
        lines.push(String::from_str("    ").concat(group.location.to_text().as_str()));
        lines.push(names_of(group));
        proof {
            assert(text::strings(lines@) =~= text::strings(before) + group_lines(group@));
            assert(head + (shown + group_lines(group@)) =~= head + shown + group_lines(group@));
        }
        i = i + 1;
    }
    assert(all.take(i as int) =~= all);
    lines
}

proof fn lemma_filter_len(files: Seq<Seq<Part>>, dir: Seq<Part>)
    ensures
        files_in(files, dir).len() <= files.len(),
    decreases files.len(),
{
    reveal(Seq::filter);
    if files.len() > 0 {
        lemma_filter_len(files.drop_last(), dir);
    }
}

impl ConfigList {
    /// The list of the files for a user.
    pub fn render_lines(&self) -> (lines: Vec<String>)
        requires
            self.wf(),
        ensures
            text::strings(lines@) == rendered(path_views(self.files@)),
    {
        let ghost all = path_views(self.files@);
        let total: usize = self.files.len();
        let groups = self.build_groups();
        let ghost found = groups_of(groups@);
        if groups.len() == total {
            let mut first = files_line(total);
            first.append(" (");
            first.append(text::decimal(total).as_str());
            first.append(" locations)");
            return lines_of_paths(&self.files, first);
        }
        match ConfigList::dominant_group(&groups) {
            Some((d, count)) => {
                proof {
                    assert(found[d as int].files.len() == count);
                    lemma_filter_len(all, found[d as int].location);
                    let chosen = choose|d: int| is_dominant(found, d);
                    lemma_dominant_unique(found, chosen, d as int);
                }
                let external: usize = total - count;
                if external <= 5 && external <= count / 3 {
                    return lines_of_main(&groups[d], total);
                }
                let mut first = files_line(total);
                first.append(" in ");
                first.append(text::decimal(groups.len()).as_str());
                first.append(" locations");
                lines_of_groups(&groups, first)
            },
            None => {
                proof {
                    if groups@.len() > 0 {
                        assert(found[0].files.len() > 0);
                        assert(groups@[0].files@.len() > 0);
                    } else {
                        assert(all.len() > 0);
                        assert(has_location(found, location_of(all[0])));
                    }
                    assert(false);
                }
                Vec::new()
            },
        }
    }
}

/// The last piece that is not blank; nothing if all are.
pub open spec fn last_written(pieces: Seq<Seq<char>>) -> Seq<char>
    decreases pieces.len(),
{
    if pieces.len() == 0 {
        Seq::empty()
    } else if text::trimmed(pieces.last()).len() > 0 {
        pieces.last()
    } else {
        last_written(pieces.drop_last())
    }
}

/// What a line of a build shows: the last of its texts that overwrite each other and is not
/// blank, on one line.
pub open spec fn sanitized(line: Seq<char>) -> Option<Seq<char>> {
    let shown = text::trimmed(last_written(text::split_text(line, '\r')));
    if shown.len() == 0 {
        None
    } else {
        Some(text::replaced(shown, '\n', ' '))
    }
}

/// What a line of a build shows.
pub fn sanitize_build_line(line: &str) -> (shown: Option<String>)
    ensures
        text::optional_string(shown) == sanitized(line@),
{
    let pieces = text::split(line, '\r');
    let ghost all = text::strings(pieces@);
    let mut last = String::new();
    let mut i: usize = 0;
    assert(all.take(0) =~= Seq::<Seq<char>>::empty());
    while i < pieces.len()
        invariant
            i <= pieces@.len(),
            all == text::strings(pieces@),
            last@ == last_written(all.take(i as int)),
        decreases pieces@.len() - i,
    {
        proof {
            assert(all.take(i as int + 1).drop_last() =~= all.take(i as int));
            assert(all.take(i as int + 1).last() == pieces@[i as int]@);
        }
        if !text::is_empty(text::trim(pieces[i].as_str()).as_str()) {
            last = pieces[i].clone();
        }
        i = i + 1;
    }
    assert(all.take(i as int) =~= all);
    let trimmed = text::trim(last.as_str());
    if text::is_empty(trimmed.as_str()) {
        None
    } else {
        Some(text::replace_char(trimmed.as_str(), '\n', ' '))
    }
}

/// The share of `width` cells that `part` of `whole` takes, rounded down.
pub open spec fn share(part: nat, whole: nat, width: nat) -> nat {
    part * width / (if whole == 0 {
        1
    } else {
        whole
    })
}

fn cells(part: u64, whole: u64, width: usize) -> (n: u128)
    ensures
        n == share(part as nat, whole as nat, width as nat),
{
    let divisor: u128 = if whole == 0 {
        1
    } else {
        whole as u128
    };
    assert(part * width <= 0xffff_ffff_ffff_ffff * 0xffff_ffff_ffff_ffff) by (nonlinear_arith)
        requires
            0 <= part <= 0xffff_ffff_ffff_ffff,
            0 <= width <= 0xffff_ffff_ffff_ffff,
    ;
    ((part as u128) * (width as u128)) / divisor
}

/// The cells of the bar: those of what is done come first, those of what is going on follow as
/// far as there is room, and the rest is blank.
pub fn dual_bar_cells(done: u64, running: u64, len: u64, width: usize) -> (cells: (
    usize,
    usize,
    usize,
))
    ensures
        cells.0 == vstd::math::min(share(done as nat, len as nat, width as nat) as int, width as int),
        cells.1 == vstd::math::min(
            share(running as nat, len as nat, width as nat) as int,
            width - cells.0,
        ),
        cells.0 + cells.1 + cells.2 == width,
{
    let done_share: u128 = self::cells(done, len, width);
    let done_cells: usize = if done_share > width as u128 {
        width
    } else {
        done_share as usize
    };
    let running_share: u128 = self::cells(running, len, width);
    let left: usize = width - done_cells;
    let running_cells: usize = if running_share > left as u128 {
        left
    } else {
        running_share as usize
    };
    (done_cells, running_cells, left - running_cells)
}

/// The columns around the bar of the plugins to load, without the number that are worked on.
pub const LOADING_FIXED_WIDTH: usize = 40;

/// The least width of the bar of the plugins to load.
pub const LOADING_MIN_WIDTH: usize = 10;

/// The width of the bar: what the other columns leave, and at least the least width.
pub open spec fn bar_width(term_width: int, number_width: int, label_width: int) -> int {
    vstd::math::max(
        LOADING_MIN_WIDTH as int,
        term_width - (LOADING_FIXED_WIDTH + number_width + label_width),
    )
}

/// The width of the bar on a terminal, by the columns that the number of plugins and its label
/// take.
pub fn loading_bar_width_beside(
    term_width: usize,
    number_width: usize,
    label_width: usize,
) -> (width: usize)
    ensures
        width == bar_width(term_width as int, number_width as int, label_width as int),
{
    let beside: u128 = LOADING_FIXED_WIDTH as u128 + number_width as u128 + label_width as u128;
    if (term_width as u128) < beside + LOADING_MIN_WIDTH as u128 {
        LOADING_MIN_WIDTH
    } else {
        term_width - beside as usize
    }
}

/// The width of the bar of the plugins to load on a terminal.
pub fn loading_bar_width_for(term_width: usize, running: usize) -> (width: usize)
    ensures
        width == bar_width(
            term_width as int,
            text::width_of(text::decimal_text(running as nat)) as int,
            text::width_of(" active"@) as int,
        ),
{
    let number: usize = text::display_width(text::decimal(running).as_str());
    let label: usize = text::display_width(" active");
    loading_bar_width_beside(term_width, number, label)
}

} // verus!
