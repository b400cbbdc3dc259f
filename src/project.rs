//! A project: a root directory and the snapshot of the tree below it.

use vstd::prelude::*;
use crate::path::{
    components, final_name, final_name_of, is_component, is_within, join, join_path,
    lemma_component_segments, lemma_final_name_join, lemma_within_join, lemma_within_self,
    lemma_within_trans, path_is_within,
};

verus! {

/// What a read of a directory found, one node per entry in the order of
/// enumeration: a file, or a directory with what it holds. A read of a real
/// directory gives single-component names, distinct among siblings
/// (`listing_ok`).
#[derive(Debug)]
pub enum FsNode {
    File(String),
    Directory(String, Vec<FsNode>),
}

/// One node of a project's snapshot, carrying its full path.
#[derive(Debug)]
pub enum ProjectEntry {
    File(String),
    Directory(String, Vec<ProjectEntry>),
}

pub open spec fn path_of(e: ProjectEntry) -> Seq<char> {
    match e {
        ProjectEntry::File(p) => p@,
        ProjectEntry::Directory(p, _) => p@,
    }
}

/// `e` is the entry for `node`, found in `dir`: a file at its joined path,
/// or a directory entry there whose children are the scan of what it holds.
pub open spec fn node_scanned_as(e: ProjectEntry, dir: Seq<char>, node: FsNode) -> bool
    decreases node,
{
    match node {
        FsNode::File(name) => e matches ProjectEntry::File(p) && p@ == join(dir, name@),
        FsNode::Directory(name, sub) => match e {
            ProjectEntry::Directory(p, ch) => p@ == join(dir, name@) && list_scanned_as(
                ch@,
                join(dir, name@),
                sub@,
            ),
            ProjectEntry::File(_) => false,
        },
    }
}

/// `ch` holds one entry per node of `listing`, read in `dir`, in the same order.
pub open spec fn list_scanned_as(ch: Seq<ProjectEntry>, dir: Seq<char>, listing: Seq<FsNode>) -> bool
    decreases listing,
{
    &&& ch.len() == listing.len()
    &&& listing.len() > 0 ==> {
        &&& node_scanned_as(ch.last(), dir, listing.last())
        &&& list_scanned_as(ch.drop_last(), dir, listing.drop_last())
    }
}

/// `e` is what a scan of `dir` gives when `dir` holds `listing`: a directory
/// entry at `dir` with one child per listed node, in the listed order.
pub open spec fn scanned_as(e: ProjectEntry, dir: Seq<char>, listing: Seq<FsNode>) -> bool {
    e matches ProjectEntry::Directory(p, ch) && p@ == dir && list_scanned_as(ch@, dir, listing)
}

/// Every path in `e` lies within `root`.
pub open spec fn all_within(e: ProjectEntry, root: Seq<char>) -> bool
    decreases e,
{
    &&& is_within(root, path_of(e))
    &&& e matches ProjectEntry::Directory(_, ch) ==> all_within_list(ch@, root)
}

pub open spec fn all_within_list(s: Seq<ProjectEntry>, root: Seq<char>) -> bool
    decreases s,
{
    s.len() > 0 ==> all_within(s.last(), root) && all_within_list(s.drop_last(), root)
}

/// `e` has a file leaf at `p`.
pub open spec fn has_file(e: ProjectEntry, p: Seq<char>) -> bool
    decreases e,
{
    match e {
        ProjectEntry::File(q) => q@ == p,
        ProjectEntry::Directory(_, ch) => any_has_file(ch@, p),
    }
}

pub open spec fn any_has_file(s: Seq<ProjectEntry>, p: Seq<char>) -> bool
    decreases s,
{
    s.len() > 0 && (has_file(s.last(), p) || any_has_file(s.drop_last(), p))
}

/// Some entry of `e`, `e` itself included, has the path `p`.
pub open spec fn has_path(e: ProjectEntry, p: Seq<char>) -> bool
    decreases e,
{
    path_of(e) == p || match e {
        ProjectEntry::File(_) => false,
        ProjectEntry::Directory(_, ch) => any_has_path(ch@, p),
    }
}

pub open spec fn any_has_path(s: Seq<ProjectEntry>, p: Seq<char>) -> bool
    decreases s,
{
    s.len() > 0 && (has_path(s.last(), p) || any_has_path(s.drop_last(), p))
}

/// `listing`, read in `dir`, holds a file at `p`.
pub open spec fn lists_file(dir: Seq<char>, listing: Seq<FsNode>, p: Seq<char>) -> bool
    decreases listing,
{
    listing.len() > 0 && (node_lists_file(dir, listing.last(), p) || lists_file(
        dir,
        listing.drop_last(),
        p,
    ))
}

pub open spec fn node_lists_file(dir: Seq<char>, node: FsNode, p: Seq<char>) -> bool
    decreases node,
{
    match node {
        FsNode::File(name) => join(dir, name@) == p,
        FsNode::Directory(name, sub) => lists_file(join(dir, name@), sub@, p),
    }
}

pub open spec fn node_name(node: FsNode) -> Seq<char> {
    match node {
        FsNode::File(name) => name@,
        FsNode::Directory(name, _) => name@,
    }
}

/// Every name in `listing`, at any depth, is a single component, and no two
/// siblings share a name: what a read of a real directory gives.
pub open spec fn listing_ok(listing: Seq<FsNode>) -> bool
    decreases listing,
{
    listing.len() > 0 ==> {
        &&& node_ok(listing.last())
        &&& listing_ok(listing.drop_last())
        &&& forall|j: int|
            0 <= j < listing.len() - 1 ==> node_name(#[trigger] listing[j]) != node_name(
                listing.last(),
            )
    }
}

pub open spec fn node_ok(node: FsNode) -> bool
    decreases node,
{
    &&& is_component(node_name(node))
    &&& match node {
        FsNode::File(_) => true,
        FsNode::Directory(_, sub) => listing_ok(sub@),
    }
}

/// `c` lies directly in `parent`: its final name joined to `parent` gives
/// `c`, and its components are those of `parent` and that name.
pub open spec fn is_child_path(c: Seq<char>, parent: Seq<char>) -> bool {
    final_name(c) matches Some(name) && (c == join(parent, name) && (parent.len() > 0
        ==> components(c) == components(parent).push(name)))
}

/// Below every directory entry, each child's path lies directly in the
/// directory's path, and no two children have the same final name.
pub open spec fn tree_ok(e: ProjectEntry) -> bool
    decreases e,
{
    match e {
        ProjectEntry::File(_) => true,
        ProjectEntry::Directory(p, ch) => children_ok(p@, ch@),
    }
}

pub open spec fn children_ok(parent: Seq<char>, ch: Seq<ProjectEntry>) -> bool
    decreases ch,
{
    ch.len() > 0 ==> {
        &&& tree_ok(ch.last())
        &&& children_ok(parent, ch.drop_last())
        &&& is_child_path(path_of(ch.last()), parent)
        &&& forall|j: int|
            0 <= j < ch.len() - 1 ==> final_name(path_of(#[trigger] ch[j])) != final_name(
                path_of(ch.last()),
            )
    }
}

/// A project failed to be set up in a directory.
#[derive(Debug, Clone, Copy)]
pub struct CreateProjectError;

/// A directory could not be opened as a project.
#[derive(Debug, Clone, Copy)]
pub struct InvalidProject;

/// A new file was asked for at a place that is not part of the project.
#[derive(Debug, Clone, Copy)]
pub struct InvalidFileLocation;

impl CreateProjectError {
    pub fn message(&self) -> (r: String)
        ensures
            r@ == "Failed to create project"@,
    {
        String::from_str("Failed to create project")
    }
}

impl InvalidProject {
    pub fn message(&self) -> (r: String)
        ensures
            r@ == "Selected folder is not a valid project"@,
    {
        String::from_str("Selected folder is not a valid project")
    }
}

impl InvalidFileLocation {
    pub fn message(&self) -> (r: String)
        ensures
            r@ == "Selected file location is not part of the project"@,
    {
        String::from_str("Selected file location is not part of the project")
    }
}

/// A root directory and the snapshot of its tree as of the last scan.
#[derive(Debug)]
pub struct Project {
    root: String,
    entries: ProjectEntry,
}

impl Project {
    pub closed spec fn root_view(&self) -> Seq<char> {
        self.root@
    }

    pub closed spec fn entries_view(&self) -> ProjectEntry {
        self.entries
    }

    /// The snapshot is a directory entry at the root, and every path in it
    /// lies within the root.
    pub closed spec fn wf(&self) -> bool {
        &&& self.entries is Directory
        &&& path_of(self.entries) == self.root@
        &&& all_within(self.entries, self.root@)
    }

    /// The snapshot of `dir` holding `listing`.
    fn dir_to_project_entries(dir: &str, listing: &Vec<FsNode>) -> (r: ProjectEntry)
        ensures
            scanned_as(r, dir@, listing@),
        decreases listing@,
    {
        let mut children: Vec<ProjectEntry> = Vec::new();
        let mut i: usize = 0;
        while i < listing.len()
            invariant
                i <= listing@.len(),
                children@.len() == i,
                forall|j: int|
                    0 <= j < i ==> #[trigger] node_scanned_as(children@[j], dir@, listing@[j]),
            decreases listing@.len() - i,
        {
            let child = match &listing[i] {
                FsNode::File(name) => ProjectEntry::File(join_path(dir, name.as_str())),
                FsNode::Directory(name, sub) => {
                    let p = join_path(dir, name.as_str());
                    Self::dir_to_project_entries(p.as_str(), sub)
                },
            };
            children.push(child);
            i += 1;
        }
        proof {
            lemma_list_scanned_iff(children@, dir@, listing@);
        }
        ProjectEntry::Directory(String::from_str(dir), children)
    }

    /// Opens `root` as a project. `listing` is what `root` holds, or none
    /// where `root` is not a directory.
    pub fn from_root(root: &str, listing: Option<Vec<FsNode>>) -> (r: Result<Project, InvalidProject>)
        ensures
            r is Ok <==> listing is Some,
            r matches Ok(p) ==> {
                &&& p.wf()
                &&& p.root_view() == root@
                &&& listing matches Some(l) && scanned_as(p.entries_view(), root@, l@)
            },
            r matches Ok(p) ==> (listing matches Some(l) && (listing_ok(l@) ==> tree_ok(
                p.entries_view(),
            ))),
    {
        match listing {
            Some(l) => {
                let entries = Self::dir_to_project_entries(root, &l);
                proof {
                    lemma_within_self(root@);
                    lemma_scan_within(entries, root@, l@, root@);
                    if listing_ok(l@) {
                        lemma_scan_tree_ok(entries, root@, l@);
                    }
                }
                Ok(Project { root: String::from_str(root), entries })
            },
            None => Err(InvalidProject),
        }
    }

    /// The last step of setting up a project in `root`, once its `shapes`
    /// directory stands: `root` opened as a project, its failure reported as
    /// a failure to create.
    pub fn create_new(root: &str, listing: Option<Vec<FsNode>>) -> (r: Result<
        Project,
        CreateProjectError,
    >)
        ensures
            r is Ok <==> listing is Some,
            r matches Ok(p) ==> {
                &&& p.wf()
                &&& p.root_view() == root@
                &&& listing matches Some(l) && scanned_as(p.entries_view(), root@, l@)
            },
            r matches Ok(p) ==> (listing matches Some(l) && (listing_ok(l@) ==> tree_ok(
                p.entries_view(),
            ))),
    {
        match Self::from_root(root, listing) {
            Ok(p) => Ok(p),
            Err(_) => Err(CreateProjectError),
        }
    }

    pub fn root(&self) -> (r: &str)
        ensures
            r@ == self.root_view(),
    {
        self.root.as_str()
    }

    pub fn entries(&self) -> (r: &ProjectEntry)
        ensures
            *r == self.entries_view(),
    {
        &self.entries
    }

    /// Whether a new file may be written at `target`: it lies within the
    /// root, or something already exists there.
    pub fn new_file(&self, target: &str, target_exists: bool) -> (r: Result<(), InvalidFileLocation>)
        ensures
            r is Ok <==> (is_within(self.root_view(), target@) || target_exists),
    {
        if path_is_within(self.root.as_str(), target) || target_exists {
            Ok(())
        } else {
            Err(InvalidFileLocation)
        }
    }

    /// Takes in the outcome of a write: `rescan` is what the root holds after
    /// a write that succeeded, or none where it failed. The snapshot is
    /// rebuilt from the former and kept on the latter.
    pub fn record_write(&mut self, rescan: Option<Vec<FsNode>>)
        requires
            old(self).wf(),
        ensures
            final(self).wf(),
            final(self).root_view() == old(self).root_view(),
            rescan is None ==> final(self).entries_view() == old(self).entries_view(),
            rescan matches Some(l) ==> scanned_as(final(self).entries_view(), old(self).root_view(), l@),
            rescan matches Some(l) ==> (listing_ok(l@) ==> tree_ok(final(self).entries_view())),
    {
        if let Some(l) = rescan {
            let entries = Self::dir_to_project_entries(self.root.as_str(), &l);
            proof {
                lemma_within_self(self.root@);
                lemma_scan_within(entries, self.root@, l@, self.root@);
                if listing_ok(l@) {
                    lemma_scan_tree_ok(entries, self.root@, l@);
                }
            }
            self.entries = entries;
        }
    }
}

impl ProjectEntry {
    /// The final component of the entry's path; none where the path has none.
    pub fn name(&self) -> (r: Option<&str>)
        ensures
            r is None <==> final_name(path_of(*self)) is None,
            r matches Some(s) ==> final_name(path_of(*self)) == Some(s@),
    {
        match self {
            ProjectEntry::File(p) => final_name_of(p.as_str()),
            ProjectEntry::Directory(p, _) => final_name_of(p.as_str()),
        }
    }
}

/// `list_scanned_as` entry by entry.
pub proof fn lemma_list_scanned_iff(ch: Seq<ProjectEntry>, dir: Seq<char>, listing: Seq<FsNode>)
    ensures
        list_scanned_as(ch, dir, listing) <==> {
            &&& ch.len() == listing.len()
            &&& forall|i: int|
                0 <= i < listing.len() ==> #[trigger] node_scanned_as(ch[i], dir, listing[i])
        },
    decreases listing.len(),
{
    if listing.len() > 0 && ch.len() == listing.len() {
        let n = listing.len() - 1;
        lemma_list_scanned_iff(ch.drop_last(), dir, listing.drop_last());
        if list_scanned_as(ch, dir, listing) {
            assert forall|i: int| 0 <= i < listing.len() implies #[trigger] node_scanned_as(
                ch[i],
                dir,
                listing[i],
            ) by {
                if i < n {
                    assert(ch.drop_last()[i] == ch[i]);
                    assert(listing.drop_last()[i] == listing[i]);
                }
            }
        }
        if forall|i: int|
            0 <= i < listing.len() ==> #[trigger] node_scanned_as(ch[i], dir, listing[i]) {
            assert forall|i: int| 0 <= i < n implies #[trigger] node_scanned_as(
                ch.drop_last()[i],
                dir,
                listing.drop_last()[i],
            ) by {
                assert(node_scanned_as(ch[i], dir, listing[i]));
            }
            assert(node_scanned_as(ch[n], dir, listing[n]));
        }
    }
}

/// A scan of a directory within `root` holds only paths within `root`.
pub proof fn lemma_scan_within(e: ProjectEntry, dir: Seq<char>, listing: Seq<FsNode>, root: Seq<char>)
    requires
        scanned_as(e, dir, listing),
        is_within(root, dir),
    ensures
        all_within(e, root),
{
    if let ProjectEntry::Directory(_, ch) = e {
        lemma_list_scan_within(ch@, dir, listing, root);
    }
}

proof fn lemma_list_scan_within(
    ch: Seq<ProjectEntry>,
    dir: Seq<char>,
    listing: Seq<FsNode>,
    root: Seq<char>,
)
    requires
        list_scanned_as(ch, dir, listing),
        is_within(root, dir),
    ensures
        all_within_list(ch, root),
    decreases listing,
{
    if listing.len() > 0 {
        lemma_node_scan_within(ch.last(), dir, listing.last(), root);
        lemma_list_scan_within(ch.drop_last(), dir, listing.drop_last(), root);
    }
}

proof fn lemma_node_scan_within(e: ProjectEntry, dir: Seq<char>, node: FsNode, root: Seq<char>)
    requires
        node_scanned_as(e, dir, node),
        is_within(root, dir),
    ensures
        all_within(e, root),
    decreases node,
{
    match node {
        FsNode::File(name) => {
            lemma_within_join(dir, name@);
            lemma_within_trans(root, dir, join(dir, name@));
        },
        FsNode::Directory(name, sub) => {
            lemma_within_join(dir, name@);
            lemma_within_trans(root, dir, join(dir, name@));
            if let ProjectEntry::Directory(_, ch) = e {
                lemma_list_scan_within(ch@, join(dir, name@), sub@, root);
            }
        },
    }
}

/// The file leaves of a scan are exactly the files that the read found: the
/// snapshot of `dir` holding `listing` has a file at `p` if and only if
/// `listing`, read in `dir`, holds a file at `p`.
pub proof fn lemma_scan_files(e: ProjectEntry, dir: Seq<char>, listing: Seq<FsNode>, p: Seq<char>)
    requires
        scanned_as(e, dir, listing),
    ensures
        has_file(e, p) <==> lists_file(dir, listing, p),
{
    if let ProjectEntry::Directory(_, ch) = e {
        lemma_list_scan_files(ch@, dir, listing, p);
    }
}

proof fn lemma_list_scan_files(
    ch: Seq<ProjectEntry>,
    dir: Seq<char>,
    listing: Seq<FsNode>,
    p: Seq<char>,
)
    requires
        list_scanned_as(ch, dir, listing),
    ensures
        any_has_file(ch, p) <==> lists_file(dir, listing, p),
    decreases listing,
{
    if listing.len() > 0 {
        lemma_node_scan_files(ch.last(), dir, listing.last(), p);
        lemma_list_scan_files(ch.drop_last(), dir, listing.drop_last(), p);
    }
}

proof fn lemma_node_scan_files(e: ProjectEntry, dir: Seq<char>, node: FsNode, p: Seq<char>)
    requires
        node_scanned_as(e, dir, node),
    ensures
        has_file(e, p) <==> node_lists_file(dir, node, p),
    decreases node,
{
    if let FsNode::Directory(name, sub) = node {
        if let ProjectEntry::Directory(_, ch) = e {
            lemma_list_scan_files(ch@, join(dir, name@), sub@, p);
        }
    }
}

/// Two scans of one directory holding the same things have the same file
/// leaves and the same entry paths.
pub proof fn lemma_scan_repeatable(
    e1: ProjectEntry,
    e2: ProjectEntry,
    dir: Seq<char>,
    listing: Seq<FsNode>,
    p: Seq<char>,
)
    requires
        scanned_as(e1, dir, listing),
        scanned_as(e2, dir, listing),
    ensures
        has_file(e1, p) <==> has_file(e2, p),
        has_path(e1, p) <==> has_path(e2, p),
{
    lemma_scan_files(e1, dir, listing, p);
    lemma_scan_files(e2, dir, listing, p);
    if let ProjectEntry::Directory(_, ch1) = e1 {
        if let ProjectEntry::Directory(_, ch2) = e2 {
            lemma_list_same_paths(ch1@, ch2@, dir, listing, p);
        }
    }
}

proof fn lemma_list_same_paths(
    ch1: Seq<ProjectEntry>,
    ch2: Seq<ProjectEntry>,
    dir: Seq<char>,
    listing: Seq<FsNode>,
    p: Seq<char>,
)
    requires
        list_scanned_as(ch1, dir, listing),
        list_scanned_as(ch2, dir, listing),
    ensures
        any_has_path(ch1, p) <==> any_has_path(ch2, p),
    decreases listing,
{
    if listing.len() > 0 {
        lemma_node_same_paths(ch1.last(), ch2.last(), dir, listing.last(), p);
        lemma_list_same_paths(ch1.drop_last(), ch2.drop_last(), dir, listing.drop_last(), p);
    }
}

proof fn lemma_node_same_paths(
    e1: ProjectEntry,
    e2: ProjectEntry,
    dir: Seq<char>,
    node: FsNode,
    p: Seq<char>,
)
    requires
        node_scanned_as(e1, dir, node),
        node_scanned_as(e2, dir, node),
    ensures
        has_path(e1, p) <==> has_path(e2, p),
    decreases node,
{
    if let FsNode::Directory(name, sub) = node {
        if let ProjectEntry::Directory(_, ch1) = e1 {
            if let ProjectEntry::Directory(_, ch2) = e2 {
                lemma_list_same_paths(ch1@, ch2@, join(dir, name@), sub@, p);
            }
        }
    }
}

/// A file written within the root shows in the snapshot that a successful
/// write leaves: where the project accepted `target`, and the read of the
/// root after the write holds a file at `target`, the rebuilt snapshot has a
/// file leaf at `target`.
pub proof fn lemma_written_file_shows(before: Project, after: Project, target: Seq<char>, listing: Seq<FsNode>)
    requires
        before.wf(),
        is_within(before.root_view(), target),
        after.root_view() == before.root_view(),
        scanned_as(after.entries_view(), before.root_view(), listing),
        lists_file(before.root_view(), listing, target),
    ensures
        after.wf(),
        has_file(after.entries_view(), target),
{
    lemma_within_self(before.root_view());
    lemma_scan_within(after.entries_view(), before.root_view(), listing, before.root_view());
    lemma_scan_files(after.entries_view(), before.root_view(), listing, target);
}

/// The scan of a well-formed listing is a well-formed tree: each child lies
/// directly in its directory, under its listed name, and siblings have
/// distinct names.
pub proof fn lemma_scan_tree_ok(e: ProjectEntry, dir: Seq<char>, listing: Seq<FsNode>)
    requires
        scanned_as(e, dir, listing),
        listing_ok(listing),
    ensures
        tree_ok(e),
{
    if let ProjectEntry::Directory(_, ch) = e {
        lemma_list_tree_ok(ch@, dir, listing);
    }
}

proof fn lemma_list_tree_ok(ch: Seq<ProjectEntry>, dir: Seq<char>, listing: Seq<FsNode>)
    requires
        list_scanned_as(ch, dir, listing),
        listing_ok(listing),
    ensures
        children_ok(dir, ch),
        forall|j: int|
            0 <= j < ch.len() ==> final_name(path_of(#[trigger] ch[j])) == Some(
                node_name(listing[j]),
            ),
    decreases listing,
{
    if listing.len() > 0 {
        let n = listing.len() - 1;
        lemma_node_tree_ok(ch.last(), dir, listing.last());
        lemma_list_tree_ok(ch.drop_last(), dir, listing.drop_last());
        assert forall|j: int| 0 <= j < ch.len() implies final_name(path_of(#[trigger] ch[j]))
            == Some(node_name(listing[j])) by {
            if j < n {
                assert(ch.drop_last()[j] == ch[j]);
                assert(listing.drop_last()[j] == listing[j]);
            }
        }
        assert forall|j: int| 0 <= j < ch.len() - 1 implies final_name(path_of(#[trigger] ch[j]))
            != final_name(path_of(ch.last())) by {
            assert(node_name(listing[j]) != node_name(listing.last()));
            assert(final_name(path_of(ch[j])) == Some(node_name(listing[j])));
        }
    }
}

proof fn lemma_node_tree_ok(e: ProjectEntry, dir: Seq<char>, node: FsNode)
    requires
        node_scanned_as(e, dir, node),
        node_ok(node),
    ensures
        tree_ok(e),
        is_child_path(path_of(e), dir),
        final_name(path_of(e)) == Some(node_name(node)),
    decreases node,
{
    let name = node_name(node);
    lemma_final_name_join(dir, name);
    lemma_component_segments(name);
    lemma_within_join(dir, name);
    assert(components(dir) + seq![name] =~= components(dir).push(name));
    assert(path_of(e) == join(dir, name));
    if let FsNode::Directory(_, sub) = node {
        if let ProjectEntry::Directory(_, ch) = e {
            lemma_list_tree_ok(ch@, join(dir, name), sub@);
        }
    }
}

} // verus!
