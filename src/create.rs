//! The decisions of setting up a new project, one step at a time. The caller
//! performs each action on disk and reports what happened; the last action,
//! `ScanRoot`, is followed by `Project::create_new` with what the root holds.

use vstd::prelude::*;
use crate::path::{final_name, is_component, join, join_path, lemma_final_name_join};
use crate::project::{FsNode, ProjectEntry, node_scanned_as, scanned_as};

verus! {

/// What the caller found or did at the previous step.
#[derive(Debug, Clone, Copy, PartialEq, Eq, Structural)]
pub enum CreateEvent {
    /// Whether anything exists at the root path.
    Probed { exists: bool },
    /// Whether the root directory and its missing ancestors were made.
    RootCreated { ok: bool },
    /// Whether the root is a directory, and whether it holds nothing.
    Inspected { is_dir: bool, is_empty: bool },
    /// Whether the `shapes` directory was made under the root.
    ShapesCreated { ok: bool },
}

/// What the caller is to do next.
#[derive(Debug, Clone, Copy, PartialEq, Eq, Structural)]
pub enum CreateAction {
    /// Make the root directory and its missing ancestors.
    CreateRoot,
    /// Find whether the root is a directory and whether it is empty.
    InspectRoot,
    /// Make the directory at `shapes_dir(root)`.
    CreateShapes,
    /// Read the root and hand it to `Project::create_new`.
    ScanRoot,
    /// Give up with `CreateProjectError`.
    Fail,
}

pub open spec fn create_action_for(event: CreateEvent) -> CreateAction {
    match event {
        CreateEvent::Probed { exists } => if exists {
            CreateAction::InspectRoot
        } else {
            CreateAction::CreateRoot
        },
        CreateEvent::RootCreated { ok } => if ok {
            CreateAction::InspectRoot
        } else {
            CreateAction::Fail
        },
        CreateEvent::Inspected { is_dir, is_empty } => if is_dir && is_empty {
            CreateAction::CreateShapes
        } else {
            CreateAction::Fail
        },
        CreateEvent::ShapesCreated { ok } => if ok {
            CreateAction::ScanRoot
        } else {
            CreateAction::Fail
        },
    }
}

/// The actions that the steps give, one after another, in a set-up where the
/// caller finds the root existing or not, and reports these outcomes. The
/// last one is `ScanRoot` or `Fail`.
pub open spec fn create_actions(
    exists: bool,
    root_made: bool,
    is_dir: bool,
    is_empty: bool,
    shapes_made: bool,
) -> Seq<CreateAction> {
    let first = create_action_for(CreateEvent::Probed { exists });
    let after_root = if first == CreateAction::CreateRoot {
        seq![first, create_action_for(CreateEvent::RootCreated { ok: root_made })]
    } else {
        seq![first]
    };
    let after_inspect = if after_root.last() == CreateAction::InspectRoot {
        after_root.push(create_action_for(CreateEvent::Inspected { is_dir, is_empty }))
    } else {
        after_root
    };
    if after_inspect.last() == CreateAction::CreateShapes {
        after_inspect.push(create_action_for(CreateEvent::ShapesCreated { ok: shapes_made }))
    } else {
        after_inspect
    }
}

/// An action that changes what is on disk.
pub open spec fn changes_disk(a: CreateAction) -> bool {
    a is CreateRoot || a is CreateShapes
}

/// `e` is a directory entry at `p` with no children.
pub open spec fn is_empty_dir_at(e: ProjectEntry, p: Seq<char>) -> bool {
    e matches ProjectEntry::Directory(q, g) && (q@ == p && g@.len() == 0)
}

pub open spec fn shapes_name() -> Seq<char> {
    "shapes"@
}

/// The next action after `event`.
pub fn next_create_action(event: CreateEvent) -> (a: CreateAction)
    ensures
        a == create_action_for(event),
{
    match event {
        CreateEvent::Probed { exists } => if exists {
            CreateAction::InspectRoot
        } else {
            CreateAction::CreateRoot
        },
        CreateEvent::RootCreated { ok } => if ok {
            CreateAction::InspectRoot
        } else {
            CreateAction::Fail
        },
        CreateEvent::Inspected { is_dir, is_empty } => if is_dir && is_empty {
            CreateAction::CreateShapes
        } else {
            CreateAction::Fail
        },
        CreateEvent::ShapesCreated { ok } => if ok {
            CreateAction::ScanRoot
        } else {
            CreateAction::Fail
        },
    }
}

/// Where a project under `root` keeps its shapes.
pub fn shapes_dir(root: &str) -> (r: String)
    ensures
        r@ == join(root@, shapes_name()),
{
    join_path(root, "shapes")
}

/// Setting up a project where something non-empty already exists fails and
/// changes nothing on disk: the root is only inspected, and the inspection
/// ends the set-up with a failure.
pub proof fn lemma_create_refuses_nonempty(
    root_made: bool,
    is_dir: bool,
    is_empty: bool,
    shapes_made: bool,
)
    requires
        !is_empty,
    ensures
        create_actions(true, root_made, is_dir, is_empty, shapes_made) == seq![
            CreateAction::InspectRoot,
            CreateAction::Fail,
        ],
        forall|k: int|
            0 <= k < create_actions(true, root_made, is_dir, is_empty, shapes_made).len()
                ==> !changes_disk(
                #[trigger] create_actions(true, root_made, is_dir, is_empty, shapes_made)[k],
            ),
{
    assert(create_actions(true, root_made, is_dir, is_empty, shapes_made) =~= seq![
        CreateAction::InspectRoot,
        CreateAction::Fail,
    ]);
}

/// Setting up a project in an empty directory goes through: the `shapes`
/// directory is made, and the scan of the root that then holds it alone is a
/// directory entry at the root with one child, the empty directory `shapes`.
pub proof fn lemma_create_in_empty_dir(root: Seq<char>, listing: Seq<FsNode>, e: ProjectEntry)
    requires
        listing.len() == 1,
        listing[0] matches FsNode::Directory(name, sub) && name@ == shapes_name() && sub@.len()
            == 0,
        scanned_as(e, root, listing),
    ensures
        forall|root_made: bool|
            #[trigger] create_actions(true, root_made, true, true, true) == seq![
                CreateAction::InspectRoot,
                CreateAction::CreateShapes,
                CreateAction::ScanRoot,
            ],
        e matches ProjectEntry::Directory(p, ch) && (p@ == root && ch@.len() == 1
            && is_empty_dir_at(ch@[0], join(root, shapes_name()))),
        final_name(join(root, shapes_name())) == Some(shapes_name()),
{
    assert forall|root_made: bool|
        #[trigger] create_actions(true, root_made, true, true, true) == seq![
            CreateAction::InspectRoot,
            CreateAction::CreateShapes,
            CreateAction::ScanRoot,
        ] by {
        assert(create_actions(true, root_made, true, true, true) =~= seq![
            CreateAction::InspectRoot,
            CreateAction::CreateShapes,
            CreateAction::ScanRoot,
        ]);
    }
    reveal_strlit("shapes");
    let ch = e->Directory_1;
    assert(listing.last() == listing[0]);
    assert(ch@.last() == ch@[0]);
    assert(node_scanned_as(ch@[0], root, listing[0]));
    assert(is_component(shapes_name())) by {
        assert(shapes_name()[0] == 's');
        assert(!shapes_name().contains('/')) by {
            assert forall|k: int| 0 <= k < shapes_name().len() implies shapes_name()[k] != '/' by {}
        }
        assert(shapes_name() != seq!['.']) by {
            assert(shapes_name().len() != seq!['.'].len());
        }
        assert(shapes_name() != seq!['.', '.']) by {
            assert(shapes_name().len() != seq!['.', '.'].len());
        }
    }
    lemma_final_name_join(root, shapes_name());
}

} // verus!
