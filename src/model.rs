//! The data of the tag store (tags, targets, associations, the database),
//! their models, and the invariant that every operation keeps.

use vstd::prelude::*;
use vstd::string::*;

verus! {

/// A named, coloured label; the name identifies it.
#[derive(Clone, Debug, PartialEq, Eq)]
pub struct Tag {
    /// Tag name (unique within a database).
    pub name: String,
    /// Tag colour, a hex code such as `#FF5733`.
    pub color: String,
}

/// What an association points at: one backup of a save, or one save.
#[derive(Clone, Debug, Eq, Hash)]
pub enum TagTarget {
    /// A backup archive of a save.
    Backup { save_name: String, backup_name: String },
    /// A save directory, by its relative path.
    Save { relative_path: String },
}

/// The tag names attached to one target, in the order they were first added.
#[derive(Clone, Debug)]
pub struct TagAssociation {
    /// Target object (backup or save).
    pub target: TagTarget,
    /// Names of the tags attached to it.
    pub tag_names: Vec<String>,
}

/// All tags and all associations: the one document that is persisted.
#[derive(Clone, Debug)]
pub struct TagsDatabase {
    /// All defined tags (unique by name).
    pub tags: Vec<Tag>,
    /// Tag associations with targets (unique by target).
    pub associations: Vec<TagAssociation>,
}

/// Why a tag operation failed.
#[derive(Clone, Debug, PartialEq, Eq)]
pub enum TagsError {
    /// Reading or writing the database file failed.
    FileOp(String),
    /// The database document is not valid JSON of the expected shape.
    Json(String),
    /// No tag has this name.
    TagNotFound(String),
    /// This colour is not a hex colour code.
    InvalidColor(String),
    /// A tag with this name exists already.
    DuplicateTag(String),
}

/// Result type for tag operations.
pub type TagsResult<T> = Result<T, TagsError>;

/// Model of a [`Tag`].
pub struct TagView {
    pub name: Seq<char>,
    pub color: Seq<char>,
}

/// Model of a [`TagTarget`].
pub enum TargetView {
    Backup { save_name: Seq<char>, backup_name: Seq<char> },
    Save { relative_path: Seq<char> },
}

/// Model of a [`TagAssociation`].
pub struct AssociationView {
    pub target: TargetView,
    pub tag_names: Seq<Seq<char>>,
}

/// Model of a [`TagsDatabase`].
pub struct DatabaseView {
    pub tags: Seq<TagView>,
    pub associations: Seq<AssociationView>,
}

impl View for Tag {
    type V = TagView;

    open spec fn view(&self) -> TagView {
        TagView { name: self.name@, color: self.color@ }
    }
}

impl View for TagTarget {
    type V = TargetView;

    open spec fn view(&self) -> TargetView {
        match self {
            TagTarget::Backup { save_name, backup_name } => TargetView::Backup {
                save_name: save_name@,
                backup_name: backup_name@,
            },
            TagTarget::Save { relative_path } => TargetView::Save { relative_path: relative_path@ },
        }
    }
}

/// The models of a sequence of names.
pub open spec fn names_view(v: Seq<String>) -> Seq<Seq<char>> {
    v.map_values(|s: String| s@)
}

impl View for TagAssociation {
    type V = AssociationView;

    open spec fn view(&self) -> AssociationView {
        AssociationView { target: self.target@, tag_names: names_view(self.tag_names@) }
    }
}

/// The models of a sequence of tags.
pub open spec fn tags_view(v: Seq<Tag>) -> Seq<TagView> {
    v.map_values(|t: Tag| t@)
}

/// The models of a sequence of associations.
pub open spec fn associations_view(v: Seq<TagAssociation>) -> Seq<AssociationView> {
    v.map_values(|a: TagAssociation| a@)
}

impl View for TagsDatabase {
    type V = DatabaseView;

    open spec fn view(&self) -> DatabaseView {
        DatabaseView { tags: tags_view(self.tags@), associations: associations_view(self.associations@) }
    }
}

impl PartialEq for TagTarget {
    fn eq(&self, other: &TagTarget) -> (r: bool) {
        match (self, other) {
            (
                TagTarget::Backup { save_name: s1, backup_name: b1 },
                TagTarget::Backup { save_name: s2, backup_name: b2 },
            ) => *s1 == *s2 && *b1 == *b2,
            (TagTarget::Save { relative_path: p1 }, TagTarget::Save { relative_path: p2 }) => *p1
                == *p2,
            _ => false,
        }
    }
}

impl vstd::std_specs::cmp::PartialEqSpecImpl for TagTarget {
    open spec fn obeys_eq_spec() -> bool {
        true
    }

    open spec fn eq_spec(&self, other: &TagTarget) -> bool {
        self@ == other@
    }
}

/// Whether some tag in `tags` is named `name`.
pub open spec fn has_tag(tags: Seq<TagView>, name: Seq<char>) -> bool {
    exists|i: int| 0 <= i < tags.len() && #[trigger] tags[i].name == name
}

/// Whether no name occurs twice in `s`.
pub open spec fn no_duplicates(s: Seq<Seq<char>>) -> bool {
    forall|i: int, j: int| 0 <= i < j < s.len() ==> s[i] != s[j]
}

/// Whether no two tags share a name.
pub open spec fn unique_tag_names(tags: Seq<TagView>) -> bool {
    forall|i: int, j: int| 0 <= i < j < tags.len() ==> tags[i].name != tags[j].name
}

/// Whether no two associations share a target.
pub open spec fn unique_targets(assocs: Seq<AssociationView>) -> bool {
    forall|i: int, j: int| 0 <= i < j < assocs.len() ==> assocs[i].target != assocs[j].target
}

/// Whether an association is worth keeping: it names at least one tag, each once.
pub open spec fn association_ok(a: AssociationView) -> bool {
    a.tag_names.len() > 0 && no_duplicates(a.tag_names)
}

/// The invariant of the store: tag names unique, targets unique, and every
/// association non-empty and free of repeated names.
pub open spec fn well_formed(db: DatabaseView) -> bool {
    &&& unique_tag_names(db.tags)
    &&& unique_targets(db.associations)
    &&& forall|i: int| 0 <= i < db.associations.len() ==> association_ok(#[trigger] db.associations[i])
}

impl TagsDatabase {
    /// Whether this database satisfies the store's invariant.
    pub open spec fn valid(&self) -> bool {
        well_formed(self@)
    }
}

impl Default for TagsDatabase {
    /// The empty database, used when nothing has been stored yet.
    fn default() -> (r: TagsDatabase)
        ensures
            r@.tags.len() == 0,
            r@.associations.len() == 0,
            r.valid(),
    {
        TagsDatabase { tags: Vec::new(), associations: Vec::new() }
    }
}

impl TagsError {
    /// A sentence that describes the error.
    pub fn message(&self) -> (r: String)
        ensures
            r@ == match self {
                TagsError::FileOp(m) => "File operation error: "@ + m@,
                TagsError::Json(m) => "JSON error: "@ + m@,
                TagsError::TagNotFound(n) => "Tag not found: "@ + n@,
                TagsError::InvalidColor(c) => "Invalid color format: "@ + c@,
                TagsError::DuplicateTag(n) => "Tag already exists: "@ + n@,
            },
    {
        match self {
            TagsError::FileOp(m) => String::from_str("File operation error: ").concat(m.as_str()),
            TagsError::Json(m) => String::from_str("JSON error: ").concat(m.as_str()),
            TagsError::TagNotFound(n) => String::from_str("Tag not found: ").concat(n.as_str()),
            TagsError::InvalidColor(c) => String::from_str("Invalid color format: ").concat(
                c.as_str(),
            ),
            TagsError::DuplicateTag(n) => String::from_str("Tag already exists: ").concat(
                n.as_str(),
            ),
        }
    }
}

/// Whether no name occurs twice in `v`.
fn names_distinct(v: &Vec<String>) -> (r: bool)
    ensures
        r == no_duplicates(names_view(v@)),
{
    let ghost s = names_view(v@);
    let n = v.len();
    let mut i: usize = 0;
    while i < n
        invariant
            n == v@.len(),
            s == names_view(v@),
            i <= n,
            forall|a: int, b: int| 0 <= a < b < n && a < i ==> s[a] != s[b],
        decreases n - i,
    {
        let mut j: usize = i + 1;
        while j < n
            invariant
                n == v@.len(),
                s == names_view(v@),
                i < n,
                i + 1 <= j <= n,
                forall|a: int, b: int| 0 <= a < b < n && a < i ==> s[a] != s[b],
                forall|b: int| i < b < j ==> s[i as int] != s[b],
            decreases n - j,
        {
            if v[i] == v[j] {
                assert(s[i as int] == s[j as int]);
                return false;
            }
            j = j + 1;
        }
        i = i + 1;
    }
    true
}

/// Whether no two tags of `tags` share a name.
fn tag_names_distinct(tags: &Vec<Tag>) -> (r: bool)
    ensures
        r == unique_tag_names(tags_view(tags@)),
{
    let ghost s = tags_view(tags@);
    let n = tags.len();
    let mut i: usize = 0;
    while i < n
        invariant
            n == tags@.len(),
            s == tags_view(tags@),
            i <= n,
            forall|a: int, b: int| 0 <= a < b < n && a < i ==> s[a].name != s[b].name,
        decreases n - i,
    {
        let mut j: usize = i + 1;
        while j < n
            invariant
                n == tags@.len(),
                s == tags_view(tags@),
                i < n,
                i + 1 <= j <= n,
                forall|a: int, b: int| 0 <= a < b < n && a < i ==> s[a].name != s[b].name,
                forall|b: int| i < b < j ==> s[i as int].name != s[b].name,
            decreases n - j,
        {
            if tags[i].name == tags[j].name {
                assert(s[i as int].name == s[j as int].name);
                return false;
            }
            j = j + 1;
        }
        i = i + 1;
    }
    true
}

/// Whether no two associations of `assocs` share a target.
fn targets_distinct(assocs: &Vec<TagAssociation>) -> (r: bool)
    ensures
        r == unique_targets(associations_view(assocs@)),
{
    let ghost s = associations_view(assocs@);
    let n = assocs.len();
    let mut i: usize = 0;
    while i < n
        invariant
            n == assocs@.len(),
            s == associations_view(assocs@),
            i <= n,
            forall|a: int, b: int| 0 <= a < b < n && a < i ==> s[a].target != s[b].target,
        decreases n - i,
    {
        let mut j: usize = i + 1;
        while j < n
            invariant
                n == assocs@.len(),
                s == associations_view(assocs@),
                i < n,
                i + 1 <= j <= n,
                forall|a: int, b: int| 0 <= a < b < n && a < i ==> s[a].target != s[b].target,
                forall|b: int| i < b < j ==> s[i as int].target != s[b].target,
            decreases n - j,
        {
            if assocs[i].target == assocs[j].target {
                assert(s[i as int].target == s[j as int].target);
                return false;
            }
            j = j + 1;
        }
        i = i + 1;
    }
    true
}

impl TagsDatabase {
    /// Whether this database satisfies the store's invariant: tag names
    /// unique, targets unique, every association non-empty and without
    /// repeated names. A database read from elsewhere is checked with this
    /// before it is changed.
    pub fn is_well_formed(&self) -> (r: bool)
        ensures
            r == self.valid(),
    {
        if !tag_names_distinct(&self.tags) || !targets_distinct(&self.associations) {
            return false;
        }
        let ghost s = self@.associations;
        let mut i: usize = 0;
        while i < self.associations.len()
            invariant
                s == associations_view(self.associations@),
                i <= s.len(),
                forall|k: int| 0 <= k < i ==> association_ok(#[trigger] s[k]),
            decreases s.len() - i,
        {
            let a = &self.associations[i];
            if a.tag_names.len() == 0 || !names_distinct(&a.tag_names) {
                assert(s[i as int] == a@);
                return false;
            }
            i = i + 1;
        }
        true
    }
}

} // verus!
